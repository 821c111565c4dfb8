# async_examples

Small asynchronous Rust programs (credit rolls built from futures, an
almost-recursive spawner, a mock of the Wikipedia "parse" API, and a throttled
Wikipedia link crawler) whose decisions live in a library verified with Verus.

- `src/` — the verified library:
  - `credits`: star names and the co-star credit line;
  - `recursive`: the `recur` task, `spawn_recur` and `spawn`;
  - `links`: the link query's address and the titles the crawler follows;
  - `mock`: the mock API's replies (injected failures, five links per page);
  - `throttle`: the generic cell rate algorithm that spaces requests;
  - `traversal`: which pages a visit expands (a page is expanded again when it
    is reached with more links left), which subtask results are errors, and
    the sorted list of visited pages;
  - `crawl`: a model of a whole crawl in any order, and the law that a crawl
    that runs to the end sees exactly the pages within the depth limit;
  - `order`: the byte order on titles and a verified merge sort.
- `app/` — the programs themselves: HTTP, JSON, timers, tasks and printing.
- `tests/` — tests of the library.
