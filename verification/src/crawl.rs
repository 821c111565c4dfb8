//! A model of a whole crawl: visits taken in any order from a pool of pending
//! visits, each one a [`SeenPages::begin_visit`](crate::traversal::SeenPages::begin_visit)
//! decision, with the links of every expanded page added to the pool. Whatever
//! the order, a crawl that runs until no visit is pending has seen exactly the
//! pages within the depth limit of the start page.
use vstd::prelude::*;
use crate::traversal::{record_visit, recorded_depth, visit_step, VisitStep};

verus! {

/// Whether `page` lies within `k` links of `start`, where `links(m)` are the
/// titles that page `m` links to.
pub open spec fn within(
    links: spec_fn(Seq<char>) -> Seq<Seq<char>>,
    start: Seq<char>,
    page: Seq<char>,
    k: nat,
) -> bool
    decreases k,
{
    if k == 0 {
        page == start
    } else {
        within(links, start, page, (k - 1) as nat) || exists|m: Seq<char>|
            within(links, start, m, (k - 1) as nat) && #[trigger] links(m).contains(page)
    }
}

/// The visits of the links of `page`, each with `depth` links left.
pub open spec fn link_visits(
    links: spec_fn(Seq<char>) -> Seq<Seq<char>>,
    page: Seq<char>,
    depth: usize,
) -> Seq<(Seq<char>, usize)> {
    links(page).map_values(|l: Seq<char>| (l, depth))
}

/// One step of a crawl: the pending visit at index `i` runs; an expanded page
/// adds the visits of its links to the pending ones.
pub open spec fn crawl_step(
    links: spec_fn(Seq<char>) -> Seq<Seq<char>>,
    recorded: Map<Seq<char>, usize>,
    pending: Seq<(Seq<char>, usize)>,
    i: int,
) -> (Map<Seq<char>, usize>, Seq<(Seq<char>, usize)>) {
    let page = pending[i].0;
    let depth = pending[i].1;
    let rest = pending.remove(i);
    let after = record_visit(recorded, page, depth);
    match visit_step(recorded_depth(recorded, page), depth) {
        VisitStep::Expand { child_depth } => (after, rest + link_visits(links, page, child_depth)),
        _ => (after, rest),
    }
}

/// A crawl that runs the pending visits at the indices `choices`, in order
/// (an index out of range runs nothing).
pub open spec fn crawl(
    links: spec_fn(Seq<char>) -> Seq<Seq<char>>,
    recorded: Map<Seq<char>, usize>,
    pending: Seq<(Seq<char>, usize)>,
    choices: Seq<int>,
) -> (Map<Seq<char>, usize>, Seq<(Seq<char>, usize)>)
    decreases choices.len(),
{
    if choices.len() == 0 {
        (recorded, pending)
    } else if 0 <= choices[0] < pending.len() {
        let (r, p) = crawl_step(links, recorded, pending, choices[0]);
        crawl(links, r, p, choices.drop_first())
    } else {
        crawl(links, recorded, pending, choices.drop_first())
    }
}

/// `page` is recorded with at least `depth` links left, or a pending visit
/// will bring it there.
pub open spec fn covered(
    recorded: Map<Seq<char>, usize>,
    pending: Seq<(Seq<char>, usize)>,
    page: Seq<char>,
    depth: int,
) -> bool {
    (recorded.contains_key(page) && recorded[page] >= depth) || exists|j: int|
        0 <= j < pending.len() && (#[trigger] pending[j]).0 == page && pending[j].1 >= depth
}

/// What holds throughout a crawl from `start` with `limit` links.
pub open spec fn crawl_inv(
    links: spec_fn(Seq<char>) -> Seq<Seq<char>>,
    start: Seq<char>,
    limit: usize,
    recorded: Map<Seq<char>, usize>,
    pending: Seq<(Seq<char>, usize)>,
) -> bool {
    &&& covered(recorded, pending, start, limit as int)
    &&& forall|m: Seq<char>, l: Seq<char>|
        recorded.contains_key(m) && recorded[m] >= 1 && #[trigger] links(m).contains(l)
            ==> covered(recorded, pending, l, recorded[m] - 1)
    &&& forall|m: Seq<char>|
        #[trigger] recorded.contains_key(m) ==> recorded[m] <= limit && within(
            links,
            start,
            m,
            (limit - recorded[m]) as nat,
        )
    &&& forall|j: int|
        0 <= j < pending.len() ==> (#[trigger] pending[j]).1 <= limit && within(
            links,
            start,
            pending[j].0,
            (limit - pending[j].1) as nat,
        )
}

/// A step keeps every page covered that was covered before.
proof fn lemma_step_keeps_covered(
    links: spec_fn(Seq<char>) -> Seq<Seq<char>>,
    recorded: Map<Seq<char>, usize>,
    pending: Seq<(Seq<char>, usize)>,
    i: int,
    page: Seq<char>,
    depth: int,
)
    requires
        0 <= i < pending.len(),
        covered(recorded, pending, page, depth),
    ensures
        covered(
            crawl_step(links, recorded, pending, i).0,
            crawl_step(links, recorded, pending, i).1,
            page,
            depth,
        ),
{
    let (r2, p2) = crawl_step(links, recorded, pending, i);
    let q = pending[i].0;
    let c = pending[i].1;
    let rest = pending.remove(i);
    assert(r2 == record_visit(recorded, q, c));
    assert(forall|j: int| 0 <= j < rest.len() ==> p2[j] == rest[j]);
    if recorded.contains_key(page) && recorded[page] >= depth {
        assert(r2.contains_key(page) && r2[page] >= depth);
    } else {
        let j = choose|j: int|
            0 <= j < pending.len() && (#[trigger] pending[j]).0 == page && pending[j].1 >= depth;
        if j == i {
            assert(r2.contains_key(page) && r2[page] >= depth);
        } else if j < i {
            assert(rest[j] == pending[j]);
            assert(p2[j] == pending[j]);
        } else {
            assert(rest[j - 1] == pending[j]);
            assert(p2[j - 1] == pending[j]);
        }
    }
}

/// One link more reaches the links of a page.
proof fn lemma_within_link(
    links: spec_fn(Seq<char>) -> Seq<Seq<char>>,
    start: Seq<char>,
    m: Seq<char>,
    l: Seq<char>,
    k: nat,
)
    requires
        within(links, start, m, k),
        links(m).contains(l),
    ensures
        within(links, start, l, k + 1),
{
    assert(within(links, start, l, (k + 1) as nat) == (within(links, start, l, k) || exists|
        x: Seq<char>,
    | within(links, start, x, k) && #[trigger] links(x).contains(l)));
}

/// Every step of a crawl keeps the crawl invariant.
proof fn lemma_step_inv(
    links: spec_fn(Seq<char>) -> Seq<Seq<char>>,
    start: Seq<char>,
    limit: usize,
    recorded: Map<Seq<char>, usize>,
    pending: Seq<(Seq<char>, usize)>,
    i: int,
)
    requires
        0 <= i < pending.len(),
        crawl_inv(links, start, limit, recorded, pending),
    ensures
        crawl_inv(
            links,
            start,
            limit,
            crawl_step(links, recorded, pending, i).0,
            crawl_step(links, recorded, pending, i).1,
        ),
{
    let (r2, p2) = crawl_step(links, recorded, pending, i);
    let q = pending[i].0;
    let c = pending[i].1;
    let rest = pending.remove(i);
    let step = visit_step(recorded_depth(recorded, q), c);
    assert(r2 == record_visit(recorded, q, c));
    assert(forall|j: int| 0 <= j < rest.len() ==> p2[j] == rest[j]);
    assert(forall|j: int| 0 <= j < rest.len() ==> #[trigger] rest[j] == pending[if j < i { j } else { j + 1 }]);
    lemma_step_keeps_covered(links, recorded, pending, i, start, limit as int);
    assert forall|m: Seq<char>, l: Seq<char>|
        r2.contains_key(m) && r2[m] >= 1 && #[trigger] links(m).contains(l) implies covered(
        r2,
        p2,
        l,
        r2[m] - 1,
    ) by {
        if m == q && step != VisitStep::AlreadySeen {
            assert(r2[m] == c);
            assert(step == VisitStep::Expand { child_depth: (c - 1) as usize });
            let k = choose|k: int| 0 <= k < links(q).len() && #[trigger] links(q)[k] == l;
            let lv = link_visits(links, q, (c - 1) as usize);
            assert(p2 == rest + lv);
            assert(p2[rest.len() + k] == lv[k]);
            assert(p2[rest.len() + k] == (l, (c - 1) as usize));
        } else {
            assert(recorded.contains_key(m) && r2[m] == recorded[m]);
            lemma_step_keeps_covered(links, recorded, pending, i, l, recorded[m] - 1);
        }
    }
    assert forall|m: Seq<char>| #[trigger] r2.contains_key(m) implies r2[m] <= limit && within(
        links,
        start,
        m,
        (limit - r2[m]) as nat,
    ) by {
        if m == q && step != VisitStep::AlreadySeen {
            assert(r2[m] == c);
            assert(pending[i] == (q, c));
        } else {
            assert(recorded.contains_key(m) && r2[m] == recorded[m]);
        }
    }
    assert forall|j: int| 0 <= j < p2.len() implies (#[trigger] p2[j]).1 <= limit && within(
        links,
        start,
        p2[j].0,
        (limit - p2[j].1) as nat,
    ) by {
        if j < rest.len() {
            assert(p2[j] == pending[if j < i { j } else { j + 1 }]);
        } else {
            assert(step == VisitStep::Expand { child_depth: (c - 1) as usize });
            let lv = link_visits(links, q, (c - 1) as usize);
            assert(p2 == rest + lv);
            let k = j - rest.len();
            assert(p2[j] == lv[k]);
            assert(links(q)[k] == p2[j].0);
            assert(links(q).contains(p2[j].0));
            assert(pending[i] == (q, c));
            lemma_within_link(links, start, q, p2[j].0, (limit - c) as nat);
        }
    }
}

/// A whole crawl keeps the crawl invariant.
proof fn lemma_crawl_inv(
    links: spec_fn(Seq<char>) -> Seq<Seq<char>>,
    start: Seq<char>,
    limit: usize,
    recorded: Map<Seq<char>, usize>,
    pending: Seq<(Seq<char>, usize)>,
    choices: Seq<int>,
)
    requires
        crawl_inv(links, start, limit, recorded, pending),
    ensures
        crawl_inv(
            links,
            start,
            limit,
            crawl(links, recorded, pending, choices).0,
            crawl(links, recorded, pending, choices).1,
        ),
    decreases choices.len(),
{
    if choices.len() > 0 {
        if 0 <= choices[0] < pending.len() {
            let (r, p) = crawl_step(links, recorded, pending, choices[0]);
            lemma_step_inv(links, start, limit, recorded, pending, choices[0]);
            lemma_crawl_inv(links, start, limit, r, p, choices.drop_first());
        } else {
            lemma_crawl_inv(links, start, limit, recorded, pending, choices.drop_first());
        }
    }
}

/// Being within `k` links implies being within any more links.
pub proof fn lemma_within_more(
    links: spec_fn(Seq<char>) -> Seq<Seq<char>>,
    start: Seq<char>,
    page: Seq<char>,
    k: nat,
    more: nat,
)
    requires
        within(links, start, page, k),
        k <= more,
    ensures
        within(links, start, page, more),
    decreases more,
{
    if k < more {
        lemma_within_more(links, start, page, k, (more - 1) as nat);
    }
}

/// Once nothing is pending, every page within `k` links of the start is
/// recorded with at least `limit - k` links left.
proof fn lemma_done_records_within(
    links: spec_fn(Seq<char>) -> Seq<Seq<char>>,
    start: Seq<char>,
    limit: usize,
    recorded: Map<Seq<char>, usize>,
    pending: Seq<(Seq<char>, usize)>,
    page: Seq<char>,
    k: nat,
)
    requires
        crawl_inv(links, start, limit, recorded, pending),
        pending.len() == 0,
        k <= limit,
        within(links, start, page, k),
    ensures
        recorded.contains_key(page),
        recorded[page] >= limit - k,
    decreases k,
{
    if k > 0 {
        if within(links, start, page, (k - 1) as nat) {
            lemma_done_records_within(links, start, limit, recorded, pending, page, (k - 1) as nat);
        } else {
            let m = choose|m: Seq<char>|
                within(links, start, m, (k - 1) as nat) && #[trigger] links(m).contains(page);
            lemma_done_records_within(links, start, limit, recorded, pending, m, (k - 1) as nat);
            assert(covered(recorded, pending, page, recorded[m] - 1));
        }
    }
}

/// Whatever the order in which pending visits run, a crawl from `start` with
/// `limit` links left that runs until no visit is pending has seen exactly the
/// pages within `limit` links of `start`, each recorded with at least as many
/// links left as the shortest path to it leaves.
pub proof fn lemma_complete_crawl_sees_within(
    links: spec_fn(Seq<char>) -> Seq<Seq<char>>,
    start: Seq<char>,
    limit: usize,
    choices: Seq<int>,
)
    requires
        crawl(links, Map::empty(), seq![(start, limit)], choices).1.len() == 0,
    ensures
        crawl(links, Map::empty(), seq![(start, limit)], choices).0.dom() == Set::new(
            |page: Seq<char>| within(links, start, page, limit as nat),
        ),
        forall|page: Seq<char>, k: nat|
            k <= limit && #[trigger] within(links, start, page, k) ==> crawl(
                links,
                Map::empty(),
                seq![(start, limit)],
                choices,
            ).0[page] >= limit - k,
{
    let pending0 = seq![(start, limit)];
    let recorded0 = Map::<Seq<char>, usize>::empty();
    assert(pending0[0] == (start, limit));
    assert(crawl_inv(links, start, limit, recorded0, pending0));
    lemma_crawl_inv(links, start, limit, recorded0, pending0, choices);
    let (rec, pend) = crawl(links, recorded0, pending0, choices);
    assert forall|page: Seq<char>|
        rec.dom().contains(page) <==> within(links, start, page, limit as nat) by {
        if rec.contains_key(page) {
            lemma_within_more(links, start, page, (limit - rec[page]) as nat, limit as nat);
        }
        if within(links, start, page, limit as nat) {
            lemma_done_records_within(links, start, limit, rec, pend, page, limit as nat);
        }
    }
    assert(rec.dom() =~= Set::new(|page: Seq<char>| within(links, start, page, limit as nat)));
    assert forall|page: Seq<char>, k: nat|
        k <= limit && #[trigger] within(links, start, page, k) implies rec[page] >= limit - k by {
        lemma_done_records_within(links, start, limit, rec, pend, page, k);
    }
}

/// A page is expanded again only with more links left than at any earlier
/// visit: a visit with no more links left than the recorded ones does nothing.
pub proof fn lemma_reexpanded_only_deeper(
    recorded: Map<Seq<char>, usize>,
    page: Seq<char>,
    first: usize,
    later: usize,
)
    ensures
        visit_step(recorded_depth(record_visit(recorded, page, first), page), later)
            != VisitStep::AlreadySeen ==> later > first,
        record_visit(recorded, page, first).contains_key(page),
        record_visit(recorded, page, first)[page] >= first,
{
}

/// A visit expands a page exactly when it has more links left than any
/// earlier visit of the page, and its children get one link fewer.
pub proof fn lemma_expand_iff(recorded: Option<usize>, depth: usize)
    ensures
        (visit_step(recorded, depth) is Expand) <==> (depth > 0 && (recorded matches Some(r)
            ==> r < depth)),
        visit_step(recorded, depth) is Expand ==> visit_step(recorded, depth)->child_depth
            == depth - 1,
{
}

} // verus!
