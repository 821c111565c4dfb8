use std::hash::{DefaultHasher, Hash, Hasher};
use async_examples::credits::{costarring, star};
use async_examples::links::{page_links_from_response, page_links_url, ErrorResponse, Link, ParseResponse, Response};
use async_examples::mock::{decimal_string, handle_query, link_title_string, page_id, parse, parse_answer, Format, Prop, Query, Reply};
use async_examples::order::{bytes_lt, sort_titles, title_lt};
use async_examples::recursive::{recur, spawn, spawn_recur, Recur};
use async_examples::throttle::{Throttle, SPACING};
use async_examples::traversal::{subtask_error, SeenPages, VisitStep};

#[test]
fn star_names_by_billing() {
    assert_eq!(star(0), "Bonnie");
    assert_eq!(star(1), "Clyde");
    assert_eq!(star(2), "Mephistopheles");
    assert_eq!(star(3), "some minor character");
    assert_eq!(star(usize::MAX), "some minor character");
}

#[test]
fn costarring_line() {
    assert_eq!(costarring("Bonnie", "Clyde"), "Bonnie and Clyde");
    assert_eq!(costarring("", ""), " and ");
}

#[test]
fn recur_spawns_one_level_down() {
    assert_eq!(recur(3), Recur { depth: 3 });
    assert_eq!(recur(3).run(), Some(Recur { depth: 2 }));
    assert_eq!(recur(1).run(), Some(Recur { depth: 0 }));
    assert_eq!(recur(0).run(), None);
    assert_eq!(spawn_recur(5), Recur { depth: 5 });
    spawn(Recur { depth: 7 });
}

#[test]
fn first_turn_is_immediate_then_spaced() {
    let mut throttle = Throttle::new();
    assert!(throttle.can_take_turn(1_000));
    assert_eq!(throttle.take_turn(1_000), 1_000);
    // asked again at once: must wait one spacing
    assert_eq!(throttle.take_turn(1_000), 1_000 + SPACING);
    // asked again at once: one more spacing
    assert_eq!(throttle.take_turn(1_001), 1_000 + 2 * SPACING);
}

#[test]
fn idle_throttle_does_not_delay() {
    let mut throttle = Throttle::new();
    assert_eq!(throttle.take_turn(0), 0);
    // long after the next free turn: the free turn is already past
    let release = throttle.take_turn(10 * SPACING);
    assert_eq!(release, SPACING);
    assert!(release <= 10 * SPACING);
    // the following turn comes one spacing after the time it was asked for
    assert_eq!(throttle.take_turn(10 * SPACING), 11 * SPACING);
}

#[test]
fn throttle_starting_at_creation_time() {
    let mut throttle = Throttle::starting_at(500);
    assert_eq!(throttle.take_turn(700), 500);
    assert_eq!(throttle.take_turn(700), 700 + SPACING);
}

#[test]
fn turns_over_a_burst_are_spaced() {
    let mut throttle = Throttle::new();
    let mut releases = Vec::new();
    for k in 0..20u64 {
        releases.push(throttle.take_turn(k * 7));
    }
    for i in 0..releases.len() {
        for j in (i + 1)..releases.len() {
            assert!(releases[j] >= releases[i] + (j - i) as u64 * SPACING);
        }
    }
}

#[test]
fn throttle_refuses_overflow() {
    let throttle = Throttle::starting_at(u64::MAX - SPACING + 1);
    assert!(!throttle.can_take_turn(0));
    let throttle = Throttle::starting_at(u64::MAX - SPACING);
    assert!(throttle.can_take_turn(0));
    assert!(!Throttle::new().can_take_turn(u64::MAX));
}

#[test]
fn visits_expand_again_only_with_more_links_left() {
    let mut seen = SeenPages::new();
    assert_eq!(seen.begin_visit("Rust".to_string(), 2), VisitStep::Expand { child_depth: 1 });
    assert_eq!(seen.begin_visit("Rust".to_string(), 2), VisitStep::AlreadySeen);
    assert_eq!(seen.begin_visit("Rust".to_string(), 0), VisitStep::AlreadySeen);
    assert_eq!(seen.begin_visit("Go".to_string(), 0), VisitStep::Leaf);
    assert_eq!(seen.begin_visit("Go".to_string(), 0), VisitStep::AlreadySeen);
    // reached again by a shorter path: expanded with the links that are left
    assert_eq!(seen.begin_visit("Go".to_string(), 5), VisitStep::Expand { child_depth: 4 });
    assert_eq!(seen.begin_visit("Go".to_string(), 3), VisitStep::AlreadySeen);
    assert_eq!(seen.into_sorted(), vec!["Go".to_string(), "Rust".to_string()]);
}

/// Runs a crawl over a small link graph, always taking the most recently
/// added pending visit first (the deepest path first).
fn crawl_deepest_first(graph: &[(&str, &[&str])], start: &str, depth: usize) -> Vec<String> {
    let mut seen = SeenPages::new();
    let mut pending = vec![(start.to_string(), depth)];
    while let Some((page, d)) = pending.pop() {
        if let VisitStep::Expand { child_depth } = seen.begin_visit(page.clone(), d) {
            let links = graph.iter().find(|(p, _)| *p == page).map(|(_, l)| *l).unwrap_or(&[]);
            for l in links {
                pending.push((l.to_string(), child_depth));
            }
        }
    }
    seen.into_sorted()
}

#[test]
fn crawl_sees_every_page_within_depth_whatever_the_order() {
    // S links to B and A; A links to B; B links to C. C is two links from S,
    // but the path S -> A -> B is explored first and reaches B with no links left.
    let graph: &[(&str, &[&str])] = &[("S", &["B", "A"]), ("A", &["B"]), ("B", &["C"]), ("C", &["D"])];
    assert_eq!(crawl_deepest_first(graph, "S", 2), vec!["A", "B", "C", "S"]);
    assert_eq!(crawl_deepest_first(graph, "S", 1), vec!["A", "B", "S"]);
    assert_eq!(crawl_deepest_first(graph, "S", 0), vec!["S"]);
    assert_eq!(crawl_deepest_first(graph, "S", 3), vec!["A", "B", "C", "D", "S"]);
}

#[test]
fn seen_pages_listed_in_string_order() {
    let mut seen = SeenPages::new();
    for t in ["b", "a", "B", "ab", "é", "z", "a", "", "Zebra", "ab"] {
        seen.begin_visit(t.to_string(), 1);
    }
    let sorted = seen.into_sorted();
    let mut expected: Vec<String> = ["b", "a", "B", "ab", "é", "z", "", "Zebra"]
        .iter()
        .map(|s| s.to_string())
        .collect();
    expected.sort();
    assert_eq!(sorted, expected);
}

#[test]
fn empty_traversal_lists_nothing() {
    assert!(SeenPages::new().into_sorted().is_empty());
}

#[test]
fn sorting_many_titles() {
    let titles: Vec<String> = (0..200u32).map(|i| format!("Page {}", (i * 7919) % 1009)).collect();
    let mut distinct = titles.clone();
    distinct.sort();
    distinct.dedup();
    let sorted = sort_titles(&distinct.iter().rev().cloned().collect());
    assert_eq!(sorted, distinct);
}

#[test]
fn byte_order_comparisons() {
    assert!(bytes_lt(b"", b"a"));
    assert!(!bytes_lt(b"a", b""));
    assert!(!bytes_lt(b"abc", b"abc"));
    assert!(bytes_lt(b"abc", b"abd"));
    assert!(bytes_lt(b"ab", b"abc"));
    assert!(title_lt(&"Z".to_string(), &"a".to_string()));
    assert!(title_lt(&"z".to_string(), &"é".to_string()));
    assert!(!title_lt(&"é".to_string(), &"é".to_string()));
}

#[test]
fn subtask_errors_are_recorded() {
    assert_eq!(subtask_error::<String>(Ok(Ok(()))), None);
    assert_eq!(subtask_error::<String>(Ok(Err("visit".to_string()))), Some("visit".to_string()));
    assert_eq!(subtask_error::<String>(Err("join".to_string())), Some("join".to_string()));
}

#[test]
fn query_url_for_title() {
    assert_eq!(
        page_links_url("Rust (programming language)"),
        "http://en.wikipedia.org/w/api.php?action=parse&format=json&prop=links&page=Rust (programming language)"
    );
}

fn link(ns: u32, exists: bool, title: &str) -> Link {
    Link { ns, exists: if exists { Some(String::new()) } else { None }, title: title.to_string() }
}

#[test]
fn only_existing_articles_are_followed() {
    let response = Response::Parse(ParseResponse {
        links: vec![
            link(0, true, "Ferris"),
            link(1, true, "Talk:Rust"),
            link(0, false, "Missing page"),
            link(14, false, "Category:Gone"),
            link(0, true, "Cargo"),
        ],
    });
    assert_eq!(page_links_from_response(response), Ok(vec!["Ferris".to_string(), "Cargo".to_string()]));
    assert_eq!(page_links_from_response(Response::Parse(ParseResponse { links: vec![] })), Ok(vec![]));
}

#[test]
fn error_answer_yields_its_message() {
    let response = Response::Error(ErrorResponse { info: "The page you specified doesn't exist.".to_string() });
    assert_eq!(page_links_from_response(response), Err("The page you specified doesn't exist.".to_string()));
}

#[test]
fn decimal_notation() {
    assert_eq!(decimal_string(0), "0");
    assert_eq!(decimal_string(7), "7");
    assert_eq!(decimal_string(10), "10");
    assert_eq!(decimal_string(1009), "1009");
    assert_eq!(decimal_string(u64::MAX), u64::MAX.to_string());
    assert_eq!(link_title_string("Page", 3), "Page-3");
}

#[test]
fn page_id_is_std_hash_of_title() {
    for page in ["Rust (programming language)", "", "é☃", "Rust (programming language)-3"] {
        let mut s = DefaultHasher::new();
        page.hash(&mut s);
        assert_eq!(page_id(page), s.finish());
    }
    assert_ne!(page_id("a"), page_id("b"));
}

#[test]
fn mock_injects_not_found() {
    match parse("Rust (programming language)-1-2".to_string(), Format::Json, Prop::Links) {
        Reply::Plain { status, body } => {
            assert_eq!(status, 404);
            assert_eq!(body, "Injected NOT_FOUND, for testing");
        }
        Reply::Json(_) => panic!("expected the injected failure"),
    }
}

#[test]
fn mock_injects_malformed_answer() {
    match parse("Rust (programming language)-2-1".to_string(), Format::Json, Prop::Links) {
        Reply::Plain { status, body } => {
            assert_eq!(status, 200);
            assert_eq!(body, r#"{ "zloop": "murf" }"#);
        }
        Reply::Json(_) => panic!("expected the malformed body"),
    }
}

#[test]
fn mock_answers_five_links() {
    let page = "Rust (programming language)".to_string();
    let query = Query::Parse { format: Format::Json, prop: Prop::Links, page: page.clone() };
    match handle_query(query) {
        Reply::Json(answer) => {
            assert_eq!(answer.parse.title, page);
            assert_eq!(answer.parse.pageid, page_id(&page));
            let titles: Vec<&str> = answer.parse.links.iter().map(|l| l.title.as_str()).collect();
            assert_eq!(
                titles,
                vec![
                    "Rust (programming language)-1",
                    "Rust (programming language)-2",
                    "Rust (programming language)-3",
                    "Rust (programming language)-4",
                    "Rust (programming language)-5",
                ]
            );
            for l in &answer.parse.links {
                assert_eq!(l.ns, 0);
                assert_eq!(l.exists.as_deref(), Some(""));
            }
        }
        Reply::Plain { .. } => panic!("expected an answer"),
    }
}

#[test]
fn crawler_follows_every_mock_link() {
    let answer = parse_answer("Start".to_string(), 42);
    assert_eq!(answer.parse.pageid, 42);
    let read = Response::Parse(ParseResponse {
        links: answer
            .parse
            .links
            .iter()
            .map(|l| Link { ns: l.ns as u32, exists: l.exists.clone(), title: l.title.clone() })
            .collect(),
    });
    assert_eq!(
        page_links_from_response(read).unwrap(),
        vec!["Start-1", "Start-2", "Start-3", "Start-4", "Start-5"]
    );
}
