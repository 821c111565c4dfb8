//! The decisions of the Wikipedia crawler: which pages to expand, which
//! subtask results are errors, and the order in which visited pages are listed.
use vstd::prelude::*;
use vstd::hash_map::StringHashMap;
use crate::order::{ascending, sort_titles, titles_of};

verus! {

/// What a visit of a page with a given number of links left does next.
#[derive(PartialEq, Eq, Structural, Debug, Clone, Copy)]
pub enum VisitStep {
    /// The page was already expanded with at least as many links left:
    /// nothing more to do.
    AlreadySeen,
    /// The page is new but lies at the depth limit: it is recorded, not expanded.
    Leaf,
    /// Fetch the page's links and visit each with `child_depth` links left.
    Expand { child_depth: usize },
}

/// The most links left with which `page` was recorded, if it was.
pub open spec fn recorded_depth(recorded: Map<Seq<char>, usize>, page: Seq<char>) -> Option<
    usize,
> {
    if recorded.contains_key(page) {
        Some(recorded[page])
    } else {
        None
    }
}

/// The step that a visit with `depth` links left takes, given the most links
/// left with which the page was recorded before, if it was: nothing when that
/// was at least as many; otherwise the page is recorded and, when links are
/// left, expanded.
pub open spec fn visit_step(recorded: Option<usize>, depth: usize) -> VisitStep {
    if recorded matches Some(r) && r >= depth {
        VisitStep::AlreadySeen
    } else if depth == 0 {
        VisitStep::Leaf
    } else {
        VisitStep::Expand { child_depth: (depth - 1) as usize }
    }
}

/// The record after a visit of `page` with `depth` links left: the page with
/// the most links left with which it was visited.
pub open spec fn record_visit(recorded: Map<Seq<char>, usize>, page: Seq<char>, depth: usize) -> Map<
    Seq<char>,
    usize,
> {
    if recorded.contains_key(page) && recorded[page] >= depth {
        recorded
    } else {
        recorded.insert(page, depth)
    }
}

/// The pages that a traversal has visited, each with the most links that
/// were left when it was visited.
pub struct SeenPages {
    depths: StringHashMap<usize>,
    titles: Vec<String>,
}

impl View for SeenPages {
    type V = Map<Seq<char>, usize>;

    closed spec fn view(&self) -> Map<Seq<char>, usize> {
        self.depths@
    }
}

impl SeenPages {
    /// The list of titles holds each recorded title exactly once.
    pub closed spec fn wf(&self) -> bool {
        &&& titles_of(self.titles@).no_duplicates()
        &&& titles_of(self.titles@).to_set() == self.depths@.dom()
    }

    /// No page seen yet.
    pub fn new() -> (seen: Self)
        ensures
            seen.wf(),
            seen@ == Map::<Seq<char>, usize>::empty(),
    {
        let seen = SeenPages { depths: StringHashMap::new(), titles: Vec::new() };
        assert(titles_of(seen.titles@) =~= Seq::<Seq<char>>::empty());
        assert(titles_of(seen.titles@).to_set() =~= Set::<Seq<char>>::empty());
        seen
    }

    /// Starts the visit of `page` with `depth` links still to follow:
    /// records it and says what to do next.
    pub fn begin_visit(&mut self, page: String, depth: usize) -> (step: VisitStep)
        requires
            old(self).wf(),
        ensures
            final(self).wf(),
            final(self)@ == record_visit(old(self)@, page@, depth),
            step == visit_step(recorded_depth(old(self)@, page@), depth),
    {
        broadcast use vstd::seq_lib::group_seq_properties;

        let recorded = match self.depths.get(page.as_str()) {
            Some(r) => Some(*r),
            None => None,
        };
        if let Some(r) = recorded {
            if r >= depth {
                return VisitStep::AlreadySeen;
            }
        }
        let ghost old_titles = titles_of(self.titles@);
        let ghost p = page@;
        self.depths.insert(page.clone(), depth);
        if recorded.is_none() {
            self.titles.push(page);
            proof {
                let nt = titles_of(self.titles@);
                assert(nt =~= old_titles.push(p));
                old_titles.lemma_push_to_set_commute(p);
                assert(!old_titles.contains(p)) by {
                    assert(!old_titles.to_set().contains(p));
                }
                assert forall|i: int, j: int| 0 <= i < nt.len() && 0 <= j < nt.len() && i != j
                    implies nt[i] != nt[j] by {
                    if i == nt.len() - 1 {
                        assert(old_titles[j] == nt[j]);
                    } else if j == nt.len() - 1 {
                        assert(old_titles[i] == nt[i]);
                    }
                }
                assert(nt.to_set() =~= self.depths@.dom());
            }
        } else {
            assert(self.depths@.dom() =~= old(self).depths@.dom());
        }
        if depth == 0 {
            VisitStep::Leaf
        } else {
            VisitStep::Expand { child_depth: depth - 1 }
        }
    }

    /// The seen titles in ascending order (`String`'s order), each once.
    pub fn into_sorted(self) -> (sorted: Vec<String>)
        requires
            self.wf(),
        ensures
            ascending(titles_of(sorted@)),
            titles_of(sorted@).to_set() == self@.dom(),
    {
        broadcast use vstd::seq_lib::group_to_multiset_ensures;

        let sorted = sort_titles(&self.titles);
        proof {
            let s = titles_of(sorted@);
            let t = titles_of(self.titles@);
            assert forall|x: Seq<char>| s.to_set().contains(x) <==> t.to_set().contains(x) by {
                assert(s.contains(x) <==> s.to_multiset().count(x) > 0);
                assert(t.contains(x) <==> t.to_multiset().count(x) > 0);
            }
            assert(s.to_set() =~= t.to_set());
        }
        sorted
    }
}

/// The error that a finished subtask leaves behind, if any: the error of a
/// subtask that could not be joined, or the error that a visit returned.
pub open spec fn outcome_error<E>(outcome: Result<Result<(), E>, E>) -> Option<E> {
    match outcome {
        Err(e) => Some(e),
        Ok(Err(e)) => Some(e),
        Ok(Ok(())) => None,
    }
}

/// The error to record for a finished subtask, if any.
pub fn subtask_error<E>(outcome: Result<Result<(), E>, E>) -> (error: Option<E>)
    ensures
        error == outcome_error(outcome),
{
    match outcome {
        Err(join_error) => Some(join_error),
        Ok(Err(visit_error)) => Some(visit_error),
        Ok(Ok(())) => None,
    }
}

} // verus!
