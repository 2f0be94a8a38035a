//! The bidirectional search: its two halves take turns, and their paths
//! are joined where they meet.

use vstd::prelude::*;
use crate::graph::{pops, stepped, Graph, StepOutcome};

verus! {

/// The path from the start of a bidirectional search to its end: the start
/// half as it is, then the end half backwards without its last page (the
/// page where the halves met, which ends the start half already).
pub open spec fn joined(path_s: Seq<String>, path_e: Seq<String>) -> Seq<String> {
    if path_e.len() == 0 {
        path_s
    } else {
        path_s + path_e.reverse().drop_first()
    }
}

/// Joins the path of the start half (from the start page to the meeting
/// page) with that of the end half (from the end page to the meeting page).
pub fn join_paths(path_s: &Vec<String>, path_e: &Vec<String>) -> (full: Vec<String>)
    ensures
        full@ == joined(path_s@, path_e@),
{
    let mut full: Vec<String> = Vec::new();
    let mut i: usize = 0;
    while i < path_s.len()
        invariant
            i <= path_s.len(),
            full@ == path_s@.take(i as int),
        decreases path_s.len() - i,
    {
        full.push(path_s[i].clone());
        i = i + 1;
        assert(full@ =~= path_s@.take(i as int));
    }
    assert(path_s@.take(path_s@.len() as int) =~= path_s@);
    if path_e.len() > 0 {
        let ghost tail = path_e@.reverse().drop_first();
        let mut j: usize = path_e.len() - 1;
        while j > 0
            invariant
                j < path_e.len(),
                tail == path_e@.reverse().drop_first(),
                full@ == path_s@ + tail.take(path_e.len() - 1 - j),
            decreases j,
        {
            j = j - 1;
            full.push(path_e[j].clone());
            assert(tail[path_e.len() - 2 - j] == path_e@[j as int]);
            assert(full@ =~= path_s@ + tail.take(path_e.len() - 1 - j));
        }
        assert(tail.take(tail.len() as int) =~= tail);
    }
    full
}

/// Where both halves end at the meeting page, the joined path starts at the
/// start half's first page, ends at the end half's first page, passes the
/// meeting page where the start half ends, and has one page fewer than the
/// halves together.
pub proof fn lemma_joined_path(path_s: Seq<String>, path_e: Seq<String>)
    requires
        path_s.len() > 0,
        path_e.len() > 0,
        path_s.last() == path_e.last(),
    ensures
        ({
            let full = joined(path_s, path_e);
            &&& full.len() == path_s.len() + path_e.len() - 1
            &&& full[0] == path_s[0]
            &&& full.last() == path_e[0]
            &&& full[path_s.len() - 1] == path_s.last()
            &&& forall|i: int| 0 <= i < path_s.len() ==> #[trigger] full[i] == path_s[i]
            &&& forall|i: int| 0 <= i < path_e.len() ==> #[trigger] full[path_s.len() - 1 + i] == path_e[path_e.len() - 1 - i]
        }),
{
    let full = joined(path_s, path_e);
    let n = path_s.len();
    let m = path_e.len();
    assert forall|i: int| 0 <= i < m implies #[trigger] full[n - 1 + i] == path_e[m - 1 - i] by {
        if i > 0 {
            assert(full[n - 1 + i] == path_e.reverse().drop_first()[i - 1]);
        }
    }
    assert(full.last() == full[n - 1 + (m - 1)]);
}

/// One of the two halves of a bidirectional search.
#[derive(Debug, PartialEq, Eq, Clone, Copy)]
pub enum Side {
    /// The half that searches from the start page.
    Start,
    /// The half that searches from the end page.
    End,
}

/// A bidirectional search: a search from the start page and one from the
/// end page, each looking for any page that the other has found.
pub struct BiSearch {
    /// The half from the start page.
    pub start: Graph,
    /// The half from the end page.
    pub end: Graph,
    /// Whether the start half takes the next step.
    pub start_turn: bool,
}

impl BiSearch {
    /// Both halves are well formed.
    pub open spec fn wf(self) -> bool {
        self.start.wf() && self.end.wf()
    }

    /// A search whose start half steps first.
    pub fn new(start: Graph, end: Graph) -> (s: BiSearch)
        ensures
            s == (BiSearch { start, end, start_turn: true }),
    {
        BiSearch { start, end, start_turn: true }
    }

    /// Lets the half whose turn it is take one step towards the other, and
    /// hands the turn over. Where the step finds a page of the other half,
    /// that page becomes the destination of both halves.
    pub fn step(&mut self) -> (r: (Side, StepOutcome))
        requires
            old(self).wf(),
            old(self).start_turn ==> old(self).start.step + pops(old(self).start.queued(), old(self).end.nodes@.dom()) <= u32::MAX,
            !old(self).start_turn ==> old(self).end.step + pops(old(self).end.queued(), old(self).start.nodes@.dom()) <= u32::MAX,
        ensures
            final(self).wf(),
            final(self).start_turn == !old(self).start_turn,
            old(self).start_turn ==> {
                &&& r.0 == Side::Start
                &&& stepped(old(self).start, final(self).start, old(self).end.nodes@.dom(), r.1)
                &&& final(self).end.nodes == old(self).end.nodes
                &&& final(self).end.queue == old(self).end.queue
                &&& final(self).end.hash_queue == old(self).end.hash_queue
                &&& final(self).end.step == old(self).end.step
                &&& final(self).end.depth == old(self).end.depth
                &&& final(self).end.end_hash == old(self).end.end_hash
            },
            !old(self).start_turn ==> {
                &&& r.0 == Side::End
                &&& stepped(old(self).end, final(self).end, old(self).start.nodes@.dom(), r.1)
                &&& final(self).start.nodes == old(self).start.nodes
                &&& final(self).start.queue == old(self).start.queue
                &&& final(self).start.hash_queue == old(self).start.hash_queue
                &&& final(self).start.step == old(self).start.step
                &&& final(self).start.depth == old(self).start.depth
                &&& final(self).start.end_hash == old(self).start.end_hash
            },
            r.1 is Found ==> {
                &&& final(self).start.destination matches Some(d)
                &&& final(self).end.destination == Some(d)
                &&& final(self).start.nodes@.contains_key(d)
                &&& final(self).end.nodes@.contains_key(d)
            },
            !(r.1 is Found) ==> final(self).start.destination == old(self).start.destination
                && final(self).end.destination == old(self).end.destination,
    {
        if self.start_turn {
            let outcome = self.start.step_bidir(&self.end);
            if let StepOutcome::Found = outcome {
                self.end.destination = self.start.destination;
            }
            self.start_turn = false;
            (Side::Start, outcome)
        } else {
            let outcome = self.end.step_bidir(&self.start);
            if let StepOutcome::Found = outcome {
                self.start.destination = self.end.destination;
            }
            self.start_turn = true;
            (Side::End, outcome)
        }
    }
}

} // verus!
