use std::rc::Rc;
use vstd::prelude::*;
use crate::geometry::Move;

verus! {

/// One node of a move log; nodes are shared between logs and never change.
pub struct SinglyLinkedListNode {
    pub v: Move,
    pub next: Option<Rc<SinglyLinkedListNode>>,
}

/// A persistent list of moves, newest first, whose tails are shared.
pub struct SinglyLinkedList {
    pub head: Option<Rc<SinglyLinkedListNode>>,
}

/// The moves held from `n` on, newest first.
pub open spec fn node_moves(n: Option<Rc<SinglyLinkedListNode>>) -> Seq<Move>
    decreases n,
{
    match n {
        None => Seq::empty(),
        Some(r) => seq![r.v] + node_moves(r.next),
    }
}

impl View for SinglyLinkedList {
    type V = Seq<Move>;

    open spec fn view(&self) -> Seq<Move> {
        node_moves(self.head)
    }
}

impl SinglyLinkedList {
    /// The empty log.
    pub fn nil() -> (r: SinglyLinkedList)
        ensures
            r@ == Seq::<Move>::empty(),
    {
        SinglyLinkedList { head: None }
    }

    /// A new log with `data` in front of this one; this log's nodes are shared.
    pub fn cons(&self, data: Move) -> (r: SinglyLinkedList)
        ensures
            r@ == seq![data] + self@,
    {
        let next = match &self.head {
            None => None,
            Some(p) => Some(Rc::clone(p)),
        };
        SinglyLinkedList { head: Some(Rc::new(SinglyLinkedListNode { v: data, next })) }
    }

    /// A second handle on the same log; no node is copied.
    pub fn share(&self) -> (r: SinglyLinkedList)
        ensures
            r@ == self@,
    {
        match &self.head {
            None => SinglyLinkedList { head: None },
            Some(p) => SinglyLinkedList { head: Some(Rc::clone(p)) },
        }
    }

    /// The moves of the log, newest first.
    pub fn to_vec(&self) -> (res: Vec<Move>)
        ensures
            res@ == self@,
    {
        let mut res: Vec<Move> = Vec::new();
        let mut head = &self.head;
        loop
            invariant
                res@ + node_moves(*head) == self@,
            decreases node_moves(*head).len(),
        {
            match head {
                None => {
                    assert(res@ =~= self@);
                    return res;
                },
                Some(p) => {
                    res.push(p.v);
                    assert(res@ + node_moves(p.next) =~= self@);
                    head = &p.next;
                },
            }
        }
    }
}

/// Materialising a log built by prepending `m1`, `m2`, `m3` to the empty log
/// and reversing it gives back `[m1, m2, m3]`: the log keeps the order of play.
pub proof fn lemma_log_round_trip(m1: Move, m2: Move, m3: Move)
    ensures
        (seq![m3] + (seq![m2] + (seq![m1] + Seq::<Move>::empty()))).reverse() == seq![m1, m2, m3],
{
    assert((seq![m3] + (seq![m2] + (seq![m1] + Seq::<Move>::empty()))).reverse() =~= seq![m1, m2, m3]);
}

} // verus!
