//! Wires, and the ordered lists in which the engine keeps them.

use crate::component::ComponentKind;
use vstd::prelude::*;

verus! {

/// A wire from one output pin of the parent to one input pin of the child.
/// It carries the kinds of both components along.
#[derive(Clone, Copy, Debug, PartialEq, Eq, Hash, Structural)]
pub struct Edge {
    /// The number of the component that drives the wire.
    pub parent: usize,
    /// The number of the component that the wire leads to.
    pub child: usize,
    pub parent_kind: ComponentKind,
    pub child_kind: ComponentKind,
    /// The output pin of the parent at which the wire starts.
    pub parent_output: usize,
    /// The input pin of the child at which the wire ends.
    pub child_input: usize,
}

impl Edge {
    /// The component at the far end of the wire: the parent, seen from the
    /// child (`inbound`), or the child, seen from the parent.
    pub open spec fn far_end(self, inbound: bool) -> usize {
        if inbound {
            self.parent
        } else {
            self.child
        }
    }

    /// The order of a list of wires: by the component at the far end, then by
    /// the parent's output pin, then by the child's input pin.
    pub open spec fn precedes(self, other: Edge, inbound: bool) -> bool {
        ||| self.far_end(inbound) < other.far_end(inbound)
        ||| self.far_end(inbound) == other.far_end(inbound) && self.parent_output
            < other.parent_output
        ||| self.far_end(inbound) == other.far_end(inbound) && self.parent_output
            == other.parent_output && self.child_input < other.child_input
    }

    /// Whether both wires are in the same place of the order.
    pub open spec fn same_place(self, other: Edge, inbound: bool) -> bool {
        &&& self.far_end(inbound) == other.far_end(inbound)
        &&& self.parent_output == other.parent_output
        &&& self.child_input == other.child_input
    }

    fn is_before(&self, other: &Edge, inbound: bool) -> (b: bool)
        ensures
            b == self.precedes(*other, inbound),
    {
        let (mine, theirs) = if inbound {
            (self.parent, other.parent)
        } else {
            (self.child, other.child)
        };
        mine < theirs || (mine == theirs && (self.parent_output < other.parent_output || (
        self.parent_output == other.parent_output && self.child_input < other.child_input)))
    }
}

/// Whether the list is in strictly rising order.
pub open spec fn ordered(list: Seq<Edge>, inbound: bool) -> bool {
    forall|i: int, j: int| 0 <= i < j < list.len() ==> list[i].precedes(list[j], inbound)
}

/// Whether some wire of the list is in the same place of the order as `edge`.
pub open spec fn holds_place(list: Seq<Edge>, edge: Edge, inbound: bool) -> bool {
    exists|i: int| 0 <= i < list.len() && #[trigger] list[i].same_place(edge, inbound)
}

/// The list with `edge` in its place of the order; the list itself where it
/// holds a wire in that place already. The second result says whether the
/// wire was put in.
pub fn with_edge(list: &Vec<Edge>, edge: Edge, inbound: bool) -> (r: (Vec<Edge>, bool))
    requires
        ordered(list@, inbound),
    ensures
        ordered(r.0@, inbound),
        r.1 == !holds_place(list@, edge, inbound),
        !r.1 ==> r.0@ == list@,
        r.1 ==> exists|at: int| 0 <= at <= list.len() && r.0@ == #[trigger] list@.insert(at, edge),
{
    let mut out: Vec<Edge> = Vec::new();
    let mut i: usize = 0;
    while i < list.len() && list[i].is_before(&edge, inbound)
        invariant
            i <= list.len(),
            out@ == list@.subrange(0, i as int),
            forall|j: int| 0 <= j < i ==> list[j].precedes(edge, inbound),
        decreases list.len() - i,
    {
        out.push(list[i]);
        assert(out@ =~= list@.subrange(0, i + 1));
        i += 1;
    }
    let at = i;
    let taken = i < list.len() && !edge.is_before(&list[i], inbound);
    proof {
        if taken {
            assert(list[at as int].same_place(edge, inbound));
        } else {
            assert forall|j: int| 0 <= j < list.len() implies !#[trigger] list[j].same_place(
                edge,
                inbound,
            ) by {
                if j > at {
                    assert(list[at as int].precedes(list[j], inbound));
                }
            }
        }
    }
    if !taken {
        out.push(edge);
    }
    while i < list.len()
        invariant
            at <= i <= list.len(),
            taken ==> out@ == list@.subrange(0, i as int),
            !taken ==> out@ == list@.subrange(0, at as int).push(edge) + list@.subrange(
                at as int,
                i as int,
            ),
        decreases list.len() - i,
    {
        out.push(list[i]);
        proof {
            if taken {
                assert(out@ =~= list@.subrange(0, i + 1));
            } else {
                assert(out@ =~= list@.subrange(0, at as int).push(edge) + list@.subrange(
                    at as int,
                    i + 1,
                ));
            }
        }
        i += 1;
    }
    proof {
        if taken {
            assert(out@ =~= list@);
        } else {
            assert(out@ =~= list@.insert(at as int, edge));
            assert forall|j: int, k: int| 0 <= j < k < out.len() implies out[j].precedes(
                out[k],
                inbound,
            ) by {
                if k < at {
                } else if k == at {
                } else if j == at {
                    if k - 1 > at {
                        assert(list[at as int].precedes(list[k - 1], inbound));
                    }
                } else if j < at {
                    assert(list[j].precedes(list[k - 1], inbound));
                } else {
                    assert(list[j - 1].precedes(list[k - 1], inbound));
                }
            }
        }
    }
    (out, !taken)
}

/// After a wire was put in, the list holds what it held before and the wire.
pub proof fn lemma_insert_contains(list: Seq<Edge>, at: int, edge: Edge, other: Edge)
    requires
        0 <= at <= list.len(),
    ensures
        list.insert(at, edge).contains(other) <==> (other == edge || list.contains(other)),
{
    let longer = list.insert(at, edge);
    if longer.contains(other) {
        let i = choose|i: int| 0 <= i < longer.len() && longer[i] == other;
        if i < at {
            assert(list[i] == other);
        } else if i > at {
            assert(list[i - 1] == other);
        }
    }
    if other == edge {
        assert(longer[at] == other);
    }
    if list.contains(other) {
        let i = choose|i: int| 0 <= i < list.len() && list[i] == other;
        if i < at {
            assert(longer[i] == other);
        } else {
            assert(longer[i + 1] == other);
        }
    }
}

} // verus!
