//! What each kind of component puts out for given inputs.

use crate::component::ComponentKind;
use vstd::prelude::*;

verus! {

/// Whether every input is off. True of no inputs at all.
pub open spec fn all_off(inputs: Seq<bool>) -> bool {
    forall|i: int| 0 <= i < inputs.len() ==> !inputs[i]
}

/// Whether every input is on. True of no inputs at all.
pub open spec fn all_on(inputs: Seq<bool>) -> bool {
    forall|i: int| 0 <= i < inputs.len() ==> inputs[i]
}

/// One for an input that is on, zero for one that is off.
pub open spec fn bit(input: bool) -> int {
    if input {
        1
    } else {
        0
    }
}

/// The outputs of a component of the given kind whose input pins carry
/// `inputs`.
///
/// - `Not`: on exactly when every input is off.
/// - `And`: on exactly when every input is on.
/// - the adders: the inputs that are on are counted; the first output is the
///   low bit of the count, the second its high bit.
/// - `Delay`: the inputs as they are; a delay shows them one tick late.
pub open spec fn gate_outputs(kind: ComponentKind, inputs: Seq<bool>) -> Seq<bool> {
    match kind {
        ComponentKind::Not => seq![all_off(inputs)],
        ComponentKind::And(_) => seq![all_on(inputs)],
        ComponentKind::HalfAdder => {
            let sum = bit(inputs[0]) + bit(inputs[1]);
            seq![sum % 2 == 1, sum >= 2]
        },
        ComponentKind::FullAdder => {
            let sum = bit(inputs[0]) + bit(inputs[1]) + bit(inputs[2]);
            seq![sum % 2 == 1, sum >= 2]
        },
        ComponentKind::Delay => inputs,
    }
}

/// There are as many outputs as the kind has output pins.
pub proof fn lemma_gate_outputs_len(kind: ComponentKind, inputs: Seq<bool>)
    requires
        inputs.len() == kind.inputs(),
    ensures
        gate_outputs(kind, inputs).len() == kind.outputs(),
{
}

fn every_input_is(inputs: &Vec<bool>, wanted: bool) -> (all: bool)
    ensures
        all == (forall|i: int| 0 <= i < inputs.len() ==> inputs[i] == wanted),
{
    let mut i: usize = 0;
    while i < inputs.len()
        invariant
            i <= inputs.len(),
            forall|j: int| 0 <= j < i ==> inputs[j] == wanted,
        decreases inputs.len() - i,
    {
        if inputs[i] != wanted {
            return false;
        }
        i += 1;
    }
    true
}

fn count(input: bool) -> (n: u8)
    ensures
        n == bit(input),
{
    if input {
        1
    } else {
        0
    }
}

fn sum_and_carry(sum: u8) -> (out: Vec<bool>)
    requires
        sum <= 3,
    ensures
        out@ == seq![sum % 2 == 1, sum >= 2],
{
    assert((sum & 1 != 0) == (sum % 2 == 1) && (sum & 2 != 0) == (sum >= 2)) by (bit_vector)
        requires
            sum <= 3,
    ;
    let out = vec![sum & 1 != 0, sum & 2 != 0];
    assert(out@ =~= seq![sum % 2 == 1, sum >= 2]);
    out
}

/// Computes the outputs of a combinational component from its inputs.
pub fn evaluate(kind: ComponentKind, inputs: &Vec<bool>) -> (out: Vec<bool>)
    requires
        kind.combinational(),
        inputs.len() == kind.inputs(),
    ensures
        out@ == gate_outputs(kind, inputs@),
        out.len() == kind.outputs(),
{
    match kind {
        ComponentKind::Not => {
            let out = vec![every_input_is(inputs, false)];
            assert(out@ =~= seq![all_off(inputs@)]);
            out
        },
        ComponentKind::And(_) => {
            let out = vec![every_input_is(inputs, true)];
            assert(out@ =~= seq![all_on(inputs@)]);
            out
        },
        ComponentKind::HalfAdder => sum_and_carry(count(inputs[0]) + count(inputs[1])),
        ComponentKind::FullAdder => sum_and_carry(
            count(inputs[0]) + count(inputs[1]) + count(inputs[2]),
        ),
        ComponentKind::Delay => Vec::new(),
    }
}

} // verus!
