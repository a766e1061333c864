//! Small helpers for the application around the engine.

use crate::component::ComponentKind;
use vstd::prelude::*;

verus! {

/// The key code of the digit `0` on the keyboard; the other digits follow it
/// in order.
pub const KEY_0: u32 = 48;

/// The key code of the digit `9`.
pub const KEY_9: u32 = 57;

/// The digit that a key stands for, if it is a digit key.
pub open spec fn digit_of(keycode: u32) -> Option<u8> {
    if KEY_0 <= keycode <= KEY_9 {
        Some((keycode - KEY_0) as u8)
    } else {
        None
    }
}

/// The slot of the hotbar that a key selects: the digit on a digit key, and
/// nothing for every other key.
pub fn parse_hotbar_number(keycode: u32) -> (slot: Option<u8>)
    ensures
        slot == digit_of(keycode),
        slot is Some <==> KEY_0 <= keycode <= KEY_9,
        slot is Some ==> slot->Some_0 <= 9 && slot->Some_0 + KEY_0 == keycode,
{
    if KEY_0 <= keycode && keycode <= KEY_9 {
        Some((keycode - KEY_0) as u8)
    } else {
        None
    }
}

/// A list of `n` copies of `value`.
pub fn repeat<T: Copy>(value: T, n: usize) -> (list: Vec<T>)
    ensures
        list@ == Seq::new(n as nat, |i: int| value),
{
    let mut list: Vec<T> = Vec::new();
    while list.len() < n
        invariant
            list.len() <= n,
            forall|i: int| 0 <= i < list.len() ==> list[i] == value,
        decreases n - list.len(),
    {
        list.push(value);
    }
    assert(list@ =~= Seq::new(n as nat, |i: int| value));
    list
}

/// The kind of component that a block of the world stands for: an `And`
/// with two inputs, or a `Not`.
pub fn block_kind(is_and: bool) -> (kind: ComponentKind)
    ensures
        kind == if is_and {
            ComponentKind::And(2)
        } else {
            ComponentKind::Not
        },
{
    if is_and {
        ComponentKind::And(2)
    } else {
        ComponentKind::Not
    }
}

} // verus!
