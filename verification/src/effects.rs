//! An effect stack's order: moving one effect to a new position, as the
//! Effect Controls drag-to-reorder does.

use vstd::prelude::*;
use crate::ids::{parse_uuid, uuid_parse};

verus! {

/// Why an effect edit refuses.
#[derive(Debug, Clone, Copy, PartialEq, Eq)]
pub enum EffectError {
    /// The effect id is not a valid UUID.
    InvalidId,
    /// No effect in the stack has this id.
    UnknownEffect,
}

impl EffectError {
    /// The refusal as the bridge words it, after the op's name.
    pub fn describe(&self) -> (r: &'static str)
        ensures
            r@ == match *self {
                EffectError::InvalidId => "effect id is not a valid UUID"@,
                EffectError::UnknownEffect => "unknown effect"@,
            },
    {
        match self {
            EffectError::InvalidId => "effect id is not a valid UUID",
            EffectError::UnknownEffect => "unknown effect",
        }
    }
}

/// Resolve an effect id (a calm error when malformed).
pub fn parse_effect(effect_id: &str) -> (r: Result<u128, EffectError>)
    ensures
        match uuid_parse(effect_id@) {
            Some(id) => r == Ok::<u128, EffectError>(id),
            None => r == Err::<u128, EffectError>(EffectError::InvalidId),
        },
{
    match parse_uuid(effect_id) {
        Some(id) => Ok(id),
        None => Err(EffectError::InvalidId),
    }
}

/// The first position of `id` in `ids`.
pub open spec fn first_index(ids: Seq<u128>, id: u128) -> int
    recommends
        ids.contains(id),
{
    choose|i: int| 0 <= i < ids.len() && ids[i] == id && forall|j: int| 0 <= j < i ==> ids[j] != id
}

/// The slot a requested `new_index` lands on in a stack of `len` effects
/// (with the moved effect taken out): clamped into range, a value past the
/// end landing at the bottom, and one that does not fit a `usize` at the top.
pub open spec fn landing(new_index: i64, len: int) -> int {
    if new_index < 0 || new_index > usize::MAX {
        0
    } else if new_index > len - 1 {
        len - 1
    } else {
        new_index as int
    }
}

/// `s` with its element at `from` moved to position `to`.
pub open spec fn moved<T>(s: Seq<T>, from: int, to: int) -> Seq<T> {
    s.remove(from).insert(to, s[from])
}

/// Reorder effect `effect_id` within a stack (`ids` holds each effect's id,
/// in stack order) to `new_index`, clamped into range. An id not in the
/// stack is an error and leaves the stack as it was.
pub fn reorder_effect<T>(effects: &mut Vec<T>, ids: &Vec<u128>, effect_id: u128, new_index: i64) -> (r:
    Result<(), EffectError>)
    requires
        old(effects)@.len() == ids@.len(),
    ensures
        ids@.contains(effect_id) ==> r is Ok && final(effects)@ == moved(
            old(effects)@,
            first_index(ids@, effect_id),
            landing(new_index, old(effects)@.len() as int),
        ),
        !ids@.contains(effect_id) ==> r == Err::<(), EffectError>(EffectError::UnknownEffect)
            && final(effects)@ == old(effects)@,
        ids@.contains(effect_id) && 0 <= new_index < old(effects)@.len() ==> final(effects)@[new_index as int]
            == old(effects)@[first_index(ids@, effect_id)],
{
    let mut from: usize = 0;
    while from < ids.len() && ids[from] != effect_id
        invariant
            from <= ids@.len(),
            forall|j: int| 0 <= j < from ==> ids@[j] != effect_id,
        decreases ids.len() - from,
    {
        from = from + 1;
    }
    if from == ids.len() {
        assert(!ids@.contains(effect_id));
        return Err(EffectError::UnknownEffect);
    }
    proof {
        assert(ids@[from as int] == effect_id);
        assert(first_index(ids@, effect_id) == from as int) by {
            let f = first_index(ids@, effect_id);
            assert(0 <= f < ids@.len() && ids@[f] == effect_id && forall|j: int| 0 <= j < f ==> ids@[j]
                != effect_id);
            if f < from {
            } else if f > from {
            }
        }
    }
    let ghost before = effects@;
    let inst = effects.remove(from);
    let len = effects.len();
    let to: usize = if new_index < 0 || new_index as u128 > usize::MAX as u128 {
        0
    } else if new_index as u128 > len as u128 {
        len
    } else {
        new_index as usize
    };
    effects.insert(to, inst);
    proof {
        assert(effects@ =~= moved(before, from as int, landing(new_index, before.len() as int)));
    }
    Ok(())
}

/// Reordering keeps the stack: the same length, the moved effect at its
/// landing slot, and taking it back out gives the stack without it, in the
/// same order.
pub proof fn law_reorder_keeps_the_stack<T>(s: Seq<T>, from: int, new_index: i64)
    requires
        0 <= from < s.len(),
    ensures
        moved(s, from, landing(new_index, s.len() as int)).len() == s.len(),
        moved(s, from, landing(new_index, s.len() as int))[landing(new_index, s.len() as int)] == s[from],
        moved(s, from, landing(new_index, s.len() as int)).remove(landing(new_index, s.len() as int))
            =~= s.remove(from),
{
}

/// A reorder lands the moved effect exactly where it was asked to go: at
/// `new_index` when that is a position of the stack, at the top for a
/// negative index, at the bottom for one past the end; the other effects keep
/// their order around it.
pub proof fn law_reorder_lands_at_the_requested_index<T>(s: Seq<T>, from: int, new_index: i64)
    requires
        0 <= from < s.len(),
        s.len() <= usize::MAX,
    ensures
        ({
            let r = moved(s, from, landing(new_index, s.len() as int));
            &&& r.len() == s.len()
            &&& 0 <= new_index < s.len() ==> r[new_index as int] == s[from] && r.remove(new_index as int)
                == s.remove(from)
            &&& new_index < 0 ==> r[0] == s[from] && r.remove(0) == s.remove(from)
            &&& s.len() <= new_index <= usize::MAX ==> r[s.len() - 1] == s[from] && r.remove(
                s.len() - 1,
            ) == s.remove(from)
        }),
{
    let k = landing(new_index, s.len() as int);
    assert(moved(s, from, k).remove(k) =~= s.remove(from));
}

} // verus!
