//! Beat markers: the checks a beat detection makes before it touches the
//! audio, and clearing the detected beats from a composition's markers while
//! keeping the user and chapter markers.

use vstd::prelude::*;
use crate::ids::{parse_uuid, uuid_parse, IdError};

verus! {

/// A beat detection's sensitivity, clamped into `0..=100` percent.
pub open spec fn sensitivity_spec(percent: i64) -> u8 {
    if percent < 0 {
        0
    } else if percent > 100 {
        100
    } else {
        percent as u8
    }
}

/// The checks a beat detection makes before it mixes the composition's
/// audio: the composition id (refused when it is not a UUID) and the
/// sensitivity, clamped into `0..=100` percent (higher finds more beats).
pub fn detect_beats(comp_id: &str, sensitivity_percent: i64) -> (r: Result<(u128, u8), IdError>)
    ensures
        match uuid_parse(comp_id@) {
            None => r == Err::<(u128, u8), IdError>(IdError::Comp),
            Some(c) => r == Ok::<(u128, u8), IdError>((c, sensitivity_spec(sensitivity_percent))),
        },
{
    let comp = match parse_uuid(comp_id) {
        Some(c) => c,
        None => return Err(IdError::Comp),
    };
    let percent: u8 = if sensitivity_percent < 0 {
        0
    } else if sensitivity_percent > 100 {
        100
    } else {
        sensitivity_percent as u8
    };
    Ok((comp, percent))
}

/// The positions of the markers that are not beats, in order.
pub open spec fn non_beats(is_beat: Seq<bool>) -> Seq<usize>
    decreases is_beat.len(),
{
    if is_beat.len() == 0 {
        Seq::empty()
    } else if is_beat.last() {
        non_beats(is_beat.drop_last())
    } else {
        non_beats(is_beat.drop_last()).push((is_beat.len() - 1) as usize)
    }
}

/// Clear the beat markers from a marker list given as whether each marker is
/// a beat: `None` when there is no beat to clear (a calm no-op), else the
/// positions of the markers that stay, in their original order.
pub fn clear_beat_markers(is_beat: &Vec<bool>) -> (r: Option<Vec<usize>>)
    ensures
        match r {
            None => forall|i: int| 0 <= i < is_beat@.len() ==> !is_beat@[i],
            Some(kept) => (exists|i: int| 0 <= i < is_beat@.len() && is_beat@[i]) && kept@
                == non_beats(is_beat@),
        },
{
    let mut kept: Vec<usize> = Vec::new();
    let mut any_beat = false;
    let mut i: usize = 0;
    while i < is_beat.len()
        invariant
            i <= is_beat@.len(),
            kept@ == non_beats(is_beat@.subrange(0, i as int)),
            any_beat == (exists|j: int| 0 <= j < i && is_beat@[j]),
        decreases is_beat.len() - i,
    {
        proof {
            assert(is_beat@.subrange(0, i + 1).drop_last() =~= is_beat@.subrange(0, i as int));
        }
        if is_beat[i] {
            any_beat = true;
        } else {
            kept.push(i);
        }
        i = i + 1;
    }
    proof {
        assert(is_beat@.subrange(0, is_beat@.len() as int) =~= is_beat@);
    }
    if any_beat {
        Some(kept)
    } else {
        None
    }
}

/// The kept positions are exactly the non-beat markers, each once, in
/// increasing order: clearing removes only beats.
pub proof fn law_clear_keeps_exactly_the_non_beats(is_beat: Seq<bool>)
    requires
        is_beat.len() <= usize::MAX,
    ensures
        forall|k: int|
            0 <= k < non_beats(is_beat).len() ==> 0 <= #[trigger] non_beats(is_beat)[k] < is_beat.len()
                && !is_beat[non_beats(is_beat)[k] as int],
        forall|a: int, b: int|
            0 <= a < b < non_beats(is_beat).len() ==> #[trigger] non_beats(is_beat)[a]
                < #[trigger] non_beats(is_beat)[b],
        forall|p: int|
            0 <= p < is_beat.len() && !is_beat[p] ==> #[trigger] non_beats(is_beat).contains(p as usize),
    decreases is_beat.len(),
{
    if is_beat.len() > 0 {
        let rest = is_beat.drop_last();
        let nr = non_beats(rest);
        let n = non_beats(is_beat);
        law_clear_keeps_exactly_the_non_beats(rest);
        if is_beat.last() {
            assert(n == nr);
            assert forall|k: int| 0 <= k < n.len() implies 0 <= #[trigger] n[k] < is_beat.len() && !is_beat[n[k] as int] by {
                assert(rest[nr[k] as int] == is_beat[nr[k] as int]);
            }
            assert forall|p: int| 0 <= p < is_beat.len() && !is_beat[p] implies #[trigger] n.contains(p as usize) by {
                assert(rest[p] == is_beat[p]);
            }
        } else {
            let last = (is_beat.len() - 1) as usize;
            assert(n == nr.push(last));
            assert forall|k: int| 0 <= k < n.len() implies 0 <= #[trigger] n[k] < is_beat.len() && !is_beat[n[k] as int] by {
                if k < nr.len() {
                    assert(n[k] == nr[k]);
                    assert(rest[nr[k] as int] == is_beat[nr[k] as int]);
                }
            }
            assert forall|a: int, b: int| 0 <= a < b < n.len() implies #[trigger] n[a] < #[trigger] n[b] by {
                assert(n[a] == nr[a]);
                if b < nr.len() {
                    assert(n[b] == nr[b]);
                }
            }
            assert forall|p: int| 0 <= p < is_beat.len() && !is_beat[p] implies #[trigger] n.contains(p as usize) by {
                if p < is_beat.len() - 1 {
                    assert(rest[p] == is_beat[p]);
                    assert(nr.contains(p as usize));
                    let k = choose|k: int| 0 <= k < nr.len() && nr[k] == p as usize;
                    assert(n[k] == p as usize);
                } else {
                    assert(n[nr.len() as int] == p as usize);
                }
            }
        }
    }
}

} // verus!
