//! The shape of a linked keyframe batch: several transform-keyframe edits on
//! one layer committed as a single undo step.
//!
//! Each entry names a transform property and an action. Edits on the same
//! property chain in order on one working copy of that property; edits on
//! different properties are independent. The working copies are kept in the
//! order their property is first touched, and become the batch's ops in that
//! order. The first entry with an unknown property, or else an unknown
//! action, refuses the whole batch.

use vstd::prelude::*;

verus! {

/// What a batch entry does to its property at its frame.
#[derive(Debug, Clone, Copy, PartialEq, Eq)]
pub enum KeyAction {
    /// Insert or replace a key with the entry's value.
    Add,
    /// Delete the key there, collapsing to a static value when it was the last.
    Remove,
    /// The stopwatch: seed a key on enable, collapse on disable.
    Toggle,
}

/// One batch entry as read: its property (`None` when the name is not a
/// transform property) and action (`None` when not a known action).
#[derive(Debug, Clone, Copy, PartialEq, Eq)]
pub struct KeyEntry {
    pub prop: Option<u64>,
    pub action: Option<KeyAction>,
}

/// Why a batch is refused: the entry at this position has an unknown
/// property, or an unknown action.
#[derive(Debug, Clone, Copy, PartialEq, Eq)]
pub enum BatchError {
    UnknownProperty(usize),
    UnknownAction(usize),
}

/// One step of a planned batch: the working property it edits (its position
/// in the plan's property list) and what it does.
#[derive(Debug, Clone, Copy, PartialEq, Eq)]
pub struct KeyStep {
    pub slot: usize,
    pub action: KeyAction,
}

/// A planned batch: the properties in first-touched order, and one step per
/// entry, in entry order.
#[derive(Debug)]
pub struct BatchPlan {
    pub props: Vec<u64>,
    pub steps: Vec<KeyStep>,
}

/// The first position of `p` in `props`, or `props.len()` when absent.
pub open spec fn slot_of(props: Seq<u64>, p: u64) -> int
    decreases props.len(),
{
    if props.len() == 0 {
        0
    } else if props[0] == p {
        0
    } else {
        1 + slot_of(props.drop_first(), p)
    }
}

/// The plan of a batch of entries, as `(properties, steps)`, or the refusal.
pub open spec fn batch_spec(entries: Seq<KeyEntry>) -> Result<(Seq<u64>, Seq<KeyStep>), BatchError>
    decreases entries.len(),
{
    if entries.len() == 0 {
        Ok((Seq::empty(), Seq::empty()))
    } else {
        match batch_spec(entries.drop_last()) {
            Err(e) => Err(e),
            Ok((props, steps)) => {
                let i = (entries.len() - 1) as usize;
                let e = entries.last();
                match e.prop {
                    None => Err(BatchError::UnknownProperty(i)),
                    Some(p) => match e.action {
                        None => Err(BatchError::UnknownAction(i)),
                        Some(a) => {
                            let s = slot_of(props, p);
                            let props2 = if s < props.len() {
                                props
                            } else {
                                props.push(p)
                            };
                            Ok((props2, steps.push(KeyStep { slot: s as usize, action: a })))
                        },
                    },
                }
            },
        }
    }
}

/// `slot_of` finds the first position holding `p` exactly when it occurs.
proof fn lemma_slot_of(props: Seq<u64>, p: u64)
    ensures
        0 <= slot_of(props, p) <= props.len(),
        slot_of(props, p) < props.len() <==> props.contains(p),
        slot_of(props, p) < props.len() ==> props[slot_of(props, p)] == p,
        forall|j: int| 0 <= j < slot_of(props, p) ==> props[j] != p,
    decreases props.len(),
{
    if props.len() > 0 && props[0] != p {
        let d = props.drop_first();
        lemma_slot_of(d, p);
        assert forall|j: int| 0 <= j < slot_of(props, p) implies props[j] != p by {
            if j > 0 {
                assert(props[j] == d[j - 1]);
            }
        }
        if props.contains(p) {
            let k = choose|k: int| 0 <= k < props.len() && props[k] == p;
            assert(d[k - 1] == p);
        }
        if d.contains(p) {
            let k = choose|k: int| 0 <= k < d.len() && d[k] == p;
            assert(props[k + 1] == p);
        }
    } else if props.len() > 0 {
        assert(props.contains(p));
    }
}

/// The first position of `p` among `props`, or `props.len()` when absent.
fn find_slot(props: &Vec<u64>, p: u64) -> (r: usize)
    ensures
        r as int == slot_of(props@, p),
{
    proof {
        lemma_slot_of(props@, p);
    }
    let mut k: usize = 0;
    while k < props.len()
        invariant
            k <= props@.len(),
            k <= slot_of(props@, p),
            0 <= slot_of(props@, p) <= props@.len(),
            slot_of(props@, p) < props@.len() ==> props@[slot_of(props@, p)] == p,
            forall|j: int| 0 <= j < slot_of(props@, p) ==> props@[j] != p,
        decreases props.len() - k,
    {
        if props[k] == p {
            return k;
        }
        k = k + 1;
    }
    k
}

/// Plan a keyframe batch: the properties it edits in first-touched order
/// and, per entry, which of them it edits and how — or the first entry that
/// refuses the batch (an unknown property before an unknown action).
pub fn plan_keyframe_batch(entries: &Vec<KeyEntry>) -> (r: Result<BatchPlan, BatchError>)
    ensures
        match batch_spec(entries@) {
            Err(e) => r == Err::<BatchPlan, BatchError>(e),
            Ok((props, steps)) => r matches Ok(plan) && plan.props@ == props && plan.steps@ == steps,
        },
{
    let mut props: Vec<u64> = Vec::new();
    let mut steps: Vec<KeyStep> = Vec::new();
    let mut i: usize = 0;
    while i < entries.len()
        invariant
            i <= entries@.len(),
            batch_spec(entries@.subrange(0, i as int)) == Ok::<(Seq<u64>, Seq<KeyStep>), BatchError>(
                (props@, steps@),
            ),
        decreases entries.len() - i,
    {
        proof {
            assert(entries@.subrange(0, i + 1).drop_last() =~= entries@.subrange(0, i as int));
        }
        let e = entries[i];
        assert(entries@.subrange(0, i + 1).last() == e);
        let p = match e.prop {
            Some(p) => p,
            None => {
                proof {
                    lemma_batch_error_sticks(entries@, i as int + 1);
                }
                return Err(BatchError::UnknownProperty(i));
            },
        };
        let a = match e.action {
            Some(a) => a,
            None => {
                proof {
                    lemma_batch_error_sticks(entries@, i as int + 1);
                }
                return Err(BatchError::UnknownAction(i));
            },
        };
        let ghost props0 = props@;
        let ghost steps0 = steps@;
        proof {
            lemma_slot_of(props0, p);
        }
        let s = find_slot(&props, p);
        if s == props.len() {
            props.push(p);
        }
        steps.push(KeyStep { slot: s, action: a });
        proof {
            let sub = entries@.subrange(0, i + 1);
            assert(sub.drop_last() =~= entries@.subrange(0, i as int));
            assert(sub.last() == e);
            assert(((sub.len() - 1) as usize) == i);
        }
        i = i + 1;
    }
    proof {
        assert(entries@.subrange(0, entries@.len() as int) =~= entries@);
    }
    Ok(BatchPlan { props, steps })
}

/// Once a prefix of the entries is refused, the whole batch is refused the
/// same way.
proof fn lemma_batch_error_sticks(entries: Seq<KeyEntry>, n: int)
    requires
        0 <= n <= entries.len(),
        batch_spec(entries.subrange(0, n)) is Err,
    ensures
        batch_spec(entries) == batch_spec(entries.subrange(0, n)),
    decreases entries.len() - n,
{
    if n < entries.len() {
        assert(entries.subrange(0, n + 1).drop_last() =~= entries.subrange(0, n));
        lemma_batch_error_sticks(entries, n + 1);
    } else {
        assert(entries.subrange(0, n) =~= entries);
    }
}

/// A planned batch edits each property through one working copy: the
/// property list holds no property twice, every step edits a listed property,
/// and the property a step edits is its own entry's property, with its
/// entry's action.
pub proof fn law_batch_groups_edits_by_property(entries: Seq<KeyEntry>)
    requires
        entries.len() <= usize::MAX,
    ensures
        batch_spec(entries) matches Ok((props, steps)) ==> {
            &&& steps.len() == entries.len()
            &&& props.len() <= entries.len()
            &&& forall|a: int, b: int| 0 <= a < b < props.len() ==> props[a] != props[b]
            &&& forall|k: int|
                0 <= k < steps.len() ==> {
                    &&& (#[trigger] steps[k]).slot < props.len()
                    &&& entries[k].prop == Some(props[steps[k].slot as int])
                    &&& entries[k].action == Some(steps[k].action)
                }
        },
    decreases entries.len(),
{
    if entries.len() > 0 {
        let d = entries.drop_last();
        law_batch_groups_edits_by_property(d);
        if let Ok((props0, steps0)) = batch_spec(d) {
            if let Some(p) = entries.last().prop {
                if let Some(act) = entries.last().action {
                    lemma_slot_of(props0, p);
                    let s = slot_of(props0, p);
                    let props = if s < props0.len() {
                        props0
                    } else {
                        props0.push(p)
                    };
                    let steps = steps0.push(KeyStep { slot: s as usize, action: act });
                    assert(batch_spec(entries) == Ok::<(Seq<u64>, Seq<KeyStep>), BatchError>((props, steps)));
                    assert forall|a: int, b: int| 0 <= a < b < props.len() implies props[a] != props[b] by {
                        if b == props0.len() {
                            assert(props0[a] == props[a]);
                        }
                    }
                    assert forall|k: int| 0 <= k < steps.len() implies {
                        &&& (#[trigger] steps[k]).slot < props.len()
                        &&& entries[k].prop == Some(props[steps[k].slot as int])
                        &&& entries[k].action == Some(steps[k].action)
                    } by {
                        if k < steps0.len() {
                            assert(steps[k] == steps0[k]);
                            assert(entries[k] == d[k]);
                            assert(props[steps0[k].slot as int] == props0[steps0[k].slot as int]);
                        }
                    }
                }
            }
        }
    }
}

/// An entry that names a transform property and a known action.
pub open spec fn entry_is_known(e: KeyEntry) -> bool {
    e.prop is Some && e.action is Some
}

/// A batch is refused exactly when one of its entries is unknown, and then
/// by its first unknown entry: an unknown property is reported before an
/// unknown action of the same entry.
pub proof fn law_batch_refused_at_first_unknown_entry(entries: Seq<KeyEntry>)
    requires
        entries.len() <= usize::MAX,
    ensures
        batch_spec(entries) is Ok <==> forall|k: int|
            0 <= k < entries.len() ==> entry_is_known(#[trigger] entries[k]),
        batch_spec(entries) matches Err(BatchError::UnknownProperty(i)) ==> {
            &&& i < entries.len()
            &&& entries[i as int].prop is None
            &&& forall|k: int| 0 <= k < i ==> entry_is_known(#[trigger] entries[k])
        },
        batch_spec(entries) matches Err(BatchError::UnknownAction(i)) ==> {
            &&& i < entries.len()
            &&& entries[i as int].prop is Some
            &&& entries[i as int].action is None
            &&& forall|k: int| 0 <= k < i ==> entry_is_known(#[trigger] entries[k])
        },
    decreases entries.len(),
{
    if entries.len() > 0 {
        let d = entries.drop_last();
        law_batch_refused_at_first_unknown_entry(d);
        assert forall|k: int| 0 <= k < d.len() implies d[k] == entries[k] by {}
        if batch_spec(d) is Ok {
            assert((forall|k: int| 0 <= k < entries.len() ==> entry_is_known(#[trigger] entries[k]))
                <==> entry_is_known(entries.last()) && (forall|k: int|
                0 <= k < d.len() ==> entry_is_known(#[trigger] d[k])));
        }
    }
}

} // verus!
