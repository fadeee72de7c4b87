//! Property-row selection: the inclusive range a Shift-click selects in
//! draw order.

use vstd::prelude::*;
use vstd::laws_eq::obeys_concrete_eq;

verus! {

/// The first position of `x` in `s`, if it occurs.
#[verifier::opaque]
pub open spec fn first_pos<T>(s: Seq<T>, x: T) -> Option<int> {
    if s.contains(x) {
        Some(choose|i: int| 0 <= i < s.len() && s[i] == x && forall|j: int| 0 <= j < i ==> s[j] != x)
    } else {
        None
    }
}

/// The rows a Shift-click on `target` selects: the inclusive range, in draw
/// `order`, between the anchor and the target, and `false`; when either is
/// not in `order`, just the target, and `true` (it becomes the anchor).
pub open spec fn prop_range_spec<T>(order: Seq<T>, anchor: Option<T>, target: T) -> (Seq<T>, bool) {
    let ai = match anchor {
        Some(a) => first_pos(order, a),
        None => None,
    };
    match (ai, first_pos(order, target)) {
        (Some(a), Some(t)) => {
            let lo = if a <= t {
                a
            } else {
                t
            };
            let hi = if a <= t {
                t
            } else {
                a
            };
            (order.subrange(lo, hi + 1), false)
        },
        _ => (seq![target], true),
    }
}

/// The first position of `x` in `order`, if any.
fn position<T: PartialEq + Copy>(order: &Vec<T>, x: T) -> (r: Option<usize>)
    requires
        obeys_concrete_eq::<T>(),
    ensures
        match r {
            Some(i) => i < order@.len() && first_pos(order@, x) == Some(i as int),
            None => first_pos(order@, x) is None,
        },
{
    proof {
        reveal(obeys_concrete_eq);
        reveal(first_pos);
    }
    let mut i: usize = 0;
    while i < order.len()
        invariant
            i <= order@.len(),
            obeys_concrete_eq::<T>(),
            forall|j: int| 0 <= j < i ==> order@[j] != x,
        decreases order.len() - i,
    {
        proof {
            reveal(obeys_concrete_eq);
            reveal(first_pos);
        }
        if order[i] == x {
            proof {
                assert(order@.contains(x));
                let f = choose|k: int|
                    0 <= k < order@.len() && order@[k] == x && forall|j: int| 0 <= j < k ==> order@[j] != x;
                assert(order@[i as int] == x);
                if f < i {
                } else if f > i {
                }
            }
            return Some(i);
        }
        i = i + 1;
    }
    None
}

/// The property rows a Shift-click selects: the inclusive range, in draw
/// order, from the `anchor` to the clicked `target`. When the anchor isn't in
/// `order` (a first selection, or it sat on another layer's rows) fall back
/// to just the target. Returns (the set, whether the target should also
/// become the anchor).
pub fn prop_range<T: PartialEq + Copy>(order: &Vec<T>, anchor: Option<T>, target: T) -> (r: (Vec<T>, bool))
    requires
        obeys_concrete_eq::<T>(),
    ensures
        (r.0@, r.1) == prop_range_spec(order@, anchor, target),
{
    let ai = match anchor {
        Some(a) => position(order, a),
        None => None,
    };
    let ti = position(order, target);
    match (ai, ti) {
        (Some(a), Some(t)) => {
            let lo = if a <= t {
                a
            } else {
                t
            };
            let hi = if a <= t {
                t
            } else {
                a
            };
            let n = order.len();
            let mut out: Vec<T> = Vec::new();
            let mut i: usize = lo;
            while i <= hi
                invariant
                    lo <= i <= hi + 1,
                    hi < n,
                    n == order@.len(),
                    out@ == order@.subrange(lo as int, i as int),
                decreases hi + 1 - i,
            {
                out.push(order[i]);
                proof {
                    assert(order@.subrange(lo as int, i + 1) =~= order@.subrange(lo as int, i as int).push(
                        order@[i as int],
                    ));
                }
                i = i + 1;
            }
            (out, false)
        },
        _ => {
            let mut out: Vec<T> = Vec::new();
            out.push(target);
            proof {
                assert(out@ =~= seq![target]);
            }
            (out, true)
        },
    }
}

/// An element that occurs has a first occurrence.
proof fn lemma_has_first<T>(s: Seq<T>, x: T)
    requires
        s.contains(x),
    ensures
        exists|i: int| 0 <= i < s.len() && s[i] == x && forall|j: int| 0 <= j < i ==> s[j] != x,
    decreases s.len(),
{
    let d = s.drop_last();
    if d.contains(x) {
        lemma_has_first(d, x);
        let i = choose|i: int| 0 <= i < d.len() && d[i] == x && forall|j: int| 0 <= j < i ==> d[j] != x;
        assert(s[i] == d[i]);
        assert forall|j: int| 0 <= j < i implies s[j] != x by {
            assert(s[j] == d[j]);
        }
    } else {
        let k = choose|k: int| 0 <= k < s.len() && s[k] == x;
        if k < s.len() - 1 {
            assert(d[k] == x);
        }
        assert forall|j: int| 0 <= j < s.len() - 1 implies s[j] != x by {
            if s[j] == x {
                assert(d[j] == x);
            }
        }
        assert(s[s.len() - 1] == x);
    }
}

/// The first position of an element that occurs is in range, holds it, and
/// no earlier position does.
pub proof fn lemma_first_pos<T>(s: Seq<T>, x: T)
    requires
        s.contains(x),
    ensures
        first_pos(s, x) matches Some(i) && 0 <= i < s.len() && s[i] == x && forall|j: int|
            0 <= j < i ==> s[j] != x,
{
    reveal(first_pos);
    lemma_has_first(s, x);
}

/// A Shift-click with both the anchor and the target on the rows selects a
/// contiguous run of rows, in draw order, holding both and running from one
/// to the other; the anchor stays.
pub proof fn law_prop_range_spans_anchor_and_target<T>(order: Seq<T>, anchor: T, target: T)
    requires
        order.contains(anchor),
        order.contains(target),
    ensures
        ({
            let (sel, becomes_anchor) = prop_range_spec(order, Some(anchor), target);
            &&& !becomes_anchor
            &&& sel.contains(anchor)
            &&& sel.contains(target)
            &&& (sel[0] == anchor || sel[0] == target)
            &&& (sel.last() == anchor || sel.last() == target)
            &&& exists|lo: int|
                0 <= lo && lo + sel.len() <= order.len() && sel == #[trigger] order.subrange(
                    lo,
                    lo + sel.len(),
                )
        }),
{
    lemma_first_pos(order, anchor);
    lemma_first_pos(order, target);
    let ai = first_pos(order, anchor).unwrap();
    let ti = first_pos(order, target).unwrap();
    let (sel, _) = prop_range_spec(order, Some(anchor), target);
    let lo = if ai <= ti {
        ai
    } else {
        ti
    };
    let hi = if ai <= ti {
        ti
    } else {
        ai
    };
    assert(sel =~= order.subrange(lo, hi + 1));
    assert(sel == order.subrange(lo, lo + sel.len()));
    assert(sel[ai - lo] == anchor);
    assert(sel[ti - lo] == target);
}

/// With no anchor, an anchor off the rows, or a target off the rows, a
/// Shift-click selects just the target, which becomes the anchor.
pub proof fn law_prop_range_falls_back_to_the_target<T>(order: Seq<T>, anchor: Option<T>, target: T)
    requires
        anchor is None || !order.contains(anchor->0) || !order.contains(target),
    ensures
        prop_range_spec(order, anchor, target) == (seq![target], true),
{
    reveal(first_pos);
}

/// How a click on a property row was modified.
#[derive(Debug, Clone, Copy, PartialEq, Eq)]
pub enum RowClick {
    /// Ctrl/Cmd-click: toggle the row in the multi-selection.
    Toggle,
    /// Shift-click: ask for the range from the anchor to this row.
    Extend,
    /// A plain click: select just this row.
    Plain,
}

/// The Inspector's property-row selection: the anchor (the row the graph
/// follows), the multi-selection, and the row a Shift-click asked a range to.
#[derive(Debug)]
pub struct PropSelection<T> {
    pub anchor: Option<T>,
    pub selected: Vec<T>,
    pub range_target: Option<T>,
}

/// `s` with `x` toggled: its first occurrence removed, or `x` appended when
/// absent.
pub open spec fn toggled<T>(s: Seq<T>, x: T) -> Seq<T> {
    match first_pos(s, x) {
        Some(i) => s.remove(i),
        None => s.push(x),
    }
}

/// No value occurs twice in `s`.
pub open spec fn no_repeats<T>(s: Seq<T>) -> bool {
    forall|i: int, j: int| 0 <= i < j < s.len() ==> s[i] != s[j]
}

impl<T: PartialEq + Copy> PropSelection<T> {
    /// Apply a click on row `sel`. A Ctrl-click toggles the row in the
    /// multi-selection and makes it the anchor; a Shift-click records it as
    /// the range target; a plain click selects just it. Returns whether the
    /// click was plain (only then may the caller re-graph the channel).
    pub fn click(&mut self, sel: T, how: RowClick) -> (plain: bool)
        requires
            obeys_concrete_eq::<T>(),
        ensures
            plain == (how == RowClick::Plain),
            match how {
                RowClick::Toggle => {
                    &&& final(self).anchor == Some(sel)
                    &&& final(self).selected@ == toggled(old(self).selected@, sel)
                    &&& final(self).range_target == old(self).range_target
                },
                RowClick::Extend => {
                    &&& final(self).anchor == old(self).anchor
                    &&& final(self).selected@ == old(self).selected@
                    &&& final(self).range_target == Some(sel)
                },
                RowClick::Plain => {
                    &&& final(self).anchor == Some(sel)
                    &&& final(self).selected@ == seq![sel]
                    &&& final(self).range_target == old(self).range_target
                },
            },
    {
        match how {
            RowClick::Toggle => {
                match position(&self.selected, sel) {
                    Some(i) => {
                        self.selected.remove(i);
                    },
                    None => {
                        self.selected.push(sel);
                    },
                }
                self.anchor = Some(sel);
                false
            },
            RowClick::Extend => {
                self.range_target = Some(sel);
                false
            },
            RowClick::Plain => {
                self.anchor = Some(sel);
                let mut only: Vec<T> = Vec::new();
                only.push(sel);
                proof {
                    assert(only@ =~= seq![sel]);
                }
                self.selected = only;
                true
            },
        }
    }
}

/// Toggling a row flips whether it is selected and never lists a row twice.
pub proof fn law_toggle_flips_membership<T>(s: Seq<T>, x: T)
    requires
        no_repeats(s),
    ensures
        toggled(s, x).contains(x) <==> !s.contains(x),
        no_repeats(toggled(s, x)),
{
    if s.contains(x) {
        lemma_first_pos(s, x);
        let i = first_pos(s, x).unwrap();
        let t = s.remove(i);
        assert forall|k: int| 0 <= k < t.len() implies t[k] != x by {
            if k < i {
                assert(t[k] == s[k]);
            } else {
                assert(t[k] == s[k + 1]);
            }
        }
        assert forall|a: int, b: int| 0 <= a < b < t.len() implies t[a] != t[b] by {
            let sa = if a < i { a } else { a + 1 };
            let sb = if b < i { b } else { b + 1 };
            assert(t[a] == s[sa]);
            assert(t[b] == s[sb]);
        }
    } else {
        reveal(first_pos);
        let t = s.push(x);
        assert(t[s.len() as int] == x);
        assert forall|a: int, b: int| 0 <= a < b < t.len() implies t[a] != t[b] by {
            if b == s.len() {
                assert(t[a] == s[a]);
            } else {
                assert(t[a] == s[a]);
                assert(t[b] == s[b]);
            }
        }
    }
}

/// Ctrl-clicking an unselected row twice leaves the multi-selection as it was.
pub proof fn law_toggle_twice_restores<T>(s: Seq<T>, x: T)
    requires
        !s.contains(x),
    ensures
        toggled(toggled(s, x), x) == s,
{
    reveal(first_pos);
    let t = s.push(x);
    assert(t[s.len() as int] == x);
    assert(t.contains(x));
    lemma_first_pos(t, x);
    let i = first_pos(t, x).unwrap();
    if i < s.len() {
        assert(s[i] == t[i]);
    }
    assert(t.remove(s.len() as int) =~= s);
}

} // verus!
