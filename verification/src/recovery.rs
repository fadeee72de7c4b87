//! The project path the recovery ops (autosave, listing autosaves, restoring
//! a crash journal) act on.

use vstd::prelude::*;
use crate::text::{is_blank, is_blank_spec};

verus! {

/// Which project path an op targets.
#[derive(Debug)]
pub enum TargetPath {
    /// The path the caller gave, as given.
    Given(String),
    /// The path of the loaded project.
    Loaded,
}

/// Neither a path was given nor is a project loaded from one: the project
/// must be saved first.
#[derive(Debug, Clone, Copy, PartialEq, Eq)]
pub struct NoProjectPath;

impl NoProjectPath {
    /// The refusal as the bridge words it, after the op's name.
    pub fn describe(&self) -> (r: &'static str)
        ensures
            r@ == "no project path yet — save the project first"@,
    {
        "no project path yet — save the project first"
    }
}

/// Resolve the target project path: the given `path` unless it is blank,
/// else the loaded project's path when there is one, else an error.
pub fn target_path(path: &str, has_loaded: bool) -> (r: Result<TargetPath, NoProjectPath>)
    ensures
        !is_blank_spec(path@) ==> (r matches Ok(TargetPath::Given(p)) && p@ == path@),
        is_blank_spec(path@) && has_loaded ==> (r matches Ok(TargetPath::Loaded)),
        is_blank_spec(path@) && !has_loaded ==> r == Err::<TargetPath, NoProjectPath>(NoProjectPath),
{
    if !is_blank(path) {
        Ok(TargetPath::Given(path.to_owned()))
    } else if has_loaded {
        Ok(TargetPath::Loaded)
    } else {
        Err(NoProjectPath)
    }
}

/// The highest autosave slot a scan lists.
pub const MAX_AUTOSAVE_SLOT: usize = 999;

/// The slots `1..=k`, newest first.
pub open spec fn first_slots(k: nat) -> Seq<usize> {
    Seq::new(k, |i: int| (i + 1) as usize)
}

/// Listing the rotating autosaves beside a project: slots are numbered from
/// 1 (newest) and kept contiguous by rotation, so the scan probes slot after
/// slot and stops at the first one missing on disk (or after slot 999).
pub struct AutosaveScan {
    slots: Vec<usize>,
    done: bool,
}

impl AutosaveScan {
    /// The slots found so far, newest first.
    pub closed spec fn found(&self) -> Seq<usize> {
        self.slots@
    }

    /// Whether the scan has stopped.
    pub closed spec fn finished(&self) -> bool {
        self.done
    }

    /// The scan's invariant: the slots found are `1..=k` for some `k` of at
    /// most 999, and a scan that reached 999 has stopped.
    pub closed spec fn wf(&self) -> bool {
        &&& self.slots@ == first_slots(self.slots@.len())
        &&& self.slots@.len() <= MAX_AUTOSAVE_SLOT
        &&& self.slots@.len() == MAX_AUTOSAVE_SLOT ==> self.done
    }

    /// A scan that has found nothing yet.
    pub fn new() -> (s: AutosaveScan)
        ensures
            s.wf(),
            s.found() == Seq::<usize>::empty(),
            !s.finished(),
    {
        let s = AutosaveScan { slots: Vec::new(), done: false };
        assert(s.slots@ =~= first_slots(0));
        s
    }

    /// The slot to probe on disk next, or `None` once the scan has stopped.
    pub fn next_slot(&self) -> (r: Option<usize>)
        requires
            self.wf(),
        ensures
            self.finished() ==> r is None,
            !self.finished() ==> r == Some((self.found().len() + 1) as usize),
    {
        if self.done {
            None
        } else {
            Some(self.slots.len() + 1)
        }
    }

    /// Record whether the slot from [`AutosaveScan::next_slot`] exists: a
    /// present slot is listed and the scan moves on (stopping after 999); a
    /// missing one stops the scan.
    pub fn record(&mut self, exists: bool)
        requires
            old(self).wf(),
            !old(self).finished(),
        ensures
            final(self).wf(),
            exists ==> final(self).found() == old(self).found().push((old(self).found().len() + 1) as usize),
            exists ==> (final(self).finished() <==> final(self).found().len() == MAX_AUTOSAVE_SLOT),
            !exists ==> final(self).found() == old(self).found() && final(self).finished(),
    {
        if exists {
            let n = self.slots.len() + 1;
            self.slots.push(n);
            assert(self.slots@ =~= first_slots(self.slots@.len()));
            if n >= MAX_AUTOSAVE_SLOT {
                self.done = true;
            }
        } else {
            self.done = true;
        }
    }

    /// The slots listed, newest first.
    pub fn into_slots(self) -> (r: Vec<usize>)
        ensures
            r@ == self.found(),
    {
        self.slots
    }
}

/// Whatever the disk holds, a scan lists the slots `1..=k` in order, newest
/// first, for some `k` of at most 999.
pub proof fn law_autosave_scan_lists_contiguous_slots(scan: AutosaveScan)
    requires
        scan.wf(),
    ensures
        scan.found().len() <= MAX_AUTOSAVE_SLOT,
        forall|i: int| 0 <= i < scan.found().len() ==> #[trigger] scan.found()[i] == i + 1,
{
}

} // verus!
