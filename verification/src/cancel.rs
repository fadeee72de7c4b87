//! Render cancellation: a latest-wins high-water mark of render generations.
//!
//! Each render request is tagged with a counter value that only grows. The
//! gate keeps the highest value the UI has published; a request below it has been
//! superseded and is skipped before its render starts. A render only reads
//! the mark; only an explicit [`RenderGate::cancel_stale`] raises it, and never
//! lowers it, so an out-of-order publish is harmless.

use vstd::prelude::*;

verus! {

/// Whether a render at `generation` may proceed under high-water `mark`.
pub open spec fn proceeds(mark: u64, generation: u64) -> bool {
    generation >= mark
}

/// The mark after publishing `generation` on top of `mark`.
pub open spec fn raised(mark: u64, generation: u64) -> u64 {
    if generation > mark {
        generation
    } else {
        mark
    }
}

/// The highest render generation published so far.
pub struct RenderGate {
    latest: u64,
}

impl RenderGate {
    /// The current high-water mark.
    pub closed spec fn mark(&self) -> u64 {
        self.latest
    }

    /// A gate with nothing published: every generation proceeds.
    pub fn new() -> (g: RenderGate)
        ensures
            g.mark() == 0,
    {
        RenderGate { latest: 0 }
    }

    /// Whether a render at `generation` is still wanted (`true` = proceed,
    /// `false` = superseded, skip). Reading never raises the mark.
    pub fn should_render(&self, generation: u64) -> (r: bool)
        ensures
            r == proceeds(self.mark(), generation),
    {
        generation >= self.latest
    }

    /// Mark every generation below `generation` as stale. Monotonic: the mark
    /// becomes the larger of itself and `generation`.
    pub fn cancel_stale(&mut self, generation: u64)
        ensures
            final(self).mark() == raised(old(self).mark(), generation),
    {
        if generation > self.latest {
            self.latest = generation;
        }
    }
}

/// Publishing never lowers the mark, and the published generation is at or
/// below the new mark.
pub proof fn law_cancel_never_lowers(mark: u64, generation: u64)
    ensures
        raised(mark, generation) >= mark,
        raised(mark, generation) >= generation,
{
}

/// After publishing `generation`, a render at any lower generation is
/// skipped, while the newest published generation and anything at or above
/// the new mark proceed.
pub proof fn law_cancel_supersedes_older(mark: u64, generation: u64, other: u64)
    ensures
        other < generation ==> !proceeds(raised(mark, generation), other),
        proceeds(raised(mark, generation), raised(mark, generation)),
        other >= raised(mark, generation) ==> proceeds(raised(mark, generation), other),
        mark <= generation ==> proceeds(raised(mark, generation), generation),
{
}

/// Publishes commute: two calls in either order leave the same mark, so an
/// out-of-order call changes nothing; repeating one changes nothing either.
pub proof fn law_cancel_order_independent(mark: u64, a: u64, b: u64)
    ensures
        raised(raised(mark, a), b) == raised(raised(mark, b), a),
        raised(raised(mark, a), a) == raised(mark, a),
{
}

} // verus!
