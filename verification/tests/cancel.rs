use lumit_bridge::cancel::RenderGate;

/// Publishing a newer generation supersedes an older queued render, but
/// equal-or-newer renders still proceed. A render itself never raises the mark.
#[test]
fn a_superseded_generation_is_skipped() {
    let mut gate = RenderGate::new();
    let base = 3_000_000;
    gate.cancel_stale(base + 10);
    assert!(gate.should_render(base + 10), "the published generation proceeds");
    assert!(!gate.should_render(base + 5), "an older render queued behind it is skipped");
    assert!(
        gate.should_render(base + 11),
        "a newer render proceeds and does not lower the mark for others"
    );
    assert!(gate.should_render(base + 10), "the mark was not raised by a read");
}

/// `cancel_stale` raises the high-water mark so a later older render aborts.
#[test]
fn cancel_stale_supersedes_lower_generations() {
    let mut gate = RenderGate::new();
    let base = 2_000_000;
    gate.cancel_stale(base + 100);
    assert!(!gate.should_render(base + 50), "a request below a cancelled generation is skipped");
}

/// `cancel_stale` is always callable, never a panic.
#[test]
fn cancel_stale_is_always_callable() {
    let mut gate = RenderGate::new();
    gate.cancel_stale(1);
}

#[test]
fn an_out_of_order_publish_never_lowers_the_mark() {
    let mut gate = RenderGate::new();
    assert!(gate.should_render(0));
    gate.cancel_stale(50);
    gate.cancel_stale(20);
    assert!(!gate.should_render(49));
    assert!(gate.should_render(50));
    gate.cancel_stale(u64::MAX);
    assert!(!gate.should_render(u64::MAX - 1));
    assert!(gate.should_render(u64::MAX));
}
