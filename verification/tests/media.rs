use lumit_bridge::media::{downscale_to_max_edge, MediaCache, MediaInfo, MediaStatus, ThumbLookup};

fn uuid_value(text: &str) -> u128 {
    uuid::Uuid::parse_str(text).unwrap().as_u128()
}

#[test]
fn cache_reports_unprobed_ok_missing_and_failed() {
    let mut cache = MediaCache::new();
    let a = uuid::Uuid::now_v7().as_u128();
    let b = uuid::Uuid::now_v7().as_u128();
    let c = uuid::Uuid::now_v7().as_u128();
    let d = uuid::Uuid::now_v7().as_u128();
    cache.insert(
        b,
        MediaStatus::Probed(MediaInfo {
            duration_frames: 120,
            duration_seconds_bits: 2.0f64.to_bits(),
            fps_num: 60,
            fps_den: 1,
            width: 320,
            height: 240,
            audio: true,
        }),
    );
    cache.insert(c, MediaStatus::Missing);
    cache.insert(d, MediaStatus::Failed);

    // Absent → unprobed, no media block.
    assert_eq!(cache.snapshot_for(a), ("unprobed", None));
    // Missing / failed → their status strings, no media block.
    assert_eq!(cache.snapshot_for(c).0, "missing");
    assert!(cache.snapshot_for(c).1.is_none());
    assert_eq!(cache.snapshot_for(d).0, "failed");

    // Ok → the metadata block.
    let (status, detail) = cache.snapshot_for(b);
    assert_eq!(status, "ok");
    let detail = detail.unwrap();
    assert_eq!(detail.duration_frames, 120);
    assert_eq!((detail.fps_num, detail.fps_den), (60, 1));
    assert_eq!(detail.width, 320);
    assert_eq!(detail.height, 240);
    assert!(detail.audio);
}

/// The thumbnail downscaler halves a 4×2 source to 2×1 with the longer edge
/// capped, preserves aspect, and averages the covered pixels.
#[test]
fn downscale_caps_the_longer_edge_and_averages() {
    // 4×2 RGBA: left half red (255,0,0), right half green (0,255,0).
    let mut src = Vec::new();
    for _y in 0..2 {
        for x in 0..4 {
            if x < 2 {
                src.extend_from_slice(&[255, 0, 0, 255]);
            } else {
                src.extend_from_slice(&[0, 255, 0, 255]);
            }
        }
    }
    let (w, h, out) = downscale_to_max_edge(4, 2, &src, 2);
    assert_eq!((w, h), (2, 1), "longer edge (4) capped to 2, aspect kept");
    assert_eq!(out.len(), 8);
    // Left destination pixel averages the two red source columns → red.
    assert!(out[0] > 200 && out[1] < 60, "left thumbnail pixel is red");
    // Right destination pixel averages the two green source columns → green.
    assert!(out[4] < 60 && out[5] > 200, "right thumbnail pixel is green");
}

/// A source already within `max_edge` is returned unchanged (never upscaled).
#[test]
fn downscale_never_upscales() {
    let src = vec![7u8; 2 * 2 * 4];
    let (w, h, out) = downscale_to_max_edge(2, 2, &src, 256);
    assert_eq!((w, h), (2, 2));
    assert_eq!(out, src);
}

#[test]
fn downscale_averages_rounding_down() {
    // A 2×2 source into one pixel averages all four: (10+11+12+14)/4 = 11.75 → 11.
    let src = vec![10, 0, 0, 255, 11, 0, 0, 255, 12, 0, 0, 255, 14, 0, 0, 255];
    let (w, h, out) = downscale_to_max_edge(2, 2, &src, 1);
    assert_eq!((w, h), (1, 1));
    assert_eq!(out, vec![11, 0, 0, 255]);
    // A zero edge is treated as a one-pixel cap.
    let (w, h, _) = downscale_to_max_edge(2, 2, &src, 0);
    assert_eq!((w, h), (1, 1));
}

#[test]
fn downscale_keeps_a_truncated_source() {
    let src = vec![1, 2, 3];
    let (w, h, out) = downscale_to_max_edge(8, 8, &src, 2);
    assert_eq!((w, h), (8, 8));
    assert_eq!(out, src);
}

#[test]
fn downscale_rounds_the_short_side() {
    // 6×3 into max edge 4: the short side is 3·4/6 = 2.
    let src = vec![100u8; 6 * 3 * 4];
    let (w, h, out) = downscale_to_max_edge(6, 3, &src, 4);
    assert_eq!((w, h), (4, 2));
    assert_eq!(out, vec![100u8; 4 * 2 * 4]);
}

#[test]
fn thumbnail_lookup_parses_clamps_and_caches() {
    let mut cache = MediaCache::new();
    assert!(matches!(cache.thumbnail_lookup("not-a-uuid", 128), ThumbLookup::InvalidId));
    let text = "550e8400-e29b-41d4-a716-446655440000";
    let id = uuid_value(text);
    assert_eq!(id, 0x550e8400_e29b_41d4_a716_446655440000);
    match cache.thumbnail_lookup(text, 0) {
        ThumbLookup::Miss { id: got, max_edge } => {
            assert_eq!(got, id);
            assert_eq!(max_edge, 1);
        }
        _ => panic!("expected a miss"),
    }
    match cache.thumbnail_lookup(text, 1_000_000) {
        ThumbLookup::Miss { max_edge, .. } => assert_eq!(max_edge, 4096),
        _ => panic!("expected a miss"),
    }
    let frame = vec![50u8; 4 * 4 * 4];
    let t = cache.thumbnail_store(id, 2, 4, 4, &frame);
    assert_eq!((t.width, t.height), (2, 2));
    assert_eq!(t.rgba, vec![50u8; 2 * 2 * 4]);
    match cache.thumbnail_lookup(text, 2) {
        ThumbLookup::Hit(hit) => {
            assert_eq!((hit.width, hit.height), (2, 2));
            assert_eq!(hit.rgba, t.rgba);
        }
        _ => panic!("expected a hit"),
    }
    // Another edge for the same item is still a miss; clearing forgets all.
    assert!(matches!(cache.thumbnail_lookup(text, 3), ThumbLookup::Miss { .. }));
    cache.clear();
    assert!(matches!(cache.thumbnail_lookup(text, 2), ThumbLookup::Miss { .. }));
}

#[test]
fn missing_probe_marks_a_relink_sibling() {
    let mut cache = MediaCache::new();
    cache.insert(7, MediaStatus::Missing);
    cache.insert(8, MediaStatus::Failed);
    assert!(cache.is_missing(7));
    assert!(!cache.is_missing(8));
    assert!(!cache.is_missing(9));
    assert!(matches!(cache.get(8), Some(MediaStatus::Failed)));
    assert!(cache.get(9).is_none());
    cache.clear();
    assert_eq!(cache.snapshot_for(7), ("unprobed", None));
}
