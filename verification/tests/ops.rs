use lumit_bridge::beats::{clear_beat_markers, detect_beats};
use lumit_bridge::effects::{parse_effect, reorder_effect, EffectError};
use lumit_bridge::fxkeys::{param_slot, ChannelError, ParamShape};
use lumit_bridge::ids::{parse_comp_layer, IdError};
use lumit_bridge::recovery::{target_path, AutosaveScan, NoProjectPath, TargetPath};
use lumit_bridge::selection::{prop_range, PropSelection, RowClick};
use lumit_bridge::text::is_blank;

#[test]
fn clearing_beats_keeps_only_user_and_chapter_markers() {
    // One user marker then two beats.
    assert_eq!(clear_beat_markers(&vec![false, true, true]), Some(vec![0]));
    // No beat at all is a calm no-op.
    assert_eq!(clear_beat_markers(&vec![false, false]), None);
    assert_eq!(clear_beat_markers(&vec![]), None);
    assert_eq!(clear_beat_markers(&vec![true, false, true, false]), Some(vec![1, 3]));
}

#[test]
fn reorder_moves_within_the_stack() {
    let mut stack = vec!["blur", "glow", "tint"];
    let ids = vec![10u128, 20, 30];
    assert_eq!(reorder_effect(&mut stack, &ids, 10, 2), Ok(()));
    assert_eq!(stack, vec!["glow", "tint", "blur"]);
    let ids = vec![20u128, 30, 10];
    // Past the end lands at the bottom; a negative index at the top.
    assert_eq!(reorder_effect(&mut stack, &ids, 20, 99), Ok(()));
    assert_eq!(stack, vec!["tint", "blur", "glow"]);
    let ids = vec![30u128, 10, 20];
    assert_eq!(reorder_effect(&mut stack, &ids, 20, -4), Ok(()));
    assert_eq!(stack, vec!["glow", "tint", "blur"]);
    let ids = vec![20u128, 30, 10];
    assert_eq!(reorder_effect(&mut stack, &ids, 77, 0), Err(EffectError::UnknownEffect));
    assert_eq!(stack, vec!["glow", "tint", "blur"]);
}

#[test]
fn effect_ids_parse_as_uuids() {
    assert_eq!(
        parse_effect("550e8400-e29b-41d4-a716-446655440000"),
        Ok(0x550e8400_e29b_41d4_a716_446655440000)
    );
    assert_eq!(parse_effect("blur"), Err(EffectError::InvalidId));
    assert_eq!(EffectError::InvalidId.describe(), "effect id is not a valid UUID");
}

#[test]
fn comp_and_layer_ids_parse_in_order() {
    let c = "550e8400-e29b-41d4-a716-446655440000";
    let l = "{6fa459ea-ee8a-3ca4-894e-db77e160355e}";
    assert_eq!(
        parse_comp_layer(c, l),
        Ok((0x550e8400_e29b_41d4_a716_446655440000, 0x6fa459ea_ee8a_3ca4_894e_db77e160355e))
    );
    assert_eq!(parse_comp_layer("x", "y"), Err(IdError::Comp));
    assert_eq!(parse_comp_layer(c, "y"), Err(IdError::Layer));
    assert_eq!(IdError::Layer.describe(), "layer id is not a valid UUID");
}

#[test]
fn effect_param_channels_select_the_property() {
    assert_eq!(param_slot(ParamShape::Float, 7), Ok(0));
    assert_eq!(param_slot(ParamShape::Point, 1), Ok(1));
    assert_eq!(param_slot(ParamShape::Point, -3), Ok(0));
    assert_eq!(param_slot(ParamShape::Point, 2), Err(ChannelError::PointChannel));
    assert_eq!(param_slot(ParamShape::Colour { channels: 4 }, 3), Ok(3));
    assert_eq!(param_slot(ParamShape::Colour { channels: 4 }, 4), Err(ChannelError::ColourChannel));
    assert_eq!(param_slot(ParamShape::Fixed, 0), Err(ChannelError::NotAnimatable));
}

#[test]
fn target_path_prefers_the_given_path() {
    assert!(matches!(target_path("/p/scene.lum", false), Ok(TargetPath::Given(p)) if p == "/p/scene.lum"));
    assert!(matches!(target_path("  ", true), Ok(TargetPath::Loaded)));
    assert_eq!(target_path("", false).unwrap_err(), NoProjectPath);
    assert!(NoProjectPath.describe().contains("save the project first"));
}

#[test]
fn prop_range_selects_between_anchor_and_target() {
    let order = vec![1u32, 2, 3, 4, 5];
    assert_eq!(prop_range(&order, Some(2), 4), (vec![2, 3, 4], false));
    assert_eq!(prop_range(&order, Some(5), 3), (vec![3, 4, 5], false));
    assert_eq!(prop_range(&order, Some(3), 3), (vec![3], false));
    // An anchor off the rows (or none) falls back to just the target.
    assert_eq!(prop_range(&order, Some(9), 3), (vec![3], true));
    assert_eq!(prop_range(&order, None, 1), (vec![1], true));
    assert_eq!(prop_range(&order, Some(1), 9), (vec![9], true));
}

#[test]
fn blank_means_only_white_space() {
    assert!(is_blank(""));
    assert!(is_blank(" \t\n\r\u{a0}\u{2003}\u{3000}"));
    assert!(!is_blank(" a "));
    assert!(!is_blank("\u{200b}"));
    // Agrees with the standard library's trim on a range of characters.
    for code in 0u32..0x3100 {
        if let Some(c) = char::from_u32(code) {
            let s = c.to_string();
            assert_eq!(is_blank(&s), s.trim().is_empty(), "U+{code:04X}");
        }
    }
}

#[test]
fn autosave_scan_stops_at_the_first_missing_slot() {
    let on_disk = [true, true, false, true];
    let mut scan = AutosaveScan::new();
    let mut probed = Vec::new();
    while let Some(n) = scan.next_slot() {
        probed.push(n);
        scan.record(on_disk[n - 1]);
    }
    assert_eq!(probed, vec![1, 2, 3]);
    assert_eq!(scan.into_slots(), vec![1, 2]);
}

#[test]
fn autosave_scan_stops_after_slot_999() {
    let mut scan = AutosaveScan::new();
    let mut probes = 0;
    while let Some(_) = scan.next_slot() {
        probes += 1;
        scan.record(true);
    }
    assert_eq!(probes, 999);
    let slots = scan.into_slots();
    assert_eq!(slots.len(), 999);
    assert_eq!(slots[0], 1);
    assert_eq!(slots[998], 999);
}

#[test]
fn reorder_lifts_the_second_effect_to_the_top() {
    let mut stack = vec![1u8, 2];
    let ids = vec![0xa_u128, 0xb];
    assert_eq!(reorder_effect(&mut stack, &ids, 0xb, 0), Ok(()));
    assert_eq!(stack, vec![2, 1]);
}

#[test]
fn row_clicks_select_toggle_and_mark_the_range_target() {
    let mut sel: PropSelection<u32> = PropSelection { anchor: None, selected: vec![], range_target: None };
    // A plain click picks just the row and reports itself plain.
    assert!(sel.click(3, RowClick::Plain));
    assert_eq!((sel.anchor, sel.selected.clone(), sel.range_target), (Some(3), vec![3], None));
    // Ctrl-click adds a row, and a second Ctrl-click takes it out again.
    assert!(!sel.click(5, RowClick::Toggle));
    assert_eq!((sel.anchor, sel.selected.clone()), (Some(5), vec![3, 5]));
    assert!(!sel.click(3, RowClick::Toggle));
    assert_eq!((sel.anchor, sel.selected.clone()), (Some(3), vec![5]));
    // Shift-click only records the range target.
    assert!(!sel.click(9, RowClick::Extend));
    assert_eq!((sel.anchor, sel.selected.clone(), sel.range_target), (Some(3), vec![5], Some(9)));
}

#[test]
fn beat_detection_checks_the_comp_and_clamps_the_sensitivity() {
    let comp = "0190a1b2-c3d4-7e5f-8a9b-0c1d2e3f4a5c";
    let value = uuid::Uuid::parse_str(comp).unwrap().as_u128();
    assert_eq!(detect_beats(comp, 50), Ok((value, 50)));
    assert_eq!(detect_beats(comp, -7), Ok((value, 0)));
    assert_eq!(detect_beats(comp, 250), Ok((value, 100)));
    assert_eq!(detect_beats("not-a-uuid", 50), Err(IdError::Comp));
}

#[test]
fn clear_beat_markers_removes_only_beats() {
    // One user marker and two beat markers: only the user marker stays.
    assert_eq!(clear_beat_markers(&vec![false, true, true]), Some(vec![0]));
}

#[test]
fn clear_beat_markers_on_a_comp_with_none_is_a_calm_no_op() {
    assert_eq!(clear_beat_markers(&vec![]), None);
}

#[test]
fn a_non_animatable_param_is_a_calm_error() {
    // A choice parameter has no animatable property on any channel.
    assert_eq!(param_slot(ParamShape::Fixed, 0), Err(ChannelError::NotAnimatable));
}

#[test]
fn list_autosaves_reports_slots_newest_first() {
    // Two autosaves on disk: slots 1 and 2 exist, slot 3 does not.
    let mut scan = AutosaveScan::new();
    let mut probes = 0;
    while let Some(slot) = scan.next_slot() {
        probes += 1;
        scan.record(slot <= 2);
    }
    assert_eq!(probes, 3);
    assert_eq!(scan.into_slots(), vec![1, 2]);
}

#[test]
fn list_autosaves_with_no_folder_is_a_clean_empty_list() {
    let mut scan = AutosaveScan::new();
    assert_eq!(scan.next_slot(), Some(1));
    scan.record(false);
    assert_eq!(scan.next_slot(), None);
    assert_eq!(scan.into_slots(), Vec::<usize>::new());
}
