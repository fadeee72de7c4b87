use lumit_bridge::keybatch::{plan_keyframe_batch, BatchError, KeyAction, KeyEntry, KeyStep};

fn entry(prop: Option<u64>, action: Option<KeyAction>) -> KeyEntry {
    KeyEntry { prop, action }
}

#[test]
fn a_linked_pair_plans_two_independent_properties() {
    // x and y each get one add: two working copies, in first-touched order.
    let plan = plan_keyframe_batch(&vec![
        entry(Some(7), Some(KeyAction::Add)),
        entry(Some(3), Some(KeyAction::Add)),
    ])
    .unwrap();
    assert_eq!(plan.props, vec![7, 3]);
    assert_eq!(
        plan.steps,
        vec![
            KeyStep { slot: 0, action: KeyAction::Add },
            KeyStep { slot: 1, action: KeyAction::Add },
        ]
    );
}

#[test]
fn edits_on_one_property_chain_on_one_working_copy() {
    let plan = plan_keyframe_batch(&vec![
        entry(Some(2), Some(KeyAction::Add)),
        entry(Some(5), Some(KeyAction::Toggle)),
        entry(Some(2), Some(KeyAction::Remove)),
    ])
    .unwrap();
    assert_eq!(plan.props, vec![2, 5]);
    assert_eq!(
        plan.steps,
        vec![
            KeyStep { slot: 0, action: KeyAction::Add },
            KeyStep { slot: 1, action: KeyAction::Toggle },
            KeyStep { slot: 0, action: KeyAction::Remove },
        ]
    );
}

#[test]
fn an_empty_batch_plans_nothing() {
    let plan = plan_keyframe_batch(&vec![]).unwrap();
    assert!(plan.props.is_empty());
    assert!(plan.steps.is_empty());
}

#[test]
fn the_first_unknown_entry_refuses_the_batch() {
    // An unknown action at entry 1 comes before an unknown property at entry 2.
    assert_eq!(
        plan_keyframe_batch(&vec![
            entry(Some(1), Some(KeyAction::Add)),
            entry(Some(1), None),
            entry(None, Some(KeyAction::Add)),
        ])
        .unwrap_err(),
        BatchError::UnknownAction(1)
    );
    // Within one entry the property is checked first.
    assert_eq!(
        plan_keyframe_batch(&vec![entry(None, None)]).unwrap_err(),
        BatchError::UnknownProperty(0)
    );
}

#[test]
fn keyframe_batch_rejects_a_bad_action() {
    // An "opacity" entry whose action ("wobble") is not add, remove or toggle.
    assert_eq!(
        plan_keyframe_batch(&vec![entry(Some(10), None)]).unwrap_err(),
        BatchError::UnknownAction(0)
    );
}

#[test]
fn keyframe_batch_adds_a_linked_pair_in_one_undo_step() {
    // position_x and position_y each get one add, planned as one batch of two.
    let plan = plan_keyframe_batch(&vec![
        entry(Some(2), Some(KeyAction::Add)),
        entry(Some(3), Some(KeyAction::Add)),
    ])
    .unwrap();
    assert_eq!(plan.props.len(), 2);
    assert_eq!(plan.steps[0], KeyStep { slot: 0, action: KeyAction::Add });
    assert_eq!(plan.steps[1], KeyStep { slot: 1, action: KeyAction::Add });
}
