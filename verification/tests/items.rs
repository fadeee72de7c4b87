use lumit_bridge::items::{
    delete_item, move_to_root, relink_candidates, relink_target, rename_item, rename_layer, ItemEntry,
    ItemError, ItemKind, LayerNameError,
};
use lumit_bridge::media::{MediaCache, MediaStatus};

const CLIP: &str = "0190a1b2-c3d4-7e5f-8a9b-0c1d2e3f4a5b";
const COMP: &str = "0190a1b2-c3d4-7e5f-8a9b-0c1d2e3f4a5c";
const FOLDER: &str = "0190a1b2-c3d4-7e5f-8a9b-0c1d2e3f4a5d";

fn id(text: &str) -> u128 {
    uuid::Uuid::parse_str(text).unwrap().as_u128()
}

fn project() -> Vec<ItemEntry> {
    vec![
        ItemEntry { id: id(FOLDER), kind: ItemKind::Folder { children: vec![id(COMP), 42] } },
        ItemEntry { id: id(COMP), kind: ItemKind::Composition },
        ItemEntry { id: id(CLIP), kind: ItemKind::Footage },
    ]
}

#[test]
fn rename_item_rejects_a_blank_name() {
    let items = project();
    let reply = rename_item(&items, CLIP, "   ");
    assert_eq!(reply, Err(ItemError::BlankName));
    assert!(reply.unwrap_err().describe().contains("cannot be empty"));
}

#[test]
fn rename_item_checks_the_id_then_the_name_then_the_item() {
    let items = project();
    assert_eq!(rename_item(&items, "nope", "   "), Err(ItemError::InvalidId));
    assert_eq!(rename_item(&items, CLIP, "\t\u{3000}\n"), Err(ItemError::BlankName));
    assert_eq!(
        rename_item(&items, "0190a1b2-c3d4-7e5f-8a9b-000000000000", "Renamed"),
        Err(ItemError::UnknownItem)
    );
    assert_eq!(rename_item(&items, CLIP, " Renamed "), Ok(id(CLIP)));
}

#[test]
fn delete_item_needs_a_known_uuid() {
    let items = project();
    assert_eq!(delete_item(&items, CLIP), Ok(id(CLIP)));
    assert_eq!(delete_item(&items, "clip"), Err(ItemError::InvalidId));
    assert_eq!(delete_item(&Vec::new(), CLIP), Err(ItemError::UnknownItem));
    assert_eq!(ItemError::UnknownItem.describe(), "unknown item");
}

#[test]
fn move_to_root_unlists_the_item_from_its_folders() {
    let items = project();
    let edits = move_to_root(&items, COMP).unwrap();
    assert_eq!(edits.len(), 1);
    assert_eq!(edits[0].folder, id(FOLDER));
    assert_eq!(edits[0].children, vec![42]);
    // Already at the root: nothing to rewrite.
    assert!(move_to_root(&items, CLIP).unwrap().is_empty());
    assert!(matches!(move_to_root(&items, "x"), Err(ItemError::InvalidId)));
}

#[test]
fn move_to_root_rewrites_every_listing_folder() {
    let a = id(FOLDER);
    let items = vec![
        ItemEntry { id: a, kind: ItemKind::Folder { children: vec![5, id(CLIP), 6, id(CLIP)] } },
        ItemEntry { id: 9, kind: ItemKind::Folder { children: vec![7] } },
        ItemEntry { id: 10, kind: ItemKind::Folder { children: vec![id(CLIP)] } },
        ItemEntry { id: id(CLIP), kind: ItemKind::Footage },
    ];
    let edits = move_to_root(&items, CLIP).unwrap();
    assert_eq!(edits.len(), 2);
    assert_eq!((edits[0].folder, edits[0].children.clone()), (a, vec![5, 6]));
    assert_eq!((edits[1].folder, edits[1].children.clone()), (10, vec![]));
}

#[test]
fn relink_needs_a_path_and_a_footage_item() {
    let items = project();
    assert_eq!(relink_target(&items, CLIP, "/media/moved.mp4"), Ok(id(CLIP)));
    assert_eq!(relink_target(&items, CLIP, "  "), Err(ItemError::BlankPath));
    assert_eq!(relink_target(&items, COMP, "/media/moved.mp4"), Err(ItemError::NotFootage));
    assert_eq!(relink_target(&items, "?", ""), Err(ItemError::InvalidId));
    assert_eq!(ItemError::NotFootage.describe(), "unknown footage item");
}

#[test]
fn rename_layer_checks_ids_then_the_name() {
    assert_eq!(rename_layer(COMP, CLIP, "Hero"), Ok((id(COMP), id(CLIP))));
    assert_eq!(rename_layer("bad", CLIP, "Hero"), Err(LayerNameError::InvalidComp));
    assert_eq!(rename_layer(COMP, "bad", ""), Err(LayerNameError::InvalidLayer));
    assert_eq!(rename_layer(COMP, CLIP, " "), Err(LayerNameError::BlankName));
}

#[test]
fn relink_considers_the_target_and_missing_footage_in_project_order() {
    let items = vec![
        ItemEntry { id: 1, kind: ItemKind::Footage },
        ItemEntry { id: 2, kind: ItemKind::Footage },
        ItemEntry { id: 3, kind: ItemKind::Composition },
        ItemEntry { id: 4, kind: ItemKind::Footage },
        ItemEntry { id: 5, kind: ItemKind::Footage },
    ];
    let mut media = MediaCache::new();
    media.insert(1, MediaStatus::Missing);
    media.insert(2, MediaStatus::Failed);
    media.insert(3, MediaStatus::Missing);
    // Item 4 is the target even though it was never probed; 5 is unprobed.
    assert_eq!(relink_candidates(&items, 4, &media), vec![1, 4]);
    // With nothing probed only the target moves.
    assert_eq!(relink_candidates(&items, 2, &MediaCache::new()), vec![2]);
    // A target that is not footage is never considered.
    assert_eq!(relink_candidates(&items, 3, &MediaCache::new()), Vec::<u128>::new());
}
