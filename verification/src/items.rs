//! Project-item and layer-identity ops: the checks and edits behind deleting,
//! renaming and re-homing project items, relinking footage and renaming a
//! layer. The project's items are read as plain values: each item's id and
//! kind, and for a folder the ids it lists.

use vstd::prelude::*;
use crate::ids::{parse_uuid, uuid_parse};
use crate::media::{entry, MediaCache, MediaStatus};
use crate::text::{is_blank, is_blank_spec};

verus! {

/// What kind of project item an entry is; a folder carries the ids it lists.
#[derive(Debug)]
pub enum ItemKind {
    Folder { children: Vec<u128> },
    Footage,
    Composition,
    Solid,
    Other,
}

/// One project item, as the item ops read it.
#[derive(Debug)]
pub struct ItemEntry {
    pub id: u128,
    pub kind: ItemKind,
}

/// Why an item op refuses, before anything is committed.
#[derive(Debug, Clone, Copy, PartialEq, Eq)]
pub enum ItemError {
    /// The item id is not a valid UUID.
    InvalidId,
    /// The new name is empty once trimmed.
    BlankName,
    /// No project item has this id.
    UnknownItem,
    /// The relink path is empty once trimmed.
    BlankPath,
    /// The item is not a footage item.
    NotFootage,
}

impl ItemError {
    /// The refusal as the bridge words it, after the op's name.
    pub fn describe(&self) -> (r: &'static str)
        ensures
            r@ == match *self {
                ItemError::InvalidId => "item id is not a valid UUID"@,
                ItemError::BlankName => "the name cannot be empty"@,
                ItemError::UnknownItem => "unknown item"@,
                ItemError::BlankPath => "no path given"@,
                ItemError::NotFootage => "unknown footage item"@,
            },
    {
        match self {
            ItemError::InvalidId => "item id is not a valid UUID",
            ItemError::BlankName => "the name cannot be empty",
            ItemError::UnknownItem => "unknown item",
            ItemError::BlankPath => "no path given",
            ItemError::NotFootage => "unknown footage item",
        }
    }
}

/// Whether some item in `items` has id `id`.
pub open spec fn has_item(items: Seq<ItemEntry>, id: u128) -> bool {
    exists|i: int| 0 <= i < items.len() && #[trigger] items[i].id == id
}

/// Whether the first item with id `id` is a footage item.
pub open spec fn first_is_footage(items: Seq<ItemEntry>, id: u128) -> bool
    decreases items.len(),
{
    if items.len() == 0 {
        false
    } else if items[0].id == id {
        items[0].kind is Footage
    } else {
        first_is_footage(items.drop_first(), id)
    }
}

/// `s` without any occurrence of `id`, order kept.
pub open spec fn without(s: Seq<u128>, id: u128) -> Seq<u128>
    decreases s.len(),
{
    if s.len() == 0 {
        s
    } else if s.last() == id {
        without(s.drop_last(), id)
    } else {
        without(s.drop_last(), id).push(s.last())
    }
}

/// The folder listings to rewrite to move item `id` to the panel root: every
/// folder that lists it, in project order, with its listing minus `id`.
pub open spec fn root_edits(items: Seq<ItemEntry>, id: u128) -> Seq<(u128, Seq<u128>)>
    decreases items.len(),
{
    if items.len() == 0 {
        Seq::empty()
    } else {
        let rest = root_edits(items.drop_last(), id);
        match items.last().kind {
            ItemKind::Folder { children } => if children@.contains(id) {
                rest.push((items.last().id, without(children@, id)))
            } else {
                rest
            },
            _ => rest,
        }
    }
}

/// A folder's new listing after moving an item out of it.
pub struct FolderEdit {
    pub folder: u128,
    pub children: Vec<u128>,
}

/// Whether some item in `items` has id `id`.
fn find_item(items: &Vec<ItemEntry>, id: u128) -> (r: bool)
    ensures
        r == has_item(items@, id),
{
    let mut i: usize = 0;
    while i < items.len()
        invariant
            i <= items@.len(),
            forall|j: int| 0 <= j < i ==> #[trigger] items@[j].id != id,
        decreases items.len() - i,
    {
        if items[i].id == id {
            return true;
        }
        i = i + 1;
    }
    false
}

/// Delete a project item: the id to remove, or why not (not a UUID, unknown).
pub fn delete_item(items: &Vec<ItemEntry>, item_id: &str) -> (r: Result<u128, ItemError>)
    ensures
        match uuid_parse(item_id@) {
            None => r == Err::<u128, ItemError>(ItemError::InvalidId),
            Some(id) => if has_item(items@, id) {
                r == Ok::<u128, ItemError>(id)
            } else {
                r == Err::<u128, ItemError>(ItemError::UnknownItem)
            },
        },
{
    let id = match parse_uuid(item_id) {
        Some(id) => id,
        None => return Err(ItemError::InvalidId),
    };
    if !find_item(items, id) {
        return Err(ItemError::UnknownItem);
    }
    Ok(id)
}

/// Rename a project item: the id to rename (the name is taken as given), or
/// why not — checked in this order: not a UUID, a blank name, unknown item.
pub fn rename_item(items: &Vec<ItemEntry>, item_id: &str, name: &str) -> (r: Result<u128, ItemError>)
    ensures
        match uuid_parse(item_id@) {
            None => r == Err::<u128, ItemError>(ItemError::InvalidId),
            Some(id) => if is_blank_spec(name@) {
                r == Err::<u128, ItemError>(ItemError::BlankName)
            } else if has_item(items@, id) {
                r == Ok::<u128, ItemError>(id)
            } else {
                r == Err::<u128, ItemError>(ItemError::UnknownItem)
            },
        },
{
    let id = match parse_uuid(item_id) {
        Some(id) => id,
        None => return Err(ItemError::InvalidId),
    };
    if is_blank(name) {
        return Err(ItemError::BlankName);
    }
    if !find_item(items, id) {
        return Err(ItemError::UnknownItem);
    }
    Ok(id)
}

/// `s` without `id`.
fn strip_id(s: &Vec<u128>, id: u128) -> (r: Vec<u128>)
    ensures
        r@ == without(s@, id),
{
    let mut out: Vec<u128> = Vec::new();
    let mut i: usize = 0;
    while i < s.len()
        invariant
            i <= s@.len(),
            out@ == without(s@.subrange(0, i as int), id),
        decreases s.len() - i,
    {
        proof {
            assert(s@.subrange(0, i + 1).drop_last() =~= s@.subrange(0, i as int));
        }
        if s[i] != id {
            out.push(s[i]);
        }
        i = i + 1;
    }
    proof {
        assert(s@.subrange(0, s@.len() as int) =~= s@);
    }
    out
}

/// Move an item back to the panel root: the listing of every folder that
/// lists it, rewritten without it, in project order (none when it is already
/// at the root) — or why not (not a UUID, unknown item).
pub fn move_to_root(items: &Vec<ItemEntry>, item_id: &str) -> (r: Result<Vec<FolderEdit>, ItemError>)
    ensures
        match uuid_parse(item_id@) {
            None => r matches Err(ItemError::InvalidId),
            Some(id) => if !has_item(items@, id) {
                r matches Err(ItemError::UnknownItem)
            } else {
                r matches Ok(edits) && edits@.len() == root_edits(items@, id).len() && forall|
                    i: int,
                |
                    0 <= i < edits@.len() ==> (#[trigger] edits@[i]).folder == root_edits(
                        items@,
                        id,
                    )[i].0 && edits@[i].children@ == root_edits(items@, id)[i].1
            },
        },
{
    let id = match parse_uuid(item_id) {
        Some(id) => id,
        None => return Err(ItemError::InvalidId),
    };
    if !find_item(items, id) {
        return Err(ItemError::UnknownItem);
    }
    let mut edits: Vec<FolderEdit> = Vec::new();
    let mut i: usize = 0;
    while i < items.len()
        invariant
            i <= items@.len(),
            edits@.len() == root_edits(items@.subrange(0, i as int), id).len(),
            forall|j: int|
                0 <= j < edits@.len() ==> (#[trigger] edits@[j]).folder == root_edits(
                    items@.subrange(0, i as int),
                    id,
                )[j].0 && edits@[j].children@ == root_edits(items@.subrange(0, i as int), id)[j].1,
        decreases items.len() - i,
    {
        proof {
            assert(items@.subrange(0, i + 1).drop_last() =~= items@.subrange(0, i as int));
        }
        match &items[i].kind {
            ItemKind::Folder { children } => {
                if vec_contains(children, id) {
                    let kept = strip_id(children, id);
                    edits.push(FolderEdit { folder: items[i].id, children: kept });
                }
            },
            _ => {},
        }
        i = i + 1;
    }
    proof {
        assert(items@.subrange(0, items@.len() as int) =~= items@);
    }
    Ok(edits)
}

/// Whether `s` holds `id`.
fn vec_contains(s: &Vec<u128>, id: u128) -> (r: bool)
    ensures
        r == s@.contains(id),
{
    let mut i: usize = 0;
    while i < s.len()
        invariant
            i <= s@.len(),
            forall|j: int| 0 <= j < i ==> s@[j] != id,
        decreases s.len() - i,
    {
        if s[i] == id {
            return true;
        }
        i = i + 1;
    }
    false
}

/// The checks a relink makes before it looks on disk: the target item's id,
/// or why not — not a UUID, a blank path, or no footage item with that id.
pub fn relink_target(items: &Vec<ItemEntry>, item_id: &str, path: &str) -> (r: Result<u128, ItemError>)
    ensures
        match uuid_parse(item_id@) {
            None => r == Err::<u128, ItemError>(ItemError::InvalidId),
            Some(id) => if is_blank_spec(path@) {
                r == Err::<u128, ItemError>(ItemError::BlankPath)
            } else if first_is_footage(items@, id) {
                r == Ok::<u128, ItemError>(id)
            } else {
                r == Err::<u128, ItemError>(ItemError::NotFootage)
            },
        },
{
    let id = match parse_uuid(item_id) {
        Some(id) => id,
        None => return Err(ItemError::InvalidId),
    };
    if is_blank(path) {
        return Err(ItemError::BlankPath);
    }
    let mut i: usize = 0;
    proof {
        assert(items@.subrange(0, items@.len() as int) =~= items@);
    }
    while i < items.len()
        invariant
            i <= items@.len(),
            forall|j: int| 0 <= j < i ==> #[trigger] items@[j].id != id,
            uuid_parse(item_id@) == Some(id),
            !is_blank_spec(path@),
            first_is_footage(items@, id) == first_is_footage(items@.subrange(i as int, items@.len() as int), id),
        decreases items.len() - i,
    {
        let ghost rest = items@.subrange(i as int, items@.len() as int);
        proof {
            assert(rest.drop_first() =~= items@.subrange(i + 1, items@.len() as int));
            assert(rest[0] == items@[i as int]);
        }
        if items[i].id == id {
            let footage = match &items[i].kind {
                ItemKind::Footage => true,
                _ => false,
            };
            if footage {
                return Ok(id);
            } else {
                return Err(ItemError::NotFootage);
            }
        }
        i = i + 1;
    }
    Err(ItemError::NotFootage)
}

/// The footage items a relink considers, in project order: the target
/// itself, and every other footage item whose media currently probes missing.
pub open spec fn relink_candidates_spec(
    items: Seq<ItemEntry>,
    target: u128,
    statuses: Map<u128, MediaStatus>,
) -> Seq<u128>
    decreases items.len(),
{
    if items.len() == 0 {
        Seq::empty()
    } else {
        let rest = relink_candidates_spec(items.drop_last(), target, statuses);
        let e = items.last();
        if e.kind is Footage && (e.id == target || entry(statuses, e.id) == Some(MediaStatus::Missing)) {
            rest.push(e.id)
        } else {
            rest
        }
    }
}

/// The ids of the footage items a relink of `target` considers, in project
/// order: the target, and each other footage item `media` reports missing.
/// Whether a sibling's file turns up in the picked folder is looked up on
/// disk by the caller.
pub fn relink_candidates(items: &Vec<ItemEntry>, target: u128, media: &MediaCache) -> (r: Vec<u128>)
    ensures
        r@ == relink_candidates_spec(items@, target, media.statuses()),
{
    let mut r: Vec<u128> = Vec::new();
    let mut i: usize = 0;
    while i < items.len()
        invariant
            i <= items@.len(),
            r@ == relink_candidates_spec(items@.subrange(0, i as int), target, media.statuses()),
        decreases items.len() - i,
    {
        proof {
            let sub = items@.subrange(0, i + 1);
            assert(sub.drop_last() =~= items@.subrange(0, i as int));
            assert(sub.last() == items@[i as int]);
        }
        let footage = match &items[i].kind {
            ItemKind::Footage => true,
            _ => false,
        };
        if footage && (items[i].id == target || media.is_missing(items[i].id)) {
            r.push(items[i].id);
        }
        i = i + 1;
    }
    proof {
        assert(items@.subrange(0, items@.len() as int) =~= items@);
    }
    r
}

/// Why a layer rename refuses.
#[derive(Debug, Clone, Copy, PartialEq, Eq)]
pub enum LayerNameError {
    /// The composition id is not a valid UUID.
    InvalidComp,
    /// The layer id is not a valid UUID.
    InvalidLayer,
    /// The new name is empty once trimmed.
    BlankName,
}

impl LayerNameError {
    /// The refusal as the bridge words it, after the op's name.
    pub fn describe(&self) -> (r: &'static str)
        ensures
            r@ == match *self {
                LayerNameError::InvalidComp => "composition id is not a valid UUID"@,
                LayerNameError::InvalidLayer => "layer id is not a valid UUID"@,
                LayerNameError::BlankName => "the name cannot be empty"@,
            },
    {
        match self {
            LayerNameError::InvalidComp => "composition id is not a valid UUID",
            LayerNameError::InvalidLayer => "layer id is not a valid UUID",
            LayerNameError::BlankName => "the name cannot be empty",
        }
    }
}

/// Rename a layer: the `(composition, layer)` ids to rename, or why not —
/// checked in this order: the composition id, the layer id, a blank name.
pub fn rename_layer(comp_id: &str, layer_id: &str, name: &str) -> (r: Result<(u128, u128), LayerNameError>)
    ensures
        match (uuid_parse(comp_id@), uuid_parse(layer_id@)) {
            (None, _) => r == Err::<(u128, u128), LayerNameError>(LayerNameError::InvalidComp),
            (Some(_), None) => r == Err::<(u128, u128), LayerNameError>(LayerNameError::InvalidLayer),
            (Some(c), Some(l)) => if is_blank_spec(name@) {
                r == Err::<(u128, u128), LayerNameError>(LayerNameError::BlankName)
            } else {
                r == Ok::<(u128, u128), LayerNameError>((c, l))
            },
        },
{
    let comp = match parse_uuid(comp_id) {
        Some(c) => c,
        None => return Err(LayerNameError::InvalidComp),
    };
    let layer = match parse_uuid(layer_id) {
        Some(l) => l,
        None => return Err(LayerNameError::InvalidLayer),
    };
    if is_blank(name) {
        return Err(LayerNameError::BlankName);
    }
    Ok((comp, layer))
}


/// A pushed sequence holds exactly what the original held, plus the new end.
proof fn lemma_push_contains(q: Seq<u128>, a: u128, x: u128)
    ensures
        q.push(a).contains(x) <==> (q.contains(x) || x == a),
{
    if q.contains(x) {
        let i = choose|i: int| 0 <= i < q.len() && q[i] == x;
        assert(q.push(a)[i] == x);
    }
    if x == a {
        assert(q.push(a)[q.len() as int] == a);
    }
    if q.push(a).contains(x) {
        let i = choose|i: int| 0 <= i < q.push(a).len() && q.push(a)[i] == x;
        if i < q.len() {
            assert(q[i] == x);
        }
    }
}

/// Removing `id` from a listing drops exactly `id`: everything else it
/// listed stays.
pub proof fn law_without_drops_only_the_item(s: Seq<u128>, id: u128, x: u128)
    ensures
        without(s, id).contains(x) <==> (s.contains(x) && x != id),
    decreases s.len(),
{
    if s.len() == 0 {
    } else {
        let dl = s.drop_last();
        law_without_drops_only_the_item(dl, id, x);
        assert(s =~= dl.push(s.last()));
        lemma_push_contains(dl, s.last(), x);
        if s.last() != id {
            lemma_push_contains(without(dl, id), s.last(), x);
        }
    }
}

/// Moving an item to the root leaves no rewritten folder listing it.
pub proof fn law_move_to_root_unlists_the_item(items: Seq<ItemEntry>, id: u128)
    ensures
        forall|k: int|
            0 <= k < root_edits(items, id).len() ==> !(#[trigger] root_edits(items, id)[k]).1.contains(id),
    decreases items.len(),
{
    if items.len() > 0 {
        let rest = root_edits(items.drop_last(), id);
        law_move_to_root_unlists_the_item(items.drop_last(), id);
        match items.last().kind {
            ItemKind::Folder { children } => {
                if children@.contains(id) {
                    law_without_drops_only_the_item(children@, id, id);
                    let r = root_edits(items, id);
                    assert(r == rest.push((items.last().id, without(children@, id))));
                    assert forall|k: int| 0 <= k < r.len() implies !(#[trigger] r[k]).1.contains(id) by {
                        if k < rest.len() {
                            assert(r[k] == rest[k]);
                        }
                    }
                }
            },
            _ => {},
        }
    }
}

/// A relink always considers its target when the target is a footage item,
/// and considers any other item only when it is footage that probes missing.
pub proof fn law_relink_considers_target_and_missing_footage(
    items: Seq<ItemEntry>,
    target: u128,
    statuses: Map<u128, MediaStatus>,
    x: u128,
)
    ensures
        relink_candidates_spec(items, target, statuses).contains(x) <==> exists|k: int|
            0 <= k < items.len() && (#[trigger] items[k]).id == x && items[k].kind is Footage && (x
                == target || entry(statuses, x) == Some(MediaStatus::Missing)),
    decreases items.len(),
{
    if items.len() > 0 {
        let d = items.drop_last();
        let rest = relink_candidates_spec(d, target, statuses);
        law_relink_considers_target_and_missing_footage(d, target, statuses, x);
        let e = items.last();
        if e.kind is Footage && (e.id == target || entry(statuses, e.id) == Some(MediaStatus::Missing)) {
            lemma_push_contains(rest, e.id, x);
        }
        if exists|k: int|
            0 <= k < items.len() && (#[trigger] items[k]).id == x && items[k].kind is Footage && (x
                == target || entry(statuses, x) == Some(MediaStatus::Missing)) {
            let k = choose|k: int|
                0 <= k < items.len() && (#[trigger] items[k]).id == x && items[k].kind is Footage && (x
                    == target || entry(statuses, x) == Some(MediaStatus::Missing));
            if k < d.len() {
                assert(d[k] == items[k]);
            }
        }
        if exists|k: int|
            0 <= k < d.len() && (#[trigger] d[k]).id == x && d[k].kind is Footage && (x == target
                || entry(statuses, x) == Some(MediaStatus::Missing)) {
            let k = choose|k: int|
                0 <= k < d.len() && (#[trigger] d[k]).id == x && d[k].kind is Footage && (x == target
                    || entry(statuses, x) == Some(MediaStatus::Missing));
            assert(items[k] == d[k]);
        }
    }
}

} // verus!
