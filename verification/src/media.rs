//! Probe results and thumbnails for footage items: the plain-data probe cache
//! the snapshot reads, the thumbnail cache, and the box-filter downscaler.

use vstd::prelude::*;
use vstd::arithmetic::div_mod::*;
use vstd::arithmetic::mul::*;
use crate::pixels::{round_div, src_at, tiled, lemma_in_image, lemma_pixel_index};
use crate::ids::{parse_uuid, uuid_parse};
use std::collections::HashMap;

verus! {

broadcast use vstd::std_specs::hash::group_hash_axioms;

/// The metadata a cleanly probed footage item exposes in the snapshot.
#[derive(Debug, Clone, Copy, PartialEq, Eq)]
pub struct MediaInfo {
    /// Decodable frame count (from the frame index; 0 for audio-only).
    pub duration_frames: u64,
    /// The IEEE-754 bits of the container-declared duration in seconds —
    /// valid for both video and audio-only media, unlike `duration_frames`.
    pub duration_seconds_bits: u64,
    /// Container-declared rate, exact rational (0/1 when there is no video).
    pub fps_num: i32,
    pub fps_den: i32,
    pub width: u32,
    pub height: u32,
    pub audio: bool,
}

/// A footage item's probe result.
#[derive(Debug, Clone, Copy, PartialEq, Eq)]
pub enum MediaStatus {
    /// Probed cleanly; carries the metadata the snapshot exposes.
    Probed(MediaInfo),
    /// The file is not on disk (moved, renamed, unmounted): a normal state
    /// that leads to the relink flow, never an error reply.
    Missing,
    /// The file is present but could not be read (corrupt or unsupported).
    Failed,
}

/// A downscaled RGBA8 thumbnail.
#[derive(Debug)]
pub struct Thumbnail {
    pub width: u32,
    pub height: u32,
    pub rgba: Vec<u8>,
}

/// The snapshot's `status` word for a footage item with cache entry `entry`.
pub open spec fn status_word(entry: Option<MediaStatus>) -> Seq<char> {
    match entry {
        None => "unprobed"@,
        Some(MediaStatus::Missing) => "missing"@,
        Some(MediaStatus::Failed) => "failed"@,
        Some(MediaStatus::Probed(_)) => "ok"@,
    }
}

/// The map's entry for `k`, if any.
pub open spec fn entry<K, V>(m: Map<K, V>, k: K) -> Option<V> {
    if m.contains_key(k) {
        Some(m[k])
    } else {
        None
    }
}

/// Cached probe results keyed by footage item id, plus the Project-panel
/// thumbnail cache (one downscaled RGBA per `(item, max_edge)`).
pub struct MediaCache {
    map: HashMap<u128, MediaStatus>,
    thumbs: HashMap<u128, HashMap<u32, Thumbnail>>,
}

/// A thumbnail as plain values: `(width, height, bytes)`.
pub open spec fn thumb_view(t: Thumbnail) -> (u32, u32, Seq<u8>) {
    (t.width, t.height, t.rgba@)
}

/// A requested thumbnail edge clamped into `1..=4096`.
pub open spec fn thumb_edge(max_edge: u32) -> u32 {
    if max_edge < 1 {
        1
    } else if max_edge > 4096 {
        4096
    } else {
        max_edge
    }
}

/// The first step of a thumbnail request: the id failed to parse, the cache
/// already holds the thumbnail, or the frame must be decoded (for this id and
/// the clamped edge) and handed to [`MediaCache::thumbnail_store`].
#[derive(Debug)]
pub enum ThumbLookup {
    InvalidId,
    Hit(Thumbnail),
    Miss { id: u128, max_edge: u32 },
}

impl MediaCache {
    /// The probe results, by footage item id.
    pub closed spec fn statuses(&self) -> Map<u128, MediaStatus> {
        self.map@
    }

    /// The cached thumbnail for `(id, max_edge)`, if one was stored.
    pub closed spec fn thumb(&self, id: u128, max_edge: u32) -> Option<(u32, u32, Seq<u8>)> {
        if self.thumbs@.contains_key(id) && self.thumbs@[id]@.contains_key(max_edge) {
            Some(thumb_view(self.thumbs@[id]@[max_edge]))
        } else {
            None
        }
    }

    /// An empty cache.
    pub fn new() -> (c: MediaCache)
        ensures
            c.statuses() == Map::<u128, MediaStatus>::empty(),
            forall|id: u128, e: u32| #[trigger] c.thumb(id, e) is None,
    {
        MediaCache { map: HashMap::new(), thumbs: HashMap::new() }
    }

    /// Forget every probe result and thumbnail (new / open / relink).
    pub fn clear(&mut self)
        ensures
            final(self).statuses() == Map::<u128, MediaStatus>::empty(),
            forall|id: u128, e: u32| #[trigger] final(self).thumb(id, e) is None,
    {
        self.map.clear();
        self.thumbs.clear();
    }

    /// A cached thumbnail for `(id, max_edge)`, if one was decoded already.
    pub fn thumb_get(&self, id: u128, max_edge: u32) -> (r: Option<Thumbnail>)
        ensures
            match r {
                Some(t) => self.thumb(id, max_edge) == Some(thumb_view(t)),
                None => self.thumb(id, max_edge) is None,
            },
    {
        match self.thumbs.get(&id) {
            Some(per_edge) => match per_edge.get(&max_edge) {
                Some(t) => {
                    let rgba = t.rgba.clone();
                    assert(rgba@ =~= t.rgba@);
                    Some(Thumbnail { width: t.width, height: t.height, rgba })
                },
                None => None,
            },
            None => None,
        }
    }

    /// Store a decoded thumbnail for `(id, max_edge)`.
    pub fn thumb_put(&mut self, id: u128, max_edge: u32, w: u32, h: u32, rgba: Vec<u8>)
        ensures
            final(self).statuses() == old(self).statuses(),
            final(self).thumb(id, max_edge) == Some((w, h, rgba@)),
            forall|id2: u128, e2: u32|
                !(id2 == id && e2 == max_edge) ==> #[trigger] final(self).thumb(id2, e2) == old(
                    self,
                ).thumb(id2, e2),
    {
        let mut per_edge: HashMap<u32, Thumbnail> = match self.thumbs.remove(&id) {
            Some(m) => m,
            None => HashMap::new(),
        };
        per_edge.insert(max_edge, Thumbnail { width: w, height: h, rgba });
        self.thumbs.insert(id, per_edge);
    }

    /// Read a cached probe result.
    pub fn get(&self, id: u128) -> (r: Option<&MediaStatus>)
        ensures
            match r {
                Some(s) => self.statuses().contains_key(id) && self.statuses()[id] == *s,
                None => !self.statuses().contains_key(id),
            },
    {
        self.map.get(&id)
    }

    /// Store a probe result.
    pub fn insert(&mut self, id: u128, status: MediaStatus)
        ensures
            final(self).statuses() == old(self).statuses().insert(id, status),
            forall|id2: u128, e2: u32| #[trigger] final(self).thumb(id2, e2) == old(self).thumb(id2, e2),
    {
        self.map.insert(id, status);
    }

    /// Whether a footage item currently probes "missing" (a relink sibling
    /// candidate).
    pub fn is_missing(&self, id: u128) -> (r: bool)
        ensures
            r == (entry(self.statuses(), id) == Some(MediaStatus::Missing)),
    {
        match self.map.get(&id) {
            Some(MediaStatus::Missing) => true,
            _ => false,
        }
    }

    /// The first step of a Project-panel thumbnail request for `item_id` at
    /// `max_edge`: an id that is not a UUID is `InvalidId`; the edge is clamped
    /// into `1..=4096` (a zero edge is one, an oversized one never allocates
    /// unbounded); a thumbnail already cached for the pair is a `Hit`, else a
    /// `Miss` naming what to decode and store.
    pub fn thumbnail_lookup(&self, item_id: &str, max_edge: u32) -> (r: ThumbLookup)
        ensures
            match uuid_parse(item_id@) {
                None => r is InvalidId,
                Some(id) => match self.thumb(id, thumb_edge(max_edge)) {
                    Some(t) => r matches ThumbLookup::Hit(h) && thumb_view(h) == t,
                    None => r matches ThumbLookup::Miss { id: i, max_edge: e } && i == id && e
                        == thumb_edge(max_edge),
                },
            },
    {
        let id = match parse_uuid(item_id) {
            Some(id) => id,
            None => return ThumbLookup::InvalidId,
        };
        let edge = if max_edge < 1 {
            1
        } else if max_edge > 4096 {
            4096
        } else {
            max_edge
        };
        match self.thumb_get(id, edge) {
            Some(t) => ThumbLookup::Hit(t),
            None => ThumbLookup::Miss { id, max_edge: edge },
        }
    }

    /// The second step of a thumbnail request: downscale the decoded
    /// representative frame (`frame_w × frame_h` RGBA8) so its longer edge is
    /// at most `max_edge`, cache it for `(id, max_edge)` and return it.
    pub fn thumbnail_store(
        &mut self,
        id: u128,
        max_edge: u32,
        frame_w: u32,
        frame_h: u32,
        frame: &[u8],
    ) -> (r: Thumbnail)
        ensures
            thumb_view(r) == ({
                let d = downscaled(frame@, frame_w as int, frame_h as int, max_edge as int);
                (d.0 as u32, d.1 as u32, d.2)
            }),
            final(self).statuses() == old(self).statuses(),
            final(self).thumb(id, max_edge) == Some(thumb_view(r)),
            forall|id2: u128, e2: u32|
                !(id2 == id && e2 == max_edge) ==> #[trigger] final(self).thumb(id2, e2) == old(
                    self,
                ).thumb(id2, e2),
    {
        let (w, h, rgba) = downscale_to_max_edge(frame_w, frame_h, frame, max_edge);
        let stored = rgba.clone();
        assert(stored@ =~= rgba@);
        self.thumb_put(id, max_edge, w, h, stored);
        Thumbnail { width: w, height: h, rgba }
    }

    /// The snapshot representation for a footage item: its `status` word and,
    /// when probed cleanly, the metadata of its `media` detail block. An id
    /// with no cache entry is "unprobed".
    pub fn snapshot_for(&self, id: u128) -> (r: (&'static str, Option<MediaInfo>))
        ensures
            r.0@ == status_word(entry(self.statuses(), id)),
            r.1 == match entry(self.statuses(), id) {
                Some(MediaStatus::Probed(info)) => Some(info),
                _ => None::<MediaInfo>,
            },
    {
        proof {
            reveal_strlit("unprobed");
            reveal_strlit("missing");
            reveal_strlit("failed");
            reveal_strlit("ok");
        }
        match self.map.get(&id) {
            None => ("unprobed", None),
            Some(MediaStatus::Missing) => ("missing", None),
            Some(MediaStatus::Failed) => ("failed", None),
            Some(MediaStatus::Probed(info)) => ("ok", Some(*info)),
        }
    }
}


/// Sum of channel `c` over source columns `x0..x1` of row `y`.
pub open spec fn row_sum(src: Seq<u8>, sw: int, c: int, y: int, x0: int, x1: int) -> int
    decreases x1 - x0,
{
    if x1 <= x0 {
        0
    } else {
        row_sum(src, sw, c, y, x0, x1 - 1) + src_at(src, sw, x1 - 1, y, c)
    }
}

/// Sum of channel `c` over the source box `x0..x1 × y0..y1`.
pub open spec fn box_sum(src: Seq<u8>, sw: int, c: int, x0: int, x1: int, y0: int, y1: int) -> int
    decreases y1 - y0,
{
    if y1 <= y0 {
        0
    } else {
        box_sum(src, sw, c, x0, x1, y0, y1 - 1) + row_sum(src, sw, c, y1 - 1, x0, x1)
    }
}

/// `a / b` rounded up.
pub open spec fn ceil_div(a: int, b: int) -> int {
    (a + b - 1) / b
}

/// The source band `lo..hi` that destination index `i` (of `d`) averages
/// over on an axis of `s` source pixels: from `⌊i·s/d⌋` to `⌈(i+1)·s/d⌉`,
/// at most `s`, and never empty.
pub open spec fn band(i: int, s: int, d: int) -> (int, int) {
    let lo = (i * s) / d;
    let up = ceil_div((i + 1) * s, d);
    let capped = if up < s {
        up
    } else {
        s
    };
    (lo, if capped < lo + 1 {
        lo + 1
    } else {
        capped
    })
}

/// The size a `sw × sh` source is scaled to so its longer edge is at most
/// `max_edge`: each side scaled by `max_edge / longer`, rounded to nearest,
/// at least one pixel.
pub open spec fn scaled_side(side: int, max_edge: int, longer: int) -> int {
    let r = round_div(side * max_edge, longer);
    if r < 1 {
        1
    } else {
        r
    }
}

/// Whether the downscaler returns the source unchanged: a degenerate or
/// truncated source, or one that already fits within `max_edge`.
pub open spec fn keeps_source(src: Seq<u8>, sw: int, sh: int, max_edge: int) -> bool {
    sw == 0 || sh == 0 || src.len() < sw * sh * 4 || (if sw >= sh {
        sw
    } else {
        sh
    }) <= max_edge
}

/// Byte `c` of destination pixel `(dx, dy)` of the box-filtered `dw × dh`
/// image: the average (rounded down) of its source band.
pub open spec fn box_pixel(src: Seq<u8>, sw: int, sh: int, dw: int, dh: int, dx: int, dy: int, c: int) -> int {
    let (x0, x1) = band(dx, sw, dw);
    let (y0, y1) = band(dy, sh, dh);
    box_sum(src, sw, c, x0, x1, y0, y1) / ((y1 - y0) * (x1 - x0))
}

/// The downscaled thumbnail `(w, h, rgba)` of `src`.
pub open spec fn downscaled(src: Seq<u8>, sw: int, sh: int, max_edge: int) -> (int, int, Seq<u8>) {
    if keeps_source(src, sw, sh, max_edge) {
        (sw, sh, src)
    } else {
        let longer = if sw >= sh {
            sw
        } else {
            sh
        };
        let dw = scaled_side(sw, max_edge, longer);
        let dh = scaled_side(sh, max_edge, longer);
        (
            dw,
            dh,
            Seq::new(
                (dw * dh * 4) as nat,
                |k: int| box_pixel(src, sw, sh, dw, dh, (k / 4) % dw, (k / 4) / dw, k % 4) as u8,
            ),
        )
    }
}

proof fn lemma_row_sum_bound(src: Seq<u8>, sw: int, c: int, y: int, x0: int, x1: int)
    ensures
        0 <= row_sum(src, sw, c, y, x0, x1) <= 255 * (if x1 > x0 {
            x1 - x0
        } else {
            0
        }),
    decreases x1 - x0,
{
    if x1 > x0 {
        lemma_row_sum_bound(src, sw, c, y, x0, x1 - 1);
    }
}

proof fn lemma_box_sum_bound(src: Seq<u8>, sw: int, c: int, x0: int, x1: int, y0: int, y1: int)
    requires
        x0 <= x1,
    ensures
        0 <= box_sum(src, sw, c, x0, x1, y0, y1) <= 255 * ((if y1 > y0 {
            y1 - y0
        } else {
            0
        }) * (x1 - x0)),
    decreases y1 - y0,
{
    if y1 > y0 {
        lemma_box_sum_bound(src, sw, c, x0, x1, y0, y1 - 1);
        lemma_row_sum_bound(src, sw, c, y1 - 1, x0, x1);
        lemma_mul_is_distributive_add_other_way(x1 - x0, y1 - 1 - y0, 1);
    }
}

/// A destination band lies inside the source axis and is never empty.
proof fn lemma_band_bounds(i: int, s: int, d: int)
    requires
        0 <= i < d,
        1 <= d <= s,
    ensures
        0 <= band(i, s, d).0 < band(i, s, d).1 <= s,
{
    lemma_mul_nonnegative(i, s);
    lemma_mul_strict_inequality(i, d, s);
    lemma_mul_is_commutative(d, s);
    lemma_multiply_divide_lt(i * s, d, s);
    lemma_div_pos_is_pos(i * s, d);
}

/// Sum each channel of the source box `x0..x1 × y0..y1`.
fn sum_box(src: &[u8], sw: usize, x0: usize, x1: usize, y0: usize, y1: usize) -> (sums: [u128; 4])
    requires
        x0 < x1 <= sw,
        y0 < y1,
        y1 * sw * 4 <= src@.len(),
    ensures
        forall|c: int|
            0 <= c < 4 ==> #[trigger] sums@[c] as int == box_sum(
                src@,
                sw as int,
                c,
                x0 as int,
                x1 as int,
                y0 as int,
                y1 as int,
            ),
{
    let slen = src.len();
    let mut sums: [u128; 4] = [0u128; 4];
    let mut sy: usize = y0;
    while sy < y1
        invariant
            y0 <= sy <= y1,
            x0 < x1 <= sw,
            y1 * sw * 4 <= src@.len(),
            slen == src@.len(),
            sums@.len() == 4,
            forall|c: int|
                0 <= c < 4 ==> #[trigger] sums@[c] as int == box_sum(
                    src@,
                    sw as int,
                    c,
                    x0 as int,
                    x1 as int,
                    y0 as int,
                    sy as int,
                ),
        decreases y1 - sy,
    {
        let mut sx: usize = x0;
        while sx < x1
            invariant
                y0 <= sy < y1,
                x0 <= sx <= x1,
                x1 <= sw,
                y1 * sw * 4 <= src@.len(),
                slen == src@.len(),
                sums@.len() == 4,
                forall|c: int|
                    0 <= c < 4 ==> #[trigger] sums@[c] as int == box_sum(
                        src@,
                        sw as int,
                        c,
                        x0 as int,
                        x1 as int,
                        y0 as int,
                        sy as int,
                    ) + row_sum(src@, sw as int, c, sy as int, x0 as int, sx as int),
            decreases x1 - sx,
        {
            proof {
                lemma_in_image(sx as int, sy as int, sw as int, y1 as int);
                lemma_mul_is_commutative(sw as int, y1 as int);
                lemma_mul_nonnegative(sy as int, sw as int);
            }
            let i: usize = (sy * sw + sx) * 4;
            let ghost prev = sums@;
            proof {
                lemma_mul_upper_bound((sy - y0) as int, sy as int, (x1 - x0) as int, sw as int);
                assert forall|k: int| 0 <= k < 4 implies #[trigger] prev[k] <= 255 * src@.len() by {
                    lemma_box_sum_bound(src@, sw as int, k, x0 as int, x1 as int, y0 as int, sy as int);
                    lemma_row_sum_bound(src@, sw as int, k, sy as int, x0 as int, sx as int);
                }
            }
            let mut c: usize = 0;
            while c < 4
                invariant
                    0 <= c <= 4,
                    sums@.len() == 4,
                    i + 3 < src@.len(),
                    i == (sy * sw + sx) * 4,
                    forall|k: int| 0 <= k < c ==> #[trigger] sums@[k] == prev[k] + src@[i + k],
                    forall|k: int| c <= k < 4 ==> #[trigger] sums@[k] == prev[k],
                    forall|k: int| 0 <= k < 4 ==> #[trigger] prev[k] <= 255 * src@.len(),
                decreases 4 - c,
            {
                let v = sums[c] + src[i + c] as u128;
                sums[c] = v;
                c = c + 1;
            }
            proof {
                assert forall|k: int| 0 <= k < 4 implies #[trigger] sums@[k] as int == box_sum(
                    src@,
                    sw as int,
                    k,
                    x0 as int,
                    x1 as int,
                    y0 as int,
                    sy as int,
                ) + row_sum(src@, sw as int, k, sy as int, x0 as int, (sx + 1) as int) by {
                    assert(sums@[k] == prev[k] + src@[i + k]);
                }
            }
            sx = sx + 1;
        }
        sy = sy + 1;
    }
    sums
}


/// The band `lo..hi` of destination index `i` (of `d`) on a source axis of `s`.
fn band_of(i: u32, s: u32, d: u32) -> (r: (usize, usize))
    requires
        i < d,
        1 <= d <= s,
    ensures
        r.0 as int == band(i as int, s as int, d as int).0,
        r.1 as int == band(i as int, s as int, d as int).1,
        r.0 < r.1 <= s,
{
    proof {
        lemma_band_bounds(i as int, s as int, d as int);
        lemma_mul_upper_bound(i as int + 1, 0xffff_ffff, s as int, 0xffff_ffff);
        lemma_mul_upper_bound(i as int, 0xffff_ffff, s as int, 0xffff_ffff);
    }
    let lo: u128 = ((i as u128) * (s as u128)) / (d as u128);
    let up: u128 = ((i as u128 + 1) * (s as u128) + (d as u128) - 1) / (d as u128);
    let capped: u128 = if up < s as u128 {
        up
    } else {
        s as u128
    };
    let hi: u128 = if capped < lo + 1 {
        lo + 1
    } else {
        capped
    };
    (lo as usize, hi as usize)
}

/// A side scaled by `max_edge / longer` (rounded to nearest, at least one)
/// never exceeds the side itself nor `max(max_edge, 1)` when `max_edge < longer`.
proof fn lemma_scaled_side_bounds(side: int, max_edge: int, longer: int)
    requires
        1 <= side <= longer,
        0 <= max_edge < longer,
    ensures
        1 <= scaled_side(side, max_edge, longer) <= side,
        scaled_side(side, max_edge, longer) <= (if max_edge >= 1 {
            max_edge
        } else {
            1
        }),
{
    let a = 2 * (side * max_edge) + longer;
    lemma_mul_inequality(max_edge, longer - 1, side);
    lemma_mul_inequality(side, longer, max_edge);
    lemma_mul_nonnegative(side, max_edge);
    lemma_mul_is_commutative(max_edge, side);
    lemma_mul_is_distributive_sub_other_way(side, longer, 1);
    lemma_mul_is_commutative(longer, side);
    assert(a < (2 * longer) * (side + 1)) by {
        lemma_mul_is_distributive_add(2 * longer, side, 1);
        lemma_mul_is_associative(2, longer, side);
    }
    lemma_multiply_divide_lt(a, 2 * longer, side + 1);
    assert(a < (2 * longer) * (max_edge + 1)) by {
        lemma_mul_is_distributive_add(2 * longer, max_edge, 1);
        lemma_mul_is_associative(2, longer, max_edge);
        lemma_mul_is_commutative(longer, max_edge);
    }
    lemma_multiply_divide_lt(a, 2 * longer, max_edge + 1);
}

/// The side `side` of a source whose longer edge is `longer`, scaled so the
/// longer edge becomes `max_edge` (see [`scaled_side`]).
fn scale_side(side: u32, max_edge: u32, longer: u32) -> (r: u32)
    requires
        1 <= side <= longer,
        max_edge < longer,
    ensures
        r as int == scaled_side(side as int, max_edge as int, longer as int),
        1 <= r <= side,
{
    proof {
        lemma_scaled_side_bounds(side as int, max_edge as int, longer as int);
        lemma_mul_upper_bound(side as int, 0xffff_ffff, max_edge as int, 0xffff_ffff);
    }
    let q: u128 = (2 * ((side as u128) * (max_edge as u128)) + longer as u128) / (2 * (longer as u128));
    if q < 1 {
        1
    } else {
        q as u32
    }
}

/// Downscale tightly-packed RGBA8 `src` (`sw`×`sh`) so its longer edge is at
/// most `max_edge`, preserving aspect. A box (area-average) filter — cheap and
/// clean enough for a panel thumbnail. Returns the source unchanged when it
/// already fits (never upscales) or when a degenerate size would result.
pub fn downscale_to_max_edge(sw: u32, sh: u32, src: &[u8], max_edge: u32) -> (r: (u32, u32, Vec<u8>))
    ensures
        (r.0 as int, r.1 as int, r.2@) == downscaled(src@, sw as int, sh as int, max_edge as int),
        !keeps_source(src@, sw as int, sh as int, max_edge as int) ==> {
            &&& 1 <= r.0 <= sw
            &&& 1 <= r.1 <= sh
            &&& r.0 <= (if max_edge >= 1 { max_edge } else { 1 })
            &&& r.1 <= (if max_edge >= 1 { max_edge } else { 1 })
        },
{
    let slen = src.len();
    proof {
        lemma_mul_upper_bound(sw as int, 0xffff_ffff, sh as int, 0xffff_ffff);
    }
    if sw == 0 || sh == 0 || (slen as u128) < (sw as u128) * (sh as u128) * 4 {
        return (sw, sh, vstd::slice::slice_to_vec(src));
    }
    let longer = if sw >= sh {
        sw
    } else {
        sh
    };
    if longer <= max_edge {
        return (sw, sh, vstd::slice::slice_to_vec(src));
    }
    let dw = scale_side(sw, max_edge, longer);
    let dh = scale_side(sh, max_edge, longer);
    proof {
        lemma_scaled_side_bounds(sw as int, max_edge as int, longer as int);
        lemma_scaled_side_bounds(sh as int, max_edge as int, longer as int);
        lemma_mul_inequality(dw as int, sw as int, dh as int);
        lemma_mul_inequality(dh as int, sh as int, sw as int);
        lemma_mul_is_commutative(dh as int, sw as int);
        lemma_mul_is_commutative(sh as int, sw as int);
    }
    let ghost spec_img = downscaled(src@, sw as int, sh as int, max_edge as int).2;
    let mut out: Vec<u8> = Vec::new();
    let mut dy: u32 = 0;
    while dy < dh
        invariant
            dy <= dh,
            1 <= dw <= sw,
            1 <= dh <= sh,
            slen == src@.len(),
            src@.len() >= sw * sh * 4,
            dw * dh <= sw * sh,
            out@.len() == (dy * dw) * 4,
            forall|k: int|
                0 <= k < out@.len() ==> #[trigger] out@[k] == box_pixel(
                    src@,
                    sw as int,
                    sh as int,
                    dw as int,
                    dh as int,
                    (k / 4) % (dw as int),
                    (k / 4) / (dw as int),
                    k % 4,
                ) as u8,
        decreases dh - dy,
    {
        let (y0, y1) = band_of(dy, sh, dh);
        let mut dx: u32 = 0;
        while dx < dw
            invariant
                dy < dh,
                dx <= dw,
                1 <= dw <= sw,
                1 <= dh <= sh,
                slen == src@.len(),
                src@.len() >= sw * sh * 4,
                dw * dh <= sw * sh,
                y0 as int == band(dy as int, sh as int, dh as int).0,
                y1 as int == band(dy as int, sh as int, dh as int).1,
                y0 < y1 <= sh,
                out@.len() == (dy * dw + dx) * 4,
                forall|k: int|
                    0 <= k < out@.len() ==> #[trigger] out@[k] == box_pixel(
                        src@,
                        sw as int,
                        sh as int,
                        dw as int,
                        dh as int,
                        (k / 4) % (dw as int),
                        (k / 4) / (dw as int),
                        k % 4,
                    ) as u8,
            decreases dw - dx,
        {
            let (x0, x1) = band_of(dx, sw, dw);
            proof {
                lemma_mul_inequality(y1 as int, sh as int, sw as int);
                lemma_mul_is_commutative(sh as int, sw as int);
                lemma_in_image(dx as int, dy as int, dw as int, dh as int);
                lemma_mul_upper_bound((y1 - y0) as int, sh as int, (x1 - x0) as int, sw as int);
                lemma_mul_strictly_positive((y1 - y0) as int, (x1 - x0) as int);
            }
            let sums = sum_box(src, sw as usize, x0, x1, y0, y1);
            let area: u128 = ((y1 - y0) as u128) * ((x1 - x0) as u128);
            let ghost base = out@.len() as int;
            let ghost before = out@;
            let mut c: usize = 0;
            while c < 4
                invariant
                    0 <= c <= 4,
                    out@.len() == base + c,
                    base == (dy * dw + dx) * 4,
                    x0 < x1,
                    0 < area,
                    area == (y1 - y0) * (x1 - x0),
                    forall|k: int| 0 <= k < base ==> #[trigger] out@[k] == before[k],
                    forall|k: int|
                        0 <= k < c ==> #[trigger] out@[base + k] as int == sums@[k] as int / (area as int),
                    forall|k: int|
                        0 <= k < 4 ==> #[trigger] sums@[k] as int == box_sum(
                            src@,
                            sw as int,
                            k,
                            x0 as int,
                            x1 as int,
                            y0 as int,
                            y1 as int,
                        ),
                decreases 4 - c,
            {
                proof {
                    lemma_box_sum_bound(src@, sw as int, c as int, x0 as int, x1 as int, y0 as int, y1 as int);
                    lemma_div_is_ordered(sums@[c as int] as int, 255 * (area as int), area as int);
                    lemma_div_multiples_vanish(255, area as int);
                    lemma_mul_is_commutative(255, area as int);
                }
                let v = sums[c] / area;
                out.push(v as u8);
                c = c + 1;
            }
            proof {
                assert forall|k: int| 0 <= k < out@.len() implies #[trigger] out@[k] == box_pixel(
                    src@,
                    sw as int,
                    sh as int,
                    dw as int,
                    dh as int,
                    (k / 4) % (dw as int),
                    (k / 4) / (dw as int),
                    k % 4,
                ) as u8 by {
                    if k < base {
                        assert(out@[k] == before[k]);
                    } else {
                        let c = k - base;
                        lemma_pixel_index(k, dw as int, dx as int, dy as int, c);
                        assert(out@[base + c] as int == sums@[c] as int / (area as int));
                    }
                }
            }
            dx = dx + 1;
        }
        proof {
            lemma_mul_is_distributive_add_other_way(dw as int, dy as int, 1);
        }
        dy = dy + 1;
    }
    proof {
        lemma_mul_is_commutative(dw as int, dh as int);
        assert(out@ =~= spec_img);
    }
    (dw, dh, out)
}

/// What the cache reports for an item is what was last stored for it: after
/// storing `status` for `id`, the snapshot word for `id` is that status's
/// word and its detail block that status's metadata, and every other item
/// reports what it did before.
pub proof fn law_probe_result_reads_back(statuses: Map<u128, MediaStatus>, id: u128, status: MediaStatus, other: u128)
    ensures
        entry(statuses.insert(id, status), id) == Some(status),
        status_word(entry(statuses.insert(id, status), id)) == status_word(Some(status)),
        other != id ==> entry(statuses.insert(id, status), other) == entry(statuses, other),
{
}

/// A cleared (or fresh) cache reports every item as unprobed, with no detail.
pub proof fn law_cleared_cache_is_unprobed(id: u128)
    ensures
        entry(Map::<u128, MediaStatus>::empty(), id) is None,
        status_word(entry(Map::<u128, MediaStatus>::empty(), id)) == "unprobed"@,
{
}

/// A thumbnail stored for an item at an edge within `1..=4096` is exactly
/// what a later request at that edge hits.
pub proof fn law_stored_thumbnail_is_hit(cache: MediaCache, id: u128, max_edge: u32, t: (u32, u32, Seq<u8>))
    requires
        cache.thumb(id, max_edge) == Some(t),
        1 <= max_edge <= 4096,
    ensures
        cache.thumb(id, thumb_edge(max_edge)) == Some(t),
{
}

/// Every in-range pixel of a solid image reads the same byte.
proof fn lemma_solid_byte(px: Seq<u8>, sw: int, sh: int, x: int, y: int, c: int)
    requires
        px.len() == 4,
        0 <= x < sw,
        0 <= y < sh,
        0 <= c < 4,
    ensures
        src_at(tiled(px, (sw * sh) as nat), sw, x, y, c) == px[c] as int,
{
    lemma_in_image(x, y, sw, sh);
    lemma_mul_is_commutative(sw, sh);
    lemma_fundamental_div_mod_converse((y * sw + x) * 4 + c, 4, y * sw + x, c);
}

proof fn lemma_row_sum_solid(px: Seq<u8>, sw: int, sh: int, c: int, y: int, x0: int, x1: int)
    requires
        px.len() == 4,
        0 <= x0 <= x1 <= sw,
        0 <= y < sh,
        0 <= c < 4,
    ensures
        row_sum(tiled(px, (sw * sh) as nat), sw, c, y, x0, x1) == px[c] as int * (x1 - x0),
    decreases x1 - x0,
{
    if x1 > x0 {
        lemma_row_sum_solid(px, sw, sh, c, y, x0, x1 - 1);
        lemma_solid_byte(px, sw, sh, x1 - 1, y, c);
        lemma_mul_is_distributive_add(px[c] as int, x1 - 1 - x0, 1);
        assert(x1 - 1 - x0 + 1 == x1 - x0);
    } else {
        lemma_mul_by_zero_is_zero(px[c] as int);
        assert(x1 - x0 == 0);
    }
}

proof fn lemma_box_sum_solid(px: Seq<u8>, sw: int, sh: int, c: int, x0: int, x1: int, y0: int, y1: int)
    requires
        px.len() == 4,
        0 <= x0 <= x1 <= sw,
        0 <= y0 <= y1 <= sh,
        0 <= c < 4,
    ensures
        box_sum(tiled(px, (sw * sh) as nat), sw, c, x0, x1, y0, y1) == px[c] as int * ((y1 - y0) * (
        x1 - x0)),
    decreases y1 - y0,
{
    if y1 > y0 {
        lemma_box_sum_solid(px, sw, sh, c, x0, x1, y0, y1 - 1);
        lemma_row_sum_solid(px, sw, sh, c, y1 - 1, x0, x1);
        lemma_mul_is_distributive_add_other_way(x1 - x0, y1 - 1 - y0, 1);
        lemma_mul_is_distributive_add(px[c] as int, (y1 - 1 - y0) * (x1 - x0), x1 - x0);
        assert(y1 - 1 - y0 + 1 == y1 - y0);
    } else {
        lemma_mul_by_zero_is_zero(x1 - x0);
        lemma_mul_by_zero_is_zero(px[c] as int);
        assert(y1 - y0 == 0);
    }
}

/// Downscaling a solid colour gives a solid thumbnail of the same colour.
pub proof fn law_downscale_keeps_a_solid_colour(px: Seq<u8>, sw: int, sh: int, max_edge: int)
    requires
        px.len() == 4,
        1 <= sw,
        1 <= sh,
        0 <= max_edge < (if sw >= sh {
            sw
        } else {
            sh
        }),
    ensures
        ({
            let d = downscaled(tiled(px, (sw * sh) as nat), sw, sh, max_edge);
            d.2 == tiled(px, (d.0 * d.1) as nat)
        }),
{
    let src = tiled(px, (sw * sh) as nat);
    lemma_mul_nonnegative(sw, sh);
    assert(!keeps_source(src, sw, sh, max_edge));
    let longer = if sw >= sh {
        sw
    } else {
        sh
    };
    let dw = scaled_side(sw, max_edge, longer);
    let dh = scaled_side(sh, max_edge, longer);
    lemma_scaled_side_bounds(sw, max_edge, longer);
    lemma_scaled_side_bounds(sh, max_edge, longer);
    let d = downscaled(src, sw, sh, max_edge);
    lemma_mul_strictly_positive(dw, dh);
    assert forall|k: int| 0 <= k < d.2.len() implies #[trigger] d.2[k] == tiled(px, (dw * dh) as nat)[k] by {
        let p = k / 4;
        let c = k % 4;
        lemma_multiply_divide_lt(k, 4, dw * dh);
        lemma_multiply_divide_lt(p, dw, dh);
        lemma_div_pos_is_pos(k, 4);
        lemma_div_pos_is_pos(p, dw);
        lemma_mod_bound(p, dw);
        lemma_mod_bound(k, 4);
        let dx = p % dw;
        let dy = p / dw;
        lemma_band_bounds(dx, sw, dw);
        lemma_band_bounds(dy, sh, dh);
        let (x0, x1) = band(dx, sw, dw);
        let (y0, y1) = band(dy, sh, dh);
        lemma_box_sum_solid(px, sw, sh, c, x0, x1, y0, y1);
        lemma_mul_strictly_positive(y1 - y0, x1 - x0);
        lemma_div_multiples_vanish(px[c] as int, (y1 - y0) * (x1 - x0));
        lemma_mul_is_commutative(px[c] as int, (y1 - y0) * (x1 - x0));
    }
    assert(d.2 =~= tiled(px, (dw * dh) as nat));
}

/// A destination band is exactly the source pixels its cell overlaps: from
/// `⌊i·s/d⌋` up to `⌈(i+1)·s/d⌉` (neither cap ever applies).
proof fn lemma_band_exact(i: int, s: int, d: int)
    requires
        0 <= i < d,
        1 <= d <= s,
    ensures
        band(i, s, d) == ((i * s) / d, ((i + 1) * s + d - 1) / d),
{
    let lo = (i * s) / d;
    let up = ((i + 1) * s + d - 1) / d;
    lemma_mul_nonnegative(i, s);
    lemma_fundamental_div_mod(i * s, d);
    lemma_mod_bound(i * s, d);
    lemma_fundamental_div_mod((i + 1) * s + d - 1, d);
    lemma_mod_bound((i + 1) * s + d - 1, d);
    assert((i + 1) * s == i * s + s) by (nonlinear_arith);
    assert((i + 1) * s <= d * s) by (nonlinear_arith)
        requires
            i + 1 <= d,
            s >= 1,
    ;
    assert(up <= s) by (nonlinear_arith)
        requires
            d * up <= (i + 1) * s + d - 1,
            (i + 1) * s <= d * s,
            d >= 1,
    ;
    assert(up >= lo + 1) by (nonlinear_arith)
        requires
            d * up + ((i + 1) * s + d - 1) % d == (i + 1) * s + d - 1,
            ((i + 1) * s + d - 1) % d < d,
            d * lo <= i * s,
            (i + 1) * s == i * s + s,
            s >= 1,
            d >= 1,
    ;
}

/// The box sum over a single pixel is that pixel's byte.
proof fn lemma_box_sum_one(src: Seq<u8>, sw: int, c: int, x: int, y: int)
    ensures
        box_sum(src, sw, c, x, x + 1, y, y + 1) == src_at(src, sw, x, y, c),
{
    reveal_with_fuel(box_sum, 2);
    reveal_with_fuel(row_sum, 2);
}

/// Every thumbnail pixel is the average of exactly the source pixels its
/// cell covers: destination pixel `(dx, dy)` of the `dw × dh` result averages
/// (rounding down) source columns `⌊dx·sw/dw⌋ .. ⌈(dx+1)·sw/dw⌉` and rows
/// `⌊dy·sh/dh⌋ .. ⌈(dy+1)·sh/dh⌉` — so the top of the thumbnail is the top
/// of the source and its left the source's left. A source that already fits
/// comes back as it is, which is the same statement with one pixel per cell.
pub proof fn law_downscale_averages_each_cell(
    src: Seq<u8>,
    sw: int,
    sh: int,
    max_edge: int,
    dx: int,
    dy: int,
    c: int,
)
    requires
        sw >= 1,
        sh >= 1,
        max_edge >= 0,
        src.len() >= sw * sh * 4,
        0 <= dx < downscaled(src, sw, sh, max_edge).0,
        0 <= dy < downscaled(src, sw, sh, max_edge).1,
        0 <= c < 4,
    ensures
        ({
            let (dw, dh, out) = downscaled(src, sw, sh, max_edge);
            let x0 = (dx * sw) / dw;
            let x1 = ((dx + 1) * sw + dw - 1) / dw;
            let y0 = (dy * sh) / dh;
            let y1 = ((dy + 1) * sh + dh - 1) / dh;
            &&& (dy * dw + dx) * 4 + c < out.len()
            &&& out[(dy * dw + dx) * 4 + c] as int == box_sum(src, sw, c, x0, x1, y0, y1) / ((y1 - y0) * (
            x1 - x0))
        }),
{
    let (dw, dh, out) = downscaled(src, sw, sh, max_edge);
    let k = (dy * dw + dx) * 4 + c;
    lemma_in_image(dx, dy, dw, dh);
    lemma_pixel_index(k, dw, dx, dy, c);
    if keeps_source(src, sw, sh, max_edge) {
        lemma_in_image(dx, dy, sw, sh);
        lemma_div_by_multiple(dx, sw);
        lemma_div_by_multiple(dy, sh);
        assert((dx + 1) * sw + sw - 1 == sw * (dx + 1) + (sw - 1)) by (nonlinear_arith);
        assert((dy + 1) * sh + sh - 1 == sh * (dy + 1) + (sh - 1)) by (nonlinear_arith);
        lemma_fundamental_div_mod_converse((dx + 1) * sw + sw - 1, sw, dx + 1, sw - 1);
        lemma_fundamental_div_mod_converse((dy + 1) * sh + sh - 1, sh, dy + 1, sh - 1);
        lemma_box_sum_one(src, sw, c, dx, dy);
        assert(out == src);
        assert(src_at(src, sw, dx, dy, c) == src[k] as int);
        assert(((dy + 1 - dy) * (dx + 1 - dx)) == 1);
        assert(box_sum(src, sw, c, dx, dx + 1, dy, dy + 1) / 1 == src_at(src, sw, dx, dy, c));
    } else {
        let longer = if sw >= sh {
            sw
        } else {
            sh
        };
        lemma_scaled_side_bounds(sw, max_edge, longer);
        lemma_scaled_side_bounds(sh, max_edge, longer);
        lemma_mul_strictly_positive(dw, dh);
        assert(0 <= k < dw * dh * 4);
        lemma_band_exact(dx, sw, dw);
        lemma_band_exact(dy, sh, dh);
        lemma_band_bounds(dx, sw, dw);
        lemma_band_bounds(dy, sh, dh);
        let (x0, x1) = band(dx, sw, dw);
        let (y0, y1) = band(dy, sh, dh);
        lemma_box_sum_bound(src, sw, c, x0, x1, y0, y1);
        lemma_mul_strictly_positive(y1 - y0, x1 - x0);
        let area = (y1 - y0) * (x1 - x0);
        lemma_div_is_ordered(box_sum(src, sw, c, x0, x1, y0, y1), 255 * area, area);
        lemma_div_multiples_vanish(255, area);
        lemma_mul_is_commutative(255, area);
        lemma_div_pos_is_pos(box_sum(src, sw, c, x0, x1, y0, y1), area);
        assert(out[k] == box_pixel(src, sw, sh, dw, dh, dx, dy, c) as u8);
        assert(0 <= box_pixel(src, sw, sh, dw, dh, dx, dy, c) <= 255);
        assert(out[k] as int == box_pixel(src, sw, sh, dw, dh, dx, dy, c));
    }
}

/// A row segment whose bytes all equal `v` sums to `v` times its length.
proof fn lemma_row_sum_const(src: Seq<u8>, sw: int, c: int, y: int, x0: int, x1: int, v: int)
    requires
        x0 <= x1,
        forall|x: int| x0 <= x < x1 ==> #[trigger] src_at(src, sw, x, y, c) == v,
    ensures
        row_sum(src, sw, c, y, x0, x1) == v * (x1 - x0),
    decreases x1 - x0,
{
    if x1 > x0 {
        lemma_row_sum_const(src, sw, c, y, x0, x1 - 1, v);
        assert(src_at(src, sw, x1 - 1, y, c) == v);
        lemma_mul_is_distributive_add(v, x1 - 1 - x0, 1);
    } else {
        lemma_mul_by_zero_is_zero(v);
    }
}

/// A box whose bytes all equal `v` sums to `v` times its area.
proof fn lemma_box_sum_const(src: Seq<u8>, sw: int, c: int, x0: int, x1: int, y0: int, y1: int, v: int)
    requires
        x0 <= x1,
        y0 <= y1,
        forall|x: int, y: int| x0 <= x < x1 && y0 <= y < y1 ==> #[trigger] src_at(src, sw, x, y, c) == v,
    ensures
        box_sum(src, sw, c, x0, x1, y0, y1) == v * ((y1 - y0) * (x1 - x0)),
    decreases y1 - y0,
{
    if y1 > y0 {
        lemma_box_sum_const(src, sw, c, x0, x1, y0, y1 - 1, v);
        assert forall|x: int| x0 <= x < x1 implies #[trigger] src_at(src, sw, x, y1 - 1, c) == v by {}
        lemma_row_sum_const(src, sw, c, y1 - 1, x0, x1, v);
        lemma_mul_is_distributive_add_other_way(x1 - x0, y1 - 1 - y0, 1);
        lemma_mul_is_distributive_add(v, (y1 - 1 - y0) * (x1 - x0), x1 - x0);
    } else {
        lemma_mul_by_zero_is_zero(x1 - x0);
        lemma_mul_by_zero_is_zero(v);
    }
}

/// A source pixel inside the band `⌊i·s/d⌋ .. ⌈(i+1)·s/d⌉` overlaps the
/// destination cell `i·s/d .. (i+1)·s/d` and lies on the source axis.
proof fn lemma_band_pixel_overlaps(i: int, s: int, d: int, x: int)
    requires
        0 <= i < d,
        1 <= d <= s,
        (i * s) / d <= x < ((i + 1) * s + d - 1) / d,
    ensures
        0 <= x < s,
        (x + 1) * d > i * s,
        x * d < (i + 1) * s,
{
    lemma_band_exact(i, s, d);
    lemma_band_bounds(i, s, d);
    let lo = (i * s) / d;
    let up = ((i + 1) * s + d - 1) / d;
    lemma_mul_nonnegative(i, s);
    lemma_fundamental_div_mod(i * s, d);
    lemma_mod_bound(i * s, d);
    lemma_fundamental_div_mod((i + 1) * s + d - 1, d);
    lemma_mod_bound((i + 1) * s + d - 1, d);
    assert((x + 1) * d > i * s) by (nonlinear_arith)
        requires
            x >= lo,
            d * lo + (i * s) % d == i * s,
            (i * s) % d < d,
            d >= 1,
    ;
    assert(x * d < (i + 1) * s) by (nonlinear_arith)
        requires
            x <= up - 1,
            d * up + ((i + 1) * s + d - 1) % d == (i + 1) * s + d - 1,
            0 <= ((i + 1) * s + d - 1) % d,
            d >= 1,
    ;
}

/// A thumbnail pixel shows what its cell of the source shows: when every
/// source pixel overlapping destination cell `(dx, dy)` (the source area
/// `dx·sw/dw .. (dx+1)·sw/dw` by `dy·sh/dh .. (dy+1)·sh/dh`) has byte `v` in
/// channel `c`, the thumbnail pixel has `v` there too. An image whose top
/// half is one colour and bottom half another thus keeps its top half on top.
pub proof fn law_downscale_keeps_a_uniform_cell(
    src: Seq<u8>,
    sw: int,
    sh: int,
    max_edge: int,
    dx: int,
    dy: int,
    c: int,
    v: u8,
)
    requires
        sw >= 1,
        sh >= 1,
        max_edge >= 0,
        src.len() >= sw * sh * 4,
        0 <= dx < downscaled(src, sw, sh, max_edge).0,
        0 <= dy < downscaled(src, sw, sh, max_edge).1,
        0 <= c < 4,
        forall|x: int, y: int|
            0 <= x < sw && 0 <= y < sh && (x + 1) * downscaled(src, sw, sh, max_edge).0 > dx * sw && x
                * downscaled(src, sw, sh, max_edge).0 < (dx + 1) * sw && (y + 1) * downscaled(
                src,
                sw,
                sh,
                max_edge,
            ).1 > dy * sh && y * downscaled(src, sw, sh, max_edge).1 < (dy + 1) * sh ==> #[trigger] src_at(
                src,
                sw,
                x,
                y,
                c,
            ) == v,
    ensures
        ({
            let (dw, dh, out) = downscaled(src, sw, sh, max_edge);
            out[(dy * dw + dx) * 4 + c] == v
        }),
{
    let (dw, dh, out) = downscaled(src, sw, sh, max_edge);
    law_downscale_averages_each_cell(src, sw, sh, max_edge, dx, dy, c);
    if !keeps_source(src, sw, sh, max_edge) {
        let longer = if sw >= sh {
            sw
        } else {
            sh
        };
        lemma_scaled_side_bounds(sw, max_edge, longer);
        lemma_scaled_side_bounds(sh, max_edge, longer);
    }
    assert(1 <= dw <= sw && 1 <= dh <= sh);
    lemma_band_exact(dx, sw, dw);
    lemma_band_exact(dy, sh, dh);
    lemma_band_bounds(dx, sw, dw);
    lemma_band_bounds(dy, sh, dh);
    let x0 = (dx * sw) / dw;
    let x1 = ((dx + 1) * sw + dw - 1) / dw;
    let y0 = (dy * sh) / dh;
    let y1 = ((dy + 1) * sh + dh - 1) / dh;
    assert forall|x: int, y: int| x0 <= x < x1 && y0 <= y < y1 implies #[trigger] src_at(src, sw, x, y, c)
        == v as int by {
        lemma_band_pixel_overlaps(dx, sw, dw, x);
        lemma_band_pixel_overlaps(dy, sh, dh, y);
    }
    lemma_box_sum_const(src, sw, c, x0, x1, y0, y1, v as int);
    lemma_mul_strictly_positive(y1 - y0, x1 - x0);
    lemma_div_multiples_vanish(v as int, (y1 - y0) * (x1 - x0));
    lemma_mul_is_commutative(v as int, (y1 - y0) * (x1 - x0));
}

} // verus!
