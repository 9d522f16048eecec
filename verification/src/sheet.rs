//! Rendered icons, their deduplication, and the sprite sheet built from them.

use crate::canvas::{covers, paint, paint_pixels, source_offset};
use crate::index::{SpriteIndex, SpriteIndexEntry, id_bytes};
use crate::order::{bytes_equal, bytes_lt, key_before, slice_views, sorted_order, sorted_positions};
use crate::png::{encode, spec_encode};
use crate::potpack::{
    Layout, PackItem, PackState, Rectangle, adjusted_area, disjoint, layout_is, pack, pack_items,
    pack_law_requires, pack_requires, packed, rect_region, spec_ceil_sqrt, total_area,
};
use vstd::prelude::*;
use vstd::string::{StringExecFns, StringSliceAdditionalSpecFns};

verus! {

/// An error produced while rendering an icon or building a sprite sheet.
#[derive(Debug)]
pub enum Error {
    /// The icon source could not be parsed as SVG.
    InvalidSvg {
        /// The caller-provided icon identifier.
        id: String,
        /// The parser's description of the failure.
        reason: String,
    },
    /// More than one icon used the same identifier.
    DuplicateId(String),
    /// No icons were provided to the sprite builder.
    Empty,
    /// An icon had a zero pixel width or height.
    ZeroSize {
        /// The caller-provided icon identifier.
        id: String,
    },
}

/// The text that describes `e`.
pub open spec fn error_message(e: Error) -> Seq<char> {
    match e {
        Error::InvalidSvg { id, reason } => "invalid SVG for icon `"@ + id@ + "`: "@ + reason@,
        Error::DuplicateId(id) => "duplicate icon id `"@ + id@ + "`"@,
        Error::Empty => "no icons given"@,
        Error::ZeroSize { id } => "icon `"@ + id@ + "` has zero size"@,
    }
}

impl Error {
    /// The text that describes the error.
    pub fn message(&self) -> (m: String)
        ensures
            m@ == error_message(*self),
    {
        match self {
            Error::InvalidSvg { id, reason } => {
                let mut m = String::from_str("invalid SVG for icon `");
                m.append(id.as_str());
                m.append("`: ");
                m.append(reason.as_str());
                m
            },
            Error::DuplicateId(id) => {
                let mut m = String::from_str("duplicate icon id `");
                m.append(id.as_str());
                m.append("`");
                m
            },
            Error::Empty => String::from_str("no icons given"),
            Error::ZeroSize { id } => {
                let mut m = String::from_str("icon `");
                m.append(id.as_str());
                m.append("` has zero size");
                m
            },
        }
    }
}

/// A rasterized icon with straight-alpha RGBA pixels.
pub struct RenderedIcon {
    /// The identifier used as the sprite index key.
    pub id: String,
    /// The pixel width after applying the requested pixel ratio.
    pub width: u32,
    /// The pixel height after applying the requested pixel ratio.
    pub height: u32,
    /// Straight (non-premultiplied) RGBA pixels in row-major order.
    pub pixels: Vec<u8>,
}

/// The bytes of an icon's id, whose order is the order of `str`.
pub open spec fn id_key(icon: RenderedIcon) -> Seq<u8> {
    vstd::utf8::encode_utf8(icon.id@)
}

/// The id bytes of each icon.
pub open spec fn icon_keys(icons: Seq<RenderedIcon>) -> Seq<Seq<u8>> {
    icons.map_values(|icon: RenderedIcon| id_key(icon))
}

/// A primary sort key that ties everywhere, so that sorting goes by id.
pub open spec fn zero_keys(n: int) -> Seq<u64> {
    Seq::new(n as nat, |i: int| 0u64)
}

/// The icons sorted by id; icons with equal ids keep their input order.
pub open spec fn ordered_icons(icons: Seq<RenderedIcon>) -> Seq<RenderedIcon> {
    let order = sorted_positions(zero_keys(icons.len() as int), icon_keys(icons), icons.len() as int);
    Seq::new(icons.len(), |k: int| icons[order[k] as int])
}

/// The first position from `k` on whose id equals the next icon's id.
pub open spec fn first_duplicate(ordered: Seq<RenderedIcon>, k: int) -> Option<int>
    decreases ordered.len() - k,
{
    if k < 0 || k + 1 >= ordered.len() {
        None
    } else if ordered[k].id@ == ordered[k + 1].id@ {
        Some(k)
    } else {
        first_duplicate(ordered, k + 1)
    }
}

/// The first position from `k` on of an icon with no pixels.
pub open spec fn first_zero_size(ordered: Seq<RenderedIcon>, k: int) -> Option<int>
    decreases ordered.len() - k,
{
    if k < 0 || k >= ordered.len() {
        None
    } else if ordered[k].width == 0 || ordered[k].height == 0 {
        Some(k)
    } else {
        first_zero_size(ordered, k + 1)
    }
}

/// Why a set of icons makes no sprite sheet.
pub enum BuildFailure {
    /// There are no icons.
    Empty,
    /// This id is used by more than one icon.
    DuplicateId(Seq<char>),
    /// The icon with this id has no pixels.
    ZeroSize(Seq<char>),
}

/// The failure of building from `icons`, if any: no icons; else the
/// smallest id used twice; else the smallest id of an icon without pixels.
pub open spec fn build_failure(icons: Seq<RenderedIcon>) -> Option<BuildFailure> {
    let ordered = ordered_icons(icons);
    if icons.len() == 0 {
        Some(BuildFailure::Empty)
    } else {
        match first_duplicate(ordered, 0) {
            Some(k) => Some(BuildFailure::DuplicateId(ordered[k].id@)),
            None => match first_zero_size(ordered, 0) {
                Some(k) => Some(BuildFailure::ZeroSize(ordered[k].id@)),
                None => None,
            },
        }
    }
}

/// `err` is the error that reports `failure`.
pub open spec fn reports(err: Error, failure: BuildFailure) -> bool {
    match failure {
        BuildFailure::Empty => err is Empty,
        BuildFailure::DuplicateId(id) => err matches Error::DuplicateId(e) && e@ == id,
        BuildFailure::ZeroSize(id) => err matches Error::ZeroSize { id: e } && e@ == id,
    }
}

// ---------------------------------------------------------------------
// Deduplication.
// ---------------------------------------------------------------------

/// Two icons have the same size and the same pixel bytes.
pub open spec fn same_image(a: RenderedIcon, b: RenderedIcon) -> bool {
    a.width == b.width && a.height == b.height && a.pixels@ == b.pixels@
}

/// The first position from `j` on whose icon looks like icon `k`.
pub open spec fn first_same_from(icons: Seq<RenderedIcon>, k: int, j: int) -> int
    decreases k - j,
{
    if j >= k {
        k
    } else if same_image(icons[j], icons[k]) {
        j
    } else {
        first_same_from(icons, k, j + 1)
    }
}

/// The first icon that looks like icon `k`: its representative.
pub open spec fn first_same(icons: Seq<RenderedIcon>, k: int) -> int {
    first_same_from(icons, k, 0)
}

/// The positions among the first `m` icons that represent themselves.
pub open spec fn representatives(icons: Seq<RenderedIcon>, m: int) -> Seq<int>
    decreases m,
{
    if m <= 0 {
        Seq::empty()
    } else if first_same(icons, m - 1) == m - 1 {
        representatives(icons, m - 1).push(m - 1)
    } else {
        representatives(icons, m - 1)
    }
}

/// The slot, among the representatives, of icon `k`'s representative.
pub open spec fn slot_of(icons: Seq<RenderedIcon>, k: int) -> int {
    representatives(icons, first_same(icons, k)).len() as int
}

proof fn lemma_first_same_from(icons: Seq<RenderedIcon>, k: int, j: int)
    requires
        0 <= j <= k < icons.len(),
    ensures
        j <= first_same_from(icons, k, j) <= k,
        same_image(icons[first_same_from(icons, k, j)], icons[k]),
        forall|t: int| j <= t < first_same_from(icons, k, j) ==> !same_image(#[trigger] icons[t], icons[k]),
    decreases k - j,
{
    if j < k && !same_image(icons[j], icons[k]) {
        lemma_first_same_from(icons, k, j + 1);
    }
}

/// The representative of `k` is the first icon that looks like it.
proof fn lemma_first_same(icons: Seq<RenderedIcon>, k: int)
    requires
        0 <= k < icons.len(),
    ensures
        0 <= first_same(icons, k) <= k,
        same_image(icons[first_same(icons, k)], icons[k]),
        forall|t: int| 0 <= t < first_same(icons, k) ==> !same_image(#[trigger] icons[t], icons[k]),
        first_same(icons, first_same(icons, k)) == first_same(icons, k),
{
    lemma_first_same_from(icons, k, 0);
    let f = first_same(icons, k);
    lemma_first_same_from(icons, f, 0);
    let g = first_same(icons, f);
    if g < f {
        assert(same_image(icons[g], icons[k]));
    }
}

/// An icon that represents itself and looks like `k` is `k`'s representative.
proof fn lemma_rep_match(icons: Seq<RenderedIcon>, r: int, k: int)
    requires
        0 <= r < icons.len(),
        0 <= k < icons.len(),
        first_same(icons, r) == r,
        same_image(icons[r], icons[k]),
    ensures
        first_same(icons, k) == r,
{
    lemma_first_same(icons, k);
    lemma_first_same(icons, r);
    let f = first_same(icons, k);
    if f < r {
        assert(same_image(icons[f], icons[r]));
    } else if r < f {
        assert(!same_image(icons[r], icons[k]));
    }
}

proof fn lemma_representatives(icons: Seq<RenderedIcon>, m: int)
    requires
        0 <= m <= icons.len(),
    ensures
        forall|s: int|
            0 <= s < representatives(icons, m).len() ==> 0 <= #[trigger] representatives(icons, m)[s] < m
                && first_same(icons, representatives(icons, m)[s]) == representatives(icons, m)[s],
        forall|a: int, b: int|
            0 <= a < b < representatives(icons, m).len() ==> #[trigger] representatives(icons, m)[a]
                < #[trigger] representatives(icons, m)[b],
        forall|j: int|
            0 <= j < m && first_same(icons, j) == j ==> #[trigger] representatives(icons, m)[representatives(
                icons,
                j,
            ).len() as int] == j && representatives(icons, j).len() < representatives(icons, m).len(),
    decreases m,
{
    if m > 0 {
        lemma_representatives(icons, m - 1);
        let prev = representatives(icons, m - 1);
        let cur = representatives(icons, m);
        assert forall|j: int| 0 <= j < m && first_same(icons, j) == j implies #[trigger] cur[representatives(
            icons,
            j,
        ).len() as int] == j && representatives(icons, j).len() < cur.len() by {
            if j < m - 1 {
                assert(prev[representatives(icons, j).len() as int] == j);
            }
        }
    }
}

/// Icons with distinct images, and for each icon the slot of its image.
pub struct Deduplicated<'a> {
    pub representatives: Vec<&'a RenderedIcon>,
    pub representative_for_icon: Vec<usize>,
}

/// Groups pixel-identical icons; the first icon of each group represents it.
pub fn deduplicate<'a>(icons: &[&'a RenderedIcon]) -> (d: Deduplicated<'a>)
    ensures
        d.representatives@.len() == representatives(deref_icons(icons@), icons@.len() as int).len(),
        forall|s: int|
            0 <= s < d.representatives@.len() ==> *#[trigger] d.representatives@[s] == deref_icons(
                icons@,
            )[representatives(deref_icons(icons@), icons@.len() as int)[s]],
        d.representative_for_icon@.len() == icons@.len(),
        forall|k: int|
            0 <= k < icons@.len() ==> #[trigger] d.representative_for_icon@[k] == slot_of(deref_icons(icons@), k),
{
    let ghost all = deref_icons(icons@);
    let mut reps: Vec<&'a RenderedIcon> = Vec::new();
    let mut slots: Vec<usize> = Vec::with_capacity(icons.len());
    let mut k: usize = 0;
    while k < icons.len()
        invariant
            k <= icons.len(),
            all == deref_icons(icons@),
            reps@.len() == representatives(all, k as int).len(),
            forall|s: int| 0 <= s < reps@.len() ==> *#[trigger] reps@[s] == all[representatives(all, k as int)[s]],
            slots@.len() == k,
            forall|t: int| 0 <= t < k ==> #[trigger] slots@[t] == slot_of(all, t),
        decreases icons.len() - k,
    {
        let icon = icons[k];
        proof {
            lemma_representatives(all, k as int);
            lemma_first_same(all, k as int);
        }
        let ghost rs = representatives(all, k as int);
        let mut s: usize = 0;
        while s < reps.len() && !(reps[s].width == icon.width && reps[s].height == icon.height && bytes_equal(
            reps[s].pixels.as_slice(),
            icon.pixels.as_slice(),
        ))
            invariant
                s <= reps@.len(),
                k < icons.len(),
                all == deref_icons(icons@),
                *icon == all[k as int],
                rs == representatives(all, k as int),
                reps@.len() == rs.len(),
                forall|s2: int| 0 <= s2 < reps@.len() ==> *#[trigger] reps@[s2] == all[rs[s2]],
                forall|t: int| 0 <= t < s ==> !same_image(all[#[trigger] rs[t]], all[k as int]),
            decreases reps@.len() - s,
        {
            s += 1;
        }
        if s < reps.len() {
            proof {
                assert(same_image(all[rs[s as int]], all[k as int]));
                lemma_rep_match(all, rs[s as int], k as int);
                assert(rs[representatives(all, rs[s as int]).len() as int] == rs[s as int]);
                assert(representatives(all, rs[s as int]).len() == s) by {
                    let j = representatives(all, rs[s as int]).len() as int;
                    if j < s {
                        assert(rs[j] < rs[s as int]);
                    } else if j > s {
                        assert(rs[s as int] < rs[j]);
                    }
                }
                assert(representatives(all, k + 1) == rs);
            }
            slots.push(s);
        } else {
            proof {
                let f = first_same(all, k as int);
                if f < k {
                    assert(rs[representatives(all, f).len() as int] == f);
                    let j = representatives(all, f).len() as int;
                    assert(!same_image(all[rs[j]], all[k as int]));
                }
                assert(representatives(all, k + 1) == rs.push(k as int));
            }
            slots.push(reps.len());
            reps.push(icon);
        }
        k += 1;
    }
    Deduplicated { representatives: reps, representative_for_icon: slots }
}

/// The icons behind a sequence of references.
pub open spec fn deref_icons(icons: Seq<&RenderedIcon>) -> Seq<RenderedIcon> {
    icons.map_values(|icon: &RenderedIcon| *icon)
}


// ---------------------------------------------------------------------
// The sheet built from the sorted icons.
// ---------------------------------------------------------------------

/// The icons that represent the distinct images, in order of first use.
pub open spec fn rep_icons(sorted: Seq<RenderedIcon>) -> Seq<RenderedIcon> {
    let reps = representatives(sorted, sorted.len() as int);
    Seq::new(reps.len(), |s: int| sorted[reps[s]])
}

/// The rectangle packed for `image` in slot `s`: the image with a
/// one-pixel transparent margin on every side.
pub open spec fn margin_item(s: int, image: RenderedIcon) -> PackItem {
    PackItem {
        index: s as usize,
        key: id_key(image),
        width: (image.width + 2) as u64,
        height: (image.height + 2) as u64,
    }
}

/// The rectangles of the images with their margins, image `s` in slot `s`.
pub open spec fn margin_items(images: Seq<RenderedIcon>) -> Seq<PackItem> {
    Seq::new(images.len(), |s: int| margin_item(s, images[s]))
}

/// The packing of the distinct images of the sorted icons.
pub open spec fn packing_of(sorted: Seq<RenderedIcon>) -> PackState {
    packed(margin_items(rep_icons(sorted)))
}

/// A transparent canvas of the packed sheet's size.
pub open spec fn blank_canvas(st: PackState) -> Seq<u8> {
    Seq::new((st.width * st.height * 4) as nat, |i: int| 0u8)
}

/// The canvas after the first `m` images are drawn inside their margins.
pub open spec fn painted(images: Seq<RenderedIcon>, st: PackState, m: int) -> Seq<u8>
    decreases m,
{
    if m <= 0 {
        blank_canvas(st)
    } else {
        let image = images[m - 1];
        paint(
            painted(images, st, m - 1),
            st.width,
            image.pixels@,
            st.positions[m - 1].0 + 1,
            st.positions[m - 1].1 + 1,
            image.width as int,
            image.height as int,
        )
    }
}

/// The RGBA pixels of the sheet of the sorted icons.
pub open spec fn canvas_of(sorted: Seq<RenderedIcon>) -> Seq<u8> {
    let images = rep_icons(sorted);
    painted(images, packing_of(sorted), images.len() as int)
}

/// The index entry of the `k`-th sorted icon: the top-left pixel of its
/// image inside the margin, its size, and the sheet's pixel ratio.
pub open spec fn icon_entry(sorted: Seq<RenderedIcon>, k: int, pixel_ratio: u8) -> SpriteIndexEntry {
    let pos = packing_of(sorted).positions[slot_of(sorted, k)];
    SpriteIndexEntry {
        x: (pos.0 + 1) as u32,
        y: (pos.1 + 1) as u32,
        width: sorted[k].width,
        height: sorted[k].height,
        pixel_ratio,
    }
}

/// The sprite index of the sorted icons, in id order.
pub open spec fn index_of(sorted: Seq<RenderedIcon>, pixel_ratio: u8) -> Seq<(Seq<char>, SpriteIndexEntry)> {
    Seq::new(sorted.len(), |k: int| (sorted[k].id@, icon_entry(sorted, k, pixel_ratio)))
}

/// The PNG file of the sheet of the sorted icons.
pub open spec fn png_of(sorted: Seq<RenderedIcon>, fast: bool) -> Seq<u8> {
    let st = packing_of(sorted);
    spec_encode(st.width as u32, st.height as u32, canvas_of(sorted), fast)
}

/// The sheet's PNG file for `icons`, whatever their order.
pub open spec fn sheet_png(icons: Seq<RenderedIcon>, fast: bool) -> Seq<u8> {
    png_of(ordered_icons(icons), fast)
}

/// The sheet's index for `icons`, whatever their order.
pub open spec fn sheet_index(icons: Seq<RenderedIcon>, pixel_ratio: u8) -> Seq<(Seq<char>, SpriteIndexEntry)> {
    index_of(ordered_icons(icons), pixel_ratio)
}

/// The inputs that the sheet is built from without overflow: every icon
/// has its `width * height * 4` pixel bytes, the packing's arithmetic
/// fits in `u128` and `u64`, the sheet's size fits in `u32`, and its RGBA
/// bytes and the encoder's buffers fit in memory.
pub open spec fn limits_of(sorted: Seq<RenderedIcon>) -> bool {
    let items = margin_items(rep_icons(sorted));
    let st = packed(items);
    &&& forall|k: int| 0 <= k < sorted.len() ==> (#[trigger] sorted[k]).width * sorted[k].height * 4 <= sorted[k].pixels@.len()
    &&& total_area(items) * 20 <= u128::MAX
    &&& spec_ceil_sqrt(adjusted_area(items)) <= u64::MAX
    &&& st.width <= u32::MAX
    &&& st.height <= u32::MAX
    &&& (4 * st.width + 1) * st.height <= usize::MAX
}

/// `limits_of` for `icons`, whatever their order.
pub open spec fn sheet_within_limits(icons: Seq<RenderedIcon>) -> bool {
    limits_of(ordered_icons(icons))
}


// ---------------------------------------------------------------------
// Building the sheet.
// ---------------------------------------------------------------------

/// The icons sorted by id, stably.
fn sort_by_id<'a>(icons: &'a [RenderedIcon]) -> (ordered: Vec<&'a RenderedIcon>)
    ensures
        deref_icons(ordered@) == ordered_icons(icons@),
{
    let n = icons.len();
    let mut primary: Vec<u64> = Vec::new();
    let mut names: Vec<&[u8]> = Vec::new();
    let mut i: usize = 0;
    while i < n
        invariant
            i <= n,
            n == icons.len(),
            primary@ == zero_keys(i as int),
            names@.len() == i,
            slice_views(names@) == icon_keys(icons@).take(i as int),
        decreases n - i,
    {
        primary.push(0);
        names.push(icons[i].id.as_str().as_bytes());
        proof {
            assert(primary@ =~= zero_keys(i + 1));
            assert(slice_views(names@) =~= icon_keys(icons@).take(i + 1));
        }
        i += 1;
    }
    proof {
        assert(icon_keys(icons@).take(n as int) =~= icon_keys(icons@));
    }
    let order = sorted_order(&primary, &names);
    let mut ordered: Vec<&'a RenderedIcon> = Vec::new();
    let mut k: usize = 0;
    while k < n
        invariant
            k <= n,
            n == icons.len(),
            order@ == sorted_positions(zero_keys(n as int), icon_keys(icons@), n as int),
            crate::order::is_sorted_order(zero_keys(n as int), icon_keys(icons@), order@, n as int),
            ordered@.len() == k,
            deref_icons(ordered@) == ordered_icons(icons@).take(k as int),
        decreases n - k,
    {
        let icon = &icons[order[k]];
        ordered.push(icon);
        proof {
            assert(ordered@[k as int] == icon);
            assert(*icon == icons@[order@[k as int] as int]);
            assert(deref_icons(ordered@) =~= ordered_icons(icons@).take(k + 1));
        }
        k += 1;
    }
    proof {
        assert(ordered_icons(icons@).take(n as int) =~= ordered_icons(icons@));
    }
    ordered
}

/// Whether two icons have the same id.
fn same_id(a: &RenderedIcon, b: &RenderedIcon) -> (r: bool)
    ensures
        r == (a.id@ == b.id@),
{
    let r = bytes_equal(a.id.as_str().as_bytes(), b.id.as_str().as_bytes());
    proof {
        broadcast use vstd::utf8::encode_utf8_decode_utf8;
        if r {
            assert(vstd::utf8::decode_utf8(id_key(*a)) == vstd::utf8::decode_utf8(id_key(*b)));
        }
    }
    r
}

/// The first sorted position whose id equals the next one's.
fn find_duplicate(ordered: &Vec<&RenderedIcon>) -> (r: Option<usize>)
    ensures
        match r {
            Some(k) => k + 1 < ordered@.len() && first_duplicate(deref_icons(ordered@), 0) == Some(k as int),
            None => first_duplicate(deref_icons(ordered@), 0) is None,
        },
{
    let ghost sorted = deref_icons(ordered@);
    let mut k: usize = 0;
    while k < ordered.len() && k + 1 < ordered.len()
        invariant
            k <= ordered.len(),
            sorted == deref_icons(ordered@),
            first_duplicate(sorted, k as int) == first_duplicate(sorted, 0),
        decreases ordered.len() - k,
    {
        if same_id(ordered[k], ordered[k + 1]) {
            return Some(k);
        }
        k += 1;
    }
    None
}

/// The first sorted position of an icon without pixels.
fn find_zero_size(ordered: &Vec<&RenderedIcon>) -> (r: Option<usize>)
    ensures
        match r {
            Some(k) => k < ordered@.len() && first_zero_size(deref_icons(ordered@), 0) == Some(k as int),
            None => first_zero_size(deref_icons(ordered@), 0) is None,
        },
{
    let ghost sorted = deref_icons(ordered@);
    let mut k: usize = 0;
    while k < ordered.len()
        invariant
            sorted == deref_icons(ordered@),
            first_zero_size(sorted, k as int) == first_zero_size(sorted, 0),
        decreases ordered.len() - k,
    {
        if ordered[k].width == 0 || ordered[k].height == 0 {
            return Some(k);
        }
        k += 1;
    }
    None
}


/// The icons' ids differ at sorted positions `j` and `j + 1`.
pub open spec fn adjacent_ids_differ(sorted: Seq<RenderedIcon>, j: int) -> bool {
    sorted[j].id@ != sorted[j + 1].id@
}

pub(crate) proof fn lemma_first_duplicate_none(sorted: Seq<RenderedIcon>, k: int)
    requires
        0 <= k,
        first_duplicate(sorted, k) is None,
    ensures
        forall|j: int| k <= j && j + 1 < sorted.len() ==> #[trigger] adjacent_ids_differ(sorted, j),
    decreases sorted.len() - k,
{
    if k + 1 < sorted.len() {
        lemma_first_duplicate_none(sorted, k + 1);
    }
}

/// Without a repeated id, the sorted icons' ids increase strictly.
pub(crate) proof fn lemma_sorted_ids_increasing(icons: Seq<RenderedIcon>)
    requires
        icons.len() <= usize::MAX,
        first_duplicate(ordered_icons(icons), 0) is None,
    ensures
        forall|a: int, b: int|
            0 <= a < b < icons.len() ==> bytes_lt(
                id_key(#[trigger] ordered_icons(icons)[a]),
                id_key(#[trigger] ordered_icons(icons)[b]),
            ),
{
    broadcast use vstd::utf8::encode_utf8_decode_utf8;

    let n = icons.len() as int;
    let keys = icon_keys(icons);
    let zeros = zero_keys(n);
    let order = sorted_positions(zeros, keys, n);
    crate::order::sorted_order_exists(zeros, keys, n);
    let sorted = ordered_icons(icons);
    lemma_first_duplicate_none(sorted, 0);
    assert forall|a: int| 0 <= a && a + 1 < n implies bytes_lt(id_key(#[trigger] sorted[a]), id_key(sorted[a + 1])) by {
        assert(key_before(zeros, keys, order[a] as int, order[a + 1] as int));
        assert(adjacent_ids_differ(sorted, a));
        if id_key(sorted[a]) == id_key(sorted[a + 1]) {
            assert(vstd::utf8::decode_utf8(id_key(sorted[a])) == vstd::utf8::decode_utf8(id_key(sorted[a + 1])));
        }
    }
    assert forall|a: int, b: int| 0 <= a < b < n implies bytes_lt(
        id_key(#[trigger] sorted[a]),
        id_key(#[trigger] sorted[b]),
    ) by {
        assert(key_before(zeros, keys, order[a] as int, order[b] as int));
        if b > a + 1 {
            assert(key_before(zeros, keys, order[a + 1] as int, order[b] as int));
            assert(bytes_lt(id_key(sorted[a]), id_key(sorted[a + 1])));
            if bytes_lt(id_key(sorted[a + 1]), id_key(sorted[b])) {
                crate::order::lemma_bytes_lt_transitive(id_key(sorted[a]), id_key(sorted[a + 1]), id_key(sorted[b]));
            }
        } else {
            assert(bytes_lt(id_key(sorted[a]), id_key(sorted[a + 1])));
        }
        if !bytes_lt(id_key(sorted[a]), id_key(sorted[b])) {
            crate::order::lemma_bytes_lt_irreflexive(id_key(sorted[a]));
        }
    }
}

/// The rectangles of the images with their margins; image `s` goes in
/// slot `s`.
fn margin_rectangles<'a>(images: &Vec<&'a RenderedIcon>) -> (rects: Vec<Rectangle<'a>>)
    ensures
        pack_items(rects@) == margin_items(deref_icons(images@)),
{
    let ghost items = margin_items(deref_icons(images@));
    let mut rects: Vec<Rectangle> = Vec::new();
    let mut s: usize = 0;
    while s < images.len()
        invariant
            s <= images.len(),
            items == margin_items(deref_icons(images@)),
            rects@.len() == s,
            pack_items(rects@) == items.take(s as int),
        decreases images.len() - s,
    {
        let image = images[s];
        rects.push(
            Rectangle {
                index: s,
                id: image.id.as_str(),
                width: image.width as u64 + 2,
                height: image.height as u64 + 2,
            },
        );
        proof {
            assert(pack_items(rects@) =~= items.take(s + 1));
        }
        s += 1;
    }
    proof {
        assert(items.take(s as int) =~= items);
    }
    rects
}

/// Packs the images with their margins; image `s` goes in slot `s`.
fn pack_images(images: &Vec<&RenderedIcon>) -> (layout: Layout)
    requires
        pack_requires(margin_items(deref_icons(images@))),
    ensures
        layout_is(layout, packed(margin_items(deref_icons(images@)))),
{
    pack(margin_rectangles(images))
}

/// Draws each image inside its margin on a transparent canvas.
fn paint_images(images: &Vec<&RenderedIcon>, layout: &Layout, Ghost(st): Ghost<PackState>) -> (canvas: Vec<u8>)
    requires
        st == packed(margin_items(deref_icons(images@))),
        layout_is(*layout, st),
        pack_law_requires(margin_items(deref_icons(images@))),
        (4 * st.width + 1) * st.height <= usize::MAX,
        forall|s: int|
            0 <= s < images@.len() ==> (#[trigger] images@[s]).width * images@[s].height * 4 <= images@[s].pixels@.len(),
    ensures
        canvas@ == painted(deref_icons(images@), st, images@.len() as int),
        canvas@.len() == st.width * st.height * 4,
{
    let ghost imgs = deref_icons(images@);
    let ghost items = margin_items(imgs);
    proof {
        crate::potpack::lemma_packed_disjoint(items);
        crate::potpack::lemma_packed_positions(items);
    }
    let width = layout.width as usize;
    let height = layout.height as usize;
    assert(width * height * 4 <= (4 * width + 1) * height) by (nonlinear_arith);
    let mut canvas: Vec<u8> = vec![0u8; width * height * 4];
    assert(canvas@ =~= blank_canvas(st));
    let mut s: usize = 0;
    while s < images.len()
        invariant
            s <= images.len(),
            imgs == deref_icons(images@),
            items == margin_items(imgs),
            layout_is(*layout, st),
            st.positions.len() == items.len(),
            width == st.width,
            height == st.height,
            canvas@.len() == width * height * 4,
            canvas@ == painted(imgs, st, s as int),
            forall|t: int|
                0 <= t < images@.len() ==> (#[trigger] images@[t]).width * images@[t].height * 4 <= images@[t].pixels@.len(),
            forall|i: int|
                0 <= i < items.len() ==> {
                    let g = rect_region(st, #[trigger] items[i]);
                    0 <= g.x && g.x + g.w <= st.width && 0 <= g.y && g.y + g.h <= st.height
                },
        decreases images.len() - s,
    {
        let image = images[s];
        let (px, py) = layout.positions[s];
        let ghost g = rect_region(st, items[s as int]);
        assert(g.x == px && g.y == py);
        assert(px + image.width + 2 <= width && py + image.height + 2 <= height);
        let x = px as usize + 1;
        let y = py as usize + 1;
        let w = image.width as usize;
        let h = image.height as usize;
        assert((y + h) * width * 4 <= width * height * 4) by (nonlinear_arith)
            requires
                y + h <= height,
        ;
        assert(width * 4 <= width * height * 4) by (nonlinear_arith)
            requires
                height >= 1,
        ;
        paint_pixels(&mut canvas, width, image.pixels.as_slice(), w, h, x, y);
        s += 1;
    }
    canvas
}


/// Icon `k`'s slot holds the first icon that looks like it.
proof fn lemma_slot(sorted: Seq<RenderedIcon>, k: int)
    requires
        0 <= k < sorted.len(),
    ensures
        0 <= slot_of(sorted, k) < rep_icons(sorted).len(),
        rep_icons(sorted)[slot_of(sorted, k)] == sorted[first_same(sorted, k)],
        same_image(rep_icons(sorted)[slot_of(sorted, k)], sorted[k]),
{
    let n = sorted.len() as int;
    lemma_representatives(sorted, n);
    lemma_first_same(sorted, k);
    let j = first_same(sorted, k);
    assert(representatives(sorted, n)[representatives(sorted, j).len() as int] == j);
}

/// Every sorted icon's slot has a position whose coordinates, one pixel
/// further in, still fit in `u32`.
pub open spec fn slots_fit(sorted: Seq<RenderedIcon>, positions: Seq<(u32, u32)>) -> bool {
    forall|k: int|
        0 <= k < sorted.len() ==> #[trigger] slot_of(sorted, k) < positions.len()
            && positions[slot_of(sorted, k)].0 < u32::MAX
            && positions[slot_of(sorted, k)].1 < u32::MAX
}

/// The index entries of the sorted icons; icon `k` sits in the slot
/// `slots[k]` of the layout.
fn index_entries(
    ordered: &Vec<&RenderedIcon>,
    slots: &Vec<usize>,
    layout: &Layout,
    pixel_ratio: u8,
    Ghost(sorted): Ghost<Seq<RenderedIcon>>,
) -> (index: SpriteIndex)
    requires
        sorted == deref_icons(ordered@),
        forall|a: int, b: int|
            0 <= a < b < sorted.len() ==> bytes_lt(id_key(#[trigger] sorted[a]), id_key(#[trigger] sorted[b])),
        slots@.len() == sorted.len(),
        forall|k: int| 0 <= k < sorted.len() ==> #[trigger] slots@[k] == slot_of(sorted, k),
        layout_is(*layout, packing_of(sorted)),
        slots_fit(sorted, layout.positions@),
    ensures
        index@ == index_of(sorted, pixel_ratio),
{
    let mut entries: Vec<(String, SpriteIndexEntry)> = Vec::new();
    let mut k: usize = 0;
    while k < ordered.len()
        invariant
            k <= ordered.len(),
            sorted == deref_icons(ordered@),
            slots@.len() == sorted.len(),
            forall|j: int| 0 <= j < sorted.len() ==> #[trigger] slots@[j] == slot_of(sorted, j),
            layout_is(*layout, packing_of(sorted)),
            slots_fit(sorted, layout.positions@),
            entries@.len() == k,
            entries@.map_values(|e: (String, SpriteIndexEntry)| (e.0@, e.1)) == index_of(sorted, pixel_ratio).take(k as int),
        decreases ordered.len() - k,
    {
        let icon = ordered[k];
        let slot = slots[k];
        assert(layout.positions@[slot_of(sorted, k as int)].0 < u32::MAX);
        let (x, y) = layout.positions[slot];
        let entry = SpriteIndexEntry {
            x: x + 1,
            y: y + 1,
            width: icon.width,
            height: icon.height,
            pixel_ratio,
        };
        entries.push((icon.id.clone(), entry));
        proof {
            assert(entries@.map_values(|e: (String, SpriteIndexEntry)| (e.0@, e.1)) =~= index_of(sorted, pixel_ratio).take(k + 1));
        }
        k += 1;
    }
    proof {
        let v = entries@.map_values(|e: (String, SpriteIndexEntry)| (e.0@, e.1));
        assert(v =~= index_of(sorted, pixel_ratio));
        assert forall|a: int, b: int| 0 <= a < b < v.len() implies bytes_lt(
            id_bytes(#[trigger] v[a].0),
            id_bytes(#[trigger] v[b].0),
        ) by {
            assert(bytes_lt(id_key(sorted[a]), id_key(sorted[b])));
        }
    }
    SpriteIndex::from_sorted(entries)
}

/// A PNG sprite sheet and its ordered MapLibre index.
pub struct SpriteSheet {
    /// The complete encoded PNG file.
    pub png: Vec<u8>,
    /// Sprite entries ordered by icon identifier.
    pub index: SpriteIndex,
}

/// Options controlling sprite sheet construction.
#[derive(Clone, Copy)]
pub struct BuildOptions {
    /// Uses miniz zlib compression instead of Zopfli when `true`.
    pub fast: bool,
}

impl Default for BuildOptions {
    fn default() -> (options: Self)
        ensures
            !options.fast,
    {
        BuildOptions { fast: false }
    }
}

/// The sheet of icons that are sorted by id, have distinct ids and
/// non-empty images.
fn compose_sheet(ordered: &Vec<&RenderedIcon>, pixel_ratio: u8, fast: bool) -> (sheet: SpriteSheet)
    requires
        ordered@.len() > 0,
        limits_of(deref_icons(ordered@)),
        forall|a: int, b: int|
            0 <= a < b < ordered@.len() ==> bytes_lt(
                id_key(#[trigger] deref_icons(ordered@)[a]),
                id_key(#[trigger] deref_icons(ordered@)[b]),
            ),
    ensures
        sheet.png@ == png_of(deref_icons(ordered@), fast),
        sheet.index@ == index_of(deref_icons(ordered@), pixel_ratio),
{
    let ghost sorted = deref_icons(ordered@);
    let ghost n = sorted.len() as int;
    let d = deduplicate(ordered.as_slice());
    let ghost images = rep_icons(sorted);
    let ghost items = margin_items(images);
    proof {
        assert(deref_icons(d.representatives@) =~= images);
        lemma_representatives(sorted, n);
        assert(sorted.len() == ordered.len());
        lemma_packing_facts(sorted);
    }
    let layout = pack_images(&d.representatives);
    let ghost st = packing_of(sorted);
    proof {
        crate::potpack::lemma_packed_disjoint(items);
        crate::potpack::lemma_packed_positions(items);
        assert forall|s: int| 0 <= s < d.representatives@.len() implies (#[trigger] d.representatives@[s]).width
            * d.representatives@[s].height * 4 <= d.representatives@[s].pixels@.len() by {
            assert(*d.representatives@[s] == sorted[representatives(sorted, n)[s]]);
        }
    }
    let canvas = paint_images(&d.representatives, &layout, Ghost(st));
    proof {
        assert forall|k: int| 0 <= k < sorted.len() implies #[trigger] slot_of(sorted, k) < layout.positions@.len()
            && layout.positions@[slot_of(sorted, k)].0 < u32::MAX
            && layout.positions@[slot_of(sorted, k)].1 < u32::MAX by {
            assert(layout.positions@.len() == items.len());
            lemma_slot(sorted, k);
            let slot = slot_of(sorted, k);
            assert(items[slot].index == slot);
            let g = rect_region(st, items[slot]);
            assert(0 <= g.x && g.x + g.w <= st.width && 0 <= g.y && g.y + g.h <= st.height);
        }
    }
    assert(slots_fit(sorted, layout.positions@));
    let index = index_entries(ordered, &d.representative_for_icon, &layout, pixel_ratio, Ghost(sorted));
    proof {
        lemma_slot(sorted, 0);
        let i0 = items[slot_of(sorted, 0)];
        let g = rect_region(st, i0);
        assert(0 <= g.y && g.y + g.h <= st.height);
        assert(st.height >= 1);
        assert(4 * st.width < usize::MAX) by (nonlinear_arith)
            requires
                (4 * st.width + 1) * st.height <= usize::MAX,
                st.height >= 1,
        ;
        assert(canvas@.len() == 4 * st.width * st.height) by (nonlinear_arith)
            requires
                canvas@.len() == st.width * st.height * 4,
        ;
    }
    let png = encode(layout.width, layout.height, canvas.as_slice(), fast);
    SpriteSheet { png, index }
}

/// Whether the sorted icons are within the limits of `limits_of`.
fn limits_hold(ordered: &Vec<&RenderedIcon>) -> (r: bool)
    ensures
        r == limits_of(deref_icons(ordered@)),
{
    let ghost sorted = deref_icons(ordered@);
    let mut k: usize = 0;
    while k < ordered.len()
        invariant
            k <= ordered.len(),
            sorted == deref_icons(ordered@),
            forall|j: int| 0 <= j < k ==> (#[trigger] sorted[j]).width * sorted[j].height * 4 <= sorted[j].pixels@.len(),
        decreases ordered.len() - k,
    {
        let icon = ordered[k];
        assert(icon.width * icon.height <= u32::MAX * u32::MAX) by (nonlinear_arith)
            requires
                icon.width <= u32::MAX,
                icon.height <= u32::MAX,
        ;
        let need = (icon.width as u128) * (icon.height as u128) * 4;
        if need > icon.pixels.len() as u128 {
            assert(!limits_of(sorted)) by {
                assert(sorted[k as int].width * sorted[k as int].height * 4 > sorted[k as int].pixels@.len());
            }
            return false;
        }
        k += 1;
    }
    let d = deduplicate(ordered.as_slice());
    let ghost images = rep_icons(sorted);
    let ghost items = margin_items(images);
    proof {
        assert(deref_icons(d.representatives@) =~= images);
    }
    let rects = margin_rectangles(&d.representatives);
    let area = match crate::potpack::checked_area(&rects) {
        Some(a) => a,
        None => {
            return false;
        },
    };
    let scaled = area * 20;
    let adjusted = scaled / 19 + if scaled % 19 != 0 {
        1
    } else {
        0
    };
    assert(adjusted == adjusted_area(items));
    let root = crate::potpack::ceil_sqrt(adjusted);
    if root > u64::MAX as u128 {
        return false;
    }
    proof {
        assert(forall|i: int| 0 <= i < items.len() ==> (#[trigger] items[i]).index < items.len()) by {
            assert forall|i: int| 0 <= i < items.len() implies (#[trigger] items[i]).index < items.len() by {
                assert(i < d.representatives.len());
            }
        }
    }
    let (width, height, _) = crate::potpack::place_rectangles(&rects);
    if width > u32::MAX as u64 || height > u32::MAX as u64 {
        return false;
    }
    let wide = 4 * (width as u128) + 1;
    let high = height as u128;
    assert(wide * high <= (4 * u32::MAX + 1) * u32::MAX) by (nonlinear_arith)
        requires
            wide <= 4 * u32::MAX + 1,
            high <= u32::MAX,
    ;
    let bytes = wide * high;
    bytes <= usize::MAX as u128
}

/// Whether `build_sprite_sheet` may be called on `icons`: building fails
/// on them anyway, or the sheet stays within the limits of
/// `sheet_within_limits`.
pub fn sheet_fits(icons: &[RenderedIcon]) -> (r: bool)
    ensures
        r == (build_failure(icons@) is None ==> sheet_within_limits(icons@)),
{
    if icons.len() == 0 {
        return true;
    }
    let ordered = sort_by_id(icons);
    if find_duplicate(&ordered).is_some() {
        return true;
    }
    if find_zero_size(&ordered).is_some() {
        return true;
    }
    limits_hold(&ordered)
}

/// Builds a deterministic MapLibre PNG sprite sheet from rasterized icons.
///
/// Input order does not affect the output. Pixel-identical icons share one
/// packed rectangle while retaining separate index entries.
pub fn build_sprite_sheet(
    icons: &[RenderedIcon],
    pixel_ratio: u8,
    options: BuildOptions,
) -> (result: Result<SpriteSheet, Error>)
    requires
        build_failure(icons@) is None ==> sheet_within_limits(icons@),
    ensures
        result is Err <==> build_failure(icons@) is Some,
        result matches Err(e) ==> reports(e, build_failure(icons@).unwrap()),
        result matches Ok(sheet) ==> sheet.png@ == sheet_png(icons@, options.fast) && sheet.index@ == sheet_index(
            icons@,
            pixel_ratio,
        ),
{
    if icons.len() == 0 {
        return Err(Error::Empty);
    }
    let ordered = sort_by_id(icons);
    let ghost sorted = ordered_icons(icons@);
    match find_duplicate(&ordered) {
        Some(k) => {
            return Err(Error::DuplicateId(ordered[k].id.clone()));
        },
        None => {},
    }
    match find_zero_size(&ordered) {
        Some(k) => {
            return Err(Error::ZeroSize { id: ordered[k].id.clone() });
        },
        None => {},
    }
    proof {
        lemma_sorted_ids_increasing(icons@);
    }
    Ok(compose_sheet(&ordered, pixel_ratio, options.fast))
}


// ---------------------------------------------------------------------
// Laws of the sheet.
// ---------------------------------------------------------------------

/// Pixel-identical icons get the same index entry: they share one packed
/// rectangle, while each keeps an entry under its own id.
pub proof fn lemma_identical_icons_share_entry(icons: Seq<RenderedIcon>, pixel_ratio: u8, a: int, b: int)
    requires
        0 <= a < icons.len(),
        0 <= b < icons.len(),
        same_image(ordered_icons(icons)[a], ordered_icons(icons)[b]),
    ensures
        sheet_index(icons, pixel_ratio)[a].1 == sheet_index(icons, pixel_ratio)[b].1,
{
    let sorted = ordered_icons(icons);
    lemma_first_same(sorted, a);
    let r = first_same(sorted, a);
    assert(same_image(sorted[r], sorted[b]));
    lemma_rep_match(sorted, r, b);
}


proof fn lemma_representatives_len(icons: Seq<RenderedIcon>, m: int)
    requires
        0 <= m,
    ensures
        representatives(icons, m).len() <= m,
    decreases m,
{
    if m > 0 {
        lemma_representatives_len(icons, m - 1);
    }
}

/// Slot `s` is the slot of the icon that fills it.
proof fn lemma_slot_owner(sorted: Seq<RenderedIcon>, s: int) -> (k: int)
    requires
        0 <= s < rep_icons(sorted).len(),
    ensures
        0 <= k < sorted.len(),
        slot_of(sorted, k) == s,
{
    let n = sorted.len() as int;
    lemma_representatives(sorted, n);
    let reps = representatives(sorted, n);
    let k = reps[s];
    let x = representatives(sorted, k).len() as int;
    assert(reps[x] == k);
    if x < s {
        assert(reps[x] < reps[s]);
    } else if s < x {
        assert(reps[s] < reps[x]);
    }
    k
}

/// Within the limits, packing the sorted icons' images meets what the
/// packing's laws and the packer need.
proof fn lemma_packing_facts(sorted: Seq<RenderedIcon>)
    requires
        sorted.len() <= usize::MAX,
        limits_of(sorted),
    ensures
        pack_law_requires(margin_items(rep_icons(sorted))),
        pack_requires(margin_items(rep_icons(sorted))),
        packing_of(sorted).positions.len() == rep_icons(sorted).len(),
        rep_icons(sorted).len() <= sorted.len(),
{
    let n = sorted.len() as int;
    let items = margin_items(rep_icons(sorted));
    lemma_representatives_len(sorted, n);
    lemma_representatives(sorted, n);
    crate::potpack::lemma_start_width_fits(items);
    assert(pack_law_requires(items));
    crate::potpack::lemma_packed_positions(items);
}

/// Canvas byte `p` lies in image `s`, drawn inside its margin.
pub open spec fn image_covers(images: Seq<RenderedIcon>, st: PackState, s: int, p: int) -> bool {
    covers(
        st.width,
        st.positions[s].0 + 1,
        st.positions[s].1 + 1,
        images[s].width as int,
        images[s].height as int,
        p,
    )
}

/// The pixel byte of image `s` drawn on canvas byte `p`.
pub open spec fn image_byte(images: Seq<RenderedIcon>, st: PackState, s: int, p: int) -> u8 {
    images[s].pixels@[source_offset(st.width, st.positions[s].0 + 1, st.positions[s].1 + 1, images[s].width as int, p)]
}

/// What the first `m` drawings leave on the canvas: the byte of the image
/// that covers it, or zero where none does.
proof fn lemma_painted(images: Seq<RenderedIcon>, st: PackState, m: int, p: int)
    requires
        0 <= m <= images.len(),
        images.len() <= usize::MAX,
        st.positions.len() == images.len(),
        forall|s: int, t: int|
            0 <= s < images.len() && 0 <= t < images.len() && s != t ==> disjoint(
                rect_region(st, #[trigger] margin_items(images)[s]),
                rect_region(st, #[trigger] margin_items(images)[t]),
            ),
    ensures
        painted(images, st, m).len() == blank_canvas(st).len(),
        0 <= p < blank_canvas(st).len() ==> {
            &&& forall|s: int| 0 <= s < m && #[trigger] image_covers(images, st, s, p) ==> painted(images, st, m)[p] == image_byte(images, st, s, p)
            &&& (forall|s: int| 0 <= s < m ==> !#[trigger] image_covers(images, st, s, p)) ==> painted(images, st, m)[p] == 0
        },
    decreases m,
{
    if m > 0 {
        lemma_painted(images, st, m - 1, p);
        let t = m - 1;
        let prev = painted(images, st, t);
        if 0 <= p < blank_canvas(st).len() {
            if image_covers(images, st, t, p) {
                assert(painted(images, st, m)[p] == image_byte(images, st, t, p));
                assert forall|s: int| 0 <= s < m && #[trigger] image_covers(images, st, s, p) implies painted(
                    images,
                    st,
                    m,
                )[p] == image_byte(images, st, s, p) by {
                    if s != t {
                        let items = margin_items(images);
                        assert(items[s].index == s && items[t].index == t);
                        assert(disjoint(rect_region(st, items[s]), rect_region(st, items[t])));
                    }
                }
            } else {
                assert(painted(images, st, m)[p] == prev[p]);
            }
        }
    }
}

/// Each icon's pixels are on the sheet's canvas inside the rectangle of
/// its index entry, every entry's rectangle lies inside the sheet, and the
/// canvas is zero (transparent) wherever no icon is.
pub proof fn lemma_icons_on_canvas(icons: Seq<RenderedIcon>, pixel_ratio: u8)
    requires
        icons.len() <= usize::MAX,
        sheet_within_limits(icons),
    ensures
        ({
            let sorted = ordered_icons(icons);
            let st = packing_of(sorted);
            let canvas = canvas_of(sorted);
            let index = sheet_index(icons, pixel_ratio);
            &&& canvas.len() == st.width * st.height * 4
            &&& forall|k: int|
                0 <= k < index.len() ==> #[trigger] index[k].1.x + index[k].1.width <= st.width
                    && index[k].1.y + index[k].1.height <= st.height
            &&& forall|k: int, p: int|
                0 <= k < index.len() && 0 <= p < canvas.len() && #[trigger] covers(
                    st.width,
                    index[k].1.x as int,
                    index[k].1.y as int,
                    index[k].1.width as int,
                    index[k].1.height as int,
                    p,
                ) ==> #[trigger] canvas[p] == sorted[k].pixels@[source_offset(
                    st.width,
                    index[k].1.x as int,
                    index[k].1.y as int,
                    index[k].1.width as int,
                    p,
                )]
            &&& forall|p: int|
                0 <= p < canvas.len() && (forall|k: int|
                    0 <= k < index.len() ==> !#[trigger] covers(
                        st.width,
                        index[k].1.x as int,
                        index[k].1.y as int,
                        index[k].1.width as int,
                        index[k].1.height as int,
                        p,
                    )) ==> #[trigger] canvas[p] == 0
        }),
{
    let sorted = ordered_icons(icons);
    let n = icons.len() as int;
    let images = rep_icons(sorted);
    let items = margin_items(images);
    let st = packing_of(sorted);
    let canvas = canvas_of(sorted);
    let index = sheet_index(icons, pixel_ratio);
    let m = images.len() as int;
    lemma_packing_facts(sorted);
    crate::potpack::lemma_packed_disjoint(items);
    lemma_painted(images, st, m, 0);
    assert forall|k: int| 0 <= k < index.len() implies #[trigger] index[k].1.x + index[k].1.width <= st.width
        && index[k].1.y + index[k].1.height <= st.height by {
        lemma_slot(sorted, k);
        let slot = slot_of(sorted, k);
        assert(items[slot].index == slot);
        let g = rect_region(st, items[slot]);
        assert(0 <= g.x && g.x + g.w <= st.width && 0 <= g.y && g.y + g.h <= st.height);
    }
    assert forall|k: int, p: int|
        0 <= k < index.len() && 0 <= p < canvas.len() && #[trigger] covers(
            st.width,
            index[k].1.x as int,
            index[k].1.y as int,
            index[k].1.width as int,
            index[k].1.height as int,
            p,
        ) implies #[trigger] canvas[p] == sorted[k].pixels@[source_offset(
            st.width,
            index[k].1.x as int,
            index[k].1.y as int,
            index[k].1.width as int,
            p,
        )] by {
        lemma_slot(sorted, k);
        let slot = slot_of(sorted, k);
        assert(items[slot].index == slot);
        let g = rect_region(st, items[slot]);
        assert(0 <= g.x && g.x + g.w <= st.width && 0 <= g.y && g.y + g.h <= st.height);
        lemma_painted(images, st, m, p);
        assert(image_covers(images, st, slot, p));
    }
    assert forall|p: int|
        0 <= p < canvas.len() && (forall|k: int|
            0 <= k < index.len() ==> !#[trigger] covers(
                st.width,
                index[k].1.x as int,
                index[k].1.y as int,
                index[k].1.width as int,
                index[k].1.height as int,
                p,
            )) implies #[trigger] canvas[p] == 0 by {
        lemma_painted(images, st, m, p);
        assert forall|s: int| 0 <= s < m implies !#[trigger] image_covers(images, st, s, p) by {
            let k = lemma_slot_owner(sorted, s);
            lemma_slot(sorted, k);
            assert(items[s].index == s);
            let g = rect_region(st, items[s]);
            assert(0 <= g.x && g.x + g.w <= st.width && 0 <= g.y && g.y + g.h <= st.height);
            assert(!covers(
                st.width,
                index[k].1.x as int,
                index[k].1.y as int,
                index[k].1.width as int,
                index[k].1.height as int,
                p,
            ));
        }
    }
}

/// Building with and without `fast` gives the same outcome but for the
/// compressor: the failure and the index do not depend on it, and both PNG
/// files are the same head chunks, an IDAT chunk of the same filtered
/// canvas compressed by miniz or by Zopfli, and IEND.
pub proof fn lemma_build_modes_differ_only_in_compression(icons: Seq<RenderedIcon>)
    ensures
        ({
            let sorted = ordered_icons(icons);
            let st = packing_of(sorted);
            let (w, h, canvas) = (st.width as u32, st.height as u32, canvas_of(sorted));
            &&& sheet_png(icons, true) == crate::png::png_head(w, h, canvas) + crate::png::png_chunk(
                crate::png::tag_idat(),
                crate::png::miniz_zlib(crate::png::filtered_image(w, h, canvas), crate::png::MINIZ_LEVEL),
            ) + crate::png::png_chunk(crate::png::tag_iend(), Seq::empty())
            &&& sheet_png(icons, false) == crate::png::png_head(w, h, canvas) + crate::png::png_chunk(
                crate::png::tag_idat(),
                crate::png::zopfli_zlib(
                    crate::png::filtered_image(w, h, canvas),
                    crate::png::ZOPFLI_ITERATIONS,
                    crate::png::ZOPFLI_ITERATIONS_WITHOUT_IMPROVEMENT,
                    crate::png::ZOPFLI_MAXIMUM_BLOCK_SPLITS,
                ),
            ) + crate::png::png_chunk(crate::png::tag_iend(), Seq::empty())
            &&& crate::png::png_head(w, h, canvas).len() >= 33
        }),
{
    let sorted = ordered_icons(icons);
    let st = packing_of(sorted);
    crate::png::lemma_fast_changes_only_compression(st.width as u32, st.height as u32, canvas_of(sorted));
}

/// The library's part of reading a sheet's PNG back: a decoder that
/// inflates the IDAT data to the filtered canvas (what the compressors are
/// given) and knows the header and palette chunks rebuilds exactly the
/// canvas, on which `lemma_icons_on_canvas` places every icon.
pub proof fn lemma_sheet_round_trip(icons: Seq<RenderedIcon>)
    requires
        icons.len() <= usize::MAX,
        sheet_within_limits(icons),
    ensures
        ({
            let sorted = ordered_icons(icons);
            let st = packing_of(sorted);
            let (w, h, canvas) = (st.width as u32, st.height as u32, canvas_of(sorted));
            crate::png::decoded_rgba(
                w,
                h,
                crate::png::uses_palette(canvas, w * h),
                crate::png::image_palette(canvas, w * h),
                crate::png::filtered_image(w, h, canvas),
            ) == canvas
        }),
{
    let sorted = ordered_icons(icons);
    let st = packing_of(sorted);
    let items = margin_items(rep_icons(sorted));
    lemma_icons_on_canvas(icons, 0);
    lemma_packing_facts(sorted);
    if sorted.len() > 0 {
        crate::potpack::lemma_packed_disjoint(items);
        lemma_slot(sorted, 0);
        let g = rect_region(st, items[slot_of(sorted, 0)]);
        assert(0 <= g.y && g.y + g.h <= st.height);
        assert(4 * st.width < usize::MAX) by (nonlinear_arith)
            requires
                (4 * st.width + 1) * st.height <= usize::MAX,
                st.height >= 1,
        ;
    } else {
        assert(margin_items(rep_icons(sorted)).len() == 0);
        assert(crate::potpack::placement_order(items) =~= Seq::<PackItem>::empty());
    }
    assert(canvas_of(sorted).len() == 4 * st.width * st.height) by (nonlinear_arith)
        requires
            canvas_of(sorted).len() == st.width * st.height * 4,
    ;
    crate::png::lemma_png_round_trip(st.width as u32, st.height as u32, canvas_of(sorted));
}

} // verus!
