//! Rectangle packing in the manner of Mapbox potpack, with a fixed,
//! deterministic tie-break.

use crate::order::{slice_views, sorted_order, sorted_positions};
use vstd::prelude::*;
use vstd::string::StringSliceAdditionalSpecFns;

verus! {

/// A rectangle to pack; `index` is the slot of its position in the layout.
#[derive(Clone, Copy)]
pub struct Rectangle<'a> {
    pub index: usize,
    pub id: &'a str,
    pub width: u64,
    pub height: u64,
}

/// The packed sheet size and each rectangle's top-left corner.
pub struct Layout {
    pub width: u32,
    pub height: u32,
    pub positions: Vec<(u32, u32)>,
}

/// What packing reads of a rectangle: its slot, the bytes of its id, and
/// its size.
pub struct PackItem {
    pub index: usize,
    pub key: Seq<u8>,
    pub width: u64,
    pub height: u64,
}

impl<'a> Rectangle<'a> {
    pub open spec fn view(&self) -> PackItem {
        PackItem { index: self.index, key: self.id.spec_bytes(), width: self.width, height: self.height }
    }
}

/// The rectangles as packing reads them.
pub open spec fn pack_items(rects: Seq<Rectangle>) -> Seq<PackItem> {
    rects.map_values(|r: Rectangle| r@)
}

/// A free region of the sheet.
#[derive(Clone, Copy)]
pub struct Space {
    pub x: u64,
    pub y: u64,
    pub width: u64,
    pub height: u64,
}

/// The packer's state between two placements.
pub struct PackState {
    pub spaces: Seq<Space>,
    pub width: int,
    pub height: int,
    pub positions: Seq<(int, int)>,
}

/// `r` is the smallest natural number whose square is at least `v`.
pub open spec fn is_ceil_sqrt(v: int, r: int) -> bool {
    0 <= r && v <= r * r && (r == 0 || (r - 1) * (r - 1) < v)
}

/// The smallest natural number whose square is at least `v`.
pub open spec fn spec_ceil_sqrt(v: int) -> int {
    choose|r: int| is_ceil_sqrt(v, r)
}

/// There is only one such number.
pub proof fn lemma_ceil_sqrt_unique(v: int, r: int)
    requires
        is_ceil_sqrt(v, r),
    ensures
        spec_ceil_sqrt(v) == r,
{
    let c = spec_ceil_sqrt(v);
    assert(is_ceil_sqrt(v, c));
    if c < r {
        lemma_square_monotone(c, r - 1);
    } else if r < c {
        lemma_square_monotone(r, c - 1);
    }
}

/// Sum of the rectangles' areas.
pub open spec fn total_area(rects: Seq<PackItem>) -> int
    decreases rects.len(),
{
    if rects.len() == 0 {
        0
    } else {
        total_area(rects.drop_last()) + rects.last().width * rects.last().height
    }
}

/// The widest rectangle's width, or 0.
pub open spec fn max_width(rects: Seq<PackItem>) -> int
    decreases rects.len(),
{
    if rects.len() == 0 {
        0
    } else {
        let m = max_width(rects.drop_last());
        if rects.last().width > m {
            rects.last().width as int
        } else {
            m
        }
    }
}

/// The starting sheet width: `ceil(sqrt(area / 0.95))` computed exactly,
/// and never narrower than the widest rectangle.
pub open spec fn start_width(rects: Seq<PackItem>) -> int {
    let adjusted = (total_area(rects) * 20 + 18) / 19;
    let root = spec_ceil_sqrt(adjusted);
    if root < max_width(rects) {
        max_width(rects)
    } else {
        root
    }
}

/// Sort keys: taller rectangles first, then by id, then by input order.
pub open spec fn height_keys(rects: Seq<PackItem>) -> Seq<u64> {
    rects.map_values(|r: PackItem| (u64::MAX - r.height) as u64)
}

/// The id bytes of each rectangle.
pub open spec fn id_keys(rects: Seq<PackItem>) -> Seq<Seq<u8>> {
    rects.map_values(|r: PackItem| r.key)
}

/// The rectangles in the order in which they are placed.
pub open spec fn placement_order(rects: Seq<PackItem>) -> Seq<PackItem> {
    let order = sorted_positions(height_keys(rects), id_keys(rects), rects.len() as int);
    Seq::new(rects.len(), |k: int| rects[order[k] as int])
}

/// Rectangle `r` fits into space `s`.
pub open spec fn fits(s: Space, r: PackItem) -> bool {
    r.width <= s.width && r.height <= s.height
}

/// The last of the first `k` spaces that can hold `r`, or -1.
pub open spec fn fit_index(spaces: Seq<Space>, r: PackItem, k: int) -> int
    decreases k,
{
    if k <= 0 {
        -1
    } else if fits(spaces[k - 1], r) {
        k - 1
    } else {
        fit_index(spaces, r, k - 1)
    }
}

/// The free spaces after `r` is put into the top-left corner of space `k`.
pub open spec fn split_spaces(spaces: Seq<Space>, k: int, r: PackItem) -> Seq<Space> {
    let s = spaces[k];
    if r.width == s.width && r.height == s.height {
        spaces.update(k, spaces.last()).drop_last()
    } else if r.height == s.height {
        spaces.update(k, Space { x: (s.x + r.width) as u64, width: (s.width - r.width) as u64, ..s })
    } else if r.width == s.width {
        spaces.update(k, Space { y: (s.y + r.height) as u64, height: (s.height - r.height) as u64, ..s })
    } else {
        spaces.update(
            k,
            Space { y: (s.y + r.height) as u64, height: (s.height - r.height) as u64, ..s },
        ).push(
            Space {
                x: (s.x + r.width) as u64,
                y: s.y,
                width: (s.width - r.width) as u64,
                height: r.height,
            },
        )
    }
}

/// One placement step.
pub open spec fn place(st: PackState, r: PackItem) -> PackState {
    let k = fit_index(st.spaces, r, st.spaces.len() as int);
    if k < 0 {
        st
    } else {
        let s = st.spaces[k];
        PackState {
            spaces: split_spaces(st.spaces, k, r),
            width: if st.width < s.x + r.width { s.x + r.width } else { st.width },
            height: if st.height < s.y + r.height { s.y + r.height } else { st.height },
            positions: st.positions.update(r.index as int, (s.x as int, s.y as int)),
        }
    }
}

/// The state after placing `rs` in order.
pub open spec fn place_all(st: PackState, rs: Seq<PackItem>) -> PackState
    decreases rs.len(),
{
    if rs.len() == 0 {
        st
    } else {
        place(place_all(st, rs.drop_last()), rs.last())
    }
}

/// One free space as wide as the starting width and unbounded below;
/// nothing placed yet.
pub open spec fn initial_state(rects: Seq<PackItem>) -> PackState {
    PackState {
        spaces: seq![Space { x: 0, y: 0, width: start_width(rects) as u64, height: u64::MAX }],
        width: 0,
        height: 0,
        positions: Seq::new(rects.len(), |i: int| (0int, 0int)),
    }
}

/// The outcome of packing `rects`.
pub open spec fn packed(rects: Seq<PackItem>) -> PackState {
    place_all(initial_state(rects), placement_order(rects))
}

proof fn lemma_square_monotone(a: int, b: int)
    requires
        0 <= a <= b,
    ensures
        a * a <= b * b,
{
    assert(a * a <= a * b) by (nonlinear_arith)
        requires
            0 <= a <= b,
    ;
    assert(a * b <= b * b) by (nonlinear_arith)
        requires
            0 <= a <= b,
    ;
}

/// The smallest `r` with `r * r >= value`, computed with integers only.
pub fn ceil_sqrt(value: u128) -> (r: u128)
    ensures
        r == spec_ceil_sqrt(value as int),
        value <= r * r,
        r == 0 || (r - 1) * (r - 1) < value,
{
    if value <= 1 {
        assert(value * value == value && (value == 0 || (value - 1) * (value - 1) < value))
            by (nonlinear_arith)
            requires
                value <= 1,
        ;
        proof {
            lemma_ceil_sqrt_unique(value as int, value as int);
        }
        return value;
    }
    let mut lower: u128 = 1;
    let mut upper: u128 = 0x1_0000_0000_0000_0000;
    assert(upper * upper == 0x1_0000_0000_0000_0000_0000_0000_0000_0000int) by (nonlinear_arith)
        requires
            upper == 0x1_0000_0000_0000_0000u128,
    ;
    while lower < upper
        invariant
            1 <= lower <= upper <= 0x1_0000_0000_0000_0000u128,
            value <= upper * upper,
            (lower - 1) * (lower - 1) < value,
        decreases upper - lower,
    {
        let middle = lower + (upper - lower) / 2;
        let quotient = value / middle;
        assert(value % middle != 0 ==> quotient < u128::MAX) by (nonlinear_arith)
            requires
                middle > 0,
                quotient == value / middle,
        {
            if value % middle != 0 {
                assert(middle >= 2);
                assert(quotient * middle <= value);
                assert(quotient * 2 <= quotient * middle);
            }
        }
        let ceil_quotient = if value % middle != 0 {
            quotient + 1
        } else {
            quotient
        };
        proof {
            let v = value as int;
            let m = middle as int;
            let q = quotient as int;
            assert(v == m * q + v % m) by (nonlinear_arith)
                requires
                    m > 0,
                    q == v / m,
            ;
            assert(0 <= v % m < m) by (nonlinear_arith)
                requires
                    m > 0,
            ;
            if middle >= ceil_quotient {
                assert(v <= m * m) by (nonlinear_arith)
                    requires
                        v == m * q + v % m,
                        0 <= v % m < m,
                        m >= q + (if v % m != 0 { 1int } else { 0int }),
                        m > 0,
                ;
            } else {
                assert(m * m < v) by (nonlinear_arith)
                    requires
                        v == m * q + v % m,
                        0 <= v % m < m,
                        m < q + (if v % m != 0 { 1int } else { 0int }),
                        m > 0,
                ;
            }
        }
        if middle >= ceil_quotient {
            upper = middle;
        } else {
            lower = middle + 1;
        }
    }
    proof {
        lemma_ceil_sqrt_unique(value as int, lower as int);
    }
    lower
}


/// The adjusted area whose square root starts the sheet width.
pub open spec fn adjusted_area(rects: Seq<PackItem>) -> int {
    (total_area(rects) * 20 + 18) / 19
}

/// The inputs on which packing neither overflows nor exceeds `u32`
/// coordinates: every slot index is in range, the area computation fits
/// in `u128`, the starting width fits in `u64`, and the packed sheet's
/// size fits in `u32`.
pub open spec fn pack_requires(rects: Seq<PackItem>) -> bool {
    &&& placement_fits_u64(rects)
    &&& packed(rects).width <= u32::MAX
    &&& packed(rects).height <= u32::MAX
}

/// The inputs on which placing the rectangles with `u64` coordinates does
/// not overflow: every slot index is in range, the area computation fits
/// in `u128`, and the starting width fits in `u64`.
pub open spec fn placement_fits_u64(rects: Seq<PackItem>) -> bool {
    &&& forall|i: int| 0 <= i < rects.len() ==> (#[trigger] rects[i]).index < rects.len()
    &&& total_area(rects) * 20 <= u128::MAX
    &&& spec_ceil_sqrt(adjusted_area(rects)) <= u64::MAX
}

/// `layout` is the packing outcome `st`.
pub open spec fn layout_is(layout: Layout, st: PackState) -> bool {
    &&& layout.width == st.width
    &&& layout.height == st.height
    &&& layout.positions@.len() == st.positions.len()
    &&& forall|i: int|
        0 <= i < st.positions.len() ==> (#[trigger] layout.positions@[i]).0 == st.positions[i].0
            && layout.positions@[i].1 == st.positions[i].1
}

proof fn lemma_total_area_prefix(rects: Seq<PackItem>, k: int)
    requires
        0 <= k <= rects.len(),
    ensures
        0 <= total_area(rects.take(k)) <= total_area(rects),
    decreases rects.len(),
{
    if k < rects.len() {
        assert(rects.drop_last().take(k) =~= rects.take(k));
        lemma_total_area_prefix(rects.drop_last(), k);
        assert(rects.last().width * rects.last().height >= 0) by (nonlinear_arith);
    } else {
        assert(rects.take(k) =~= rects);
        lemma_total_area_nonnegative(rects);
    }
}

proof fn lemma_total_area_nonnegative(rects: Seq<PackItem>)
    ensures
        total_area(rects) >= 0,
    decreases rects.len(),
{
    if rects.len() > 0 {
        lemma_total_area_nonnegative(rects.drop_last());
        assert(rects.last().width * rects.last().height >= 0) by (nonlinear_arith);
    }
}

fn area_and_widest(rectangles: &Vec<Rectangle>) -> (r: (u128, u64))
    requires
        total_area(pack_items(rectangles@)) * 20 <= u128::MAX,
    ensures
        r.0 == total_area(pack_items(rectangles@)),
        r.1 == max_width(pack_items(rectangles@)),
{
    let ghost rects = pack_items(rectangles@);
    let mut area: u128 = 0;
    let mut widest: u64 = 0;
    let mut i: usize = 0;
    while i < rectangles.len()
        invariant
            i <= rectangles.len(),
            rects == pack_items(rectangles@),
            total_area(rects) * 20 <= u128::MAX,
            area == total_area(rects.take(i as int)),
            widest == max_width(rects.take(i as int)),
        decreases rectangles.len() - i,
    {
        let r = rectangles[i];
        proof {
            assert(rects.take(i + 1).drop_last() =~= rects.take(i as int));
            lemma_total_area_prefix(rects, i + 1);
        }
        let product = (r.width as u128) * (r.height as u128);
        area = area + product;
        if r.width > widest {
            widest = r.width;
        }
        i += 1;
    }
    proof {
        assert(rects.take(i as int) =~= rects);
    }
    (area, widest)
}

proof fn lemma_place_monotone(st: PackState, r: PackItem)
    ensures
        st.width <= place(st, r).width,
        st.height <= place(st, r).height,
        r.index < st.positions.len() ==> place(st, r).positions.len() == st.positions.len(),
{
}

proof fn lemma_place_all_prefix_monotone(st: PackState, rs: Seq<PackItem>, k: int)
    requires
        0 <= k <= rs.len(),
    ensures
        place_all(st, rs.take(k)).width <= place_all(st, rs).width,
        place_all(st, rs.take(k)).height <= place_all(st, rs).height,
    decreases rs.len(),
{
    if k == rs.len() {
        assert(rs.take(k) =~= rs);
    } else {
        assert(rs.drop_last().take(k) =~= rs.take(k));
        lemma_place_all_prefix_monotone(st, rs.drop_last(), k);
        lemma_place_monotone(place_all(st, rs.drop_last()), rs.last());
    }
}

proof fn lemma_place_all_positions_len(st: PackState, rs: Seq<PackItem>)
    requires
        forall|i: int| 0 <= i < rs.len() ==> (#[trigger] rs[i]).index < st.positions.len(),
    ensures
        place_all(st, rs).positions.len() == st.positions.len(),
    decreases rs.len(),
{
    if rs.len() > 0 {
        assert(rs.last() == rs[rs.len() - 1]);
        lemma_place_all_positions_len(st, rs.drop_last());
        lemma_place_monotone(place_all(st, rs.drop_last()), rs.last());
    }
}

/// The rectangles' total area, when twenty times it fits in `u128`.
pub fn checked_area(rectangles: &Vec<Rectangle>) -> (r: Option<u128>)
    ensures
        match r {
            Some(a) => a == total_area(pack_items(rectangles@)) && a * 20 <= u128::MAX,
            None => total_area(pack_items(rectangles@)) * 20 > u128::MAX,
        },
{
    let ghost rects = pack_items(rectangles@);
    let mut area: u128 = 0;
    let mut i: usize = 0;
    while i < rectangles.len()
        invariant
            i <= rectangles.len(),
            rects == pack_items(rectangles@),
            area == total_area(rects.take(i as int)),
        decreases rectangles.len() - i,
    {
        let r = rectangles[i];
        proof {
            assert(rects.take(i + 1).drop_last() =~= rects.take(i as int));
            lemma_total_area_prefix(rects, i + 1);
            assert(r.width * r.height <= u64::MAX * u64::MAX) by (nonlinear_arith)
                requires
                    r.width <= u64::MAX,
                    r.height <= u64::MAX,
            ;
        }
        let product = (r.width as u128) * (r.height as u128);
        match area.checked_add(product) {
            Some(sum) => {
                area = sum;
            },
            None => {
                return None;
            },
        }
        i += 1;
    }
    proof {
        assert(rects.take(i as int) =~= rects);
    }
    if area <= u128::MAX / 20 {
        Some(area)
    } else {
        None
    }
}

/// Places the rectangles with `u64` coordinates: tallest first (ties
/// broken by id, then by input order), each into the last free space that
/// holds it. Gives the sheet's width and height and each slot's position.
pub fn place_rectangles(rectangles: &Vec<Rectangle>) -> (r: (u64, u64, Vec<(u64, u64)>))
    requires
        placement_fits_u64(pack_items(rectangles@)),
    ensures
        r.0 == packed(pack_items(rectangles@)).width,
        r.1 == packed(pack_items(rectangles@)).height,
        r.2@.len() == rectangles@.len(),
        packed(pack_items(rectangles@)).positions.len() == rectangles@.len(),
        forall|p: int|
            0 <= p < rectangles@.len() ==> (#[trigger] r.2@[p]).0 == packed(pack_items(rectangles@)).positions[p].0
                && r.2@[p].1 == packed(pack_items(rectangles@)).positions[p].1 && r.2@[p].0 <= r.0 && r.2@[p].1 <= r.1,
{
    let ghost rects = pack_items(rectangles@);
    let n = rectangles.len();
    let (area, widest) = area_and_widest(rectangles);

    let mut primary: Vec<u64> = Vec::new();
    let mut names: Vec<&[u8]> = Vec::new();
    let mut i: usize = 0;
    while i < n
        invariant
            i <= n,
            n == rectangles.len(),
            rects == pack_items(rectangles@),
            primary.len() == i,
            names.len() == i,
            forall|j: int| 0 <= j < i ==> #[trigger] primary@[j] == (u64::MAX - rects[j].height) as u64,
            forall|j: int| 0 <= j < i ==> (#[trigger] names@[j])@ == rects[j].key,
        decreases n - i,
    {
        let r = rectangles[i];
        primary.push(u64::MAX - r.height);
        names.push(r.id.as_bytes());
        i += 1;
    }
    assert(primary@ =~= height_keys(rects));
    assert(slice_views(names@) =~= id_keys(rects));
    let order = sorted_order(&primary, &names);
    let ghost sorted = placement_order(rects);

    let scaled = area * 20;
    let adjusted = scaled / 19 + if scaled % 19 != 0 { 1 } else { 0 };
    assert(adjusted == adjusted_area(rects));
    let root = ceil_sqrt(adjusted);
    let root64 = root as u64;
    let start = if root64 < widest { widest } else { root64 };
    assert(start == start_width(rects));

    let mut spaces: Vec<Space> = Vec::new();
    spaces.push(Space { x: 0, y: 0, width: start, height: u64::MAX });
    let mut positions: Vec<(u64, u64)> = Vec::new();
    let mut j: usize = 0;
    while j < n
        invariant
            j <= n,
            positions.len() == j,
            forall|p: int| 0 <= p < j ==> #[trigger] positions@[p] == (0u64, 0u64),
        decreases n - j,
    {
        positions.push((0, 0));
        j += 1;
    }
    let mut width: u64 = 0;
    let mut height: u64 = 0;
    let ghost init = initial_state(rects);
    proof {
        assert(place_all(init, sorted.take(0)) == init);
        assert(spaces@ =~= init.spaces);
    }

    let mut k: usize = 0;
    while k < n
        invariant
            k <= n,
            n == rectangles.len(),
            rects == pack_items(rectangles@),
            placement_fits_u64(rects),
            order@ == sorted_positions(height_keys(rects), id_keys(rects), n as int),
            crate::order::is_sorted_order(height_keys(rects), id_keys(rects), order@, n as int),
            sorted == placement_order(rects),
            init == initial_state(rects),
            start == start_width(rects),
            spaces@ == place_all(init, sorted.take(k as int)).spaces,
            width == place_all(init, sorted.take(k as int)).width,
            height == place_all(init, sorted.take(k as int)).height,
            positions.len() == n,
            place_all(init, sorted.take(k as int)).positions.len() == n,
            forall|p: int|
                0 <= p < n ==> (#[trigger] positions@[p]).0 == place_all(init, sorted.take(k as int)).positions[p].0
                    && positions@[p].1 == place_all(init, sorted.take(k as int)).positions[p].1
                    && positions@[p].0 <= width && positions@[p].1 <= height,
            forall|q: int|
                0 <= q < spaces.len() ==> (#[trigger] spaces@[q]).x + spaces@[q].width <= start
                    && spaces@[q].y + spaces@[q].height <= u64::MAX,
        decreases n - k,
    {
        let ghost st = place_all(init, sorted.take(k as int));
        let r = rectangles[order[k]];
        proof {
            assert(sorted.take(k + 1).drop_last() =~= sorted.take(k as int));
            assert(sorted[k as int] == r@);
            assert(place_all(init, sorted.take(k + 1)) == place(st, r@));
            lemma_place_all_prefix_monotone(init, sorted, k + 1);
            assert forall|i: int| 0 <= i < sorted.len() implies (#[trigger] sorted[i]).index
                < init.positions.len() by {
                assert(order@[i] < n);
            }
            lemma_place_all_positions_len(init, sorted);
            assert(sorted.take(n as int) =~= sorted);
        }
        let mut idx = spaces.len();
        while idx > 0 && !(r.width <= spaces[idx - 1].width && r.height <= spaces[idx - 1].height)
            invariant
                idx <= spaces.len(),
                fit_index(spaces@, r@, spaces.len() as int) == fit_index(spaces@, r@, idx as int),
            decreases idx,
        {
            idx -= 1;
        }
        if idx > 0 {
            let at = idx - 1;
            let s = spaces[at];
            assert(fit_index(spaces@, r@, spaces.len() as int) == at);
            let x = s.x;
            let y = s.y;
            if width < x + r.width {
                width = x + r.width;
            }
            if height < y + r.height {
                height = y + r.height;
            }
            positions.set(r.index, (x, y));
            if r.width == s.width && r.height == s.height {
                spaces.swap_remove(at);
            } else if r.height == s.height {
                spaces.set(at, Space { x: s.x + r.width, width: s.width - r.width, ..s });
            } else if r.width == s.width {
                spaces.set(at, Space { y: s.y + r.height, height: s.height - r.height, ..s });
            } else {
                spaces.push(
                    Space { x: s.x + r.width, y: s.y, width: s.width - r.width, height: r.height },
                );
                spaces.set(at, Space { y: s.y + r.height, height: s.height - r.height, ..s });
            }
            proof {
                let nst = place(st, r@);
                assert(spaces@ =~= nst.spaces);
            }
        }
        k += 1;
    }
    proof {
        assert(sorted.take(n as int) =~= sorted);
        if n == 0 {
            lemma_place_all_positions_len(init, sorted);
        }
    }
    (width, height, positions)
}

/// Packs the rectangles as `place_rectangles` places them, in `u32`
/// coordinates.
pub fn pack(rectangles: Vec<Rectangle>) -> (layout: Layout)
    requires
        pack_requires(pack_items(rectangles@)),
    ensures
        layout_is(layout, packed(pack_items(rectangles@))),
{
    let ghost st = packed(pack_items(rectangles@));
    let (width, height, placed) = place_rectangles(&rectangles);
    let mut positions: Vec<(u32, u32)> = Vec::new();
    let mut p: usize = 0;
    while p < placed.len()
        invariant
            p <= placed.len(),
            width <= u32::MAX,
            height <= u32::MAX,
            positions@.len() == p,
            forall|q: int| 0 <= q < placed@.len() ==> (#[trigger] placed@[q]).0 <= width && placed@[q].1 <= height,
            forall|q: int|
                0 <= q < p ==> (#[trigger] positions@[q]).0 == placed@[q].0 && positions@[q].1 == placed@[q].1,
        decreases placed.len() - p,
    {
        let (x, y) = placed[p];
        positions.push((x as u32, y as u32));
        p += 1;
    }
    Layout { width: width as u32, height: height as u32, positions }
}




// ---------------------------------------------------------------------
// Laws of the packing.
// ---------------------------------------------------------------------

/// An axis-aligned region of the sheet.
pub struct Region {
    pub x: int,
    pub y: int,
    pub w: int,
    pub h: int,
}

/// No point lies in both regions.
pub open spec fn disjoint(a: Region, b: Region) -> bool {
    a.w <= 0 || a.h <= 0 || b.w <= 0 || b.h <= 0 || a.x + a.w <= b.x || b.x + b.w <= a.x || a.y
        + a.h <= b.y || b.y + b.h <= a.y
}

/// Region `a` lies inside region `b`.
pub open spec fn within(a: Region, b: Region) -> bool {
    &&& b.x <= a.x
    &&& a.x + a.w <= b.x + b.w
    &&& b.y <= a.y
    &&& a.y + a.h <= b.y + b.h
    &&& 0 <= a.w
    &&& 0 <= a.h
}

/// The region that a free space covers.
pub open spec fn space_region(s: Space) -> Region {
    Region { x: s.x as int, y: s.y as int, w: s.width as int, h: s.height as int }
}

/// Where rectangle `r` stands in state `st`.
pub open spec fn rect_region(st: PackState, r: PackItem) -> Region {
    Region {
        x: st.positions[r.index as int].0,
        y: st.positions[r.index as int].1,
        w: r.width as int,
        h: r.height as int,
    }
}

proof fn lemma_within_disjoint(a: Region, b: Region, c: Region)
    requires
        within(a, b),
        disjoint(b, c),
    ensures
        disjoint(a, c),
{
}

proof fn lemma_max_width_bound(rects: Seq<PackItem>, i: int)
    requires
        0 <= i < rects.len(),
    ensures
        rects[i].width <= max_width(rects),
        0 <= max_width(rects),
    decreases rects.len(),
{
    if i < rects.len() - 1 {
        assert(rects.drop_last()[i] == rects[i]);
        lemma_max_width_bound(rects.drop_last(), i);
    } else if rects.len() > 1 {
        lemma_max_width_bound(rects.drop_last(), 0);
    }
}

proof fn lemma_fit_index(spaces: Seq<Space>, r: PackItem, k: int)
    requires
        0 <= k <= spaces.len(),
    ensures
        -1 <= fit_index(spaces, r, k) < k,
        fit_index(spaces, r, k) >= 0 ==> fits(spaces[fit_index(spaces, r, k)], r),
        fit_index(spaces, r, k) == -1 ==> forall|j: int| 0 <= j < k ==> !fits(#[trigger] spaces[j], r),
    decreases k,
{
    if k > 0 {
        lemma_fit_index(spaces, r, k - 1);
    }
}

/// The invariant of packing with sheet width `w` after the rectangles
/// `rs` went in.
#[verifier::opaque]
pub open spec fn pack_inv(st: PackState, rs: Seq<PackItem>, w: int) -> bool {
    &&& forall|q: int|
        0 <= q < st.spaces.len() ==> (#[trigger] st.spaces[q]).x + st.spaces[q].width <= w
            && st.spaces[q].y + st.spaces[q].height <= u64::MAX
    &&& forall|q1: int, q2: int|
        0 <= q1 < st.spaces.len() && 0 <= q2 < st.spaces.len() && q1 != q2 ==> disjoint(
            space_region(#[trigger] st.spaces[q1]),
            space_region(#[trigger] st.spaces[q2]),
        )
    &&& forall|a: int, q: int|
        0 <= a < rs.len() && 0 <= q < st.spaces.len() ==> disjoint(
            rect_region(st, #[trigger] rs[a]),
            space_region(#[trigger] st.spaces[q]),
        )
    &&& forall|a: int, b: int|
        0 <= a < b < rs.len() ==> disjoint(
            rect_region(st, #[trigger] rs[a]),
            rect_region(st, #[trigger] rs[b]),
        )
    &&& forall|a: int|
        0 <= a < rs.len() ==> {
            let g = rect_region(st, #[trigger] rs[a]);
            0 <= g.x && g.x + g.w <= st.width && 0 <= g.y && g.y + g.h <= st.height
        }
    &&& forall|a: int| 0 <= a < rs.len() ==> (#[trigger] rs[a]).index < st.positions.len()
    &&& forall|a: int, b: int|
        0 <= a < b < rs.len() ==> (#[trigger] rs[a]).index != (#[trigger] rs[b]).index
    &&& exists|b: int|
        0 <= b < st.spaces.len() && #[trigger] is_bottom_space(st.spaces[b], w, st.height)
}

/// The full-width space that reaches the bottom of the sheet.
pub open spec fn is_bottom_space(s: Space, w: int, top_bound: int) -> bool {
    s.x == 0 && s.width == w && s.y + s.height == u64::MAX && s.y <= top_bound
}

proof fn lemma_place_keeps_inv(st: PackState, rs: Seq<PackItem>, r: PackItem, w: int)
    requires
        pack_inv(st, rs, w),
        r.index < st.positions.len(),
        forall|a: int| 0 <= a < rs.len() ==> (#[trigger] rs[a]).index != r.index,
        r.width <= w,
        r.height <= u64::MAX - u32::MAX,
        place(st, r).height <= u32::MAX,
    ensures
        fit_index(st.spaces, r, st.spaces.len() as int) >= 0,
        pack_inv(place(st, r), rs.push(r), w),
{
    reveal(pack_inv);
    let spaces = st.spaces;
    let n = spaces.len() as int;
    let bidx = choose|b: int| 0 <= b < n && #[trigger] is_bottom_space(spaces[b], w, st.height);
    let bottom = spaces[bidx];
    lemma_place_monotone(st, r);
    assert(fits(bottom, r));
    lemma_fit_index(spaces, r, n);
    let k = fit_index(spaces, r, n);
    assert(k >= 0);
    let s = spaces[k];
    let nst = place(st, r);
    let nrs = rs.push(r);
    let sr = space_region(s);
    let rr = rect_region(nst, r);
    assert(rr == Region { x: s.x as int, y: s.y as int, w: r.width as int, h: r.height as int });
    assert(within(rr, sr));
    // old rectangles keep their positions
    assert forall|a: int| 0 <= a < rs.len() implies rect_region(nst, #[trigger] rs[a]) == rect_region(st, rs[a]) by {
        assert(rs[a].index != r.index);
    }
    // the new rectangle is clear of every other space and every placed rectangle
    assert forall|q: int| 0 <= q < n && q != k implies disjoint(rr, space_region(#[trigger] spaces[q])) by {
        lemma_within_disjoint(rr, sr, space_region(spaces[q]));
    }
    assert forall|a: int| 0 <= a < rs.len() implies disjoint(rect_region(st, #[trigger] rs[a]), rr) by {
        lemma_within_disjoint(rr, sr, rect_region(st, rs[a]));
    }
    let ns = nst.spaces;
    assert(ns == split_spaces(spaces, k, r));
    if k == bidx {
        assert(r.height < s.height);
    }
    // every new space is an old space other than `k`, or a piece of `s` clear of `r`
    assert forall|q: int| 0 <= q < ns.len() implies (exists|o: int|
        0 <= o < n && o != k && #[trigger] spaces[o] == ns[q]) || (within(space_region(#[trigger] ns[q]), sr)
        && disjoint(space_region(ns[q]), rr)) by {
        if r.width == s.width && r.height == s.height {
            if q == k {
                assert(ns[q] == spaces[n - 1]);
                assert(spaces[n - 1] == ns[q]);
            } else {
                assert(spaces[q] == ns[q]);
            }
        } else if q == k || q == n {
        } else {
            assert(spaces[q] == ns[q]);
        }
    }
    assert forall|q1: int, q2: int|
        0 <= q1 < ns.len() && 0 <= q2 < ns.len() && q1 != q2 implies disjoint(
        space_region(#[trigger] ns[q1]),
        space_region(#[trigger] ns[q2]),
    ) by {
        if r.width == s.width && r.height == s.height {
            let o1 = if q1 == k { n - 1 } else { q1 };
            let o2 = if q2 == k { n - 1 } else { q2 };
            assert(ns[q1] == spaces[o1]);
            assert(ns[q2] == spaces[o2]);
        } else if r.height == s.height || r.width == s.width {
            if q1 == k {
                lemma_within_disjoint(space_region(ns[q1]), sr, space_region(spaces[q2]));
            } else if q2 == k {
                lemma_within_disjoint(space_region(ns[q2]), sr, space_region(spaces[q1]));
            } else {
                assert(ns[q1] == spaces[q1] && ns[q2] == spaces[q2]);
            }
        } else {
            if (q1 == k || q1 == n) && (q2 == k || q2 == n) {
            } else if q1 == k || q1 == n {
                assert(ns[q2] == spaces[q2]);
                lemma_within_disjoint(space_region(ns[q1]), sr, space_region(spaces[q2]));
            } else if q2 == k || q2 == n {
                assert(ns[q1] == spaces[q1]);
                lemma_within_disjoint(space_region(ns[q2]), sr, space_region(spaces[q1]));
            } else {
                assert(ns[q1] == spaces[q1] && ns[q2] == spaces[q2]);
            }
        }
    }
    assert forall|a: int, q: int| 0 <= a < nrs.len() && 0 <= q < ns.len() implies disjoint(
        rect_region(nst, #[trigger] nrs[a]),
        space_region(#[trigger] ns[q]),
    ) by {
        if a == rs.len() {
            assert(nrs[a] == r);
            if exists|o: int| 0 <= o < n && o != k && #[trigger] spaces[o] == ns[q] {
                let o = choose|o: int| 0 <= o < n && o != k && #[trigger] spaces[o] == ns[q];
                assert(disjoint(rr, space_region(spaces[o])));
            }
        } else {
            assert(nrs[a] == rs[a]);
            if exists|o: int| 0 <= o < n && o != k && #[trigger] spaces[o] == ns[q] {
                let o = choose|o: int| 0 <= o < n && o != k && #[trigger] spaces[o] == ns[q];
                assert(disjoint(rect_region(st, rs[a]), space_region(spaces[o])));
            } else {
                assert(disjoint(rect_region(st, rs[a]), sr));
                lemma_within_disjoint(space_region(ns[q]), sr, rect_region(st, rs[a]));
            }
        }
    }
    assert forall|a: int, b: int| 0 <= a < b < nrs.len() implies disjoint(
        rect_region(nst, #[trigger] nrs[a]),
        rect_region(nst, #[trigger] nrs[b]),
    ) by {
        assert(nrs[a] == rs[a]);
        if b == rs.len() {
            assert(nrs[b] == r);
        } else {
            assert(nrs[b] == rs[b]);
        }
    }
    assert forall|a: int| 0 <= a < nrs.len() implies {
        let g = rect_region(nst, #[trigger] nrs[a]);
        0 <= g.x && g.x + g.w <= nst.width && 0 <= g.y && g.y + g.h <= nst.height
    } by {
        if a < rs.len() {
            assert(nrs[a] == rs[a]);
        }
    }
    assert forall|a: int| 0 <= a < nrs.len() implies (#[trigger] nrs[a]).index < nst.positions.len() by {
        if a < rs.len() {
            assert(nrs[a] == rs[a]);
        }
    }
    assert forall|a: int, b: int| 0 <= a < b < nrs.len() implies (#[trigger] nrs[a]).index != (
    #[trigger] nrs[b]).index by {
        assert(nrs[a] == rs[a]);
        if b < rs.len() {
            assert(nrs[b] == rs[b]);
        }
    }
    assert forall|q: int| 0 <= q < ns.len() implies (#[trigger] ns[q]).x + ns[q].width <= w && ns[q].y
        + ns[q].height <= u64::MAX by {
        if r.width == s.width && r.height == s.height && q == k {
            assert(ns[q] == spaces[n - 1]);
        } else if q != k && q != n {
            assert(ns[q] == spaces[q]);
        }
    }
    // the bottom space survives
    let top = nst.height;
    if bidx == k {
        assert(is_bottom_space(ns[k], w, top));
    } else if r.width == s.width && r.height == s.height && bidx == n - 1 {
        assert(ns[k] == spaces[n - 1]);
        assert(is_bottom_space(ns[k], w, top));
    } else {
        assert(ns[bidx] == spaces[bidx]);
        assert(is_bottom_space(ns[bidx], w, top));
    }
    assert(pack_inv(nst, nrs, w));
}


proof fn lemma_fit_index_newest(spaces: Seq<Space>, r: PackItem, m: int)
    requires
        0 <= m <= spaces.len(),
    ensures
        fit_index(spaces, r, m) >= 0 ==> forall|j: int|
            fit_index(spaces, r, m) < j < m ==> !(r.width <= (#[trigger] spaces[j]).width && r.height
                <= spaces[j].height),
    decreases m,
{
    if m > 0 {
        lemma_fit_index_newest(spaces, r, m - 1);
    }
}

/// A rectangle goes into the newest free space that holds it. When no free
/// space is as wide and as tall as the rectangle, nothing changes.
/// Otherwise its corner becomes the corner of a space that holds it and
/// after which no space holds it, and the sheet grows just enough to cover
/// it.
pub proof fn lemma_place_takes_newest_fitting_space(st: PackState, r: PackItem)
    requires
        r.index < st.positions.len(),
    ensures
        (forall|j: int|
            0 <= j < st.spaces.len() ==> !(r.width <= (#[trigger] st.spaces[j]).width && r.height
                <= st.spaces[j].height)) ==> place(st, r) == st,
        (exists|j: int|
            0 <= j < st.spaces.len() && r.width <= (#[trigger] st.spaces[j]).width && r.height
                <= st.spaces[j].height) ==> exists|k: int|
            {
                &&& 0 <= k < st.spaces.len()
                &&& r.width <= (#[trigger] st.spaces[k]).width
                &&& r.height <= st.spaces[k].height
                &&& forall|j: int|
                    k < j < st.spaces.len() ==> !(r.width <= (#[trigger] st.spaces[j]).width && r.height
                        <= st.spaces[j].height)
                &&& place(st, r).positions[r.index as int] == (st.spaces[k].x as int, st.spaces[k].y as int)
                &&& place(st, r).width == (if st.width < st.spaces[k].x + r.width {
                    st.spaces[k].x + r.width
                } else {
                    st.width
                })
                &&& place(st, r).height == (if st.height < st.spaces[k].y + r.height {
                    st.spaces[k].y + r.height
                } else {
                    st.height
                })
            },
{
    let n = st.spaces.len() as int;
    lemma_fit_index(st.spaces, r, n);
    lemma_fit_index_newest(st.spaces, r, n);
    let k = fit_index(st.spaces, r, n);
    if k >= 0 {
        assert(r.width <= st.spaces[k].width && r.height <= st.spaces[k].height);
    } else {
        assert forall|j: int| 0 <= j < n implies !(r.width <= (#[trigger] st.spaces[j]).width && r.height
            <= st.spaces[j].height) by {
            assert(!fits(st.spaces[j], r));
        }
    }
}

/// The rectangles' slots are in range and distinct, the starting width fits
/// in `u64`, the packed sheet is at most `u32::MAX` tall, and no rectangle
/// is taller than the `u64` coordinates leave below such a sheet.
pub open spec fn pack_law_requires(rects: Seq<PackItem>) -> bool {
    &&& forall|i: int| 0 <= i < rects.len() ==> (#[trigger] rects[i]).index < rects.len()
    &&& forall|i: int, j: int|
        0 <= i < j < rects.len() ==> (#[trigger] rects[i]).index != (#[trigger] rects[j]).index
    &&& start_width(rects) <= u64::MAX
    &&& packed(rects).height <= u32::MAX
    &&& forall|i: int| 0 <= i < rects.len() ==> (#[trigger] rects[i]).height <= u64::MAX - u32::MAX
    &&& rects.len() <= usize::MAX
}

/// The input position of the `a`-th rectangle placed.
pub open spec fn placed_from(rects: Seq<PackItem>, a: int) -> int {
    sorted_positions(height_keys(rects), id_keys(rects), rects.len() as int)[a] as int
}

/// When the rectangle at input position `i` is placed.
pub open spec fn placed_at(rects: Seq<PackItem>, i: int) -> int {
    choose|a: int| 0 <= a < rects.len() && placed_from(rects, a) == i
}

proof fn lemma_placement_order_facts(rects: Seq<PackItem>)
    requires
        pack_law_requires(rects),
    ensures
        placement_order(rects).len() == rects.len(),
        forall|a: int|
            0 <= a < rects.len() ==> 0 <= #[trigger] placed_from(rects, a) < rects.len()
                && placement_order(rects)[a] == rects[placed_from(rects, a)],
        forall|a: int, b: int|
            0 <= a < b < rects.len() ==> (#[trigger] placement_order(rects)[a]).index != (
            #[trigger] placement_order(rects)[b]).index,
        forall|i: int|
            0 <= i < rects.len() ==> 0 <= #[trigger] placed_at(rects, i) < rects.len()
                && placed_from(rects, placed_at(rects, i)) == i,
{
    let n = rects.len() as int;
    let pk = height_keys(rects);
    let ik = id_keys(rects);
    let order = sorted_positions(pk, ik, n);
    let witness = crate::order::sorted_order_exists(pk, ik, n);
    assert(crate::order::is_sorted_order(pk, ik, order, n));
    let sorted = placement_order(rects);
    assert forall|a: int, b: int| 0 <= a < b < n implies (#[trigger] sorted[a]).index != (
    #[trigger] sorted[b]).index by {
        assert(crate::order::key_before(pk, ik, order[a] as int, order[b] as int));
        if order[a] == order[b] {
            crate::order::lemma_key_before_asymmetric(pk, ik, order[a] as int, order[b] as int);
        }
        if order[a] < order[b] {
            assert(rects[order[a] as int].index != rects[order[b] as int].index);
        } else {
            assert(rects[order[b] as int].index != rects[order[a] as int].index);
        }
    }
    assert forall|i: int| 0 <= i < n implies 0 <= #[trigger] placed_at(rects, i) < n && placed_from(
        rects,
        placed_at(rects, i),
    ) == i by {
        assert(order.contains(i as usize));
        let a = choose|a: int| 0 <= a < order.len() && order[a] == i as usize;
        assert(placed_from(rects, a) == i);
    }
}

#[verifier::spinoff_prover]
proof fn lemma_pack_inv_prefix(rects: Seq<PackItem>, k: int)
    requires
        pack_law_requires(rects),
        0 <= k <= rects.len(),
    ensures
        pack_inv(
            place_all(initial_state(rects), placement_order(rects).take(k)),
            placement_order(rects).take(k),
            start_width(rects),
        ),
    decreases k,
{
    let sorted = placement_order(rects);
    let init = initial_state(rects);
    let w = start_width(rects);
    lemma_placement_order_facts(rects);
    if k == 0 {
        reveal(pack_inv);
        assert(sorted.take(0) =~= Seq::<PackItem>::empty());
        assert(init.spaces[0].x + init.spaces[0].width <= w);
        assert(is_bottom_space(init.spaces[0], w, init.height));
    } else {
        lemma_pack_inv_prefix(rects, k - 1);
        let prev = sorted.take(k - 1);
        let st = place_all(init, prev);
        let r = sorted[k - 1];
        assert(sorted.take(k).drop_last() =~= prev);
        assert(sorted.take(k) =~= prev.push(r));
        let i = placed_from(rects, k - 1);
        lemma_max_width_bound(rects, i);
        assert(max_width(rects) <= w);
        assert forall|a: int| 0 <= a < prev.len() implies (#[trigger] prev[a]).index < init.positions.len() by {
            assert(prev[a] == sorted[a]);
            assert(sorted[a] == rects[placed_from(rects, a)]);
        }
        lemma_place_all_positions_len(init, prev);
        assert forall|a: int| 0 <= a < prev.len() implies (#[trigger] prev[a]).index != r.index by {
            assert(prev[a] == sorted[a]);
        }
        assert(r.height <= u64::MAX - u32::MAX);
        lemma_place_all_prefix_monotone(init, sorted, k);
        assert(place_all(init, sorted.take(k)) == place(st, r));
        assert(sorted.take(rects.len() as int) =~= sorted);
        lemma_place_keeps_inv(st, prev, r, w);
    }
}

proof fn lemma_max_width_fits(rects: Seq<PackItem>)
    ensures
        0 <= max_width(rects) <= u64::MAX,
    decreases rects.len(),
{
    if rects.len() > 0 {
        lemma_max_width_fits(rects.drop_last());
    }
}

/// The starting width fits in `u64` once its square-root part does.
pub proof fn lemma_start_width_fits(rects: Seq<PackItem>)
    requires
        spec_ceil_sqrt(adjusted_area(rects)) <= u64::MAX,
    ensures
        start_width(rects) <= u64::MAX,
{
    lemma_max_width_fits(rects);
}

/// Packing records one position per rectangle.
pub proof fn lemma_packed_positions(rects: Seq<PackItem>)
    requires
        pack_law_requires(rects),
    ensures
        packed(rects).positions.len() == rects.len(),
{
    lemma_placement_order_facts(rects);
    let sorted = placement_order(rects);
    assert forall|a: int| 0 <= a < sorted.len() implies (#[trigger] sorted[a]).index < initial_state(rects).positions.len() by {
        assert(sorted[a] == rects[placed_from(rects, a)]);
    }
    lemma_place_all_positions_len(initial_state(rects), sorted);
}

/// Packed rectangles never overlap one another, and each lies inside the
/// packed sheet.
#[verifier::spinoff_prover]
pub proof fn lemma_packed_disjoint(rects: Seq<PackItem>)
    requires
        pack_law_requires(rects),
    ensures
        forall|i: int, j: int|
            0 <= i < rects.len() && 0 <= j < rects.len() && i != j ==> disjoint(
                rect_region(packed(rects), #[trigger] rects[i]),
                rect_region(packed(rects), #[trigger] rects[j]),
            ),
        forall|i: int|
            0 <= i < rects.len() ==> {
                let g = rect_region(packed(rects), #[trigger] rects[i]);
                0 <= g.x && g.x + g.w <= packed(rects).width && 0 <= g.y && g.y + g.h <= packed(rects).height
            },
{
    let n = rects.len() as int;
    let sorted = placement_order(rects);
    lemma_placement_order_facts(rects);
    lemma_pack_inv_prefix(rects, n);
    assert(sorted.take(n) =~= sorted);
    let st = packed(rects);
    reveal(pack_inv);
    assert forall|i: int, j: int| 0 <= i < n && 0 <= j < n && i != j implies disjoint(
        rect_region(st, #[trigger] rects[i]),
        rect_region(st, #[trigger] rects[j]),
    ) by {
        let a = placed_at(rects, i);
        let b = placed_at(rects, j);
        assert(sorted[a] == rects[i]);
        assert(sorted[b] == rects[j]);
        if a < b {
            assert(disjoint(rect_region(st, sorted[a]), rect_region(st, sorted[b])));
        } else if b < a {
            assert(disjoint(rect_region(st, sorted[b]), rect_region(st, sorted[a])));
        }
    }
    assert forall|i: int| 0 <= i < n implies {
        let g = rect_region(st, #[trigger] rects[i]);
        0 <= g.x && g.x + g.w <= st.width && 0 <= g.y && g.y + g.h <= st.height
    } by {
        let a = placed_at(rects, i);
        assert(sorted[a] == rects[i]);
    }
}

} // verus!
