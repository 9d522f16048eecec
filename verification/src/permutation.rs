//! The sheet does not depend on the order in which the icons come.

use crate::order::{
    bytes_lt, is_sorted_order, key_before, lemma_bytes_lt_asymmetric, lemma_bytes_lt_irreflexive,
    lemma_bytes_lt_transitive, sorted_order_exists, sorted_positions,
};
use crate::index::{ids_increasing, index_get, lemma_index_get};
use crate::potpack::{
    PackItem, height_keys, id_keys, initial_state, max_width, packed, placement_order, total_area,
};
use crate::sheet::{
    RenderedIcon, adjacent_ids_differ, build_failure, first_duplicate, icon_keys, id_key,
    lemma_first_duplicate_none, lemma_sorted_ids_increasing, ordered_icons, sheet_index, sheet_png,
    sheet_within_limits, zero_keys,
};
use vstd::prelude::*;

verus! {

broadcast use vstd::utf8::encode_utf8_decode_utf8;

/// `perm` lists each of the positions `0..n` exactly once.
pub open spec fn is_permutation(perm: Seq<int>, n: int) -> bool {
    &&& perm.len() == n
    &&& forall|i: int| 0 <= i < n ==> 0 <= #[trigger] perm[i] < n
    &&& forall|i: int, j: int| 0 <= i < n && 0 <= j < n && i != j ==> #[trigger] perm[i] != #[trigger] perm[j]
    &&& forall|j: int| 0 <= j < n ==> #[trigger] is_taken(perm, j)
}

/// Some position of `perm` holds `j`.
pub open spec fn is_taken(perm: Seq<int>, j: int) -> bool {
    exists|i: int| 0 <= i < perm.len() && #[trigger] perm[i] == j
}

/// `b` holds the icons of `a`, rearranged by `perm`.
pub open spec fn permuted(a: Seq<RenderedIcon>, b: Seq<RenderedIcon>, perm: Seq<int>) -> bool {
    &&& b.len() == a.len()
    &&& is_permutation(perm, a.len() as int)
    &&& forall|i: int| 0 <= i < b.len() ==> #[trigger] b[i] == a[perm[i]]
}

/// Two icons at different positions of `icons` have the id bytes `d`.
pub open spec fn repeated_key(icons: Seq<RenderedIcon>, d: Seq<u8>) -> bool {
    exists|i: int, j: int|
        0 <= i < icons.len() && 0 <= j < icons.len() && i != j && #[trigger] id_key(icons[i]) == d
            && #[trigger] id_key(icons[j]) == d
}

/// `a` sorts before `b`, or they are equal.
pub open spec fn bytes_le(a: Seq<u8>, b: Seq<u8>) -> bool {
    bytes_lt(a, b) || a == b
}

/// The stable sort of the icons by id.
pub open spec fn id_order(icons: Seq<RenderedIcon>) -> Seq<usize> {
    sorted_positions(zero_keys(icons.len() as int), icon_keys(icons), icons.len() as int)
}

/// Where input position `i` ends up in the sorted icons.
pub open spec fn sorted_position(icons: Seq<RenderedIcon>, i: int) -> int {
    choose|k: int| 0 <= k < icons.len() && id_order(icons)[k] == i
}

proof fn lemma_bytes_le_transitive(a: Seq<u8>, b: Seq<u8>, c: Seq<u8>)
    requires
        bytes_le(a, b),
        bytes_le(b, c),
    ensures
        bytes_le(a, c),
        bytes_lt(a, b) ==> bytes_lt(a, c),
        bytes_lt(b, c) ==> bytes_lt(a, c),
{
    if bytes_lt(a, b) && bytes_lt(b, c) {
        lemma_bytes_lt_transitive(a, b, c);
    }
}

/// The sorted icons are the icons at the sorted positions, with
/// non-decreasing ids, and every input position has its sorted place.
proof fn lemma_sorted_facts(icons: Seq<RenderedIcon>)
    requires
        icons.len() <= usize::MAX,
    ensures
        is_sorted_order(zero_keys(icons.len() as int), icon_keys(icons), id_order(icons), icons.len() as int),
        ordered_icons(icons).len() == icons.len(),
        forall|k: int| 0 <= k < icons.len() ==> #[trigger] ordered_icons(icons)[k] == icons[id_order(icons)[k] as int],
        forall|a: int, b: int|
            0 <= a < b < icons.len() ==> bytes_le(
                id_key(#[trigger] ordered_icons(icons)[a]),
                id_key(#[trigger] ordered_icons(icons)[b]),
            ) && id_order(icons)[a] != id_order(icons)[b],
        forall|i: int|
            0 <= i < icons.len() ==> 0 <= #[trigger] sorted_position(icons, i) < icons.len()
                && id_order(icons)[sorted_position(icons, i)] == i,
{
    let n = icons.len() as int;
    let zeros = zero_keys(n);
    let keys = icon_keys(icons);
    let order = id_order(icons);
    sorted_order_exists(zeros, keys, n);
    let sorted = ordered_icons(icons);
    assert forall|a: int, b: int| 0 <= a < b < n implies bytes_le(
        id_key(#[trigger] sorted[a]),
        id_key(#[trigger] sorted[b]),
    ) && order[a] != order[b] by {
        assert(key_before(zeros, keys, order[a] as int, order[b] as int));
        if order[a] == order[b] {
            lemma_bytes_lt_irreflexive(keys[order[a] as int]);
        }
    }
    assert forall|i: int| 0 <= i < n implies 0 <= #[trigger] sorted_position(icons, i) < n && order[sorted_position(
        icons,
        i,
    )] == i by {
        assert(order.contains(i as usize));
        let k = choose|k: int| 0 <= k < order.len() && order[k] == i as usize;
        assert(0 <= k < n && order[k] == i);
    }
}

/// `first_duplicate` from `j` finds a repeat no later than any repeat at
/// or after `j`.
proof fn lemma_first_duplicate_before(sorted: Seq<RenderedIcon>, j: int, p: int)
    requires
        0 <= j <= p,
        p + 1 < sorted.len(),
        sorted[p].id@ == sorted[p + 1].id@,
    ensures
        first_duplicate(sorted, j) matches Some(k) && j <= k <= p,
    decreases p - j,
{
    if sorted[j].id@ != sorted[j + 1].id@ {
        lemma_first_duplicate_before(sorted, j + 1, p);
    }
}

proof fn lemma_first_duplicate_found(sorted: Seq<RenderedIcon>, j: int)
    requires
        0 <= j,
    ensures
        first_duplicate(sorted, j) matches Some(k) ==> j <= k && k + 1 < sorted.len() && sorted[k].id@ == sorted[k
            + 1].id@,
    decreases sorted.len() - j,
{
    if j + 1 < sorted.len() && sorted[j].id@ != sorted[j + 1].id@ {
        lemma_first_duplicate_found(sorted, j + 1);
    }
}

/// A repeated id shows up as two equal neighbours at or after the first
/// sorted place of its first copy.
proof fn lemma_repeat_is_adjacent(icons: Seq<RenderedIcon>, d: Seq<u8>, i: int, j: int) -> (p: int)
    requires
        icons.len() <= usize::MAX,
        0 <= i < icons.len(),
        0 <= j < icons.len(),
        i != j,
        id_key(icons[i]) == d,
        id_key(icons[j]) == d,
    ensures
        0 <= p && p + 1 < icons.len(),
        ordered_icons(icons)[p].id@ == ordered_icons(icons)[p + 1].id@,
        id_key(ordered_icons(icons)[p]) == d,
{
    lemma_sorted_facts(icons);
    let sorted = ordered_icons(icons);
    let pi = sorted_position(icons, i);
    let pj = sorted_position(icons, j);
    let p = if pi < pj { pi } else { pj };
    let q = if pi < pj { pj } else { pi };
    assert(p < q);
    assert(id_key(sorted[p]) == d && id_key(sorted[q]) == d);
    assert(bytes_le(id_key(sorted[p]), id_key(sorted[p + 1])));
    if p + 1 < q {
        assert(bytes_le(id_key(sorted[p + 1]), id_key(sorted[q])));
        lemma_bytes_le_transitive(id_key(sorted[p]), id_key(sorted[p + 1]), id_key(sorted[q]));
        lemma_bytes_lt_irreflexive(d);
    }
    assert(id_key(sorted[p]) == id_key(sorted[p + 1]));
    assert(vstd::utf8::decode_utf8(id_key(sorted[p])) == vstd::utf8::decode_utf8(id_key(sorted[p + 1])));
    p
}

/// The first repeat among the sorted icons has the smallest repeated id,
/// and there is none when no id is repeated.
proof fn lemma_first_duplicate_is_smallest(icons: Seq<RenderedIcon>)
    requires
        icons.len() <= usize::MAX,
    ensures
        first_duplicate(ordered_icons(icons), 0) matches Some(k) ==> {
            &&& 0 <= k && k + 1 < icons.len()
            &&& repeated_key(icons, id_key(ordered_icons(icons)[k]))
            &&& forall|d: Seq<u8>| #[trigger] repeated_key(icons, d) ==> bytes_le(id_key(ordered_icons(icons)[k]), d)
        },
        first_duplicate(ordered_icons(icons), 0) is None ==> forall|d: Seq<u8>| !#[trigger] repeated_key(icons, d),
{
    lemma_sorted_facts(icons);
    let sorted = ordered_icons(icons);
    let order = id_order(icons);
    lemma_first_duplicate_found(sorted, 0);
    match first_duplicate(sorted, 0) {
        Some(k) => {
            let d = id_key(sorted[k]);
            let i = order[k] as int;
            let j = order[k + 1] as int;
            assert(icons[i] == sorted[k] && icons[j] == sorted[k + 1]);
            assert(id_key(icons[j]) == d);
            assert(repeated_key(icons, d));
            assert forall|e: Seq<u8>| #[trigger] repeated_key(icons, e) implies bytes_le(d, e) by {
                let (x, y) = choose|x: int, y: int|
                    0 <= x < icons.len() && 0 <= y < icons.len() && x != y && #[trigger] id_key(icons[x]) == e
                        && #[trigger] id_key(icons[y]) == e;
                let p = lemma_repeat_is_adjacent(icons, e, x, y);
                lemma_first_duplicate_before(sorted, 0, p);
                if k < p {
                    assert(bytes_le(id_key(sorted[k]), id_key(sorted[p])));
                }
            }
        },
        None => {
            lemma_first_duplicate_none(sorted, 0);
            assert forall|e: Seq<u8>| !#[trigger] repeated_key(icons, e) by {
                if repeated_key(icons, e) {
                    let (x, y) = choose|x: int, y: int|
                        0 <= x < icons.len() && 0 <= y < icons.len() && x != y && #[trigger] id_key(icons[x]) == e
                            && #[trigger] id_key(icons[y]) == e;
                    let p = lemma_repeat_is_adjacent(icons, e, x, y);
                    assert(adjacent_ids_differ(sorted, p));
                }
            }
        },
    }
}

/// Two sequences of icons with strictly increasing ids that hold the same
/// icons are equal.
proof fn lemma_strictly_sorted_equal(s1: Seq<RenderedIcon>, s2: Seq<RenderedIcon>)
    requires
        forall|a: int, b: int| 0 <= a < b < s1.len() ==> bytes_lt(id_key(#[trigger] s1[a]), id_key(#[trigger] s1[b])),
        forall|a: int, b: int| 0 <= a < b < s2.len() ==> bytes_lt(id_key(#[trigger] s2[a]), id_key(#[trigger] s2[b])),
        forall|x: RenderedIcon| #[trigger] s1.contains(x) ==> s2.contains(x),
        forall|x: RenderedIcon| #[trigger] s2.contains(x) ==> s1.contains(x),
    ensures
        s1 == s2,
    decreases s1.len(),
{
    if s1.len() == 0 {
        if s2.len() > 0 {
            assert(s2.contains(s2[0]));
        }
        assert(s1 =~= s2);
    } else {
        assert(s1.contains(s1[0]));
        assert(s2.contains(s1[0]));
        let j = choose|j: int| 0 <= j < s2.len() && s2[j] == s1[0];
        assert(s2.contains(s2[0]));
        let i = choose|i: int| 0 <= i < s1.len() && s1[i] == s2[0];
        if j > 0 {
            assert(bytes_lt(id_key(s2[0]), id_key(s2[j])));
            if i > 0 {
                assert(bytes_lt(id_key(s1[0]), id_key(s1[i])));
                lemma_bytes_lt_transitive(id_key(s1[0]), id_key(s1[i]), id_key(s1[0]));
            }
            lemma_bytes_lt_irreflexive(id_key(s1[0]));
        }
        assert(s1[0] == s2[0]);
        let t1 = s1.drop_first();
        let t2 = s2.drop_first();
        assert forall|x: RenderedIcon| #[trigger] t1.contains(x) implies t2.contains(x) by {
            let a = choose|a: int| 0 <= a < t1.len() && t1[a] == x;
            assert(s1[a + 1] == x);
            assert(s1.contains(x));
            let b = choose|b: int| 0 <= b < s2.len() && s2[b] == x;
            if b == 0 {
                assert(bytes_lt(id_key(s1[0]), id_key(s1[a + 1])));
                lemma_bytes_lt_irreflexive(id_key(s1[0]));
            }
            assert(t2[b - 1] == x);
        }
        assert forall|x: RenderedIcon| #[trigger] t2.contains(x) implies t1.contains(x) by {
            let b = choose|b: int| 0 <= b < t2.len() && t2[b] == x;
            assert(s2[b + 1] == x);
            assert(s2.contains(x));
            let a = choose|a: int| 0 <= a < s1.len() && s1[a] == x;
            if a == 0 {
                assert(bytes_lt(id_key(s2[0]), id_key(s2[b + 1])));
                lemma_bytes_lt_irreflexive(id_key(s2[0]));
            }
            assert(t1[a - 1] == x);
        }
        lemma_strictly_sorted_equal(t1, t2);
        assert(s1 =~= seq![s1[0]] + t1);
        assert(s2 =~= seq![s2[0]] + t2);
    }
}

/// Rearranging the icons keeps the set of repeated ids.
proof fn lemma_repeats_kept(a: Seq<RenderedIcon>, b: Seq<RenderedIcon>, perm: Seq<int>)
    requires
        permuted(a, b, perm),
    ensures
        forall|d: Seq<u8>| #[trigger] repeated_key(a, d) <==> repeated_key(b, d),
{
    assert forall|d: Seq<u8>| #[trigger] repeated_key(a, d) <==> repeated_key(b, d) by {
        if repeated_key(b, d) {
            let (x, y) = choose|x: int, y: int|
                0 <= x < b.len() && 0 <= y < b.len() && x != y && #[trigger] id_key(b[x]) == d && #[trigger] id_key(
                    b[y],
                ) == d;
            assert(b[x] == a[perm[x]] && b[y] == a[perm[y]]);
            assert(id_key(a[perm[x]]) == d && id_key(a[perm[y]]) == d);
        }
        if repeated_key(a, d) {
            let (x, y) = choose|x: int, y: int|
                0 <= x < a.len() && 0 <= y < a.len() && x != y && #[trigger] id_key(a[x]) == d && #[trigger] id_key(
                    a[y],
                ) == d;
            assert(is_taken(perm, x) && is_taken(perm, y));
            let u = choose|u: int| 0 <= u < perm.len() && #[trigger] perm[u] == x;
            let v = choose|v: int| 0 <= v < perm.len() && #[trigger] perm[v] == y;
            assert(b[u] == a[x] && b[v] == a[y]);
            assert(id_key(b[u]) == d && id_key(b[v]) == d);
        }
    }
}

/// Without repeated ids, rearranged icons sort into the same sequence.
proof fn lemma_same_sorted(a: Seq<RenderedIcon>, b: Seq<RenderedIcon>, perm: Seq<int>)
    requires
        a.len() <= usize::MAX,
        permuted(a, b, perm),
        first_duplicate(ordered_icons(a), 0) is None,
        first_duplicate(ordered_icons(b), 0) is None,
    ensures
        ordered_icons(a) == ordered_icons(b),
{
    let n = a.len() as int;
    let sa = ordered_icons(a);
    let sb = ordered_icons(b);
    lemma_sorted_facts(a);
    lemma_sorted_facts(b);
    lemma_sorted_ids_increasing(a);
    lemma_sorted_ids_increasing(b);
    assert forall|x: RenderedIcon| #[trigger] sa.contains(x) implies sb.contains(x) by {
        let k = choose|k: int| 0 <= k < sa.len() && sa[k] == x;
        let i = id_order(a)[k] as int;
        assert(is_taken(perm, i));
        let u = choose|u: int| 0 <= u < perm.len() && #[trigger] perm[u] == i;
        let p = sorted_position(b, u);
        assert(sb[p] == b[u]);
    }
    assert forall|x: RenderedIcon| #[trigger] sb.contains(x) implies sa.contains(x) by {
        let k = choose|k: int| 0 <= k < sb.len() && sb[k] == x;
        let u = id_order(b)[k] as int;
        let i = perm[u];
        let p = sorted_position(a, i);
        assert(sa[p] == a[i]);
    }
    lemma_strictly_sorted_equal(sa, sb);
}

/// The order of the icons does not matter: rearranged icons give the same
/// failure, and where building succeeds, the same PNG file, the same index
/// and the same limits.
pub proof fn lemma_input_order_irrelevant(
    a: Seq<RenderedIcon>,
    b: Seq<RenderedIcon>,
    perm: Seq<int>,
    pixel_ratio: u8,
    fast: bool,
)
    requires
        a.len() <= usize::MAX,
        permuted(a, b, perm),
    ensures
        build_failure(a) == build_failure(b),
        build_failure(a) is None ==> {
            &&& sheet_png(a, fast) == sheet_png(b, fast)
            &&& sheet_index(a, pixel_ratio) == sheet_index(b, pixel_ratio)
            &&& sheet_within_limits(a) == sheet_within_limits(b)
        },
{
    let sa = ordered_icons(a);
    let sb = ordered_icons(b);
    lemma_first_duplicate_is_smallest(a);
    lemma_first_duplicate_is_smallest(b);
    lemma_repeats_kept(a, b, perm);
    match (first_duplicate(sa, 0), first_duplicate(sb, 0)) {
        (Some(ka), Some(kb)) => {
            let da = id_key(sa[ka]);
            let db = id_key(sb[kb]);
            assert(repeated_key(b, da) && repeated_key(a, db));
            assert(bytes_le(db, da) && bytes_le(da, db));
            if da != db {
                lemma_bytes_lt_asymmetric(da, db);
            }
            assert(vstd::utf8::decode_utf8(da) == vstd::utf8::decode_utf8(db));
            assert(sa[ka].id@ == sb[kb].id@);
            assert(build_failure(a) == build_failure(b));
        },
        (Some(ka), None) => {
            assert(repeated_key(a, id_key(sa[ka])));
            assert(repeated_key(b, id_key(sa[ka])));
            assert(false);
        },
        (None, Some(kb)) => {
            assert(repeated_key(b, id_key(sb[kb])));
            assert(repeated_key(a, id_key(sb[kb])));
            assert(false);
        },
        (None, None) => {
            lemma_same_sorted(a, b, perm);
            assert(sa == sb);
            assert(build_failure(a) == build_failure(b));
        },
    }
}

/// Every icon keeps an entry of its own: the index has one entry per icon,
/// and the icon's id reads back an entry with its size and the sheet's
/// pixel ratio.
pub proof fn lemma_each_icon_has_its_entry(icons: Seq<RenderedIcon>, pixel_ratio: u8, i: int)
    requires
        icons.len() <= usize::MAX,
        build_failure(icons) is None,
        0 <= i < icons.len(),
    ensures
        sheet_index(icons, pixel_ratio).len() == icons.len(),
        ids_increasing(sheet_index(icons, pixel_ratio)),
        index_get(sheet_index(icons, pixel_ratio), icons[i].id@) matches Some(e) && e.width == icons[i].width
            && e.height == icons[i].height && e.pixel_ratio == pixel_ratio,
{
    lemma_sorted_facts(icons);
    lemma_sorted_ids_increasing(icons);
    let sorted = ordered_icons(icons);
    let index = sheet_index(icons, pixel_ratio);
    assert forall|a: int, b: int| 0 <= a < b < index.len() implies bytes_lt(
        crate::index::id_bytes(#[trigger] index[a].0),
        crate::index::id_bytes(#[trigger] index[b].0),
    ) by {
        assert(bytes_lt(id_key(sorted[a]), id_key(sorted[b])));
    }
    let p = sorted_position(icons, i);
    assert(sorted[p] == icons[i]);
    lemma_index_get(index, p);
}

// ---------------------------------------------------------------------
// The order of the rectangles given to the packer.
// ---------------------------------------------------------------------

/// `p` is placed before `q`: it is taller, or as tall with a smaller id.
pub open spec fn item_before(p: PackItem, q: PackItem) -> bool {
    p.height > q.height || (p.height == q.height && bytes_lt(p.key, q.key))
}

proof fn lemma_item_before_order(p: PackItem, q: PackItem, r: PackItem)
    ensures
        !item_before(p, p),
        item_before(p, q) && item_before(q, r) ==> item_before(p, r),
{
    lemma_bytes_lt_irreflexive(p.key);
    if item_before(p, q) && item_before(q, r) && p.height == q.height && q.height == r.height {
        lemma_bytes_lt_transitive(p.key, q.key, r.key);
    }
}

proof fn lemma_total_area_remove(a: Seq<PackItem>, j: int)
    requires
        0 <= j < a.len(),
    ensures
        total_area(a) == total_area(a.remove(j)) + a[j].width * a[j].height,
    decreases a.len(),
{
    if j == a.len() - 1 {
        assert(a.remove(j) =~= a.drop_last());
    } else {
        lemma_total_area_remove(a.drop_last(), j);
        assert(a.drop_last().remove(j) =~= a.remove(j).drop_last());
        assert(a.remove(j).last() == a.last());
    }
}

proof fn lemma_max_width_remove(a: Seq<PackItem>, j: int)
    requires
        0 <= j < a.len(),
    ensures
        max_width(a) == if a[j].width > max_width(a.remove(j)) {
            a[j].width as int
        } else {
            max_width(a.remove(j))
        },
    decreases a.len(),
{
    if j == a.len() - 1 {
        assert(a.remove(j) =~= a.drop_last());
    } else {
        lemma_max_width_remove(a.drop_last(), j);
        assert(a.drop_last().remove(j) =~= a.remove(j).drop_last());
        assert(a.remove(j).last() == a.last());
    }
}

/// Rearranged rectangles have the same total area and the same widest width.
proof fn lemma_totals_kept(a: Seq<PackItem>, b: Seq<PackItem>, perm: Seq<int>)
    requires
        b.len() == a.len(),
        is_permutation(perm, a.len() as int),
        forall|i: int| 0 <= i < b.len() ==> #[trigger] b[i] == a[perm[i]],
    ensures
        total_area(a) == total_area(b),
        max_width(a) == max_width(b),
    decreases a.len(),
{
    let n = a.len() as int;
    if n > 0 {
        let j = perm[n - 1];
        let a2 = a.remove(j);
        let b2 = b.drop_last();
        let perm2 = Seq::new((n - 1) as nat, |i: int| if perm[i] < j { perm[i] } else { perm[i] - 1 });
        assert forall|i: int| 0 <= i < n - 1 implies 0 <= #[trigger] perm2[i] < n - 1 by {
            assert(perm[i] != perm[n - 1]);
        }
        assert forall|i: int, k: int| 0 <= i < n - 1 && 0 <= k < n - 1 && i != k implies #[trigger] perm2[i]
            != #[trigger] perm2[k] by {
            assert(perm[i] != perm[k]);
            assert(perm[i] != j && perm[k] != j) by {
                assert(perm[i] != perm[n - 1]);
                assert(perm[k] != perm[n - 1]);
            }
        }
        assert forall|t: int| 0 <= t < n - 1 implies #[trigger] is_taken(perm2, t) by {
            let t2 = if t < j { t } else { t + 1 };
            assert(is_taken(perm, t2));
            let i = choose|i: int| 0 <= i < perm.len() && #[trigger] perm[i] == t2;
            assert(i != n - 1);
            assert(perm2[i] == t);
        }
        assert forall|i: int| 0 <= i < b2.len() implies #[trigger] b2[i] == a2[perm2[i]] by {
            assert(perm[i] != perm[n - 1]);
            assert(b[i] == a[perm[i]]);
        }
        lemma_totals_kept(a2, b2, perm2);
        lemma_total_area_remove(a, j);
        lemma_max_width_remove(a, j);
        assert(b.last() == a[j]);
    } else {
        assert(a =~= b);
    }
}

/// The packer's order of `rects`, when no two of them share both height
/// and id: strictly increasing in `item_before`, holding exactly the
/// rectangles.
proof fn lemma_placement_sorted(rects: Seq<PackItem>)
    requires
        rects.len() <= usize::MAX,
        forall|i: int, j: int|
            0 <= i < rects.len() && 0 <= j < rects.len() && i != j ==> (#[trigger] rects[i]).height
                != (#[trigger] rects[j]).height || rects[i].key != rects[j].key,
    ensures
        placement_order(rects).len() == rects.len(),
        forall|a: int, b: int|
            0 <= a < b < rects.len() ==> item_before(
                #[trigger] placement_order(rects)[a],
                #[trigger] placement_order(rects)[b],
            ),
        forall|x: PackItem| #[trigger] placement_order(rects).contains(x) <==> rects.contains(x),
{
    let n = rects.len() as int;
    let hk = height_keys(rects);
    let ik = id_keys(rects);
    let order = sorted_positions(hk, ik, n);
    sorted_order_exists(hk, ik, n);
    let sorted = placement_order(rects);
    assert forall|a: int, b: int| 0 <= a < b < n implies item_before(#[trigger] sorted[a], #[trigger] sorted[b]) by {
        assert(key_before(hk, ik, order[a] as int, order[b] as int));
        if order[a] == order[b] {
            lemma_bytes_lt_irreflexive(ik[order[a] as int]);
        }
        assert(rects[order[a] as int].height != rects[order[b] as int].height || rects[order[a] as int].key
            != rects[order[b] as int].key);
    }
    assert forall|x: PackItem| #[trigger] sorted.contains(x) <==> rects.contains(x) by {
        if sorted.contains(x) {
            let k = choose|k: int| 0 <= k < sorted.len() && sorted[k] == x;
            assert(rects[order[k] as int] == x);
        }
        if rects.contains(x) {
            let i = choose|i: int| 0 <= i < rects.len() && rects[i] == x;
            assert(order.contains(i as usize));
            let k = choose|k: int| 0 <= k < order.len() && order[k] == i as usize;
            assert(sorted[k] == x);
        }
    }
}

/// Two sequences of rectangles, strictly increasing in `item_before`, that
/// hold the same rectangles are equal.
proof fn lemma_item_sorted_equal(s1: Seq<PackItem>, s2: Seq<PackItem>)
    requires
        forall|a: int, b: int| 0 <= a < b < s1.len() ==> item_before(#[trigger] s1[a], #[trigger] s1[b]),
        forall|a: int, b: int| 0 <= a < b < s2.len() ==> item_before(#[trigger] s2[a], #[trigger] s2[b]),
        forall|x: PackItem| #[trigger] s1.contains(x) ==> s2.contains(x),
        forall|x: PackItem| #[trigger] s2.contains(x) ==> s1.contains(x),
    ensures
        s1 == s2,
    decreases s1.len(),
{
    if s1.len() == 0 {
        if s2.len() > 0 {
            assert(s2.contains(s2[0]));
        }
        assert(s1 =~= s2);
    } else {
        assert(s1.contains(s1[0]));
        let j = choose|j: int| 0 <= j < s2.len() && s2[j] == s1[0];
        assert(s2.contains(s2[0]));
        let i = choose|i: int| 0 <= i < s1.len() && s1[i] == s2[0];
        lemma_item_before_order(s1[0], s2[0], s1[0]);
        lemma_item_before_order(s2[0], s1[0], s2[0]);
        if j > 0 {
            assert(item_before(s2[0], s2[j]));
            if i > 0 {
                assert(item_before(s1[0], s1[i]));
            }
        }
        assert(s1[0] == s2[0]);
        let t1 = s1.drop_first();
        let t2 = s2.drop_first();
        assert forall|x: PackItem| #[trigger] t1.contains(x) implies t2.contains(x) by {
            let a = choose|a: int| 0 <= a < t1.len() && t1[a] == x;
            assert(s1[a + 1] == x);
            assert(s1.contains(x));
            let b = choose|b: int| 0 <= b < s2.len() && s2[b] == x;
            if b == 0 {
                assert(item_before(s1[0], s1[a + 1]));
                lemma_item_before_order(s1[0], s1[0], s1[0]);
            }
            assert(t2[b - 1] == x);
        }
        assert forall|x: PackItem| #[trigger] t2.contains(x) implies t1.contains(x) by {
            let b = choose|b: int| 0 <= b < t2.len() && t2[b] == x;
            assert(s2[b + 1] == x);
            assert(s2.contains(x));
            let a = choose|a: int| 0 <= a < s1.len() && s1[a] == x;
            if a == 0 {
                assert(item_before(s2[0], s2[b + 1]));
                lemma_item_before_order(s2[0], s2[0], s2[0]);
            }
            assert(t1[a - 1] == x);
        }
        lemma_item_sorted_equal(t1, t2);
        assert(s1 =~= seq![s1[0]] + t1);
        assert(s2 =~= seq![s2[0]] + t2);
    }
}

/// The order in which rectangles are given to the packer does not matter
/// when no two of them share both height and id: rearranged rectangles
/// (each keeping its slot index) are packed to the same sheet size and the
/// same positions.
pub proof fn lemma_packing_order_irrelevant(a: Seq<PackItem>, b: Seq<PackItem>, perm: Seq<int>)
    requires
        a.len() <= usize::MAX,
        b.len() == a.len(),
        is_permutation(perm, a.len() as int),
        forall|i: int| 0 <= i < b.len() ==> #[trigger] b[i] == a[perm[i]],
        forall|i: int, j: int|
            0 <= i < a.len() && 0 <= j < a.len() && i != j ==> (#[trigger] a[i]).height != (#[trigger] a[j]).height
                || a[i].key != a[j].key,
    ensures
        packed(a) == packed(b),
{
    let n = a.len() as int;
    assert forall|i: int, j: int|
        0 <= i < n && 0 <= j < n && i != j implies (#[trigger] b[i]).height != (#[trigger] b[j]).height
            || b[i].key != b[j].key by {
        assert(perm[i] != perm[j]);
        assert(b[i] == a[perm[i]] && b[j] == a[perm[j]]);
    }
    lemma_placement_sorted(a);
    lemma_placement_sorted(b);
    assert forall|x: PackItem| #[trigger] a.contains(x) <==> b.contains(x) by {
        if b.contains(x) {
            let i = choose|i: int| 0 <= i < b.len() && b[i] == x;
            assert(a[perm[i]] == x);
        }
        if a.contains(x) {
            let i = choose|i: int| 0 <= i < a.len() && a[i] == x;
            assert(is_taken(perm, i));
            let u = choose|u: int| 0 <= u < perm.len() && #[trigger] perm[u] == i;
            assert(b[u] == x);
        }
    }
    let sa = placement_order(a);
    let sb = placement_order(b);
    assert forall|x: PackItem| #[trigger] sa.contains(x) implies sb.contains(x) by {
        assert(a.contains(x));
    }
    assert forall|x: PackItem| #[trigger] sb.contains(x) implies sa.contains(x) by {
        assert(b.contains(x));
    }
    lemma_item_sorted_equal(sa, sb);
    lemma_totals_kept(a, b, perm);
    assert(initial_state(a) == initial_state(b));
}

} // verus!
