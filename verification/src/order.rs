//! Byte-wise lexicographic order (the order of `str` and `[u8]`) and a
//! stable sort of positions by a two-part key.

use vstd::prelude::*;

verus! {

/// `a` sorts strictly before `b` in byte-wise lexicographic order.
pub open spec fn bytes_lt(a: Seq<u8>, b: Seq<u8>) -> bool
    decreases a.len(),
{
    if b.len() == 0 {
        false
    } else if a.len() == 0 {
        true
    } else if a[0] != b[0] {
        a[0] < b[0]
    } else {
        bytes_lt(a.drop_first(), b.drop_first())
    }
}

pub proof fn lemma_bytes_lt_irreflexive(a: Seq<u8>)
    ensures
        !bytes_lt(a, a),
    decreases a.len(),
{
    if a.len() > 0 {
        lemma_bytes_lt_irreflexive(a.drop_first());
    }
}

pub proof fn lemma_bytes_lt_transitive(a: Seq<u8>, b: Seq<u8>, c: Seq<u8>)
    requires
        bytes_lt(a, b),
        bytes_lt(b, c),
    ensures
        bytes_lt(a, c),
    decreases a.len(),
{
    if a.len() > 0 && b.len() > 0 && c.len() > 0 && a[0] == b[0] && b[0] == c[0] {
        lemma_bytes_lt_transitive(a.drop_first(), b.drop_first(), c.drop_first());
    }
}

pub proof fn lemma_bytes_lt_total(a: Seq<u8>, b: Seq<u8>)
    requires
        a != b,
    ensures
        bytes_lt(a, b) || bytes_lt(b, a),
    decreases a.len(),
{
    if a.len() > 0 && b.len() > 0 && a[0] == b[0] {
        if a.drop_first() == b.drop_first() {
            assert(a =~= seq![a[0]] + a.drop_first());
            assert(b =~= seq![b[0]] + b.drop_first());
        }
        lemma_bytes_lt_total(a.drop_first(), b.drop_first());
    } else if a.len() == 0 && b.len() == 0 {
        assert(a =~= b);
    }
}

pub proof fn lemma_bytes_lt_asymmetric(a: Seq<u8>, b: Seq<u8>)
    requires
        bytes_lt(a, b),
    ensures
        !bytes_lt(b, a),
{
    if bytes_lt(b, a) {
        lemma_bytes_lt_transitive(a, b, a);
        lemma_bytes_lt_irreflexive(a);
    }
}

/// Compares two byte strings as `<` on `[u8]` does.
pub fn bytes_less(a: &[u8], b: &[u8]) -> (r: bool)
    ensures
        r == bytes_lt(a@, b@),
{
    let mut i: usize = 0;
    assert(a@.skip(0) =~= a@);
    assert(b@.skip(0) =~= b@);
    while i < a.len() && i < b.len()
        invariant
            i <= a.len(),
            i <= b.len(),
            bytes_lt(a@, b@) == bytes_lt(a@.skip(i as int), b@.skip(i as int)),
        decreases a.len() - i,
    {
        if a[i] != b[i] {
            return a[i] < b[i];
        }
        assert(a@.skip(i as int).drop_first() =~= a@.skip(i + 1));
        assert(b@.skip(i as int).drop_first() =~= b@.skip(i + 1));
        i += 1;
    }
    i == a.len() && i < b.len()
}

/// Tests two byte strings for equality.
pub fn bytes_equal(a: &[u8], b: &[u8]) -> (r: bool)
    ensures
        r == (a@ == b@),
{
    if a.len() != b.len() {
        return false;
    }
    let mut i: usize = 0;
    while i < a.len()
        invariant
            i <= a.len(),
            a.len() == b.len(),
            forall|k: int| 0 <= k < i ==> a@[k] == b@[k],
        decreases a.len() - i,
    {
        if a[i] != b[i] {
            return false;
        }
        i += 1;
    }
    assert(a@ =~= b@);
    true
}


/// The byte strings of a sequence of slices.
pub open spec fn slice_views(names: Seq<&[u8]>) -> Seq<Seq<u8>> {
    names.map_values(|s: &[u8]| s@)
}

/// Position `i` has a smaller key than position `j`: a smaller primary
/// key, or the same primary key and a smaller name.
pub open spec fn key_lt(primary: Seq<u64>, names: Seq<Seq<u8>>, i: int, j: int) -> bool {
    primary[i] < primary[j] || (primary[i] == primary[j] && bytes_lt(names[i], names[j]))
}

/// Position `i` comes before position `j` in a stable sort by key: its
/// key is smaller, or the keys are equal and `i` comes first in the input.
pub open spec fn key_before(primary: Seq<u64>, names: Seq<Seq<u8>>, i: int, j: int) -> bool {
    key_lt(primary, names, i, j) || (primary[i] == primary[j] && names[i] == names[j] && i < j)
}

/// `order` lists the positions `0..n` once each, sorted stably by key.
pub open spec fn is_sorted_order(
    primary: Seq<u64>,
    names: Seq<Seq<u8>>,
    order: Seq<usize>,
    n: int,
) -> bool {
    &&& order.len() == n
    &&& forall|k: int| 0 <= k < n ==> order[k] < n
    &&& forall|i: usize| i < n ==> #[trigger] order.contains(i)
    &&& forall|a: int, b: int|
        0 <= a < b < n ==> key_before(primary, names, #[trigger] order[a] as int, #[trigger] order[b] as int)
}

pub proof fn lemma_key_before_transitive(
    primary: Seq<u64>,
    names: Seq<Seq<u8>>,
    i: int,
    j: int,
    k: int,
)
    requires
        key_before(primary, names, i, j),
        key_before(primary, names, j, k),
    ensures
        key_before(primary, names, i, k),
{
    if primary[i] == primary[j] && primary[j] == primary[k] {
        if bytes_lt(names[i], names[j]) && bytes_lt(names[j], names[k]) {
            lemma_bytes_lt_transitive(names[i], names[j], names[k]);
        }
    }
}

pub proof fn lemma_key_before_asymmetric(primary: Seq<u64>, names: Seq<Seq<u8>>, i: int, j: int)
    requires
        key_before(primary, names, i, j),
    ensures
        !key_before(primary, names, j, i),
{
    if primary[i] == primary[j] {
        if bytes_lt(names[i], names[j]) {
            lemma_bytes_lt_asymmetric(names[i], names[j]);
            lemma_bytes_lt_irreflexive(names[i]);
        } else {
            lemma_bytes_lt_irreflexive(names[i]);
        }
    }
}

pub proof fn lemma_key_before_total(primary: Seq<u64>, names: Seq<Seq<u8>>, i: int, j: int)
    requires
        i != j,
    ensures
        key_before(primary, names, i, j) || key_before(primary, names, j, i),
{
    if primary[i] == primary[j] && names[i] != names[j] {
        lemma_bytes_lt_total(names[i], names[j]);
    }
}

/// The stable sort by key of the positions `0..n`.
pub open spec fn sorted_positions(primary: Seq<u64>, names: Seq<Seq<u8>>, n: int) -> Seq<usize> {
    choose|order: Seq<usize>| is_sorted_order(primary, names, order, n)
}

proof fn lemma_sorted_sequences_equal(
    primary: Seq<u64>,
    names: Seq<Seq<u8>>,
    s1: Seq<usize>,
    s2: Seq<usize>,
)
    requires
        forall|a: int, b: int|
            0 <= a < b < s1.len() ==> key_before(primary, names, #[trigger] s1[a] as int, #[trigger] s1[b] as int),
        forall|a: int, b: int|
            0 <= a < b < s2.len() ==> key_before(primary, names, #[trigger] s2[a] as int, #[trigger] s2[b] as int),
        forall|x: usize| s1.contains(x) <==> s2.contains(x),
    ensures
        s1 == s2,
    decreases s1.len(),
{
    if s1.len() == 0 {
        if s2.len() > 0 {
            assert(s2.contains(s2[0]));
        }
        assert(s1 =~= s2);
    } else {
        if s2.len() == 0 {
            assert(s1.contains(s1[0]));
        }
        assert(s1.contains(s2[0]));
        assert(s2.contains(s1[0]));
        let i = choose|i: int| 0 <= i < s1.len() && s1[i] == s2[0];
        let j = choose|j: int| 0 <= j < s2.len() && s2[j] == s1[0];
        if i > 0 && j > 0 {
            assert(key_before(primary, names, s1[0] as int, s1[i] as int));
            assert(key_before(primary, names, s2[0] as int, s2[j] as int));
            lemma_key_before_asymmetric(primary, names, s1[0] as int, s2[0] as int);
        }
        assert(s1[0] == s2[0]);
        let t1 = s1.drop_first();
        let t2 = s2.drop_first();
        assert forall|x: usize| t1.contains(x) <==> t2.contains(x) by {
            if t1.contains(x) {
                let k = choose|k: int| 0 <= k < t1.len() && t1[k] == x;
                assert(s1[k + 1] == x);
                if x == s1[0] {
                    assert(key_before(primary, names, s1[0] as int, s1[k + 1] as int));
                    lemma_key_before_asymmetric(primary, names, x as int, x as int);
                }
                assert(s1.contains(x));
                assert(s2.contains(x));
                let k2 = choose|k2: int| 0 <= k2 < s2.len() && s2[k2] == x;
                assert(k2 != 0);
                assert(t2[k2 - 1] == x);
            }
            if t2.contains(x) {
                let k = choose|k: int| 0 <= k < t2.len() && t2[k] == x;
                assert(s2[k + 1] == x);
                if x == s2[0] {
                    assert(key_before(primary, names, s2[0] as int, s2[k + 1] as int));
                    lemma_key_before_asymmetric(primary, names, x as int, x as int);
                }
                assert(s2.contains(x));
                assert(s1.contains(x));
                let k1 = choose|k1: int| 0 <= k1 < s1.len() && s1[k1] == x;
                assert(k1 != 0);
                assert(t1[k1 - 1] == x);
            }
        }
        assert forall|a: int, b: int| 0 <= a < b < t1.len() implies key_before(
            primary,
            names,
            #[trigger] t1[a] as int,
            #[trigger] t1[b] as int,
        ) by {
            assert(t1[a] == s1[a + 1] && t1[b] == s1[b + 1]);
        }
        assert forall|a: int, b: int| 0 <= a < b < t2.len() implies key_before(
            primary,
            names,
            #[trigger] t2[a] as int,
            #[trigger] t2[b] as int,
        ) by {
            assert(t2[a] == s2[a + 1] && t2[b] == s2[b + 1]);
        }
        lemma_sorted_sequences_equal(primary, names, t1, t2);
        assert(s1 =~= seq![s1[0]] + t1);
        assert(s2 =~= seq![s2[0]] + t2);
    }
}

/// A stable sort by key has only one outcome.
pub proof fn lemma_sorted_order_unique(
    primary: Seq<u64>,
    names: Seq<Seq<u8>>,
    order: Seq<usize>,
    n: int,
)
    requires
        is_sorted_order(primary, names, order, n),
    ensures
        order == sorted_positions(primary, names, n),
{
    let other = sorted_positions(primary, names, n);
    assert(is_sorted_order(primary, names, other, n));
    assert forall|x: usize| order.contains(x) <==> other.contains(x) by {
        if order.contains(x) {
            let k = choose|k: int| 0 <= k < order.len() && order[k] == x;
            assert(x < n);
        }
        if other.contains(x) {
            let k = choose|k: int| 0 <= k < other.len() && other[k] == x;
            assert(x < n);
        }
    }
    lemma_sorted_sequences_equal(primary, names, order, other);
}

/// Every key sequence has a stable sorted order.
pub proof fn sorted_order_exists(primary: Seq<u64>, names: Seq<Seq<u8>>, n: int) -> (order: Seq<usize>)
    requires
        0 <= n <= primary.len(),
        n <= names.len(),
        n <= usize::MAX,
    ensures
        is_sorted_order(primary, names, order, n),
        is_sorted_order(primary, names, sorted_positions(primary, names, n), n),
    decreases n,
{
    if n == 0 {
        let order = Seq::<usize>::empty();
        assert(is_sorted_order(primary, names, order, n));
        order
    } else {
        let prev = sorted_order_exists(primary, names, n - 1);
        let m = n - 1;
        // insert m after the last position whose key is not larger
        let pos = insertion_point(primary, names, prev, m, m);
        let order = prev.insert(pos, m as usize);
        assert forall|a: int, b: int| 0 <= a < b < n implies key_before(
            primary,
            names,
            #[trigger] order[a] as int,
            #[trigger] order[b] as int,
        ) by {
            if b < pos {
                assert(order[a] == prev[a] && order[b] == prev[b]);
            } else if b == pos {
                assert(order[b] == m);
                assert(order[a] == prev[a]);
                assert(key_before(primary, names, prev[pos - 1] as int, m));
                if a < pos - 1 {
                    assert(key_before(primary, names, prev[a] as int, prev[pos - 1] as int));
                    lemma_key_before_transitive(primary, names, prev[a] as int, prev[pos - 1] as int, m);
                }
            } else if a == pos {
                assert(order[a] == m);
                assert(order[b] == prev[b - 1]);
                assert(key_lt(primary, names, m, prev[b - 1] as int));
            } else if a < pos {
                assert(order[a] == prev[a] && order[b] == prev[b - 1]);
            } else {
                assert(order[a] == prev[a - 1] && order[b] == prev[b - 1]);
            }
        }
        assert forall|i: usize| i < n implies #[trigger] order.contains(i) by {
            if i == m {
                assert(order[pos] == m);
            } else {
                assert(prev.contains(i));
                let k = choose|k: int| 0 <= k < prev.len() && prev[k] == i;
                if k < pos {
                    assert(order[k] == i);
                } else {
                    assert(order[k + 1] == i);
                }
            }
        }
        assert(is_sorted_order(primary, names, order, n));
        order
    }
}

/// Where position `m` goes into the sorted prefix `prev` of `0..m`.
proof fn insertion_point(
    primary: Seq<u64>,
    names: Seq<Seq<u8>>,
    prev: Seq<usize>,
    m: int,
    pos: int,
) -> (p: int)
    requires
        is_sorted_order(primary, names, prev, m),
        0 <= pos <= m,
        0 <= m < primary.len(),
        m < names.len(),
        forall|k: int| pos <= k < m ==> key_lt(primary, names, m, #[trigger] prev[k] as int),
    ensures
        0 <= p <= m,
        forall|k: int| p <= k < m ==> key_lt(primary, names, m, #[trigger] prev[k] as int),
        p > 0 ==> key_before(primary, names, prev[p - 1] as int, m),
    decreases pos,
{
    if pos > 0 && key_lt(primary, names, m, prev[pos - 1] as int) {
        insertion_point(primary, names, prev, m, pos - 1)
    } else {
        if pos > 0 {
            lemma_key_before_total(primary, names, m, prev[pos - 1] as int);
        }
        pos
    }
}

fn key_less(primary: &Vec<u64>, names: &Vec<&[u8]>, i: usize, j: usize) -> (r: bool)
    requires
        i < primary.len(),
        j < primary.len(),
        primary.len() == names.len(),
    ensures
        r == key_lt(primary@, slice_views(names@), i as int, j as int),
{
    if primary[i] < primary[j] {
        true
    } else if primary[i] == primary[j] {
        bytes_less(names[i], names[j])
    } else {
        false
    }
}

/// The positions `0..n` sorted stably by the key `(primary, name)`.
pub fn sorted_order(primary: &Vec<u64>, names: &Vec<&[u8]>) -> (order: Vec<usize>)
    requires
        primary.len() == names.len(),
    ensures
        is_sorted_order(primary@, slice_views(names@), order@, primary.len() as int),
        order@ == sorted_positions(primary@, slice_views(names@), primary.len() as int),
{
    let ghost keys = slice_views(names@);
    let n = primary.len();
    let mut order: Vec<usize> = Vec::new();
    let mut m: usize = 0;
    while m < n
        invariant
            m <= n,
            n == primary.len(),
            n == names.len(),
            keys == slice_views(names@),
            is_sorted_order(primary@, keys, order@, m as int),
        decreases n - m,
    {
        let mut pos = m;
        while pos > 0 && key_less(primary, names, m, order[pos - 1])
            invariant
                pos <= m,
                m < n,
                n == primary.len(),
                n == names.len(),
                keys == slice_views(names@),
                is_sorted_order(primary@, keys, order@, m as int),
                forall|k: int| pos <= k < m ==> key_lt(primary@, keys, m as int, #[trigger] order@[k] as int),
            decreases pos,
        {
            pos -= 1;
        }
        let ghost old_order = order@;
        proof {
            if pos > 0 {
                let x = old_order[pos - 1] as int;
                assert(!key_lt(primary@, keys, m as int, x));
                lemma_key_before_total(primary@, keys, m as int, x);
                assert(key_before(primary@, keys, x, m as int));
            }
        }
        order.insert(pos, m);
        proof {
            let o = order@;
            assert(o =~= old_order.insert(pos as int, m));
            assert forall|a: int, b: int| 0 <= a < b < m + 1 implies key_before(
                primary@,
                keys,
                #[trigger] o[a] as int,
                #[trigger] o[b] as int,
            ) by {
                if b < pos {
                    assert(o[a] == old_order[a] && o[b] == old_order[b]);
                } else if b == pos {
                    if a < pos - 1 {
                        assert(key_before(primary@, keys, old_order[a] as int, old_order[pos - 1] as int));
                        lemma_key_before_transitive(
                            primary@,
                            keys,
                            old_order[a] as int,
                            old_order[pos - 1] as int,
                            m as int,
                        );
                    }
                } else if a == pos {
                    assert(o[b] == old_order[b - 1]);
                    assert(key_lt(primary@, keys, m as int, old_order[b - 1] as int));
                } else if a < pos {
                    assert(o[a] == old_order[a] && o[b] == old_order[b - 1]);
                } else {
                    assert(o[a] == old_order[a - 1] && o[b] == old_order[b - 1]);
                }
            }
            assert forall|i: usize| i < m + 1 implies #[trigger] o.contains(i) by {
                if i == m {
                    assert(o[pos as int] == m);
                } else {
                    assert(old_order.contains(i));
                    let k = choose|k: int| 0 <= k < old_order.len() && old_order[k] == i;
                    if k < pos {
                        assert(o[k] == i);
                    } else {
                        assert(o[k + 1] == i);
                    }
                }
            }
        }
        m += 1;
    }
    proof {
        lemma_sorted_order_unique(primary@, keys, order@, n as int);
    }
    order
}

} // verus!
