//! Stable sorting, expressed as a permutation of positions: positions are
//! ordered by their key and, among equal keys, by the position itself, so the
//! result is exactly what a stable sort yields.
use vstd::prelude::*;
use crate::text::{chars_less, chars_equal, seq_lt, lemma_seq_lt_irreflexive, lemma_seq_lt_total, lemma_seq_lt_transitive};

verus! {

/// A sort key of two strings: compared by `major`, then by `minor`.
pub struct SortKey {
    pub major: Vec<char>,
    pub minor: Vec<char>,
}

/// The string pair a key stands for.
pub open spec fn key_view(k: SortKey) -> (Seq<char>, Seq<char>) {
    (k.major@, k.minor@)
}

/// The string pairs of a list of keys.
pub open spec fn key_views(v: Seq<SortKey>) -> Seq<(Seq<char>, Seq<char>)> {
    v.map_values(|k: SortKey| key_view(k))
}

/// `a` sorts strictly before `b`: by the first string, then by the second.
pub open spec fn pair_lt(a: (Seq<char>, Seq<char>), b: (Seq<char>, Seq<char>)) -> bool {
    seq_lt(a.0, b.0) || (a.0 == b.0 && seq_lt(a.1, b.1))
}

/// Position `i` comes before position `j`: by key, then by position.
pub open spec fn pos_before(keys: Seq<(Seq<char>, Seq<char>)>, i: int, j: int) -> bool {
    pair_lt(keys[i], keys[j]) || (keys[i] == keys[j] && i < j)
}

/// `r` lists every position of `keys` once, in stable sorted order.
pub open spec fn sorts_positions(keys: Seq<(Seq<char>, Seq<char>)>, r: Seq<usize>) -> bool {
    &&& r.len() == keys.len()
    &&& r.no_duplicates()
    &&& forall|k: int| 0 <= k < r.len() ==> r[k] < keys.len()
    &&& forall|q: usize| q < keys.len() ==> #[trigger] r.contains(q)
    &&& forall|a: int, b: int|
        0 <= a < b < r.len() ==> pos_before(keys, r[a] as int, r[b] as int)
}

/// `pair_lt` is a strict total order: irreflexive, total on different
/// pairs, and asymmetric.
pub proof fn lemma_pair_lt_facts(a: (Seq<char>, Seq<char>), b: (Seq<char>, Seq<char>))
    ensures
        !pair_lt(a, a),
        a != b ==> (pair_lt(a, b) || pair_lt(b, a)),
        !(pair_lt(a, b) && pair_lt(b, a)),
{
    lemma_seq_lt_irreflexive(a.0);
    lemma_seq_lt_irreflexive(a.1);
    lemma_seq_lt_total(a.0, b.0);
    lemma_seq_lt_total(a.1, b.1);
}

/// `pair_lt` is transitive.
pub proof fn lemma_pair_lt_transitive(
    a: (Seq<char>, Seq<char>),
    b: (Seq<char>, Seq<char>),
    c: (Seq<char>, Seq<char>),
)
    requires
        pair_lt(a, b),
        pair_lt(b, c),
    ensures
        pair_lt(a, c),
{
    if seq_lt(a.0, b.0) && seq_lt(b.0, c.0) {
        lemma_seq_lt_transitive(a.0, b.0, c.0);
    } else if seq_lt(a.1, b.1) && seq_lt(b.1, c.1) {
        lemma_seq_lt_transitive(a.1, b.1, c.1);
    }
}

proof fn lemma_pos_before_transitive(keys: Seq<(Seq<char>, Seq<char>)>, i: int, j: int, k: int)
    requires
        pos_before(keys, i, j),
        pos_before(keys, j, k),
    ensures
        pos_before(keys, i, k),
{
    if pair_lt(keys[i], keys[j]) && pair_lt(keys[j], keys[k]) {
        lemma_pair_lt_transitive(keys[i], keys[j], keys[k]);
    }
}

/// Whether key `a` sorts strictly before key `b`.
pub fn key_less(a: &SortKey, b: &SortKey) -> (r: bool)
    ensures
        r == pair_lt(key_view(*a), key_view(*b)),
{
    if chars_less(&a.major, &b.major) {
        true
    } else if chars_equal(&a.major, &b.major) {
        chars_less(&a.minor, &b.minor)
    } else {
        false
    }
}

/// The positions of `keys` in stable sorted order (an insertion sort).
pub fn sort_positions(keys: &Vec<SortKey>) -> (r: Vec<usize>)
    ensures
        sorts_positions(key_views(keys@), r@),
{
    let ghost kv = key_views(keys@);
    let n = keys.len();
    let mut r: Vec<usize> = Vec::new();
    let mut p: usize = 0;
    while p < n
        invariant
            n == keys.len(),
            kv == key_views(keys@),
            kv.len() == n,
            p <= n,
            r.len() == p,
            r@.no_duplicates(),
            forall|k: int| 0 <= k < r.len() ==> r@[k] < p,
            forall|q: usize| q < p ==> #[trigger] r@.contains(q),
            forall|a: int, b: int|
                0 <= a < b < r.len() ==> pos_before(kv, r@[a] as int, r@[b] as int),
        decreases n - p,
    {
        let mut j: usize = 0;
        while j < r.len() && !key_less(&keys[p], &keys[r[j]])
            invariant
                n == keys.len(),
                kv == key_views(keys@),
                p < n,
                j <= r.len(),
                forall|k: int| 0 <= k < r.len() ==> r@[k] < p,
                forall|k: int| 0 <= k < j ==> !pair_lt(kv[p as int], kv[r@[k] as int]),
            decreases r.len() - j,
        {
            assert(kv[p as int] == key_view(keys@[p as int]));
            assert(kv[r@[j as int] as int] == key_view(keys@[r@[j as int] as int]));
            j += 1;
        }
        proof {
            if j < r.len() {
                assert(kv[p as int] == key_view(keys@[p as int]));
                assert(kv[r@[j as int] as int] == key_view(keys@[r@[j as int] as int]));
                assert(pair_lt(kv[p as int], kv[r@[j as int] as int]));
            }
        }
        let ghost old_r = r@;
        r.insert(j, p);
        proof {
            let nr = r@;
            assert(nr == old_r.insert(j as int, p));
            assert forall|k: int| 0 <= k < nr.len() implies nr[k] < p + 1 by {
                if k < j {
                } else if k > j {
                    assert(nr[k] == old_r[k - 1]);
                }
            }
            assert forall|a: int, b: int| 0 <= a < b < nr.len() implies nr[a] != nr[b] by {
                if a < j && b > j {
                    assert(nr[b] == old_r[b - 1]);
                } else if a > j {
                    assert(nr[a] == old_r[a - 1]);
                    assert(nr[b] == old_r[b - 1]);
                } else if b == j {
                } else if a == j {
                    assert(nr[b] == old_r[b - 1]);
                }
            }
            assert forall|a: int, b: int|
                0 <= a < b < nr.len() implies pos_before(kv, nr[a] as int, nr[b] as int) by {
                if b < j {
                } else if b == j {
                    // nr[a] = old_r[a] was not after p
                    let x = old_r[a] as int;
                    lemma_pair_lt_facts(kv[p as int], kv[x]);
                } else if a == j {
                    // p before old_r[j], which is before or equal to old_r[b - 1]
                    let y = old_r[b - 1] as int;
                    let z = old_r[j as int] as int;
                    assert(pos_before(kv, p as int, z));
                    if b - 1 > j {
                        lemma_pos_before_transitive(kv, p as int, z, y);
                    }
                } else if a < j {
                    assert(nr[b] == old_r[b - 1]);
                } else {
                    assert(nr[a] == old_r[a - 1]);
                    assert(nr[b] == old_r[b - 1]);
                }
            }
            assert(nr.no_duplicates());
            assert forall|q: usize| q < p + 1 implies #[trigger] nr.contains(q) by {
                if q == p {
                    assert(nr[j as int] == p);
                } else {
                    assert(old_r.contains(q));
                    let k = choose|k: int| 0 <= k < old_r.len() && old_r[k] == q;
                    if k < j {
                        assert(nr[k] == q);
                    } else {
                        assert(nr[k + 1] == q);
                    }
                }
            }
        }
        p += 1;
    }
    r
}

/// Position `i` comes before position `j`: by number, then by position.
pub open spec fn order_before(keys: Seq<i32>, i: int, j: int) -> bool {
    keys[i] < keys[j] || (keys[i] == keys[j] && i < j)
}

/// `r` lists every position of `keys` once, in stable ascending order.
pub open spec fn sorts_by_number(keys: Seq<i32>, r: Seq<usize>) -> bool {
    &&& r.len() == keys.len()
    &&& r.no_duplicates()
    &&& forall|k: int| 0 <= k < r.len() ==> r[k] < keys.len()
    &&& forall|q: usize| q < keys.len() ==> #[trigger] r.contains(q)
    &&& forall|a: int, b: int|
        0 <= a < b < r.len() ==> order_before(keys, r[a] as int, r[b] as int)
}

/// The positions of `keys` in stable ascending order of the numbers
/// (what `sort_by_key` does with an integer key).
pub fn sort_by_number(keys: &Vec<i32>) -> (r: Vec<usize>)
    ensures
        sorts_by_number(keys@, r@),
{
    let n = keys.len();
    let mut r: Vec<usize> = Vec::new();
    let mut p: usize = 0;
    while p < n
        invariant
            n == keys.len(),
            p <= n,
            r.len() == p,
            r@.no_duplicates(),
            forall|k: int| 0 <= k < r.len() ==> r@[k] < p,
            forall|q: usize| q < p ==> #[trigger] r@.contains(q),
            forall|a: int, b: int|
                0 <= a < b < r.len() ==> order_before(keys@, r@[a] as int, r@[b] as int),
        decreases n - p,
    {
        let mut j: usize = 0;
        while j < r.len() && !(keys[p] < keys[r[j]])
            invariant
                n == keys.len(),
                p < n,
                j <= r.len(),
                forall|k: int| 0 <= k < r.len() ==> r@[k] < p,
                forall|k: int| 0 <= k < j ==> !(keys@[p as int] < keys@[r@[k] as int]),
            decreases r.len() - j,
        {
            j += 1;
        }
        let ghost old_r = r@;
        r.insert(j, p);
        proof {
            let nr = r@;
            let kv = keys@;
            assert(nr == old_r.insert(j as int, p));
            assert forall|k: int| 0 <= k < nr.len() implies nr[k] < p + 1 by {
                if k > j {
                    assert(nr[k] == old_r[k - 1]);
                }
            }
            assert forall|a: int, b: int| 0 <= a < b < nr.len() implies nr[a] != nr[b] by {
                if a < j && b > j {
                    assert(nr[b] == old_r[b - 1]);
                } else if a > j {
                    assert(nr[a] == old_r[a - 1]);
                    assert(nr[b] == old_r[b - 1]);
                } else if a == j {
                    assert(nr[b] == old_r[b - 1]);
                }
            }
            assert forall|a: int, b: int|
                0 <= a < b < nr.len() implies order_before(kv, nr[a] as int, nr[b] as int) by {
                if b < j {
                } else if b == j {
                } else if a == j {
                    let z = old_r[j as int] as int;
                    assert(nr[b] == old_r[b - 1]);
                    if b - 1 > j {
                        assert(order_before(kv, z, old_r[b - 1] as int));
                    }
                } else if a < j {
                    assert(nr[b] == old_r[b - 1]);
                } else {
                    assert(nr[a] == old_r[a - 1]);
                    assert(nr[b] == old_r[b - 1]);
                }
            }
            assert(nr.no_duplicates());
            assert forall|q: usize| q < p + 1 implies #[trigger] nr.contains(q) by {
                if q == p {
                    assert(nr[j as int] == p);
                } else {
                    assert(old_r.contains(q));
                    let k = choose|k: int| 0 <= k < old_r.len() && old_r[k] == q;
                    if k < j {
                        assert(nr[k] == q);
                    } else {
                        assert(nr[k + 1] == q);
                    }
                }
            }
        }
        p += 1;
    }
    r
}

} // verus!
