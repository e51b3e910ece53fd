//! The canonical order of bodies: by the stable hash of their identifier,
//! then by the identifier's bytes in lexicographic order. Two sequences that
//! hold the same bodies, each identifier once, have one canonical order.
use crate::canonical::stable_id_hash_of;
use vstd::prelude::*;

verus! {

/// Lexicographic order on byte strings, as `str` orders them: the first
/// differing byte decides, and a proper prefix comes first.
pub open spec fn bytes_lt(a: Seq<u8>, b: Seq<u8>) -> bool
    decreases a.len(),
{
    if a.len() == 0 {
        b.len() > 0
    } else if b.len() == 0 {
        false
    } else if a[0] != b[0] {
        a[0] < b[0]
    } else {
        bytes_lt(a.drop_first(), b.drop_first())
    }
}

/// The order of identifiers: by stable hash, ties broken by the bytes.
pub open spec fn id_lt(a: Seq<u8>, b: Seq<u8>) -> bool {
    stable_id_hash_of(a) < stable_id_hash_of(b) || (stable_id_hash_of(a) == stable_id_hash_of(b)
        && bytes_lt(a, b))
}

pub proof fn lemma_bytes_lt_irreflexive(a: Seq<u8>)
    ensures
        !bytes_lt(a, a),
    decreases a.len(),
{
    if a.len() > 0 {
        lemma_bytes_lt_irreflexive(a.drop_first());
    }
}

pub proof fn lemma_bytes_lt_transitive(a: Seq<u8>, b: Seq<u8>, c: Seq<u8>)
    requires
        bytes_lt(a, b),
        bytes_lt(b, c),
    ensures
        bytes_lt(a, c),
    decreases a.len(),
{
    if a.len() > 0 && a[0] == b[0] && b[0] == c[0] {
        lemma_bytes_lt_transitive(a.drop_first(), b.drop_first(), c.drop_first());
    }
}

pub proof fn lemma_bytes_lt_total(a: Seq<u8>, b: Seq<u8>)
    requires
        a != b,
    ensures
        bytes_lt(a, b) || bytes_lt(b, a),
    decreases a.len(),
{
    if a.len() == 0 {
        if b.len() == 0 {
            assert(a =~= b);
        }
    } else if b.len() > 0 && a[0] == b[0] {
        if a.drop_first() == b.drop_first() {
            assert(a =~= seq![a[0]] + a.drop_first());
            assert(b =~= seq![b[0]] + b.drop_first());
        }
        lemma_bytes_lt_total(a.drop_first(), b.drop_first());
    }
}

pub proof fn lemma_id_lt_irreflexive(a: Seq<u8>)
    ensures
        !id_lt(a, a),
{
    lemma_bytes_lt_irreflexive(a);
}

pub proof fn lemma_id_lt_transitive(a: Seq<u8>, b: Seq<u8>, c: Seq<u8>)
    requires
        id_lt(a, b),
        id_lt(b, c),
    ensures
        id_lt(a, c),
{
    if stable_id_hash_of(a) == stable_id_hash_of(b) && stable_id_hash_of(b) == stable_id_hash_of(
        c,
    ) {
        lemma_bytes_lt_transitive(a, b, c);
    }
}

pub proof fn lemma_id_lt_total(a: Seq<u8>, b: Seq<u8>)
    requires
        a != b,
    ensures
        id_lt(a, b) || id_lt(b, a),
{
    lemma_bytes_lt_total(a, b);
}

pub proof fn lemma_id_lt_asymmetric(a: Seq<u8>, b: Seq<u8>)
    requires
        id_lt(a, b),
    ensures
        !id_lt(b, a),
{
    if id_lt(b, a) {
        lemma_id_lt_transitive(a, b, a);
        lemma_id_lt_irreflexive(a);
    }
}

/// Every pair of entries is in strictly increasing identifier order.
pub open spec fn strictly_sorted<T>(s: Seq<(Seq<u8>, T)>) -> bool {
    forall|i: int, j: int| 0 <= i < j < s.len() ==> id_lt(#[trigger] s[i].0, #[trigger] s[j].0)
}

/// No identifier occurs twice.
pub open spec fn unique_ids<T>(s: Seq<(Seq<u8>, T)>) -> bool {
    forall|i: int, j: int| 0 <= i < j < s.len() ==> #[trigger] s[i].0 != #[trigger] s[j].0
}

/// The two sequences hold the same entries.
pub open spec fn same_entries<T>(a: Seq<(Seq<u8>, T)>, b: Seq<(Seq<u8>, T)>) -> bool {
    forall|x: (Seq<u8>, T)| a.contains(x) <==> b.contains(x)
}

/// `s` lists the entries of `e` in canonical order.
pub open spec fn is_canonical_order<T>(s: Seq<(Seq<u8>, T)>, e: Seq<(Seq<u8>, T)>) -> bool {
    s.len() == e.len() && strictly_sorted(s) && same_entries(s, e)
}

/// Two strictly sorted sequences with the same entries are equal.
pub proof fn lemma_sorted_unique<T>(s1: Seq<(Seq<u8>, T)>, s2: Seq<(Seq<u8>, T)>)
    requires
        strictly_sorted(s1),
        strictly_sorted(s2),
        same_entries(s1, s2),
    ensures
        s1 == s2,
    decreases s1.len() + s2.len(),
{
    if s1.len() == 0 {
        if s2.len() > 0 {
            assert(s2.contains(s2[0]));
        }
        assert(s1 =~= s2);
    } else if s2.len() == 0 {
        assert(s1.contains(s1[0]));
    } else {
        assert(s1.contains(s1[0]));
        assert(s2.contains(s2[0]));
        let j = choose|j: int| 0 <= j < s2.len() && s2[j] == s1[0];
        let k = choose|k: int| 0 <= k < s1.len() && s1[k] == s2[0];
        if j > 0 {
            assert(id_lt(s2[0].0, s2[j].0));
            if k > 0 {
                assert(id_lt(s1[0].0, s1[k].0));
                lemma_id_lt_asymmetric(s2[0].0, s1[0].0);
            } else {
                lemma_id_lt_irreflexive(s1[0].0);
            }
        }
        assert(s1[0] == s2[0]);
        let t1 = s1.drop_first();
        let t2 = s2.drop_first();
        assert forall|x: (Seq<u8>, T)| t1.contains(x) implies t2.contains(x) by {
            let i = choose|i: int| 0 <= i < t1.len() && t1[i] == x;
            assert(s1[i + 1] == x);
            assert(s2.contains(x));
            let m = choose|m: int| 0 <= m < s2.len() && s2[m] == x;
            if m == 0 {
                assert(id_lt(s1[0].0, s1[i + 1].0));
                lemma_id_lt_irreflexive(x.0);
            }
            assert(t2[m - 1] == x);
        }
        assert forall|x: (Seq<u8>, T)| t2.contains(x) implies t1.contains(x) by {
            let i = choose|i: int| 0 <= i < t2.len() && t2[i] == x;
            assert(s2[i + 1] == x);
            assert(s1.contains(x));
            let m = choose|m: int| 0 <= m < s1.len() && s1[m] == x;
            if m == 0 {
                assert(id_lt(s2[0].0, s2[i + 1].0));
                lemma_id_lt_irreflexive(x.0);
            }
            assert(t1[m - 1] == x);
        }
        assert(strictly_sorted(t1)) by {
            assert forall|a: int, b: int| 0 <= a < b < t1.len() implies id_lt(
                #[trigger] t1[a].0,
                #[trigger] t1[b].0,
            ) by {
                assert(s1[a + 1] == t1[a] && s1[b + 1] == t1[b]);
            }
        }
        assert(strictly_sorted(t2)) by {
            assert forall|a: int, b: int| 0 <= a < b < t2.len() implies id_lt(
                #[trigger] t2[a].0,
                #[trigger] t2[b].0,
            ) by {
                assert(s2[a + 1] == t2[a] && s2[b + 1] == t2[b]);
            }
        }
        lemma_sorted_unique(t1, t2);
        assert(s1 =~= s2) by {
            assert forall|i: int| 0 <= i < s1.len() implies s1[i] == s2[i] by {
                if i > 0 {
                    assert(s1[i] == t1[i - 1]);
                    assert(s2[i] == t2[i - 1]);
                }
            }
        }
    }
}

/// Inserts `x` before the first entry whose identifier is greater.
pub open spec fn insert_sorted<T>(s: Seq<(Seq<u8>, T)>, x: (Seq<u8>, T)) -> Seq<(Seq<u8>, T)>
    decreases s.len(),
{
    if s.len() == 0 {
        seq![x]
    } else if id_lt(x.0, s[0].0) {
        seq![x] + s
    } else {
        seq![s[0]] + insert_sorted(s.drop_first(), x)
    }
}

/// Insertion sort by identifier.
pub open spec fn sort_by_id<T>(e: Seq<(Seq<u8>, T)>) -> Seq<(Seq<u8>, T)>
    decreases e.len(),
{
    if e.len() == 0 {
        e
    } else {
        insert_sorted(sort_by_id(e.drop_last()), e.last())
    }
}

proof fn lemma_insert_sorted<T>(s: Seq<(Seq<u8>, T)>, x: (Seq<u8>, T))
    ensures
        insert_sorted(s, x).len() == s.len() + 1,
        forall|y: (Seq<u8>, T)| #[trigger]
            insert_sorted(s, x).contains(y) <==> (s.contains(y) || y == x),
        strictly_sorted(s) && (forall|i: int| 0 <= i < s.len() ==> #[trigger] s[i].0 != x.0)
            ==> strictly_sorted(insert_sorted(s, x)),
    decreases s.len(),
{
    let r = insert_sorted(s, x);
    if s.len() == 0 {
        assert forall|y: (Seq<u8>, T)| #[trigger] r.contains(y) <==> (s.contains(y) || y == x) by {
            if r.contains(y) {
                assert(r[0] == y);
            }
            if y == x {
                assert(r[0] == y);
            }
        }
    } else if id_lt(x.0, s[0].0) {
        assert forall|y: (Seq<u8>, T)| #[trigger] r.contains(y) <==> (s.contains(y) || y == x) by {
            if r.contains(y) {
                let i = choose|i: int| 0 <= i < r.len() && r[i] == y;
                if i > 0 {
                    assert(s[i - 1] == y);
                }
            }
            if s.contains(y) {
                let i = choose|i: int| 0 <= i < s.len() && s[i] == y;
                assert(r[i + 1] == y);
            }
            if y == x {
                assert(r[0] == y);
            }
        }
        if strictly_sorted(s) {
            assert forall|a: int, b: int| 0 <= a < b < r.len() implies id_lt(
                #[trigger] r[a].0,
                #[trigger] r[b].0,
            ) by {
                if a == 0 {
                    if b > 1 {
                        assert(id_lt(s[0].0, s[b - 1].0));
                        lemma_id_lt_transitive(x.0, s[0].0, s[b - 1].0);
                    }
                } else {
                    assert(r[a] == s[a - 1] && r[b] == s[b - 1]);
                }
            }
        }
    } else {
        let t = s.drop_first();
        lemma_insert_sorted(t, x);
        let rt = insert_sorted(t, x);
        assert(r == seq![s[0]] + rt);
        assert forall|y: (Seq<u8>, T)| #[trigger] r.contains(y) <==> (s.contains(y) || y == x) by {
            if r.contains(y) {
                let i = choose|i: int| 0 <= i < r.len() && r[i] == y;
                if i > 0 {
                    assert(rt[i - 1] == y);
                    assert(rt.contains(y));
                    if t.contains(y) {
                        let m = choose|m: int| 0 <= m < t.len() && t[m] == y;
                        assert(s[m + 1] == y);
                    }
                } else {
                    assert(s[0] == y);
                }
            }
            if s.contains(y) {
                let i = choose|i: int| 0 <= i < s.len() && s[i] == y;
                if i > 0 {
                    assert(t[i - 1] == y);
                    assert(rt.contains(y));
                    let m = choose|m: int| 0 <= m < rt.len() && rt[m] == y;
                    assert(r[m + 1] == y);
                } else {
                    assert(r[0] == y);
                }
            }
            if y == x {
                assert(rt.contains(y));
                let m = choose|m: int| 0 <= m < rt.len() && rt[m] == y;
                assert(r[m + 1] == y);
            }
        }
        if strictly_sorted(s) && (forall|i: int| 0 <= i < s.len() ==> #[trigger] s[i].0 != x.0) {
            assert(strictly_sorted(t)) by {
                assert forall|a: int, b: int| 0 <= a < b < t.len() implies id_lt(
                    #[trigger] t[a].0,
                    #[trigger] t[b].0,
                ) by {
                    assert(s[a + 1] == t[a] && s[b + 1] == t[b]);
                }
            }
            assert forall|i: int| 0 <= i < t.len() implies #[trigger] t[i].0 != x.0 by {
                assert(s[i + 1] == t[i]);
            }
            assert(s[0].0 != x.0);
            lemma_id_lt_total(x.0, s[0].0);
            assert(id_lt(s[0].0, x.0));
            assert forall|a: int, b: int| 0 <= a < b < r.len() implies id_lt(
                #[trigger] r[a].0,
                #[trigger] r[b].0,
            ) by {
                if a == 0 {
                    let y = rt[b - 1];
                    assert(r[b] == y);
                    assert(rt.contains(y));
                    if y != x {
                        let m = choose|m: int| 0 <= m < t.len() && t[m] == y;
                        assert(s[m + 1] == y);
                        assert(id_lt(s[0].0, s[m + 1].0));
                    }
                } else {
                    assert(r[a] == rt[a - 1] && r[b] == rt[b - 1]);
                }
            }
        }
    }
}

/// Sorting keeps the entries and, when no identifier occurs twice, puts
/// them in canonical order.
pub proof fn lemma_sort_by_id<T>(e: Seq<(Seq<u8>, T)>)
    ensures
        sort_by_id(e).len() == e.len(),
        same_entries(sort_by_id(e), e),
        unique_ids(e) ==> strictly_sorted(sort_by_id(e)),
    decreases e.len(),
{
    if e.len() > 0 {
        let p = e.drop_last();
        lemma_sort_by_id(p);
        let sp = sort_by_id(p);
        lemma_insert_sorted(sp, e.last());
        assert forall|y: (Seq<u8>, T)| sort_by_id(e).contains(y) <==> e.contains(y) by {
            if e.contains(y) {
                let i = choose|i: int| 0 <= i < e.len() && e[i] == y;
                if i < e.len() - 1 {
                    assert(p[i] == y);
                    assert(p.contains(y));
                }
            }
            if p.contains(y) {
                let i = choose|i: int| 0 <= i < p.len() && p[i] == y;
                assert(e[i] == y);
            }
        }
        if unique_ids(e) {
            assert(unique_ids(p)) by {
                assert forall|i: int, j: int| 0 <= i < j < p.len() implies #[trigger] p[i].0
                    != #[trigger] p[j].0 by {
                    assert(e[i] == p[i] && e[j] == p[j]);
                }
            }
            assert forall|i: int| 0 <= i < sp.len() implies #[trigger] sp[i].0 != e.last().0 by {
                assert(sp.contains(sp[i]));
                assert(p.contains(sp[i]));
                let m = choose|m: int| 0 <= m < p.len() && p[m] == sp[i];
                assert(e[m] == sp[i]);
                assert(e[m].0 != e[e.len() - 1].0);
            }
        }
    }
}

/// The canonical order of a sequence of entries whose identifiers are
/// distinct is unique: any strictly sorted sequence with the same entries
/// is the insertion-sorted one.
pub proof fn lemma_canonical_order_is_sort<T>(s: Seq<(Seq<u8>, T)>, e: Seq<(Seq<u8>, T)>)
    requires
        unique_ids(e),
        strictly_sorted(s),
        same_entries(s, e),
    ensures
        s == sort_by_id(e),
{
    lemma_sort_by_id(e);
    lemma_sorted_unique(s, sort_by_id(e));
}

/// Lexicographic comparison of two byte slices.
pub fn bytes_less(a: &[u8], b: &[u8]) -> (res: bool)
    ensures
        res == bytes_lt(a@, b@),
{
    let mut i: usize = 0;
    assert(a@.skip(0) =~= a@);
    assert(b@.skip(0) =~= b@);
    while i < a.len() && i < b.len()
        invariant
            i <= a@.len(),
            i <= b@.len(),
            bytes_lt(a@, b@) == bytes_lt(a@.skip(i as int), b@.skip(i as int)),
        decreases a@.len() - i,
    {
        if a[i] != b[i] {
            return a[i] < b[i];
        }
        assert(a@.skip(i as int).drop_first() =~= a@.skip(i + 1));
        assert(b@.skip(i as int).drop_first() =~= b@.skip(i + 1));
        i = i + 1;
    }
    i < b.len()
}

} // verus!

verus! {

/// The canonical order compares identifiers by their stable hash as an
/// unsigned 64-bit number, smaller first; equal hashes fall back to
/// lexicographic byte order.
pub proof fn lemma_id_lt_by_unsigned_hash(a: Seq<u8>, b: Seq<u8>)
    ensures
        stable_id_hash_of(a) < stable_id_hash_of(b) ==> id_lt(a, b) && !id_lt(b, a),
        stable_id_hash_of(a) == stable_id_hash_of(b) ==> (id_lt(a, b) <==> bytes_lt(a, b)),
{
}

/// Lexicographic order: `a` comes first exactly when it is a proper prefix
/// of `b`, or when at the first position where they differ its byte is the
/// smaller.
pub proof fn lemma_bytes_lt_lexicographic(a: Seq<u8>, b: Seq<u8>)
    ensures
        bytes_lt(a, b) <==> ((a.len() < b.len() && a == b.take(a.len() as int)) || exists|i: int|
            0 <= i < a.len() && i < b.len() && a.take(i) == b.take(i) && #[trigger] a[i] < b[i]),
    decreases a.len(),
{
    if a.len() == 0 {
        assert(a =~= b.take(0));
    } else if b.len() == 0 {
    } else if a[0] != b[0] {
        if a[0] < b[0] {
            assert(a.take(0) =~= b.take(0));
        } else {
            if a.len() < b.len() && a == b.take(a.len() as int) {
                assert(a[0] == b.take(a.len() as int)[0]);
            }
            if exists|i: int|
                0 <= i < a.len() && i < b.len() && a.take(i) == b.take(i) && #[trigger] a[i] < b[i] {
                let i = choose|i: int|
                    0 <= i < a.len() && i < b.len() && a.take(i) == b.take(i) && #[trigger] a[i]
                        < b[i];
                if i > 0 {
                    assert(a.take(i)[0] == b.take(i)[0]);
                }
            }
        }
    } else {
        let ta = a.drop_first();
        let tb = b.drop_first();
        lemma_bytes_lt_lexicographic(ta, tb);
        if ta.len() < tb.len() && ta == tb.take(ta.len() as int) {
            assert forall|k: int| 0 <= k < a.len() implies #[trigger] a[k] == b.take(
                a.len() as int,
            )[k] by {
                if k > 0 {
                    assert(ta[k - 1] == tb.take(ta.len() as int)[k - 1]);
                }
            }
            assert(a =~= b.take(a.len() as int));
        }
        if a.len() < b.len() && a == b.take(a.len() as int) {
            assert(ta =~= tb.take(ta.len() as int));
        }
        if exists|i: int|
            0 <= i < ta.len() && i < tb.len() && ta.take(i) == tb.take(i) && #[trigger] ta[i] < tb[i] {
            let i = choose|i: int|
                0 <= i < ta.len() && i < tb.len() && ta.take(i) == tb.take(i) && #[trigger] ta[i]
                    < tb[i];
            assert(a.take(i + 1) =~= b.take(i + 1)) by {
                assert forall|k: int| 0 <= k < i + 1 implies #[trigger] a.take(i + 1)[k] == b.take(i + 1)[k] by {
                    if k > 0 {
                        assert(ta.take(i)[k - 1] == tb.take(i)[k - 1]);
                    }
                }
            }
            assert(a[i + 1] < b[i + 1]);
        }
        if exists|i: int|
            0 <= i < a.len() && i < b.len() && a.take(i) == b.take(i) && #[trigger] a[i] < b[i] {
            let i = choose|i: int|
                0 <= i < a.len() && i < b.len() && a.take(i) == b.take(i) && #[trigger] a[i] < b[i];
            assert(i > 0);
            assert(ta.take(i - 1) =~= tb.take(i - 1)) by {
                assert forall|k: int| 0 <= k < i - 1 implies #[trigger] ta.take(i - 1)[k] == tb.take(i - 1)[k] by {
                    assert(a.take(i)[k + 1] == b.take(i)[k + 1]);
                }
            }
            assert(ta[i - 1] < tb[i - 1]);
        }
    }
}

/// In the sorted sequence of entries with distinct identifiers, stable
/// hashes never decrease as unsigned numbers, and entries with equal hashes
/// are in lexicographic byte order.
pub proof fn lemma_sort_by_id_ascending<T>(e: Seq<(Seq<u8>, T)>)
    requires
        unique_ids(e),
    ensures
        forall|i: int, j: int|
            0 <= i < j < sort_by_id(e).len() ==> stable_id_hash_of(#[trigger] sort_by_id(e)[i].0)
                <= stable_id_hash_of(#[trigger] sort_by_id(e)[j].0),
        forall|i: int, j: int|
            0 <= i < j < sort_by_id(e).len() && stable_id_hash_of(sort_by_id(e)[i].0)
                == stable_id_hash_of(sort_by_id(e)[j].0) ==> bytes_lt(
                #[trigger] sort_by_id(e)[i].0,
                #[trigger] sort_by_id(e)[j].0,
            ),
{
    lemma_sort_by_id(e);
}

} // verus!
