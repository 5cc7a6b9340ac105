//! A stable selection sort over any type with a total preorder on keys.

use vstd::prelude::*;
use vstd::multiset::Multiset;

verus! {

broadcast use vstd::seq_lib::group_to_multiset_ensures;

/// A total preorder on values, decided by an executable comparison.
pub trait KeyOrder: Sized {
    spec fn key_le(self, other: Self) -> bool;

    proof fn lemma_key_total(a: Self, b: Self)
        ensures
            Self::key_le(a, b) || Self::key_le(b, a),
    ;

    proof fn lemma_key_trans(a: Self, b: Self, c: Self)
        requires
            Self::key_le(a, b),
            Self::key_le(b, c),
        ensures
            Self::key_le(a, c),
    ;

    fn le(&self, other: &Self) -> (r: bool)
        ensures
            r == Self::key_le(*self, *other),
    ;
}

pub open spec fn sorted_by_key<T: KeyOrder>(s: Seq<T>) -> bool {
    forall|i: int, j: int| 0 <= i < j < s.len() ==> T::key_le(#[trigger] s[i], #[trigger] s[j])
}

/// The index of the first least element of `s` from `k` on, given that `m` is
/// the first least one before `k`.
pub open spec fn min_idx<A>(s: Seq<A>, le: spec_fn(A, A) -> bool, k: int, m: int) -> int
    decreases s.len() - k,
{
    if k < 0 || k >= s.len() {
        m
    } else if !le(s[m], s[k]) {
        min_idx(s, le, k + 1, k)
    } else {
        min_idx(s, le, k + 1, m)
    }
}

/// Selection sort: repeatedly take out the first least element. For a total
/// preorder this is the stable sort.
pub open spec fn sel_sort<A>(s: Seq<A>, le: spec_fn(A, A) -> bool) -> Seq<A>
    decreases s.len(),
{
    if s.len() == 0 {
        seq![]
    } else {
        let m = min_idx(s, le, 1, 0);
        if 0 <= m < s.len() {
            seq![s[m]] + sel_sort(s.remove(m), le)
        } else {
            seq![]
        }
    }
}

pub open spec fn key_rel<T: KeyOrder>() -> spec_fn(T, T) -> bool {
    |a: T, b: T| T::key_le(a, b)
}

pub proof fn lemma_min_idx_range<A>(s: Seq<A>, le: spec_fn(A, A) -> bool, k: int, m: int)
    requires
        0 <= m < s.len(),
        0 <= k,
    ensures
        0 <= min_idx(s, le, k, m) < s.len(),
    decreases s.len() - k,
{
    if k < s.len() {
        if !le(s[m], s[k]) {
            lemma_min_idx_range(s, le, k + 1, k);
        } else {
            lemma_min_idx_range(s, le, k + 1, m);
        }
    }
}

/// Sorting commutes with a map that carries one order onto the other.
pub proof fn lemma_sel_sort_map<A, B>(
    s: Seq<A>,
    le1: spec_fn(A, A) -> bool,
    le2: spec_fn(B, B) -> bool,
    f: spec_fn(A) -> B,
)
    requires
        forall|a: A, b: A| #[trigger] le1(a, b) == le2(f(a), f(b)),
    ensures
        sel_sort(s, le1).map_values(f) == sel_sort(s.map_values(f), le2),
    decreases s.len(),
{
    let t = s.map_values(f);
    if s.len() == 0 {
        assert(sel_sort(s, le1).map_values(f) =~= sel_sort(t, le2));
    } else {
        lemma_min_idx_map(s, le1, le2, f, 1, 0);
        let m = min_idx(s, le1, 1, 0);
        lemma_min_idx_range(s, le1, 1, 0);
        assert(t.remove(m) =~= s.remove(m).map_values(f));
        lemma_sel_sort_map(s.remove(m), le1, le2, f);
        assert(sel_sort(s, le1).map_values(f) =~= seq![f(s[m])] + sel_sort(s.remove(m), le1).map_values(f));
    }
}

proof fn lemma_min_idx_map<A, B>(
    s: Seq<A>,
    le1: spec_fn(A, A) -> bool,
    le2: spec_fn(B, B) -> bool,
    f: spec_fn(A) -> B,
    k: int,
    m: int,
)
    requires
        forall|a: A, b: A| #[trigger] le1(a, b) == le2(f(a), f(b)),
        0 <= m < s.len(),
    ensures
        min_idx(s, le1, k, m) == min_idx(s.map_values(f), le2, k, m),
    decreases s.len() - k,
{
    if 0 <= k < s.len() {
        let t = s.map_values(f);
        assert(t[m] == f(s[m]));
        assert(t[k] == f(s[k]));
        assert(le1(s[m], s[k]) == le2(f(s[m]), f(s[k])));
        lemma_min_idx_map(s, le1, le2, f, k + 1, k);
        lemma_min_idx_map(s, le1, le2, f, k + 1, m);
    }
}

/// Index of the first least element of a non-empty vector.
fn first_min<T: KeyOrder>(v: &Vec<T>) -> (m: usize)
    requires
        v@.len() > 0,
    ensures
        m < v@.len(),
        forall|j: int| 0 <= j < v@.len() ==> T::key_le(v@[m as int], #[trigger] v@[j]),
        m == min_idx(v@, key_rel::<T>(), 1, 0),
{
    let mut m: usize = 0;
    let mut k: usize = 1;
    proof {
        T::lemma_key_total(v@[0], v@[0]);
    }
    while k < v.len()
        invariant
            1 <= k <= v@.len(),
            m < k,
            forall|j: int| 0 <= j < k ==> T::key_le(v@[m as int], #[trigger] v@[j]),
            min_idx(v@, key_rel::<T>(), k as int, m as int) == min_idx(v@, key_rel::<T>(), 1, 0),
        decreases v@.len() - k,
    {
        if !v[m].le(&v[k]) {
            proof {
                T::lemma_key_total(v@[m as int], v@[k as int]);
                T::lemma_key_total(v@[k as int], v@[k as int]);
                assert forall|j: int| 0 <= j < k implies T::key_le(v@[k as int], #[trigger] v@[j]) by {
                    T::lemma_key_trans(v@[k as int], v@[m as int], v@[j]);
                }
            }
            m = k;
        }
        k = k + 1;
    }
    m
}

/// Sort by the key preorder: the result is a sorted permutation of the input,
/// and elements with equal keys keep their relative order.
pub fn sort_by_key<T: KeyOrder>(v: Vec<T>) -> (r: Vec<T>)
    ensures
        r@.to_multiset() == v@.to_multiset(),
        r@.len() == v@.len(),
        sorted_by_key(r@),
        r@ == sel_sort(v@, key_rel::<T>()),
{
    let mut rest = v;
    let mut out: Vec<T> = Vec::new();
    while rest.len() > 0
        invariant
            out@.to_multiset().add(rest@.to_multiset()) == v@.to_multiset(),
            out@.len() + rest@.len() == v@.len(),
            sorted_by_key(out@),
            out@ + sel_sort(rest@, key_rel::<T>()) == sel_sort(v@, key_rel::<T>()),
            forall|i: int, j: int|
                0 <= i < out@.len() && 0 <= j < rest@.len() ==> T::key_le(
                    #[trigger] out@[i],
                    #[trigger] rest@[j],
                ),
        decreases rest@.len(),
    {
        let m = first_min(&rest);
        let ghost old_rest = rest@;
        let ghost old_out = out@;
        let x = rest.remove(m);
        assert(x == old_rest[m as int]);
        proof {
            assert(rest@ =~= old_rest.remove(m as int));
            assert forall|j: int| 0 <= j < rest@.len() implies T::key_le(x, #[trigger] rest@[j]) by {
                if j < m {
                    assert(rest@[j] == old_rest[j]);
                } else {
                    assert(rest@[j] == old_rest[j + 1]);
                }
            }
            assert forall|i: int, j: int|
                0 <= i < old_out.len() && 0 <= j < rest@.len() implies T::key_le(
                #[trigger] old_out[i],
                #[trigger] rest@[j],
            ) by {
                if j < m {
                    assert(rest@[j] == old_rest[j]);
                } else {
                    assert(rest@[j] == old_rest[j + 1]);
                }
            }
        }
        out.push(x);
        proof {
            assert(out@ =~= old_out.push(x));
            assert(sel_sort(old_rest, key_rel::<T>()) == seq![x] + sel_sort(rest@, key_rel::<T>()));
            assert(out@ + sel_sort(rest@, key_rel::<T>()) =~= old_out + sel_sort(old_rest, key_rel::<T>()));
            assert(out@.to_multiset() =~= old_out.to_multiset().insert(x));
            assert(rest@.to_multiset() =~= old_rest.to_multiset().remove(x));
            assert(old_rest.to_multiset().count(x) > 0);
            assert(out@.to_multiset().add(rest@.to_multiset()) =~= old_out.to_multiset().add(
                old_rest.to_multiset(),
            ));
            assert forall|i: int, j: int| 0 <= i < j < out@.len() implies T::key_le(
                #[trigger] out@[i],
                #[trigger] out@[j],
            ) by {
                if j == old_out.len() {
                    assert(T::key_le(old_out[i], old_rest[m as int]));
                } else {
                    assert(T::key_le(old_out[i], old_out[j]));
                }
            }
        }
    }
    assert(rest@.to_multiset() =~= Multiset::empty());
    assert(out@ + sel_sort(rest@, key_rel::<T>()) =~= out@);
    assert(out@.to_multiset().add(Multiset::empty()) =~= out@.to_multiset());
    out
}

/// Permuting a sequence permutes its image under any function.
pub proof fn lemma_map_multiset<A, B>(s1: Seq<A>, s2: Seq<A>, f: spec_fn(A) -> B)
    requires
        s1.to_multiset() == s2.to_multiset(),
    ensures
        s1.map_values(f).to_multiset() == s2.map_values(f).to_multiset(),
    decreases s1.len(),
{
    broadcast use vstd::multiset::group_multiset_axioms;
    if s1.len() == 0 {
        assert(s1.to_multiset().len() == s1.len());
        assert(s2.to_multiset().len() == s2.len());
        assert(s2.len() == 0);
        assert(s1.map_values(f) =~= Seq::<B>::empty());
        assert(s2.map_values(f) =~= Seq::<B>::empty());
    } else {
        let x = s1.last();
        let s1r = s1.drop_last();
        assert(s1 =~= s1r.push(x));
        assert(s1.to_multiset() =~= s1r.to_multiset().insert(x));
        assert(s1.to_multiset().count(x) > 0);
        assert(s2.contains(x));
        let j = choose|j: int| 0 <= j < s2.len() && s2[j] == x;
        let s2r = s2.remove(j);
        assert(s2r.to_multiset() =~= s2.to_multiset().remove(x));
        assert(s1r.to_multiset() =~= s1.to_multiset().remove(x));
        lemma_map_multiset(s1r, s2r, f);
        let m1 = s1.map_values(f);
        let m2 = s2.map_values(f);
        assert(m1 =~= s1r.map_values(f).push(f(x)));
        assert(s2r.map_values(f) =~= m2.remove(j));
        assert(m2[j] == f(x));
        assert(m2.remove(j).to_multiset() =~= m2.to_multiset().remove(f(x)));
        assert(m2.to_multiset().count(f(x)) > 0);
        assert(m1.to_multiset() =~= s1r.map_values(f).to_multiset().insert(f(x)));
        assert(m1.to_multiset() =~= m2.to_multiset());
    }
}

/// Byte strings in lexicographic order (a proper prefix comes first).
pub open spec fn bytes_le(a: Seq<u8>, b: Seq<u8>) -> bool
    decreases a.len(),
{
    if a.len() == 0 {
        true
    } else if b.len() == 0 {
        false
    } else if a[0] != b[0] {
        a[0] < b[0]
    } else {
        bytes_le(a.drop_first(), b.drop_first())
    }
}

pub proof fn lemma_bytes_le_total(a: Seq<u8>, b: Seq<u8>)
    ensures
        bytes_le(a, b) || bytes_le(b, a),
    decreases a.len(),
{
    if a.len() > 0 && b.len() > 0 && a[0] == b[0] {
        lemma_bytes_le_total(a.drop_first(), b.drop_first());
    }
}

pub proof fn lemma_bytes_le_trans(a: Seq<u8>, b: Seq<u8>, c: Seq<u8>)
    requires
        bytes_le(a, b),
        bytes_le(b, c),
    ensures
        bytes_le(a, c),
    decreases a.len(),
{
    if a.len() > 0 && b.len() > 0 && c.len() > 0 && a[0] == b[0] && b[0] == c[0] {
        lemma_bytes_le_trans(a.drop_first(), b.drop_first(), c.drop_first());
    }
}

pub proof fn lemma_bytes_le_antisym(a: Seq<u8>, b: Seq<u8>)
    requires
        bytes_le(a, b),
        bytes_le(b, a),
    ensures
        a == b,
    decreases a.len(),
{
    if a.len() > 0 && b.len() > 0 {
        lemma_bytes_le_antisym(a.drop_first(), b.drop_first());
        assert(a =~= seq![a[0]] + a.drop_first());
        assert(b =~= seq![b[0]] + b.drop_first());
    } else {
        assert(a.len() == 0 && b.len() == 0);
        assert(a =~= b);
    }
}

/// Lexicographic comparison of byte strings.
pub fn bytes_le_exec(a: &[u8], b: &[u8]) -> (r: bool)
    ensures
        r == bytes_le(a@, b@),
{
    let mut i: usize = 0;
    assert(a@.skip(0) =~= a@);
    assert(b@.skip(0) =~= b@);
    while i < a.len() && i < b.len() && a[i] == b[i]
        invariant
            i <= a@.len(),
            i <= b@.len(),
            bytes_le(a@, b@) == bytes_le(a@.skip(i as int), b@.skip(i as int)),
        decreases a@.len() - i,
    {
        assert(a@.skip(i as int).drop_first() =~= a@.skip(i + 1));
        assert(b@.skip(i as int).drop_first() =~= b@.skip(i + 1));
        i = i + 1;
    }
    if i == a.len() {
        true
    } else if i == b.len() {
        false
    } else {
        a[i] < b[i]
    }
}

/// Selection sort reorders: what comes out is what went in.
pub proof fn lemma_sel_sort_perm<A>(s: Seq<A>, le: spec_fn(A, A) -> bool)
    ensures
        sel_sort(s, le).to_multiset() == s.to_multiset(),
    decreases s.len(),
{
    broadcast use vstd::seq_lib::lemma_multiset_commutative;
    broadcast use vstd::multiset::group_multiset_axioms;
    if s.len() > 0 {
        let m = min_idx(s, le, 1, 0);
        lemma_min_idx_range(s, le, 1, 0);
        let r = s.remove(m);
        lemma_sel_sort_perm(r, le);
        let x = s[m];
        assert(sel_sort(s, le) == seq![x] + sel_sort(r, le));
        assert(seq![x] =~= Seq::<A>::empty().push(x));
        assert(s.to_multiset().count(x) > 0) by {
            assert(s.contains(x));
        }
        assert(sel_sort(s, le).to_multiset() =~= s.to_multiset());
    }
}

proof fn lemma_min_idx_first<A>(s: Seq<A>, le: spec_fn(A, A) -> bool, k: int)
    requires
        1 <= k,
        s.len() > 0,
        forall|j: int| 0 < j < s.len() ==> #[trigger] le(s[0], s[j]),
    ensures
        min_idx(s, le, k, 0) == 0,
    decreases s.len() - k,
{
    if k < s.len() {
        lemma_min_idx_first(s, le, k + 1);
    }
}

/// Sorting what is already in key order changes nothing, so sorting twice
/// gives what sorting once gives.
pub proof fn law_sort_sorted_is_identity<T: KeyOrder>(s: Seq<T>)
    requires
        sorted_by_key(s),
    ensures
        sel_sort(s, key_rel::<T>()) == s,
    decreases s.len(),
{
    let le = key_rel::<T>();
    if s.len() > 0 {
        assert forall|j: int| 0 < j < s.len() implies #[trigger] le(s[0], s[j]) by {
            assert(T::key_le(s[0], s[j]));
        }
        lemma_min_idx_first(s, le, 1);
        let r = s.remove(0);
        assert(r =~= s.subrange(1, s.len() as int));
        assert(sorted_by_key(r)) by {
            assert forall|i: int, j: int| 0 <= i < j < r.len() implies T::key_le(#[trigger] r[i], #[trigger] r[j]) by {
                assert(r[i] == s[i + 1] && r[j] == s[j + 1]);
            }
        }
        law_sort_sorted_is_identity(r);
        assert(sel_sort(s, le) =~= s);
    }
}

/// `le` is total and transitive.
pub open spec fn total_preorder<A>(le: spec_fn(A, A) -> bool) -> bool {
    &&& forall|a: A, b: A| #[trigger] le(a, b) || le(b, a)
    &&& forall|a: A, b: A, c: A| #[trigger] le(a, b) && #[trigger] le(b, c) ==> le(a, c)
}

/// Sorted in the order `le`.
pub open spec fn sorted_by<A>(s: Seq<A>, le: spec_fn(A, A) -> bool) -> bool {
    forall|i: int, j: int| 0 <= i < j < s.len() ==> le(#[trigger] s[i], #[trigger] s[j])
}

proof fn lemma_min_idx_min<A>(s: Seq<A>, le: spec_fn(A, A) -> bool, k: int, m: int)
    requires
        total_preorder(le),
        0 <= m < s.len(),
        0 <= k,
        forall|j: int| 0 <= j < k && j < s.len() ==> le(s[m], #[trigger] s[j]),
    ensures
        forall|j: int| 0 <= j < s.len() ==> le(s[min_idx(s, le, k, m)], #[trigger] s[j]),
    decreases s.len() - k,
{
    if k < s.len() {
        if !le(s[m], s[k]) {
            assert(le(s[k], s[m]));
            assert forall|j: int| 0 <= j < k + 1 && j < s.len() implies le(s[k], #[trigger] s[j]) by {
                if j < k {
                    assert(le(s[m], s[j]));
                } else {
                    assert(le(s[k], s[k]) || le(s[k], s[k]));
                }
            }
            lemma_min_idx_min(s, le, k + 1, k);
        } else {
            lemma_min_idx_min(s, le, k + 1, m);
        }
    }
}

/// Selection sort by a total preorder sorts.
pub proof fn lemma_sel_sort_sorted<A>(s: Seq<A>, le: spec_fn(A, A) -> bool)
    requires
        total_preorder(le),
    ensures
        sorted_by(sel_sort(s, le), le),
        sel_sort(s, le).len() == s.len(),
    decreases s.len(),
{
    lemma_sel_sort_perm(s, le);
    if s.len() > 0 {
        let m = min_idx(s, le, 1, 0);
        lemma_min_idx_range(s, le, 1, 0);
        assert(le(s[0], s[0]) || le(s[0], s[0]));
        lemma_min_idx_min(s, le, 1, 0);
        let r = s.remove(m);
        lemma_sel_sort_sorted(r, le);
        lemma_sel_sort_perm(r, le);
        let rest = sel_sort(r, le);
        let out = sel_sort(s, le);
        assert(out == seq![s[m]] + rest);
        assert forall|i: int, j: int| 0 <= i < j < out.len() implies le(#[trigger] out[i], #[trigger] out[j]) by {
            if i == 0 {
                assert(out[j] == rest[j - 1]);
                assert(rest.to_multiset().count(rest[j - 1]) > 0);
                assert(r.contains(rest[j - 1]));
                let q = choose|q: int| 0 <= q < r.len() && r[q] == rest[j - 1];
                if q < m {
                    assert(r[q] == s[q]);
                } else {
                    assert(r[q] == s[q + 1]);
                }
            } else {
                assert(out[i] == rest[i - 1] && out[j] == rest[j - 1]);
            }
        }
    }
}

/// Two orderings of the same items, both sorted by a total preorder under
/// which no two different items are tied, are the same sequence.
pub proof fn lemma_sorted_unique<A>(s1: Seq<A>, s2: Seq<A>, le: spec_fn(A, A) -> bool)
    requires
        total_preorder(le),
        s1.to_multiset() == s2.to_multiset(),
        sorted_by(s1, le),
        sorted_by(s2, le),
        forall|i: int, j: int|
            0 <= i < s1.len() && 0 <= j < s1.len() && le(#[trigger] s1[i], #[trigger] s1[j]) && le(s1[j], s1[i])
                ==> s1[i] == s1[j],
    ensures
        s1 == s2,
    decreases s1.len(),
{
    broadcast use vstd::multiset::group_multiset_axioms;
    assert(s1.to_multiset().len() == s1.len());
    assert(s2.to_multiset().len() == s2.len());
    assert(s1.len() == s2.len());
    if s1.len() > 0 {
        let x1 = s1[0];
        let x2 = s2[0];
        assert(s1.to_multiset().count(x2) > 0);
        assert(s1.contains(x2));
        let j1 = choose|j: int| 0 <= j < s1.len() && s1[j] == x2;
        assert(s1.contains(x1)) by {
            assert(s1[0] == x1);
        }
        assert(s1.to_multiset().count(x1) > 0);
        assert(s2.to_multiset().count(x1) > 0);
        assert(s2.contains(x1));
        let j2 = choose|j: int| 0 <= j < s2.len() && s2[j] == x1;
        assert(le(x1, x2)) by {
            if j1 > 0 {
                assert(le(s1[0], s1[j1]));
            } else {
                assert(le(x1, x1) || le(x1, x1));
            }
        }
        assert(le(x2, x1)) by {
            if j2 > 0 {
                assert(le(s2[0], s2[j2]));
            } else {
                assert(le(x2, x2) || le(x2, x2));
            }
        }
        assert(s1[0] == s1[j1]);
        let t1 = s1.drop_first();
        let t2 = s2.drop_first();
        assert(s1.remove(0) =~= t1);
        assert(s2.remove(0) =~= t2);
        assert(t1.to_multiset() =~= s1.to_multiset().remove(x1));
        assert(t2.to_multiset() =~= s2.to_multiset().remove(x2));
        assert(sorted_by(t1, le)) by {
            assert forall|i: int, j: int| 0 <= i < j < t1.len() implies le(#[trigger] t1[i], #[trigger] t1[j]) by {
                assert(t1[i] == s1[i + 1] && t1[j] == s1[j + 1]);
            }
        }
        assert(sorted_by(t2, le)) by {
            assert forall|i: int, j: int| 0 <= i < j < t2.len() implies le(#[trigger] t2[i], #[trigger] t2[j]) by {
                assert(t2[i] == s2[i + 1] && t2[j] == s2[j + 1]);
            }
        }
        assert forall|i: int, j: int|
            0 <= i < t1.len() && 0 <= j < t1.len() && le(#[trigger] t1[i], #[trigger] t1[j]) && le(t1[j], t1[i])
                implies t1[i] == t1[j] by {
            assert(t1[i] == s1[i + 1] && t1[j] == s1[j + 1]);
        }
        lemma_sorted_unique(t1, t2, le);
        assert(s1 =~= s2) by {
            assert forall|i: int| 0 <= i < s1.len() implies s1[i] == s2[i] by {
                if i > 0 {
                    assert(s1[i] == t1[i - 1] && s2[i] == t2[i - 1]);
                }
            }
        }
    }
}

/// A value found at exactly one index occurs once in the multiset.
pub proof fn lemma_count_unique<A>(q: Seq<A>, v: A, k: int)
    requires
        0 <= k < q.len(),
        q[k] == v,
        forall|j: int| 0 <= j < q.len() && j != k ==> q[j] != v,
    ensures
        q.to_multiset().count(v) == 1,
    decreases q.len(),
{
    broadcast use vstd::multiset::group_multiset_axioms;
    let d = q.drop_last();
    assert(q =~= d.push(q.last()));
    if k == q.len() - 1 {
        assert(!d.contains(v)) by {
            if d.contains(v) {
                let j = choose|j: int| 0 <= j < d.len() && d[j] == v;
                assert(q[j] == v);
            }
        }
        assert(d.to_multiset().count(v) == 0);
    } else {
        assert forall|j: int| 0 <= j < d.len() && j != k implies d[j] != v by {
            assert(d[j] == q[j]);
        }
        lemma_count_unique(d, v, k);
        assert(q.last() != v);
    }
}

/// A value found at two indices occurs at least twice in the multiset.
pub proof fn lemma_count_two<A>(q: Seq<A>, a: int, b: int)
    requires
        0 <= a < b < q.len(),
        q[a] == q[b],
    ensures
        q.to_multiset().count(q[a]) >= 2,
    decreases q.len(),
{
    broadcast use vstd::multiset::group_multiset_axioms;
    let d = q.drop_last();
    assert(q =~= d.push(q.last()));
    if b == q.len() - 1 {
        assert(d[a] == q[a]);
        assert(d.contains(q[a]));
        assert(d.to_multiset().count(q[a]) >= 1);
    } else {
        assert(d[a] == q[a] && d[b] == q[b]);
        lemma_count_two(d, a, b);
    }
}

} // verus!
