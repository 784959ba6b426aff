//! Sorting by a strict order of the caller's choosing.
use crate::text::{
    chars_lt, lemma_seq_lt_irreflexive, lemma_seq_lt_negative_transitive, lemma_seq_lt_transitive, seq_lt,
};
use vstd::prelude::*;

verus! {

broadcast use vstd::seq_lib::group_to_multiset_ensures;

/// A strict weak order: asymmetric, transitive, and with items that neither precede
/// the other interchangeable; decided by `precedes_exec`.
pub trait Ranked: Sized {
    spec fn precedes(&self, other: &Self) -> bool;

    proof fn lemma_asymmetric(a: &Self, b: &Self)
        requires
            a.precedes(b),
        ensures
            !b.precedes(a),
    ;

    proof fn lemma_transitive(a: &Self, b: &Self, c: &Self)
        requires
            a.precedes(b),
            b.precedes(c),
        ensures
            a.precedes(c),
    ;

    proof fn lemma_negative_transitive(a: &Self, b: &Self, c: &Self)
        requires
            a.precedes(c),
        ensures
            a.precedes(b) || b.precedes(c),
    ;

    fn precedes_exec(&self, other: &Self) -> (r: bool)
        ensures
            r == self.precedes(other),
    ;
}

/// No element comes before an element that precedes it.
pub open spec fn in_order<T: Ranked>(s: Seq<T>) -> bool {
    forall|i: int, j: int| 0 <= i < j < s.len() ==> !#[trigger] s[j].precedes(&s[i])
}

/// `r` is `v` reordered: `r[i]` is `v[perm[i]]`, each position of `v` used once.
pub open spec fn reorders<T>(r: Seq<T>, v: Seq<T>, perm: Seq<int>) -> bool {
    &&& perm.len() == r.len()
    &&& r.len() == v.len()
    &&& forall|i: int| 0 <= i < perm.len() ==> 0 <= #[trigger] perm[i] < v.len() && r[i] == v[perm[i]]
    &&& forall|i: int, j: int| 0 <= i < j < perm.len() ==> #[trigger] perm[i] != #[trigger] perm[j]
}

/// Items of `r` that do not precede one another keep the order they had (`perm` gives
/// where each came from).
pub open spec fn stable<T: Ranked>(r: Seq<T>, perm: Seq<int>) -> bool {
    forall|i: int, j: int|
        0 <= i < j < r.len() && !r[i].precedes(&r[j]) ==> #[trigger] perm[i] < #[trigger] perm[j]
}

/// `r` is `v` sorted stably: in order, with the same items, and items that do not
/// precede one another in the order they had in `v`.
pub open spec fn sorted_stably<T: Ranked>(r: Seq<T>, v: Seq<T>) -> bool {
    &&& in_order(r)
    &&& r.to_multiset() == v.to_multiset()
    &&& exists|perm: Seq<int>| reorders(r, v, perm) && stable(r, perm)
}

/// `r` interleaves `a` and `b`: `m[i]` is where `r[i]` came from in `a + b`; each keeps
/// its order, and an item of `b` comes before an item of `a` only when it precedes it.
pub open spec fn interleaves<T: Ranked>(r: Seq<T>, a: Seq<T>, b: Seq<T>, m: Seq<int>) -> bool {
    let l = a.len() as int;
    &&& m.len() == r.len()
    &&& r.len() == a.len() + b.len()
    &&& forall|i: int|
        0 <= i < m.len() ==> ((0 <= #[trigger] m[i] < l && r[i] == a[m[i]]) || (l <= m[i] < l + b.len()
            && r[i] == b[m[i] - l]))
    &&& forall|i: int, j: int|
        0 <= i < j < m.len() ==> (((#[trigger] m[i] < l) == (#[trigger] m[j] < l)) ==> m[i] < m[j])
    &&& forall|i: int, j: int|
        0 <= i < j < m.len() && #[trigger] m[i] >= l && #[trigger] m[j] < l ==> r[i].precedes(&r[j])
}

/// `v` in reverse order.
fn reversed<T>(v: Vec<T>) -> (r: Vec<T>)
    ensures
        r@.len() == v@.len(),
        forall|k: int| 0 <= k < r@.len() ==> #[trigger] r@[k] == v@[v@.len() - 1 - k],
{
    let ghost vv = v@;
    let mut v = v;
    let mut r: Vec<T> = Vec::new();
    while v.len() > 0
        invariant
            v@ == vv.take(v@.len() as int),
            r@.len() + v@.len() == vv.len(),
            forall|k: int| 0 <= k < r@.len() ==> #[trigger] r@[k] == vv[vv.len() - 1 - k],
        decreases v@.len(),
    {
        let x = v.pop().unwrap();
        r.push(x);
        assert(v@ =~= vv.take(v@.len() as int));
    }
    r
}

/// Merges two ordered runs; of two items that do not precede one another, the one of `a`
/// comes first.
fn merge_runs<T: Ranked>(a: Vec<T>, b: Vec<T>) -> (r: Vec<T>)
    requires
        in_order(a@),
        in_order(b@),
    ensures
        in_order(r@),
        r@.to_multiset() == a@.to_multiset().add(b@.to_multiset()),
        exists|m: Seq<int>| interleaves(r@, a@, b@, m),
{
    let ghost av = a@;
    let ghost bv = b@;
    let ghost l = av.len() as int;
    let ghost lb = bv.len() as int;
    let mut ar = reversed(a);
    let mut br = reversed(b);
    let mut out: Vec<T> = Vec::new();
    let ghost mut m: Seq<int> = Seq::empty();
    let ghost mut ia: int = 0;
    let ghost mut ib: int = 0;
    assert(av.take(0) =~= Seq::<T>::empty());
    assert(bv.take(0) =~= Seq::<T>::empty());
    while ar.len() > 0 || br.len() > 0
        invariant
            in_order(av),
            in_order(bv),
            l == av.len(),
            lb == bv.len(),
            0 <= ia <= l,
            0 <= ib <= lb,
            ar@.len() == l - ia,
            br@.len() == lb - ib,
            forall|k: int| 0 <= k < ar@.len() ==> #[trigger] ar@[k] == av[l - 1 - k],
            forall|k: int| 0 <= k < br@.len() ==> #[trigger] br@[k] == bv[lb - 1 - k],
            out@.len() == ia + ib,
            m.len() == out@.len(),
            in_order(out@),
            out@.to_multiset() == av.take(ia).to_multiset().add(bv.take(ib).to_multiset()),
            forall|i: int|
                0 <= i < m.len() ==> ((0 <= #[trigger] m[i] < ia && out@[i] == av[m[i]]) || (l <= m[i] < l + ib
                    && out@[i] == bv[m[i] - l])),
            forall|i: int, j: int|
                0 <= i < j < m.len() ==> (((#[trigger] m[i] < l) == (#[trigger] m[j] < l)) ==> m[i] < m[j]),
            forall|i: int, j: int|
                0 <= i < j < m.len() && #[trigger] m[i] >= l && #[trigger] m[j] < l ==> out@[i].precedes(&out@[j]),
            forall|i: int| 0 <= i < m.len() && #[trigger] m[i] >= l && ia < l ==> out@[i].precedes(&av[ia]),
            forall|i: int| 0 <= i < m.len() && #[trigger] m[i] < l && ib < lb ==> !bv[ib].precedes(&out@[i]),
        decreases ar@.len() + br@.len(),
    {
        let take_b = if ar.len() == 0 {
            true
        } else if br.len() == 0 {
            false
        } else {
            let an = ar.len();
            let bn = br.len();
            br[bn - 1].precedes_exec(&ar[an - 1])
        };
        let ghost o = out@;
        if take_b {
            assert(br@[br@.len() - 1] == bv[ib]);
            let x = br.pop().unwrap();
            out.push(x);
            proof {
                let n = out@;
                assert(n == o.push(x));
                assert(bv.take(ib + 1) =~= bv.take(ib).push(x));
                assert(n.to_multiset() =~= av.take(ia).to_multiset().add(bv.take(ib + 1).to_multiset()));
                assert forall|i: int, j: int| 0 <= i < j < n.len() implies !#[trigger] n[j].precedes(&n[i]) by {
                    if j == o.len() {
                        if m[i] < l {
                            assert(!bv[ib].precedes(&o[i]));
                        } else {
                            assert(!bv[ib].precedes(&bv[m[i] - l]));
                        }
                    } else {
                        assert(n[i] == o[i] && n[j] == o[j]);
                    }
                }
                let nm = m.push(l + ib);
                assert forall|i: int| 0 <= i < nm.len() && #[trigger] nm[i] < l && ib + 1 < lb implies !bv[ib + 1].precedes(&n[i]) by {
                    assert(nm[i] == m[i] && n[i] == o[i]);
                    assert(!bv[ib].precedes(&o[i]));
                    assert(!bv[ib + 1].precedes(&bv[ib]));
                    if bv[ib + 1].precedes(&o[i]) {
                        T::lemma_negative_transitive(&bv[ib + 1], &bv[ib], &o[i]);
                    }
                }
                assert forall|i: int| 0 <= i < nm.len() && #[trigger] nm[i] >= l && ia < l implies n[i].precedes(&av[ia]) by {
                    if i < m.len() {
                        assert(nm[i] == m[i] && n[i] == o[i]);
                    }
                }
                assert forall|i: int| 0 <= i < nm.len() implies ((0 <= #[trigger] nm[i] < ia && n[i] == av[nm[i]]) || (l <= nm[i] < l + ib + 1
                    && n[i] == bv[nm[i] - l])) by {
                    if i < m.len() {
                        assert(nm[i] == m[i] && n[i] == o[i]);
                    }
                }
                assert forall|i: int, j: int| 0 <= i < j < nm.len() implies (((#[trigger] nm[i] < l) == (#[trigger] nm[j] < l)) ==> nm[i] < nm[j]) by {
                    assert(nm[i] == m[i]);
                    if j < m.len() {
                        assert(nm[j] == m[j]);
                    }
                }
                assert forall|i: int, j: int| 0 <= i < j < nm.len() && #[trigger] nm[i] >= l && #[trigger] nm[j] < l implies n[i].precedes(&n[j]) by {
                    assert(nm[i] == m[i] && nm[j] == m[j]);
                    assert(n[i] == o[i] && n[j] == o[j]);
                }
                m = nm;
                ib = ib + 1;
            }
        } else {
            assert(ar@[ar@.len() - 1] == av[ia]);
            let x = ar.pop().unwrap();
            out.push(x);
            proof {
                let n = out@;
                assert(n == o.push(x));
                assert(av.take(ia + 1) =~= av.take(ia).push(x));
                assert(n.to_multiset() =~= av.take(ia + 1).to_multiset().add(bv.take(ib).to_multiset()));
                assert forall|i: int, j: int| 0 <= i < j < n.len() implies !#[trigger] n[j].precedes(&n[i]) by {
                    if j == o.len() {
                        if m[i] < l {
                            assert(!av[ia].precedes(&av[m[i]]));
                        } else {
                            assert(o[i].precedes(&av[ia]));
                            T::lemma_asymmetric(&o[i], &av[ia]);
                        }
                    } else {
                        assert(n[i] == o[i] && n[j] == o[j]);
                    }
                }
                let nm = m.push(ia);
                assert forall|i: int| 0 <= i < nm.len() && #[trigger] nm[i] >= l && ia + 1 < l implies n[i].precedes(&av[ia + 1]) by {
                    assert(nm[i] == m[i] && n[i] == o[i]);
                    assert(o[i].precedes(&av[ia]));
                    assert(!av[ia + 1].precedes(&av[ia]));
                    T::lemma_negative_transitive(&o[i], &av[ia + 1], &av[ia]);
                }
                assert forall|i: int| 0 <= i < nm.len() && #[trigger] nm[i] < l && ib < lb implies !bv[ib].precedes(&n[i]) by {
                    if i < m.len() {
                        assert(nm[i] == m[i] && n[i] == o[i]);
                    }
                }
                assert forall|i: int| 0 <= i < nm.len() implies ((0 <= #[trigger] nm[i] < ia + 1 && n[i] == av[nm[i]]) || (l <= nm[i] < l + ib
                    && n[i] == bv[nm[i] - l])) by {
                    if i < m.len() {
                        assert(nm[i] == m[i] && n[i] == o[i]);
                    }
                }
                assert forall|i: int, j: int| 0 <= i < j < nm.len() implies (((#[trigger] nm[i] < l) == (#[trigger] nm[j] < l)) ==> nm[i] < nm[j]) by {
                    assert(nm[i] == m[i]);
                    if j < m.len() {
                        assert(nm[j] == m[j]);
                    }
                }
                assert forall|i: int, j: int| 0 <= i < j < nm.len() && #[trigger] nm[i] >= l && #[trigger] nm[j] < l implies n[i].precedes(&n[j]) by {
                    assert(nm[i] == m[i] && n[i] == o[i]);
                    if j < m.len() {
                        assert(nm[j] == m[j] && n[j] == o[j]);
                    }
                }
                m = nm;
                ia = ia + 1;
            }
        }
    }
    assert(av.take(l) =~= av);
    assert(bv.take(lb) =~= bv);
    assert(interleaves(out@, av, bv, m));
    out
}

/// Sorts `v` stably (merge sort).
pub fn sort_ranked<T: Ranked>(v: Vec<T>) -> (r: Vec<T>)
    ensures
        sorted_stably(r@, v@),
    decreases v@.len(),
{
    let n = v.len();
    if n <= 1 {
        proof {
            let perm = Seq::new(n as nat, |i: int| i);
            assert(reorders(v@, v@, perm));
            assert(stable(v@, perm));
        }
        return v;
    }
    let ghost vv = v@;
    let mid = n / 2;
    let mut left = v;
    let right = left.split_off(mid);
    let ghost lv = left@;
    let ghost rv = right@;
    let ls = sort_ranked(left);
    let rs = sort_ranked(right);
    let r = merge_runs(ls, rs);
    proof {
        broadcast use vstd::seq_lib::lemma_multiset_commutative;
        assert(vv =~= lv + rv);
        let pl = choose|p: Seq<int>| reorders(ls@, lv, p) && stable(ls@, p);
        let pr = choose|p: Seq<int>| reorders(rs@, rv, p) && stable(rs@, p);
        let m = choose|m: Seq<int>| interleaves(r@, ls@, rs@, m);
        let l = ls@.len() as int;
        let md = mid as int;
        let perm = Seq::new(n as nat, |i: int| if m[i] < l { pl[m[i]] } else { md + pr[m[i] - l] });
        assert forall|i: int| 0 <= i < perm.len() implies 0 <= #[trigger] perm[i] < vv.len() && r@[i] == vv[perm[i]] by {
            if m[i] < l {
                assert(r@[i] == ls@[m[i]]);
                assert(vv[pl[m[i]]] == lv[pl[m[i]]]);
            } else {
                assert(r@[i] == rs@[m[i] - l]);
                assert(vv[md + pr[m[i] - l]] == rv[pr[m[i] - l]]);
            }
        }
        assert forall|i: int, j: int| 0 <= i < j < perm.len() implies #[trigger] perm[i] != #[trigger] perm[j] by {
            if m[i] < l && m[j] < l {
                assert(m[i] < m[j]);
            } else if m[i] >= l && m[j] >= l {
                assert(m[i] < m[j]);
            }
        }
        assert(reorders(r@, vv, perm));
        assert forall|i: int, j: int| 0 <= i < j < r@.len() && !r@[i].precedes(&r@[j]) implies #[trigger] perm[i] < #[trigger] perm[j] by {
            if m[i] < l && m[j] < l {
                assert(m[i] < m[j]);
                assert(r@[i] == ls@[m[i]] && r@[j] == ls@[m[j]]);
            } else if m[i] >= l && m[j] >= l {
                assert(m[i] < m[j]);
                assert(r@[i] == rs@[m[i] - l] && r@[j] == rs@[m[j] - l]);
            } else if m[i] >= l && m[j] < l {
                assert(r@[i].precedes(&r@[j]));
            }
        }
        assert(stable(r@, perm));
    }
    r
}

impl Ranked for Vec<char> {
    open spec fn precedes(&self, other: &Self) -> bool {
        seq_lt(self@, other@)
    }

    proof fn lemma_asymmetric(a: &Self, b: &Self) {
        if seq_lt(b@, a@) {
            lemma_seq_lt_transitive(a@, b@, a@);
            lemma_seq_lt_irreflexive(a@);
        }
    }

    proof fn lemma_transitive(a: &Self, b: &Self, c: &Self) {
        lemma_seq_lt_transitive(a@, b@, c@);
    }

    proof fn lemma_negative_transitive(a: &Self, b: &Self, c: &Self) {
        lemma_seq_lt_negative_transitive(a@, b@, c@);
    }

    fn precedes_exec(&self, other: &Self) -> (r: bool) {
        chars_lt(self.as_slice(), other.as_slice())
    }
}

impl Ranked for String {
    open spec fn precedes(&self, other: &Self) -> bool {
        seq_lt(self@, other@)
    }

    proof fn lemma_asymmetric(a: &Self, b: &Self) {
        if seq_lt(b@, a@) {
            lemma_seq_lt_transitive(a@, b@, a@);
            lemma_seq_lt_irreflexive(a@);
        }
    }

    proof fn lemma_transitive(a: &Self, b: &Self, c: &Self) {
        lemma_seq_lt_transitive(a@, b@, c@);
    }

    proof fn lemma_negative_transitive(a: &Self, b: &Self, c: &Self) {
        lemma_seq_lt_negative_transitive(a@, b@, c@);
    }

    fn precedes_exec(&self, other: &Self) -> (r: bool) {
        str_before(self.as_str(), other.as_str())
    }
}

/// `<` on `str` (`Ord`), which orders strings lexicographically by their UTF-8 bytes;
/// UTF-8 keeps the order of code points, so this is the order of their characters.
#[verifier::external_body]
pub(crate) fn str_before(a: &str, b: &str) -> (r: bool)
    ensures
        r == seq_lt(a@, b@),
{
    a < b
}

/// Reorderings are kept by mapping every element.
pub proof fn lemma_multiset_map<A, B>(a: Seq<A>, b: Seq<A>, f: spec_fn(A) -> B)
    requires
        a.to_multiset() == b.to_multiset(),
    ensures
        a.map_values(f).to_multiset() == b.map_values(f).to_multiset(),
    decreases a.len(),
{
    broadcast use vstd::multiset::group_multiset_axioms;

    vstd::seq_lib::to_multiset_len(a);
    vstd::seq_lib::to_multiset_len(b);
    if a.len() == 0 {
        assert(a.map_values(f) =~= Seq::<B>::empty());
        assert(b.map_values(f) =~= Seq::<B>::empty());
    } else {
        let x = a.last();
        let d = a.drop_last();
        assert(a =~= d.push(x));
        assert(a.to_multiset() == d.to_multiset().insert(x));
        assert(b.to_multiset().count(x) > 0);
        vstd::seq_lib::to_multiset_contains(b, x);
        let k = choose|k: int| 0 <= k < b.len() && b[k] == x;
        let bk = b.remove(k);
        vstd::seq_lib::to_multiset_remove(b, k);
        assert(d.to_multiset() =~= bk.to_multiset());
        lemma_multiset_map(d, bk, f);
        let bm = b.map_values(f);
        assert(bm.remove(k) =~= bk.map_values(f));
        vstd::seq_lib::to_multiset_remove(bm, k);
        assert(bm[k] == f(x));
        assert(a.map_values(f) =~= d.map_values(f).push(f(x)));
        assert(bm.to_multiset().count(f(x)) > 0) by {
            vstd::seq_lib::to_multiset_contains(bm, f(x));
            assert(bm.contains(f(x)));
        }
        assert(bm.to_multiset() =~= bm.remove(k).to_multiset().insert(f(x)));
    }
}

} // verus!
