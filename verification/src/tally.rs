//! Grouping of keyed entries in key order, counting each key and keeping
//! its first few items: the ordered maps (`BTreeMap`) of the output summaries.
use crate::text::{chars_eq, chars_lt, lemma_seq_lt_irreflexive, lemma_seq_lt_total, lemma_seq_lt_transitive, seq_lt};
use vstd::prelude::*;

verus! {

/// The entries seen for one key: how many, and the first items kept.
pub struct Tally {
    pub key: Vec<char>,
    pub count: usize,
    pub items: Vec<Vec<char>>,
}

/// A keyed entry: key and item.
pub type Entry = (Seq<char>, Seq<char>);

/// How many entries have key `k`.
pub open spec fn key_count(es: Seq<Entry>, k: Seq<char>) -> nat
    decreases es.len(),
{
    if es.len() == 0 {
        0
    } else {
        key_count(es.drop_last(), k) + if es.last().0 == k {
            1nat
        } else {
            0nat
        }
    }
}

/// The items of the entries with key `k`, in entry order.
pub open spec fn key_items(es: Seq<Entry>, k: Seq<char>) -> Seq<Seq<char>>
    decreases es.len(),
{
    if es.len() == 0 {
        Seq::empty()
    } else if es.last().0 == k {
        key_items(es.drop_last(), k).push(es.last().1)
    } else {
        key_items(es.drop_last(), k)
    }
}

/// At most the first `n` elements of `s`.
pub open spec fn first_n<T>(s: Seq<T>, n: nat) -> Seq<T> {
    if s.len() <= n {
        s
    } else {
        s.take(n as int)
    }
}

/// The mathematical view of one tally.
pub open spec fn tally_view(t: Tally) -> (Seq<char>, nat, Seq<Seq<char>>) {
    (t.key@, t.count as nat, t.items@.map_values(|v: Vec<char>| v@))
}

/// The mathematical view of a list of tallies.
pub open spec fn tallies_view(g: Seq<Tally>) -> Seq<(Seq<char>, nat, Seq<Seq<char>>)> {
    g.map_values(|t: Tally| tally_view(t))
}

/// `g` is the grouping of `es` in strictly increasing key order, with each key's
/// count and its first `cap` items; every key of `es` has a group and every group a key.
pub open spec fn is_tally(g: Seq<(Seq<char>, nat, Seq<Seq<char>>)>, es: Seq<Entry>, cap: nat) -> bool {
    &&& forall|i: int, j: int| 0 <= i < j < g.len() ==> seq_lt(#[trigger] g[i].0, #[trigger] g[j].0)
    &&& forall|j: int|
        0 <= j < g.len() ==> {
            &&& (#[trigger] g[j]).1 == key_count(es, g[j].0)
            &&& g[j].1 >= 1
            &&& g[j].2 == first_n(key_items(es, g[j].0), cap)
        }
    &&& forall|i: int| 0 <= i < es.len() ==> exists|j: int| 0 <= j < g.len() && (#[trigger] g[j]).0 == (
    #[trigger] es[i]).0
}

proof fn lemma_key_push(es: Seq<Entry>, e: Entry, k: Seq<char>)
    ensures
        key_count(es.push(e), k) == key_count(es, k) + if e.0 == k {
            1nat
        } else {
            0nat
        },
        key_items(es.push(e), k) == if e.0 == k {
            key_items(es, k).push(e.1)
        } else {
            key_items(es, k)
        },
{
    assert(es.push(e).drop_last() =~= es);
}

proof fn lemma_key_count_items(es: Seq<Entry>, k: Seq<char>)
    ensures
        key_items(es, k).len() == key_count(es, k),
        key_count(es, k) <= es.len(),
    decreases es.len(),
{
    if es.len() > 0 {
        lemma_key_count_items(es.drop_last(), k);
    }
}

proof fn lemma_key_absent(es: Seq<Entry>, k: Seq<char>)
    requires
        forall|i: int| 0 <= i < es.len() ==> (#[trigger] es[i]).0 != k,
    ensures
        key_count(es, k) == 0,
        key_items(es, k) == Seq::<Seq<char>>::empty(),
    decreases es.len(),
{
    if es.len() > 0 {
        assert forall|i: int| 0 <= i < es.drop_last().len() implies (#[trigger] es.drop_last()[i]).0
            != k by {
            assert(es.drop_last()[i] == es[i]);
        }
        lemma_key_absent(es.drop_last(), k);
        assert(es.last() == es[es.len() - 1]);
    }
}

/// The empty grouping groups no entries.
pub proof fn lemma_tally_empty(cap: nat)
    ensures
        is_tally(Seq::empty(), Seq::empty(), cap),
{
}

/// Adds entry `(key, item)` to the grouping `g` of `es`, keeping at most `cap` items per key.
pub fn tally_add(
    g: &mut Vec<Tally>,
    key: Vec<char>,
    item: Vec<char>,
    cap: usize,
    Ghost(es): Ghost<Seq<Entry>>,
)
    requires
        is_tally(tallies_view(old(g)@), es, cap as nat),
        es.len() < usize::MAX,
    ensures
        is_tally(tallies_view(final(g)@), es.push((key@, item@)), cap as nat),
{
    let ghost e: Entry = (key@, item@);
    let ghost es2 = es.push(e);
    let ghost old_g = tallies_view(g@);
    let mut j: usize = 0;
    while j < g.len() && chars_lt(&g[j].key, &key)
        invariant
            old_g == tallies_view(g@),
            j <= g@.len(),
            forall|i: int| 0 <= i < j ==> seq_lt(#[trigger] old_g[i].0, key@),
        decreases g@.len() - j,
    {
        j = j + 1;
    }
    proof {
        lemma_key_count_items(es, key@);
        assert forall|k: Seq<char>| true implies #[trigger] key_count(es2, k) == key_count(es, k) + (
        if key@ == k {
            1nat
        } else {
            0nat
        }) && key_items(es2, k) == if key@ == k {
            key_items(es, k).push(item@)
        } else {
            key_items(es, k)
        } by {
            lemma_key_push(es, e, k);
        }
    }
    if j < g.len() && chars_eq(&g[j].key, &key) {
        let old_t = g.remove(j);
        let ghost s = key_items(es, key@);
        proof {
            assert(old_g[j as int] == tally_view(old_t));
            assert(old_g[j as int].0 == key@);
            lemma_key_count_items(es, key@);
        }
        let mut items = old_t.items;
        let ghost old_items = items@.map_values(|v: Vec<char>| v@);
        assert(old_items == first_n(s, cap as nat));
        if items.len() < cap {
            items.push(item);
            proof {
                assert(old_items == s);
                assert(items@.map_values(|v: Vec<char>| v@) =~= s.push(item@));
            }
        } else {
            proof {
                assert(s.len() >= cap);
                assert(s.push(item@).take(cap as int) =~= s.take(cap as int));
            }
        }
        let t = Tally { key: old_t.key, count: old_t.count + 1, items };
        g.insert(j, t);
        proof {
            let ng = tallies_view(g@);
            assert(ng =~= old_g.update(j as int, tally_view(t)));
            assert(old_g[j as int] == tally_view(old_t));
            lemma_key_count_items(es, key@);
            lemma_key_push(es, e, key@);
            assert(tally_view(t).2 =~= first_n(key_items(es2, key@), cap as nat));
            assert forall|j2: int| 0 <= j2 < ng.len() implies {
                &&& (#[trigger] ng[j2]).1 == key_count(es2, ng[j2].0)
                &&& ng[j2].1 >= 1
                &&& ng[j2].2 == first_n(key_items(es2, ng[j2].0), cap as nat)
            } by {
                if j2 != j {
                    assert(ng[j2] == old_g[j2]);
                    assert(old_g[j2].0 != old_g[j as int].0) by {
                        if j2 < j {
                            lemma_seq_lt_irreflexive(old_g[j2].0);
                        } else {
                            lemma_seq_lt_irreflexive(old_g[j as int].0);
                        }
                    }
                    assert(key_count(es2, ng[j2].0) == key_count(es, ng[j2].0));
                }
            }
            assert forall|i: int| 0 <= i < es2.len() implies exists|j2: int|
                0 <= j2 < ng.len() && (#[trigger] ng[j2]).0 == (#[trigger] es2[i]).0 by {
                if i < es.len() {
                    assert(es2[i] == es[i]);
                    let j3 = choose|j3: int| 0 <= j3 < old_g.len() && (#[trigger] old_g[j3]).0 == es[i].0;
                    assert(ng[j3].0 == old_g[j3].0);
                } else {
                    assert(ng[j as int].0 == es2[i].0);
                }
            }
        }
    } else {
        let mut items: Vec<Vec<char>> = Vec::new();
        if 0 < cap {
            items.push(item);
        }
        let t = Tally { key, count: 1, items };
        g.insert(j, t);
        proof {
            let ng = tallies_view(g@);
            assert(ng =~= old_g.insert(j as int, tally_view(t)));
            // the new key is in no old group
            assert forall|i: int| 0 <= i < old_g.len() implies (#[trigger] old_g[i]).0 != e.0 by {
                if i < j {
                    lemma_seq_lt_irreflexive(e.0);
                } else {
                    lemma_seq_lt_total(old_g[j as int].0, e.0);
                    if i > j {
                        if old_g[i].0 == e.0 {
                            lemma_seq_lt_total(old_g[j as int].0, old_g[i].0);
                        }
                    }
                }
            }
            assert forall|i: int| 0 <= i < es.len() implies (#[trigger] es[i]).0 != e.0 by {
                let j3 = choose|j3: int| 0 <= j3 < old_g.len() && (#[trigger] old_g[j3]).0 == es[i].0;
            }
            lemma_key_absent(es, e.0);
            lemma_key_push(es, e, key@);
            assert(tally_view(t).2 =~= first_n(key_items(es2, key@), cap as nat));
            assert forall|a: int, b: int| 0 <= a < b < ng.len() implies seq_lt(
                #[trigger] ng[a].0,
                #[trigger] ng[b].0,
            ) by {
                if a < j && b == j {
                } else if a == j && b > j {
                    lemma_seq_lt_total(old_g[j as int].0, e.0);
                    if b - 1 > j {
                        lemma_seq_lt_transitive(e.0, old_g[j as int].0, old_g[b - 1].0);
                    }
                } else if a < j && b > j {
                    assert(ng[a] == old_g[a]);
                    assert(ng[b] == old_g[b - 1]);
                } else if b < j {
                    assert(ng[a] == old_g[a]);
                } else {
                    assert(ng[a] == old_g[a - 1]);
                    assert(ng[b] == old_g[b - 1]);
                }
            }
            assert forall|j2: int| 0 <= j2 < ng.len() implies {
                &&& (#[trigger] ng[j2]).1 == key_count(es2, ng[j2].0)
                &&& ng[j2].1 >= 1
                &&& ng[j2].2 == first_n(key_items(es2, ng[j2].0), cap as nat)
            } by {
                if j2 < j {
                    assert(ng[j2] == old_g[j2]);
                } else if j2 > j {
                    assert(ng[j2] == old_g[j2 - 1]);
                }
            }
            assert forall|i: int| 0 <= i < es2.len() implies exists|j2: int|
                0 <= j2 < ng.len() && (#[trigger] ng[j2]).0 == (#[trigger] es2[i]).0 by {
                if i < es.len() {
                    assert(es2[i] == es[i]);
                    let j3 = choose|j3: int| 0 <= j3 < old_g.len() && (#[trigger] old_g[j3]).0 == es[i].0;
                    if j3 < j {
                        assert(ng[j3] == old_g[j3]);
                    } else {
                        assert(ng[j3 + 1] == old_g[j3]);
                    }
                } else {
                    assert(ng[j as int].0 == es2[i].0);
                }
            }
        }
    }
}

} // verus!

verus! {

pub proof fn lemma_key_count_witness(es: Seq<Entry>, k: Seq<char>)
    requires
        key_count(es, k) >= 1,
    ensures
        exists|i: int| 0 <= i < es.len() && (#[trigger] es[i]).0 == k,
    decreases es.len(),
{
    if es.last().0 == k {
        assert(es[es.len() - 1].0 == k);
    } else {
        lemma_key_count_witness(es.drop_last(), k);
        let i = choose|i: int| 0 <= i < es.drop_last().len() && (#[trigger] es.drop_last()[i]).0 == k;
        assert(es[i] == es.drop_last()[i]);
    }
}

/// Two strictly increasing key sequences holding the same keys agree from position `i` on,
/// given that they agree before it.
#[verifier::spinoff_prover]
proof fn lemma_sorted_same_keys(a: Seq<Seq<char>>, b: Seq<Seq<char>>, i: int)
    requires
        0 <= i,
        forall|x: int, y: int| 0 <= x < y < a.len() ==> seq_lt(#[trigger] a[x], #[trigger] a[y]),
        forall|x: int, y: int| 0 <= x < y < b.len() ==> seq_lt(#[trigger] b[x], #[trigger] b[y]),
        forall|x: int| 0 <= x < a.len() ==> b.contains(#[trigger] a[x]),
        forall|y: int| 0 <= y < b.len() ==> a.contains(#[trigger] b[y]),
        i <= a.len(),
        i <= b.len(),
        forall|k: int| 0 <= k < i ==> a[k] == b[k],
    ensures
        a == b,
    decreases a.len() + b.len() - 2 * i,
{
    if i < a.len() && i < b.len() {
        assert(b.contains(a[i]));
        assert(a.contains(b[i]));
        let j = choose|y: int| 0 <= y < b.len() && b[y] == a[i];
        let k = choose|x: int| 0 <= x < a.len() && a[x] == b[i];
        if j < i {
            assert(b[j] == a[j]);
            assert(seq_lt(a[j], a[i]));
            lemma_seq_lt_irreflexive(a[i]);
        }
        if k < i {
            assert(b[k] == a[k]);
            assert(seq_lt(b[k], b[i]));
            lemma_seq_lt_irreflexive(b[i]);
        }
        if j > i {
            assert(seq_lt(b[i], b[j]));
            if k > i {
                assert(seq_lt(a[i], a[k]));
                lemma_seq_lt_total(a[i], a[k]);
            } else {
                lemma_seq_lt_irreflexive(b[i]);
                assert(k == i);
                assert(seq_lt(b[i], b[i]));
            }
        }
        assert(a[i] == b[i]);
        lemma_sorted_same_keys(a, b, i + 1);
    } else if i < a.len() {
        assert(b.contains(a[i]));
        let j = choose|y: int| 0 <= y < b.len() && b[y] == a[i];
        assert(b[j] == a[j]);
        assert(seq_lt(a[j], a[i]));
        lemma_seq_lt_irreflexive(a[i]);
    } else if i < b.len() {
        assert(a.contains(b[i]));
        let k = choose|x: int| 0 <= x < a.len() && a[x] == b[i];
        assert(b[k] == a[k]);
        assert(seq_lt(b[k], b[i]));
        lemma_seq_lt_irreflexive(b[i]);
    } else {
        assert(a =~= b);
    }
}

/// The grouping of a list of entries is unique.
pub proof fn lemma_tally_unique(
    g1: Seq<(Seq<char>, nat, Seq<Seq<char>>)>,
    g2: Seq<(Seq<char>, nat, Seq<Seq<char>>)>,
    es: Seq<Entry>,
    cap: nat,
)
    requires
        is_tally(g1, es, cap),
        is_tally(g2, es, cap),
    ensures
        g1 == g2,
{
    let a = g1.map_values(|t: (Seq<char>, nat, Seq<Seq<char>>)| t.0);
    let b = g2.map_values(|t: (Seq<char>, nat, Seq<Seq<char>>)| t.0);
    assert forall|x: int, y: int| 0 <= x < y < a.len() implies seq_lt(#[trigger] a[x], #[trigger] a[y]) by {
        assert(seq_lt(g1[x].0, g1[y].0));
    }
    assert forall|x: int, y: int| 0 <= x < y < b.len() implies seq_lt(#[trigger] b[x], #[trigger] b[y]) by {
        assert(seq_lt(g2[x].0, g2[y].0));
    }
    assert forall|x: int| 0 <= x < a.len() implies b.contains(#[trigger] a[x]) by {
        assert(g1[x].1 >= 1);
        lemma_key_count_witness(es, g1[x].0);
        let i = choose|i: int| 0 <= i < es.len() && (#[trigger] es[i]).0 == g1[x].0;
        let y = choose|y: int| 0 <= y < g2.len() && (#[trigger] g2[y]).0 == (#[trigger] es[i]).0;
        assert(b[y] == a[x]);
    }
    assert forall|y: int| 0 <= y < b.len() implies a.contains(#[trigger] b[y]) by {
        assert(g2[y].1 >= 1);
        lemma_key_count_witness(es, g2[y].0);
        let i = choose|i: int| 0 <= i < es.len() && (#[trigger] es[i]).0 == g2[y].0;
        let x = choose|x: int| 0 <= x < g1.len() && (#[trigger] g1[x]).0 == (#[trigger] es[i]).0;
        assert(a[x] == b[y]);
    }
    lemma_sorted_same_keys(a, b, 0);
    assert forall|x: int| 0 <= x < g1.len() implies g1[x] == g2[x] by {
        assert(a[x] == b[x]);
        assert(g1[x].0 == g2[x].0);
    }
    assert(g1 =~= g2);
}


/// The grouping of `es` that keeps `cap` items per key.
pub open spec fn tally_of(es: Seq<Entry>, cap: nat) -> Seq<(Seq<char>, nat, Seq<Seq<char>>)> {
    choose|g: Seq<(Seq<char>, nat, Seq<Seq<char>>)>| is_tally(g, es, cap)
}

/// Any grouping of `es` is the grouping `tally_of(es, cap)`.
pub proof fn lemma_tally_of(g: Seq<(Seq<char>, nat, Seq<Seq<char>>)>, es: Seq<Entry>, cap: nat)
    requires
        is_tally(g, es, cap),
    ensures
        tally_of(es, cap) == g,
{
    let c = tally_of(es, cap);
    assert(is_tally(c, es, cap));
    lemma_tally_unique(c, g, es, cap);
}

/// A grouping is empty exactly when there are no entries.
pub proof fn lemma_tally_empty_iff(g: Seq<(Seq<char>, nat, Seq<Seq<char>>)>, es: Seq<Entry>, cap: nat)
    requires
        is_tally(g, es, cap),
    ensures
        (g.len() == 0) == (es.len() == 0),
{
    if es.len() > 0 {
        let e0 = es[0];
        assert(g.len() > 0);
    }
    if g.len() > 0 {
        assert(g[0].1 >= 1);
        lemma_key_count_witness(es, g[0].0);
    }
}

} // verus!
