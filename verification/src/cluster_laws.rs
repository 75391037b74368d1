use vstd::prelude::*;
use crate::grouping::{is_clustering, clustered, ordered_groups, group_ok, component_ids, component_ids_upto, linked, is_chain, is_first, item_ids, item_hashes, lemma_linked_refl, lemma_linked_sym, lemma_linked_trans, lemma_linked_range, lemma_component_ids_linked};
use crate::text::{chars_le, text_order, lemma_chars_le_antisymmetric, lemma_chars_le_transitive, lemma_chars_le_total, lemma_chars_le_reflexive};
use vstd::relations::sorted_by;

verus! {

broadcast use vstd::seq_lib::group_to_multiset_ensures;

/// No two photos share an id.
pub open spec fn ids_distinct(items: Seq<(String, u64)>) -> bool {
    forall|a: int, b: int|
        0 <= a < items.len() && 0 <= b < items.len() && a != b ==> #[trigger] items[a].0@ != #[trigger] items[b].0@
}

/// Keys strictly ascending.
spec fn strictly_sorted<A>(s: Seq<A>, key: spec_fn(A) -> Seq<char>) -> bool {
    forall|i: int, j: int| 0 <= i < j < s.len() ==> chars_le(key(#[trigger] s[i]), key(#[trigger] s[j])) && key(s[i]) != key(s[j])
}

/// Two sequences with strictly ascending keys and the same elements are equal.
proof fn lemma_strictly_sorted_unique<A>(a: Seq<A>, b: Seq<A>, key: spec_fn(A) -> Seq<char>)
    requires
        strictly_sorted(a, key),
        strictly_sorted(b, key),
        forall|x: A| a.contains(x) <==> b.contains(x),
    ensures
        a == b,
    decreases a.len(),
{
    if a.len() == 0 {
        if b.len() > 0 {
            assert(b.contains(b[0]));
        }
        assert(a =~= b);
    } else if b.len() == 0 {
        assert(a.contains(a[0]));
    } else {
        assert(a.contains(a[0]));
        let i = choose|i: int| 0 <= i < b.len() && b[i] == a[0];
        assert(b.contains(b[0]));
        let j = choose|j: int| 0 <= j < a.len() && a[j] == b[0];
        if j > 0 {
            assert(chars_le(key(a[0]), key(a[j])) && key(a[0]) != key(a[j]));
        }
        if i > 0 {
            assert(chars_le(key(b[0]), key(b[i])) && key(b[0]) != key(b[i]));
        }
        if i > 0 && j > 0 {
            lemma_chars_le_antisymmetric(key(a[0]), key(b[0]));
        } else if i > 0 {
            assert(a[0] == b[0]);
        }
        assert(a[0] == b[0]);
        let a1 = a.drop_first();
        let b1 = b.drop_first();
        assert forall|x: A| a1.contains(x) <==> b1.contains(x) by {
            if a1.contains(x) {
                let k = choose|k: int| 0 <= k < a1.len() && a1[k] == x;
                assert(a[k + 1] == x);
                assert(key(a[0]) != key(a[k + 1]));
                assert(a.contains(x));
                let m = choose|m: int| 0 <= m < b.len() && b[m] == x;
                assert(m != 0);
                assert(b1[m - 1] == x);
            }
            if b1.contains(x) {
                let k = choose|k: int| 0 <= k < b1.len() && b1[k] == x;
                assert(b[k + 1] == x);
                assert(key(b[0]) != key(b[k + 1]));
                assert(b.contains(x));
                let m = choose|m: int| 0 <= m < a.len() && a[m] == x;
                assert(m != 0);
                assert(a1[m - 1] == x);
            }
        }
        assert forall|p: int, q: int| 0 <= p < q < a1.len() implies chars_le(key(#[trigger] a1[p]), key(#[trigger] a1[q])) && key(a1[p]) != key(a1[q]) by {
            assert(a1[p] == a[p + 1] && a1[q] == a[q + 1]);
        }
        assert forall|p: int, q: int| 0 <= p < q < b1.len() implies chars_le(key(#[trigger] b1[p]), key(#[trigger] b1[q])) && key(b1[p]) != key(b1[q]) by {
            assert(b1[p] == b[p + 1] && b1[q] == b[q + 1]);
        }
        lemma_strictly_sorted_unique(a1, b1, key);
        assert(a =~= seq![a[0]] + a1);
        assert(b =~= seq![b[0]] + b1);
    }
}


/// The ids listed for `r` below `m` are exactly the ids of the indices below
/// `m` linked to `r`.
pub proof fn lemma_component_contains(ids: Seq<Seq<char>>, hs: Seq<u64>, t: u32, r: int, m: int, x: Seq<char>)
    requires
        0 <= m <= ids.len(),
    ensures
        component_ids_upto(ids, hs, t, r, m).contains(x) <==> exists|j: int| 0 <= j < m && linked(hs, t, r, j) && #[trigger] ids[j] == x,
    decreases m,
{
    if m > 0 {
        lemma_component_contains(ids, hs, t, r, m - 1, x);
        let prev = component_ids_upto(ids, hs, t, r, m - 1);
        let cur = component_ids_upto(ids, hs, t, r, m);
        if cur.contains(x) {
            if linked(hs, t, r, m - 1) && x == ids[m - 1] {
            } else {
                let k = choose|k: int| 0 <= k < cur.len() && cur[k] == x;
                if linked(hs, t, r, m - 1) {
                    assert(k < prev.len());
                    assert(prev[k] == x);
                }
                assert(prev.contains(x));
            }
        }
        if exists|j: int| 0 <= j < m && linked(hs, t, r, j) && #[trigger] ids[j] == x {
            let j = choose|j: int| 0 <= j < m && linked(hs, t, r, j) && #[trigger] ids[j] == x;
            if j == m - 1 {
                assert(cur[cur.len() - 1] == x);
            } else {
                assert(prev.contains(x));
                let k = choose|k: int| 0 <= k < prev.len() && prev[k] == x;
                if linked(hs, t, r, m - 1) {
                    assert(cur[k] == x);
                }
            }
        }
    }
}

/// With distinct ids, a component lists each id once.
pub proof fn lemma_component_no_duplicates(ids: Seq<Seq<char>>, hs: Seq<u64>, t: u32, r: int, m: int)
    requires
        0 <= m <= ids.len(),
        forall|a: int, b: int| 0 <= a < ids.len() && 0 <= b < ids.len() && a != b ==> #[trigger] ids[a] != #[trigger] ids[b],
    ensures
        component_ids_upto(ids, hs, t, r, m).no_duplicates(),
    decreases m,
{
    if m > 0 {
        lemma_component_no_duplicates(ids, hs, t, r, m - 1);
        let prev = component_ids_upto(ids, hs, t, r, m - 1);
        if linked(hs, t, r, m - 1) {
            lemma_component_contains(ids, hs, t, r, m - 1, ids[m - 1]);
            let cur = prev.push(ids[m - 1]);
            assert forall|i: int, j: int| 0 <= i < cur.len() && 0 <= j < cur.len() && i != j implies cur[i] != cur[j] by {
                if i < prev.len() && j < prev.len() {
                    assert(cur[i] == prev[i] && cur[j] == prev[j]);
                } else if i < prev.len() {
                    assert(cur[i] == prev[i]);
                    assert(prev.contains(prev[i]));
                } else {
                    assert(cur[j] == prev[j]);
                    assert(prev.contains(prev[j]));
                }
            }
        }
    }
}

/// Length of a component's id list below `m` bounds from below the indices
/// counted in it.
proof fn lemma_component_len_two(ids: Seq<Seq<char>>, hs: Seq<u64>, t: u32, r: int, j: int, m: int)
    requires
        0 <= m <= ids.len(),
        linked(hs, t, r, r),
        linked(hs, t, r, j),
        j != r,
    ensures
        component_ids_upto(ids, hs, t, r, m).len() >= (if r < m { 1int } else { 0 }) + (if 0 <= j < m { 1int } else { 0 }),
    decreases m,
{
    if m > 0 {
        lemma_component_len_two(ids, hs, t, r, j, m - 1);
    }
}

proof fn lemma_component_len_witness(ids: Seq<Seq<char>>, hs: Seq<u64>, t: u32, r: int, m: int)
    requires
        0 <= m <= ids.len(),
    ensures
        component_ids_upto(ids, hs, t, r, m).len() >= 1 ==> exists|j: int| 0 <= j < m && #[trigger] linked(hs, t, r, j),
        component_ids_upto(ids, hs, t, r, m).len() >= 2 ==> exists|j: int| 0 <= j < m && j != r && #[trigger] linked(hs, t, r, j),
    decreases m,
{
    if m > 0 {
        lemma_component_len_witness(ids, hs, t, r, m - 1);
        let prev = component_ids_upto(ids, hs, t, r, m - 1);
        if component_ids_upto(ids, hs, t, r, m).len() >= 2 && prev.len() < 2 {
            assert(linked(hs, t, r, m - 1));
            assert(prev.len() == 1);
            let j = choose|j: int| 0 <= j < m - 1 && #[trigger] linked(hs, t, r, j);
            if j == r {
                assert(linked(hs, t, r, m - 1) && m - 1 != r);
            } else {
                assert(linked(hs, t, r, j));
            }
        }
        if component_ids_upto(ids, hs, t, r, m).len() >= 1 && prev.len() < 1 {
            assert(linked(hs, t, r, m - 1));
        }
    }
}

/// A photo's component has at least two photos exactly when some other photo
/// is linked to it.
pub proof fn lemma_component_size_two(ids: Seq<Seq<char>>, hs: Seq<u64>, t: u32, r: int)
    requires
        ids.len() == hs.len(),
        0 <= r < hs.len(),
    ensures
        component_ids(ids, hs, t, r).len() >= 2 <==> exists|j: int| 0 <= j < hs.len() && j != r && #[trigger] linked(hs, t, r, j),
{
    lemma_linked_refl(hs, t, r);
    lemma_component_len_witness(ids, hs, t, r, hs.len() as int);
    if exists|j: int| 0 <= j < hs.len() && j != r && #[trigger] linked(hs, t, r, j) {
        let j = choose|j: int| 0 <= j < hs.len() && j != r && #[trigger] linked(hs, t, r, j);
        lemma_component_len_two(ids, hs, t, r, j, hs.len() as int);
    }
}


/// Position in `items` of an entry equal to `x` (when there is one).
pub open spec fn index_of(items: Seq<(String, u64)>, x: (String, u64)) -> int {
    choose|a: int| 0 <= a < items.len() && items[a] == x
}

/// Every entry of `from` occurs in `to`.
pub open spec fn all_in(from: Seq<(String, u64)>, to: Seq<(String, u64)>) -> bool {
    forall|x: int| 0 <= x < from.len() ==> to.contains(#[trigger] from[x])
}

proof fn lemma_index_of(from: Seq<(String, u64)>, to: Seq<(String, u64)>, x: int)
    requires
        all_in(from, to),
        0 <= x < from.len(),
    ensures
        0 <= index_of(to, from[x]) < to.len(),
        to[index_of(to, from[x])] == from[x],
{
    assert(to.contains(from[x]));
}

/// Links carry over to another list holding the same entries.
proof fn lemma_linked_transfer(from: Seq<(String, u64)>, to: Seq<(String, u64)>, t: u32, a: int, b: int)
    requires
        all_in(from, to),
        linked(item_hashes(from), t, a, b),
    ensures
        linked(item_hashes(to), t, index_of(to, from[a]), index_of(to, from[b])),
{
    let hf = item_hashes(from);
    let ht = item_hashes(to);
    let w = choose|w: Seq<int>| #[trigger] is_chain(hf, t, w) && w[0] == a && w.last() == b;
    let w2 = w.map_values(|x: int| index_of(to, from[x]));
    assert forall|k: int| 0 <= k < w2.len() implies 0 <= #[trigger] w2[k] < ht.len() by {
        assert(0 <= w[k] < hf.len());
        lemma_index_of(from, to, w[k]);
    }
    assert forall|k: int| 0 <= k < w2.len() - 1 implies crate::grouping::near(ht[#[trigger] w2[k]], ht[w2[k + 1]], t) by {
        assert(0 <= w[k] < hf.len());
        assert(0 <= w[k + 1] < hf.len());
        assert(crate::grouping::near(hf[w[k]], hf[w[k + 1]], t));
        lemma_index_of(from, to, w[k]);
        lemma_index_of(from, to, w[k + 1]);
    }
    assert(is_chain(ht, t, w2));
    assert(w2[0] == index_of(to, from[a]));
    assert(w2.last() == index_of(to, from[b]));
}

/// With distinct ids, the entry equal to `items[a]` is at `a`.
proof fn lemma_index_of_self(items: Seq<(String, u64)>, a: int)
    requires
        ids_distinct(items),
        0 <= a < items.len(),
    ensures
        index_of(items, items[a]) == a,
{
    assert(items.contains(items[a]));
    let b = index_of(items, items[a]);
    if b != a {
        assert(items[a].0@ != items[b].0@);
    }
}

/// Sorted without duplicates means strictly sorted.
proof fn lemma_sorted_strict(g: Seq<Seq<char>>)
    requires
        sorted_by(g, text_order()),
        g.no_duplicates(),
    ensures
        strictly_sorted(g, |x: Seq<char>| x),
{
    assert forall|i: int, j: int| 0 <= i < j < g.len() implies chars_le((|x: Seq<char>| x)(#[trigger] g[i]), (|x: Seq<char>| x)(#[trigger] g[j])) && (|x: Seq<char>| x)(g[i]) != (|x: Seq<char>| x)(g[j]) by {
        assert(text_order()(g[i], g[j]));
    }
}

/// A group of a clustering lists its component without duplicates, and
/// holds exactly the component's ids.
proof fn lemma_group_facts(items: Seq<(String, u64)>, t: u32, g: Seq<Seq<char>>, r: int)
    requires
        ids_distinct(items),
        group_ok(items, t, g, r),
    ensures
        0 <= r < items.len(),
        is_first(item_hashes(items), t, r),
        component_ids(item_ids(items), item_hashes(items), t, r).len() >= 2,
        strictly_sorted(g, |x: Seq<char>| x),
        forall|x: Seq<char>| g.contains(x) <==> component_ids(item_ids(items), item_hashes(items), t, r).contains(x),
{
    reveal(group_ok);
    let ids = item_ids(items);
    let hs = item_hashes(items);
    let c = component_ids(ids, hs, t, r);
    assert forall|a: int, b: int| 0 <= a < ids.len() && 0 <= b < ids.len() && a != b implies #[trigger] ids[a] != #[trigger] ids[b] by {
        assert(items[a].0@ != items[b].0@);
    }
    lemma_component_no_duplicates(ids, hs, t, r, hs.len() as int);
    c.lemma_multiset_has_no_duplicates();
    assert forall|x: Seq<char>| g.to_multiset().contains(x) implies g.to_multiset().count(x) == 1 by {
        assert(c.to_multiset().contains(x));
    }
    g.lemma_multiset_has_no_duplicates_conv();
    lemma_sorted_strict(g);
    assert forall|x: Seq<char>| g.contains(x) <==> c.contains(x) by {
        assert(g.to_multiset().count(x) == c.to_multiset().count(x));
    }
}

/// The groups of a clustering, when ids are distinct, start with distinct
/// ids.
proof fn lemma_first_ids_distinct(items: Seq<(String, u64)>, t: u32, groups: Seq<Seq<Seq<char>>>, reps: Seq<int>, k1: int, k2: int)
    requires
        ids_distinct(items),
        clustered(items, t, groups, reps),
        0 <= k1 < groups.len(),
        0 <= k2 < groups.len(),
        k1 != k2,
    ensures
        groups[k1][0] != groups[k2][0],
{
    reveal(ordered_groups);
    let ids = item_ids(items);
    let hs = item_hashes(items);
    let r1 = reps[k1];
    let r2 = reps[k2];
    assert(group_ok(items, t, groups[k1], r1));
    assert(group_ok(items, t, groups[k2], r2));
    lemma_group_facts(items, t, groups[k1], r1);
    lemma_group_facts(items, t, groups[k2], r2);
    reveal(group_ok);
    let x = groups[k1][0];
    if groups[k2][0] == x {
        assert(groups[k1].contains(x));
        assert(groups[k2].contains(groups[k2][0]));
        lemma_component_contains(ids, hs, t, r1, hs.len() as int, x);
        lemma_component_contains(ids, hs, t, r2, hs.len() as int, x);
        let j1 = choose|j: int| 0 <= j < hs.len() && linked(hs, t, r1, j) && #[trigger] ids[j] == x;
        let j2 = choose|j: int| 0 <= j < hs.len() && linked(hs, t, r2, j) && #[trigger] ids[j] == x;
        if j1 != j2 {
            assert(items[j1].0@ != items[j2].0@);
        }
        lemma_linked_sym(hs, t, r2, j1);
        lemma_linked_trans(hs, t, r1, j1, r2);
        lemma_linked_sym(hs, t, r1, r2);
        assert(r1 != r2);
        if r1 < r2 {
            assert(!linked(hs, t, r1, r2));
        } else {
            assert(!linked(hs, t, r2, r1));
        }
    }
}


/// Each group of a clustering of `items1` is a group of any clustering of a
/// reordering `items2` of the same entries (distinct ids).
proof fn lemma_group_transfers(
    items1: Seq<(String, u64)>,
    items2: Seq<(String, u64)>,
    t: u32,
    g1: Seq<Seq<Seq<char>>>,
    g2: Seq<Seq<Seq<char>>>,
    k: int,
)
    requires
        ids_distinct(items1),
        ids_distinct(items2),
        all_in(items1, items2),
        all_in(items2, items1),
        is_clustering(items1, t, g1),
        is_clustering(items2, t, g2),
        0 <= k < g1.len(),
    ensures
        g2.contains(g1[k]),
{
    reveal(ordered_groups);
    let ids1 = item_ids(items1);
    let hs1 = item_hashes(items1);
    let ids2 = item_ids(items2);
    let hs2 = item_hashes(items2);
    let reps1 = choose|reps: Seq<int>| #[trigger] clustered(items1, t, g1, reps);
    let reps2 = choose|reps: Seq<int>| #[trigger] clustered(items2, t, g2, reps);
    let r = reps1[k];
    assert(group_ok(items1, t, g1[k], r));
    lemma_group_facts(items1, t, g1[k], r);
    lemma_index_of(items1, items2, r);
    let r2 = index_of(items2, items1[r]);
    // the component of r2 in items2 has two photos too
    lemma_component_size_two(ids1, hs1, t, r);
    let j = choose|j: int| 0 <= j < hs1.len() && j != r && #[trigger] linked(hs1, t, r, j);
    lemma_linked_transfer(items1, items2, t, r, j);
    lemma_index_of(items1, items2, j);
    let j2 = index_of(items2, items1[j]);
    assert(items1[j].0@ != items1[r].0@);
    assert(j2 != r2);
    lemma_component_size_two(ids2, hs2, t, r2);
    assert(component_ids(ids2, hs2, t, r2).len() >= 2);
    // some group of g2 lists that component
    let k2 = choose|k2: int| 0 <= k2 < reps2.len() && linked(hs2, t, r2, #[trigger] reps2[k2]);
    let q = reps2[k2];
    lemma_component_ids_linked(ids2, hs2, t, r2, q);
    assert(group_ok(items2, t, g2[k2], q));
    lemma_group_facts(items2, t, g2[k2], q);
    // same ids on both sides
    assert forall|x: Seq<char>| g1[k].contains(x) <==> g2[k2].contains(x) by {
        lemma_component_contains(ids1, hs1, t, r, hs1.len() as int, x);
        lemma_component_contains(ids2, hs2, t, r2, hs2.len() as int, x);
        if g1[k].contains(x) {
            let a = choose|a: int| 0 <= a < hs1.len() && linked(hs1, t, r, a) && #[trigger] ids1[a] == x;
            lemma_linked_transfer(items1, items2, t, r, a);
            lemma_index_of(items1, items2, a);
            let a2 = index_of(items2, items1[a]);
            assert(ids2[a2] == x);
        }
        if g2[k2].contains(x) {
            let b = choose|b: int| 0 <= b < hs2.len() && linked(hs2, t, r2, b) && #[trigger] ids2[b] == x;
            lemma_linked_transfer(items2, items1, t, r2, b);
            lemma_index_of(items2, items1, b);
            lemma_index_of(items2, items1, r2);
            lemma_index_of_self(items1, r);
            assert(items2[r2] == items1[r]);
            let b1 = index_of(items1, items2[b]);
            assert(ids1[b1] == x);
        }
    }
    lemma_strictly_sorted_unique(g1[k], g2[k2], |x: Seq<char>| x);
}

/// Reordering the photos does not change the clustering: two clusterings of
/// lists holding the same entries, with no id repeated, are identical.
pub proof fn law_cluster_order_independent(
    items1: Seq<(String, u64)>,
    items2: Seq<(String, u64)>,
    threshold: u32,
    groups1: Seq<Seq<Seq<char>>>,
    groups2: Seq<Seq<Seq<char>>>,
)
    requires
        items1.to_multiset() == items2.to_multiset(),
        ids_distinct(items1),
        ids_distinct(items2),
        is_clustering(items1, threshold, groups1),
        is_clustering(items2, threshold, groups2),
    ensures
        groups1 == groups2,
{
    assert forall|x: int| 0 <= x < items1.len() implies items2.contains(#[trigger] items1[x]) by {
        assert(items1.to_multiset().count(items1[x]) > 0);
    }
    assert forall|x: int| 0 <= x < items2.len() implies items1.contains(#[trigger] items2[x]) by {
        assert(items2.to_multiset().count(items2[x]) > 0);
    }
    assert forall|g: Seq<Seq<char>>| groups1.contains(g) <==> groups2.contains(g) by {
        if groups1.contains(g) {
            let k = choose|k: int| 0 <= k < groups1.len() && groups1[k] == g;
            lemma_group_transfers(items1, items2, threshold, groups1, groups2, k);
        }
        if groups2.contains(g) {
            let k = choose|k: int| 0 <= k < groups2.len() && groups2[k] == g;
            lemma_group_transfers(items2, items1, threshold, groups2, groups1, k);
        }
    }
    lemma_groups_strict(items1, threshold, groups1);
    lemma_groups_strict(items2, threshold, groups2);
    lemma_strictly_sorted_unique(groups1, groups2, |g: Seq<Seq<char>>| g[0]);
}

proof fn lemma_groups_strict(items: Seq<(String, u64)>, t: u32, groups: Seq<Seq<Seq<char>>>)
    requires
        ids_distinct(items),
        is_clustering(items, t, groups),
    ensures
        strictly_sorted(groups, |g: Seq<Seq<char>>| g[0]),
{
    reveal(ordered_groups);
    let reps = choose|reps: Seq<int>| #[trigger] clustered(items, t, groups, reps);
    assert forall|i: int, j: int| 0 <= i < j < groups.len() implies chars_le((|g: Seq<Seq<char>>| g[0])(#[trigger] groups[i]), (|g: Seq<Seq<char>>| g[0])(#[trigger] groups[j])) && (|g: Seq<Seq<char>>| g[0])(groups[i]) != (|g: Seq<Seq<char>>| g[0])(groups[j]) by {
        assert(chars_le(groups[i][0], groups[j][0]));
        lemma_first_ids_distinct(items, t, groups, reps, i, j);
    }
}

} // verus!
