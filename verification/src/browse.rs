use vstd::prelude::*;
use std::cmp::Ordering;
use crate::text::{chars_le, text_le, text_eq, lemma_chars_le_transitive, lemma_chars_le_total, lemma_chars_le_antisymmetric, lemma_chars_le_reflexive, lemma_chars_le_first_difference, lemma_chars_le_prefix};

verus! {

/// Ascending text order with missing values last: `Less` when `a` comes
/// first. ISO-8601 timestamps sort correctly as text.
pub open spec fn nulls_last_order(a: Option<Seq<char>>, b: Option<Seq<char>>) -> Ordering {
    match (a, b) {
        (Some(x), Some(y)) => if x == y {
            Ordering::Equal
        } else if chars_le(x, y) {
            Ordering::Less
        } else {
            Ordering::Greater
        },
        (Some(_), None) => Ordering::Less,
        (None, Some(_)) => Ordering::Greater,
        (None, None) => Ordering::Equal,
    }
}

/// Capture times compare as their full texts, in plain ascending text
/// order, missing times last: two present times are `Equal` exactly when the
/// texts are equal; where they first differ the smaller character comes
/// first; a proper prefix comes first; swapping the arguments swaps `Less`
/// and `Greater`; a present time comes before a missing one.
pub proof fn law_capture_times_order_as_text(x: Seq<char>, y: Seq<char>, k: int, p: int)
    ensures
        nulls_last_order(Some(x), Some(y)) == Ordering::Equal <==> x == y,
        nulls_last_order(Some(x), Some(y)) == Ordering::Less <==> nulls_last_order(Some(y), Some(x)) == Ordering::Greater,
        0 <= k < x.len() && k < y.len() && x.take(k) == y.take(k) && x[k] < y[k]
            ==> nulls_last_order(Some(x), Some(y)) == Ordering::Less,
        0 <= p && x.len() == p && p < y.len() && y.take(p) == x
            ==> nulls_last_order(Some(x), Some(y)) == Ordering::Less,
        nulls_last_order(Some(x), None) == Ordering::Less,
        nulls_last_order(None, Some(y)) == Ordering::Greater,
        nulls_last_order(None, None::<Seq<char>>) == Ordering::Equal,
{
    lemma_chars_le_total(x, y);
    if x != y && chars_le(x, y) && chars_le(y, x) {
        lemma_chars_le_antisymmetric(x, y);
    }
    if 0 <= k < x.len() && k < y.len() && x.take(k) == y.take(k) && x[k] < y[k] {
        lemma_chars_le_first_difference(x, y, k);
    }
    if 0 <= p && x.len() == p && p < y.len() && y.take(p) == x {
        lemma_chars_le_prefix(x, y);
    }
}

/// Ascending compare with missing values last.
pub fn cmp_opt_asc(a: Option<&str>, b: Option<&str>) -> (r: Ordering)
    ensures
        r == nulls_last_order(
            match a { Some(x) => Some(x@), None => None },
            match b { Some(y) => Some(y@), None => None },
        ),
{
    match (a, b) {
        (Some(x), Some(y)) => {
            if text_eq(x, y) {
                Ordering::Equal
            } else if text_le(x, y) {
                Ordering::Less
            } else {
                Ordering::Greater
            }
        },
        (Some(_), None) => Ordering::Less,
        (None, Some(_)) => Ordering::Greater,
        (None, None) => Ordering::Equal,
    }
}

/// Browse order of two groups, each given as (earliest member capture time,
/// group id): earlier capture first, groups with no capture time last, then
/// by group id. `true` when `a` may come before `b`.
pub open spec fn group_key_le(a: (Option<Seq<char>>, Seq<char>), b: (Option<Seq<char>>, Seq<char>)) -> bool {
    match (a.0, b.0) {
        (Some(x), Some(y)) => if x == y { chars_le(a.1, b.1) } else { chars_le(x, y) },
        (Some(_), None) => true,
        (None, Some(_)) => false,
        (None, None) => chars_le(a.1, b.1),
    }
}

/// A group's browse key as text views.
pub open spec fn key_view(k: (Option<String>, String)) -> (Option<Seq<char>>, Seq<char>) {
    (match k.0 { Some(t) => Some(t@), None => None }, k.1@)
}

proof fn lemma_group_key_total(a: (Option<Seq<char>>, Seq<char>), b: (Option<Seq<char>>, Seq<char>))
    ensures
        group_key_le(a, b) || group_key_le(b, a),
{
    lemma_chars_le_total(a.1, b.1);
    match (a.0, b.0) {
        (Some(x), Some(y)) => { lemma_chars_le_total(x, y); },
        _ => {},
    }
}

proof fn lemma_group_key_transitive(a: (Option<Seq<char>>, Seq<char>), b: (Option<Seq<char>>, Seq<char>), c: (Option<Seq<char>>, Seq<char>))
    requires
        group_key_le(a, b),
        group_key_le(b, c),
    ensures
        group_key_le(a, c),
{
    match (a.0, b.0, c.0) {
        (Some(x), Some(y), Some(z)) => {
            if x == y && y == z {
                lemma_chars_le_transitive(a.1, b.1, c.1);
            } else if x != y && y != z {
                lemma_chars_le_transitive(x, y, z);
                if x == z {
                    lemma_chars_le_antisymmetric(x, y);
                }
            }
        },
        (None, None, None) => {
            lemma_chars_le_transitive(a.1, b.1, c.1);
        },
        _ => {},
    }
}

fn group_key_le_exec(a: &(Option<String>, String), b: &(Option<String>, String)) -> (r: bool)
    ensures
        r == group_key_le(key_view(*a), key_view(*b)),
{
    match (&a.0, &b.0) {
        (Some(x), Some(y)) => {
            if text_eq(x.as_str(), y.as_str()) {
                text_le(a.1.as_str(), b.1.as_str())
            } else {
                text_le(x.as_str(), y.as_str())
            }
        },
        (Some(_), None) => true,
        (None, Some(_)) => false,
        (None, None) => text_le(a.1.as_str(), b.1.as_str()),
    }
}

/// `order` lists each index below `n` exactly once.
pub open spec fn is_permutation(order: Seq<usize>, n: nat) -> bool {
    &&& order.len() == n
    &&& forall|q: int| 0 <= q < order.len() ==> #[trigger] order[q] < n
    &&& forall|p: int, q: int| 0 <= p < order.len() && 0 <= q < order.len() && p != q ==> #[trigger] order[p] != #[trigger] order[q]
    &&& forall|i: int| 0 <= i < n ==> #[trigger] order.contains(i as usize)
}

/// The keys picked by `order` are in browse order.
pub open spec fn keys_in_order(keys: Seq<(Option<String>, String)>, order: Seq<usize>) -> bool {
    forall|p: int, q: int| 0 <= p < q < order.len() ==>
        group_key_le(key_view(keys[#[trigger] order[p] as int]), key_view(keys[#[trigger] order[q] as int]))
}

/// The browse order of groups given their keys (earliest capture time, id):
/// a permutation of the indices that lists the keys in `group_key_le` order.
/// With distinct group ids that order is unique.
pub fn order_groups(keys: &[(Option<String>, String)]) -> (order: Vec<usize>)
    ensures
        is_permutation(order@, keys@.len()),
        keys_in_order(keys@, order@),
{
    let mut order: Vec<usize> = Vec::new();
    let n = keys.len();
    let mut i: usize = 0;
    while i < n
        invariant
            n == keys@.len(),
            i <= n,
            is_permutation(order@, i as nat),
            keys_in_order(keys@, order@),
        decreases n - i,
    {
        let mut p: usize = order.len();
        while p > 0 && !group_key_le_exec(&keys[order[p - 1]], &keys[i])
            invariant
                n == keys@.len(),
                i < n,
                p <= order@.len(),
                is_permutation(order@, i as nat),
                keys_in_order(keys@, order@),
                forall|q: int| p <= q < order@.len() ==> !group_key_le(key_view(keys@[#[trigger] order@[q] as int]), key_view(keys@[i as int])),
            decreases p,
        {
            p = p - 1;
        }
        proof {
            let ki = key_view(keys@[i as int]);
            assert forall|q: int| 0 <= q < p implies group_key_le(key_view(keys@[#[trigger] order@[q] as int]), ki) by {
                let last = key_view(keys@[order@[p - 1] as int]);
                if q < p - 1 {
                    lemma_group_key_transitive(key_view(keys@[order@[q] as int]), last, ki);
                }
            }
            assert forall|q: int| p <= q < order@.len() implies group_key_le(ki, key_view(keys@[#[trigger] order@[q] as int])) by {
                lemma_group_key_total(ki, key_view(keys@[order@[q] as int]));
            }
        }
        let ghost before = order@;
        order.insert(p, i);
        proof {
            assert(order@ == before.insert(p as int, i));
            assert forall|q: int| 0 <= q < order@.len() implies #[trigger] order@[q] < i + 1 by {
                if q < p {
                    assert(order@[q] == before[q]);
                } else if q > p {
                    assert(order@[q] == before[q - 1]);
                }
            }
            assert forall|a: int, b: int| 0 <= a < order@.len() && 0 <= b < order@.len() && a != b implies #[trigger] order@[a] != #[trigger] order@[b] by {
                if a != p && b != p {
                    let a0 = if a < p { a } else { a - 1 };
                    let b0 = if b < p { b } else { b - 1 };
                    assert(order@[a] == before[a0]);
                    assert(order@[b] == before[b0]);
                } else if a == p {
                    let b0 = if b < p { b } else { b - 1 };
                    assert(order@[b] == before[b0]);
                } else {
                    let a0 = if a < p { a } else { a - 1 };
                    assert(order@[a] == before[a0]);
                }
            }
            assert forall|j: int| 0 <= j < i + 1 implies #[trigger] order@.contains(j as usize) by {
                if j == i {
                    assert(order@[p as int] == i);
                } else {
                    assert(before.contains(j as usize));
                    let q = choose|q: int| 0 <= q < before.len() && before[q] == j as usize;
                    if q < p {
                        assert(order@[q] == before[q]);
                    } else {
                        assert(order@[q + 1] == before[q]);
                    }
                }
            }
            assert forall|a: int, b: int| 0 <= a < b < order@.len() implies
                group_key_le(key_view(keys@[#[trigger] order@[a] as int]), key_view(keys@[#[trigger] order@[b] as int])) by {
                let ki = key_view(keys@[i as int]);
                if a < p && b < p {
                    assert(order@[a] == before[a] && order@[b] == before[b]);
                } else if a < p && b == p {
                    assert(order@[a] == before[a]);
                } else if a < p {
                    assert(order@[a] == before[a] && order@[b] == before[b - 1]);
                    lemma_group_key_transitive(key_view(keys@[before[a] as int]), ki, key_view(keys@[before[b - 1] as int]));
                } else if a == p {
                    assert(order@[b] == before[b - 1]);
                } else {
                    assert(order@[a] == before[a - 1] && order@[b] == before[b - 1]);
                }
            }
        }
        i = i + 1;
    }
    order
}

proof fn lemma_group_key_reflexive(a: (Option<Seq<char>>, Seq<char>))
    ensures
        group_key_le(a, a),
{
    lemma_chars_le_reflexive(a.1);
}

proof fn lemma_group_key_antisymmetric(a: (Option<Seq<char>>, Seq<char>), b: (Option<Seq<char>>, Seq<char>))
    requires
        group_key_le(a, b),
        group_key_le(b, a),
    ensures
        a == b,
{
    match (a.0, b.0) {
        (Some(x), Some(y)) => {
            if x == y {
                lemma_chars_le_antisymmetric(a.1, b.1);
            } else {
                lemma_chars_le_antisymmetric(x, y);
            }
        },
        (None, None) => {
            lemma_chars_le_antisymmetric(a.1, b.1);
        },
        _ => {},
    }
}

/// Strictly ascending in browse order.
spec fn strictly_in_order(s: Seq<(Option<Seq<char>>, Seq<char>)>) -> bool {
    forall|i: int, j: int| 0 <= i < j < s.len() ==> group_key_le(#[trigger] s[i], #[trigger] s[j]) && s[i] != s[j]
}

proof fn lemma_strictly_in_order_unique(s1: Seq<(Option<Seq<char>>, Seq<char>)>, s2: Seq<(Option<Seq<char>>, Seq<char>)>)
    requires
        strictly_in_order(s1),
        strictly_in_order(s2),
        forall|x: (Option<Seq<char>>, Seq<char>)| s1.contains(x) <==> s2.contains(x),
    ensures
        s1 == s2,
    decreases s1.len(),
{
    if s1.len() == 0 {
        if s2.len() > 0 {
            assert(s2.contains(s2[0]));
        }
        assert(s1 =~= s2);
    } else if s2.len() == 0 {
        assert(s1.contains(s1[0]));
    } else {
        let a = s1[0];
        let b = s2[0];
        assert(s1.contains(a));
        let j = choose|j: int| 0 <= j < s2.len() && s2[j] == a;
        if j > 0 {
            assert(group_key_le(s2[0], s2[j]));
        } else {
            lemma_group_key_reflexive(a);
        }
        assert(s2.contains(b));
        let k = choose|k: int| 0 <= k < s1.len() && s1[k] == b;
        if k > 0 {
            assert(group_key_le(s1[0], s1[k]));
        } else {
            lemma_group_key_reflexive(b);
        }
        lemma_group_key_antisymmetric(a, b);
        let t1 = s1.drop_first();
        let t2 = s2.drop_first();
        assert(strictly_in_order(t1)) by {
            assert forall|i: int, j: int| 0 <= i < j < t1.len() implies group_key_le(#[trigger] t1[i], #[trigger] t1[j]) && t1[i] != t1[j] by {
                assert(t1[i] == s1[i + 1] && t1[j] == s1[j + 1]);
            }
        }
        assert(strictly_in_order(t2)) by {
            assert forall|i: int, j: int| 0 <= i < j < t2.len() implies group_key_le(#[trigger] t2[i], #[trigger] t2[j]) && t2[i] != t2[j] by {
                assert(t2[i] == s2[i + 1] && t2[j] == s2[j + 1]);
            }
        }
        assert forall|x: (Option<Seq<char>>, Seq<char>)| t1.contains(x) <==> t2.contains(x) by {
            if t1.contains(x) {
                let i = choose|i: int| 0 <= i < t1.len() && t1[i] == x;
                assert(s1[i + 1] == x && s1[0] != s1[i + 1]);
                assert(s1.contains(x));
                let q = choose|q: int| 0 <= q < s2.len() && s2[q] == x;
                assert(q != 0);
                assert(t2[q - 1] == x);
            }
            if t2.contains(x) {
                let i = choose|i: int| 0 <= i < t2.len() && t2[i] == x;
                assert(s2[i + 1] == x && s2[0] != s2[i + 1]);
                assert(s2.contains(x));
                let q = choose|q: int| 0 <= q < s1.len() && s1[q] == x;
                assert(q != 0);
                assert(t1[q - 1] == x);
            }
        }
        lemma_strictly_in_order_unique(t1, t2);
        assert(s1 =~= seq![a] + t1);
        assert(s2 =~= seq![b] + t2);
    }
}

/// No two groups share an id.
pub open spec fn group_ids_distinct(keys: Seq<(Option<String>, String)>) -> bool {
    forall|a: int, b: int| 0 <= a < keys.len() && 0 <= b < keys.len() && a != b ==> #[trigger] keys[a].1@ != #[trigger] keys[b].1@
}

/// The browse order of groups is determined by their keys: with distinct
/// group ids, any two permutations that list the keys in `group_key_le`
/// order are the same.
pub proof fn law_group_order_unique(keys: Seq<(Option<String>, String)>, order1: Seq<usize>, order2: Seq<usize>)
    requires
        group_ids_distinct(keys),
        is_permutation(order1, keys.len()),
        keys_in_order(keys, order1),
        is_permutation(order2, keys.len()),
        keys_in_order(keys, order2),
    ensures
        order1 == order2,
{
    let s1 = order1.map_values(|i: usize| key_view(keys[i as int]));
    let s2 = order2.map_values(|i: usize| key_view(keys[i as int]));
    assert(strictly_in_order(s1)) by {
        assert forall|i: int, j: int| 0 <= i < j < s1.len() implies group_key_le(#[trigger] s1[i], #[trigger] s1[j]) && s1[i] != s1[j] by {
            assert(order1[i] != order1[j]);
            assert(keys[order1[i] as int].1@ != keys[order1[j] as int].1@);
        }
    }
    assert(strictly_in_order(s2)) by {
        assert forall|i: int, j: int| 0 <= i < j < s2.len() implies group_key_le(#[trigger] s2[i], #[trigger] s2[j]) && s2[i] != s2[j] by {
            assert(order2[i] != order2[j]);
            assert(keys[order2[i] as int].1@ != keys[order2[j] as int].1@);
        }
    }
    assert forall|x: (Option<Seq<char>>, Seq<char>)| s1.contains(x) <==> s2.contains(x) by {
        if s1.contains(x) {
            let q = choose|q: int| 0 <= q < s1.len() && s1[q] == x;
            let g = order1[q];
            let gi: int = g as int;
            assert(0 <= gi < keys.len());
            assert(order2.contains(gi as usize));
            let r = choose|r: int| 0 <= r < order2.len() && order2[r] == g;
            assert(s2[r] == x);
        }
        if s2.contains(x) {
            let q = choose|q: int| 0 <= q < s2.len() && s2[q] == x;
            let g = order2[q];
            let gi: int = g as int;
            assert(0 <= gi < keys.len());
            assert(order1.contains(gi as usize));
            let r = choose|r: int| 0 <= r < order1.len() && order1[r] == g;
            assert(s1[r] == x);
        }
    }
    lemma_strictly_in_order_unique(s1, s2);
    assert forall|k: int| 0 <= k < order1.len() implies order1[k] == order2[k] by {
        assert(s1[k] == s2[k]);
        if order1[k] != order2[k] {
            assert(keys[order1[k] as int].1@ != keys[order2[k] as int].1@);
        }
    }
    assert(order1 =~= order2);
}

} // verus!
