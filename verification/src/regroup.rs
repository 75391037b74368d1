use vstd::prelude::*;
use crate::grouping::{parse_phash, phash_value, all_hex_digits, hex_value, cluster, is_clustering, group_views, total_members, lemma_clustering_size};
use crate::digest::{derive_id, group_id};
use crate::model::GroupSummary;
use crate::text::views;
use crate::cluster_laws::{ids_distinct, law_cluster_order_independent};
use vstd::multiset::Multiset;

verus! {

/// Hamming-distance threshold (64-bit pHash) for the `phash_burst` method.
pub const PHASH_THRESHOLD: u32 = 8;

/// Grouping method tag written to `similar_groups.method`.
pub const METHOD: &'static str = "phash_burst";

/// The `(id, pHash)` pairs of the rows whose pHash text parses, in row order.
pub open spec fn parsed_rows(raw: Seq<(String, String)>) -> Seq<(String, u64)>
    decreases raw.len(),
{
    if raw.len() == 0 {
        Seq::empty()
    } else {
        let prev = parsed_rows(raw.drop_last());
        match phash_value(raw.last().1@) {
            Some(h) => prev.push((raw.last().0, h)),
            None => prev,
        }
    }
}

proof fn lemma_parsed_rows_len(raw: Seq<(String, String)>)
    ensures
        parsed_rows(raw).len() <= raw.len(),
    decreases raw.len(),
{
    if raw.len() > 0 {
        lemma_parsed_rows_len(raw.drop_last());
    }
}

/// Keep the rows whose pHash parses, as `(id, value)`; unparseable rows are
/// skipped rather than failing the run.
pub fn parse_rows(raw: &[(String, String)]) -> (items: Vec<(String, u64)>)
    ensures
        items@ == parsed_rows(raw@),
{
    let mut items: Vec<(String, u64)> = Vec::new();
    let mut i: usize = 0;
    proof { assert(raw@.take(0) =~= Seq::<(String, String)>::empty()); }
    while i < raw.len()
        invariant
            i <= raw@.len(),
            items@ == parsed_rows(raw@.take(i as int)),
        decreases raw.len() - i,
    {
        proof {
            assert(raw@.take(i + 1).drop_last() =~= raw@.take(i as int));
            assert(raw@.take(i + 1).last() == raw@[i as int]);
        }
        match parse_phash(raw[i].1.as_str()) {
            Some(h) => {
                items.push((raw[i].0.clone(), h));
            },
            None => {},
        }
        i = i + 1;
    }
    proof { assert(raw@.take(raw@.len() as int) =~= raw@); }
    items
}

/// One group to persist: its content-derived id and its members.
pub struct PlannedGroup {
    pub id: String,
    pub members: Vec<String>,
}

pub open spec fn planned_members(plan: Seq<PlannedGroup>) -> Seq<Seq<Seq<char>>> {
    plan.map_values(|g: PlannedGroup| views(g.members@))
}

/// `plan` is what re-grouping `raw` writes: the clustering of the parseable
/// rows at `PHASH_THRESHOLD`, each group under the id derived from its
/// members.
pub open spec fn is_plan(raw: Seq<(String, String)>, plan: Seq<PlannedGroup>) -> bool {
    &&& is_clustering(parsed_rows(raw), PHASH_THRESHOLD, planned_members(plan))
    &&& forall|k: int| 0 <= k < plan.len() ==>
        #[trigger] plan[k].id@ == group_id(METHOD@, views(plan[k].members@).to_multiset())
}

/// The groups a re-grouping run writes for rows of `(id, pHash text)`: the
/// clustering of the parseable rows at `PHASH_THRESHOLD`, each group with the
/// id derived from its members, and the summary counts. The same rows always
/// plan the same groups under the same ids.
pub fn plan_regroup(raw: &[(String, String)]) -> (r: (Vec<PlannedGroup>, GroupSummary))
    requires
        raw@.len() <= u32::MAX,
    ensures
        is_plan(raw@, r.0@),
        r.1.groups == r.0@.len(),
        r.1.grouped_photos == total_members(planned_members(r.0@)),
{
    let items = parse_rows(raw);
    let comps = cluster(items.as_slice(), PHASH_THRESHOLD);
    proof {
        lemma_parsed_rows_len(raw@);
        lemma_clustering_size(items@, PHASH_THRESHOLD, group_views(comps@));
    }
    let ghost gv = group_views(comps@);
    let mut plan: Vec<PlannedGroup> = Vec::new();
    let mut grouped: u32 = 0;
    let mut k: usize = 0;
    let n = comps.len();
    proof { assert(gv.take(0) =~= Seq::<Seq<Seq<char>>>::empty()); }
    while k < n
        invariant
            n == comps@.len(),
            gv == group_views(comps@),
            k <= n,
            2 * n <= total_members(gv) <= raw@.len() <= u32::MAX,
            plan@.len() == k,
            planned_members(plan@) == gv.take(k as int),
            grouped == total_members(gv.take(k as int)),
            forall|j: int| 0 <= j < k ==>
                #[trigger] plan@[j].id@ == group_id(METHOD@, views(plan@[j].members@).to_multiset()),
        decreases n - k,
    {
        let members = comps[k].clone();
        proof {
            lemma_total_members_prefix(gv, k as int + 1);
            assert(gv.take(k + 1).drop_last() =~= gv.take(k as int));
            assert(gv[k as int] == views(comps@[k as int]@));
        }
        let id = derive_id(METHOD, members.as_slice());
        let size = members.len() as u32;
        grouped = grouped + size;
        let ghost prev = plan@;
        plan.push(PlannedGroup { id, members });
        proof {
            assert(planned_members(plan@) =~= planned_members(prev).push(gv[k as int]));
            assert(gv.take(k + 1) =~= gv.take(k as int).push(gv[k as int]));
        }
        k = k + 1;
    }
    proof {
        assert(gv.take(n as int) =~= gv);
    }
    (plan, GroupSummary { groups: n as u32, grouped_photos: grouped })
}

proof fn lemma_total_members_prefix(gs: Seq<Seq<Seq<char>>>, k: int)
    requires
        0 <= k <= gs.len(),
    ensures
        total_members(gs.take(k)) <= total_members(gs),
    decreases gs.len(),
{
    if k < gs.len() {
        assert(gs.drop_last().take(k) =~= gs.take(k));
        lemma_total_members_prefix(gs.drop_last(), k);
    } else {
        assert(gs.take(k) =~= gs);
    }
}

/// No two rows name the same photo.
pub open spec fn row_ids_distinct(raw: Seq<(String, String)>) -> bool {
    forall|a: int, b: int|
        0 <= a < raw.len() && 0 <= b < raw.len() && a != b ==> #[trigger] raw[a].0@ != #[trigger] raw[b].0@
}

/// The item one row contributes, if its pHash parses.
pub open spec fn parsed_row(x: (String, String)) -> Option<(String, u64)> {
    match phash_value(x.1@) {
        Some(h) => Some((x.0, h)),
        None => None,
    }
}

pub open spec fn option_items(o: Option<(String, u64)>) -> Multiset<(String, u64)> {
    match o {
        Some(v) => Multiset::singleton(v),
        None => Multiset::empty(),
    }
}

proof fn lemma_parsed_step(s: Seq<(String, String)>)
    requires
        s.len() > 0,
    ensures
        parsed_rows(s).to_multiset() =~= parsed_rows(s.drop_last()).to_multiset().add(option_items(parsed_row(s.last()))),
{
    broadcast use vstd::seq_lib::group_to_multiset_ensures;
    let prev = parsed_rows(s.drop_last());
    match phash_value(s.last().1@) {
        Some(h) => {
            assert(prev.push((s.last().0, h)).to_multiset() =~= prev.to_multiset().insert((s.last().0, h)));
        },
        None => {},
    }
}

proof fn lemma_parsed_remove(s: Seq<(String, String)>, j: int)
    requires
        0 <= j < s.len(),
    ensures
        parsed_rows(s).to_multiset() =~= parsed_rows(s.remove(j)).to_multiset().add(option_items(parsed_row(s[j]))),
    decreases s.len(),
{
    lemma_parsed_step(s);
    if j == s.len() - 1 {
        assert(s.remove(j) =~= s.drop_last());
    } else {
        let t = s.drop_last();
        assert(t.remove(j) =~= s.remove(j).drop_last());
        assert(s.remove(j).last() == s.last());
        assert(t[j] == s[j]);
        lemma_parsed_remove(t, j);
        lemma_parsed_step(s.remove(j));
    }
}

proof fn lemma_parsed_multiset(s1: Seq<(String, String)>, s2: Seq<(String, String)>)
    requires
        s1.to_multiset() == s2.to_multiset(),
    ensures
        parsed_rows(s1).to_multiset() == parsed_rows(s2).to_multiset(),
    decreases s1.len(),
{
    broadcast use vstd::seq_lib::group_to_multiset_ensures;
    if s1.len() == 0 {
        assert(s1.to_multiset().len() == 0);
        assert(s2.to_multiset().len() == s2.len());
        assert(s2.len() == 0);
        assert(s1 =~= s2);
    } else {
        let x = s1.last();
        assert(s1 =~= s1.drop_last().push(x));
        assert(s1.to_multiset().count(x) > 0);
        assert(s2.contains(x));
        let j = choose|j: int| 0 <= j < s2.len() && s2[j] == x;
        let s2r = s2.remove(j);
        assert(s2r.to_multiset() =~= s1.drop_last().to_multiset());
        lemma_parsed_multiset(s1.drop_last(), s2r);
        lemma_parsed_remove(s2, j);
        lemma_parsed_step(s1);
    }
}

pub open spec fn row_ids(raw: Seq<(String, String)>) -> Seq<Seq<char>> {
    raw.map_values(|x: (String, String)| x.0@)
}

proof fn lemma_parsed_ids(raw: Seq<(String, String)>)
    requires
        row_ids_distinct(raw),
    ensures
        ids_distinct(parsed_rows(raw)),
        forall|k: int| 0 <= k < parsed_rows(raw).len() ==> row_ids(raw).contains(#[trigger] parsed_rows(raw)[k].0@),
    decreases raw.len(),
{
    if raw.len() > 0 {
        let t = raw.drop_last();
        assert(row_ids_distinct(t)) by {
            assert forall|a: int, b: int| 0 <= a < t.len() && 0 <= b < t.len() && a != b implies #[trigger] t[a].0@ != #[trigger] t[b].0@ by {
                assert(t[a] == raw[a] && t[b] == raw[b]);
            }
        }
        lemma_parsed_ids(t);
        let p = parsed_rows(t);
        let x = raw.last();
        assert forall|k: int| 0 <= k < p.len() implies #[trigger] p[k].0@ != x.0@ by {
            assert(row_ids(t).contains(p[k].0@));
            let i = choose|i: int| 0 <= i < row_ids(t).len() && row_ids(t)[i] == p[k].0@;
            assert(raw[i] == t[i]);
        }
        assert forall|k: int| 0 <= k < p.len() implies row_ids(raw).contains(#[trigger] p[k].0@) by {
            assert(row_ids(t).contains(p[k].0@));
            let i = choose|i: int| 0 <= i < row_ids(t).len() && row_ids(t)[i] == p[k].0@;
            assert(row_ids(raw)[i] == p[k].0@);
        }
        assert(row_ids(raw)[raw.len() - 1] == x.0@);
        match phash_value(x.1@) {
            Some(h) => {
                let q = p.push((x.0, h));
                assert(parsed_rows(raw) == q);
                assert forall|k: int| 0 <= k < q.len() implies row_ids(raw).contains(#[trigger] q[k].0@) by {
                    if k < p.len() {
                        assert(q[k] == p[k]);
                    }
                }
            },
            None => {},
        }
    }
}

/// Re-grouping depends on the rows alone: two plans made from the same rows,
/// in any order (no photo id repeated), list the same groups, with the same
/// members, under the same ids. A re-run writes byte-identical groups.
pub proof fn law_regroup_plan_order_independent(
    raw1: Seq<(String, String)>,
    raw2: Seq<(String, String)>,
    plan1: Seq<PlannedGroup>,
    plan2: Seq<PlannedGroup>,
)
    requires
        raw1.to_multiset() == raw2.to_multiset(),
        row_ids_distinct(raw1),
        row_ids_distinct(raw2),
        is_plan(raw1, plan1),
        is_plan(raw2, plan2),
    ensures
        plan1.len() == plan2.len(),
        planned_members(plan1) == planned_members(plan2),
        forall|k: int| 0 <= k < plan1.len() ==> #[trigger] plan1[k].id@ == plan2[k].id@,
{
    lemma_parsed_multiset(raw1, raw2);
    lemma_parsed_ids(raw1);
    lemma_parsed_ids(raw2);
    law_cluster_order_independent(
        parsed_rows(raw1),
        parsed_rows(raw2),
        PHASH_THRESHOLD,
        planned_members(plan1),
        planned_members(plan2),
    );
    assert(planned_members(plan1).len() == plan1.len());
    assert(planned_members(plan2).len() == plan2.len());
    assert forall|k: int| 0 <= k < plan1.len() implies #[trigger] plan1[k].id@ == plan2[k].id@ by {
        assert(planned_members(plan1)[k] == views(plan1[k].members@));
        assert(planned_members(plan2)[k] == views(plan2[k].members@));
    }
}

spec fn kept_row(raw: Seq<(String, String)>, i: int) -> bool {
    phash_value(raw[i].1@) is Some
}

spec fn kept_entry(raw: Seq<(String, String)>, i: int) -> (String, u64) {
    (raw[i].0, phash_value(raw[i].1@)->0)
}

proof fn lemma_parsed_rows_members(raw: Seq<(String, String)>)
    ensures
        forall|i: int| 0 <= i < raw.len() && #[trigger] kept_row(raw, i) ==> parsed_rows(raw).contains(kept_entry(raw, i)),
    decreases raw.len(),
{
    if raw.len() > 0 {
        let r0 = raw.drop_last();
        lemma_parsed_rows_members(r0);
        let prev = parsed_rows(r0);
        let pr = parsed_rows(raw);
        let n = raw.len() - 1;
        assert forall|i: int| 0 <= i < n implies #[trigger] kept_row(raw, i) == kept_row(r0, i)
            && kept_entry(raw, i) == kept_entry(r0, i) by {
            assert(raw[i] == r0[i]);
        }
        assert(raw.last() == raw[n]);
        if kept_row(raw, n) {
            assert(pr == prev.push(kept_entry(raw, n)));
        } else {
            assert(pr == prev);
        }
        assert forall|i: int| 0 <= i < raw.len() && #[trigger] kept_row(raw, i) implies pr.contains(kept_entry(raw, i)) by {
            if i < n {
                assert(kept_row(r0, i));
                assert(prev.contains(kept_entry(r0, i)));
                let k = choose|k: int| 0 <= k < prev.len() && prev[k] == kept_entry(r0, i);
                assert(pr[k] == prev[k]);
            } else {
                assert(pr[pr.len() - 1] == kept_entry(raw, n));
            }
        }
    }
}

proof fn lemma_parsed_rows_same_texts(raw1: Seq<(String, String)>, raw2: Seq<(String, String)>)
    requires
        raw1.len() == raw2.len(),
        forall|i: int| 0 <= i < raw1.len() ==> #[trigger] raw1[i].1@ == raw2[i].1@,
    ensures
        parsed_rows(raw1).len() == parsed_rows(raw2).len(),
        forall|k: int| 0 <= k < parsed_rows(raw1).len() ==> #[trigger] parsed_rows(raw1)[k].1 == parsed_rows(raw2)[k].1,
    decreases raw1.len(),
{
    if raw1.len() > 0 {
        let (a, b) = (raw1.drop_last(), raw2.drop_last());
        assert forall|i: int| 0 <= i < a.len() implies #[trigger] a[i].1@ == b[i].1@ by {
            assert(a[i] == raw1[i] && b[i] == raw2[i]);
        }
        lemma_parsed_rows_same_texts(a, b);
        assert(raw1.last().1@ == raw2.last().1@) by {
            assert(raw1[raw1.len() - 1].1@ == raw2[raw1.len() - 1].1@);
        }
    }
}

/// The row's pHash text is sixteen hex digits.
pub open spec fn sixteen_hex(x: (String, String)) -> bool {
    x.1@.len() == 16 && all_hex_digits(x.1@)
}

proof fn lemma_parsed_rows_filter(raw: Seq<(String, String)>)
    ensures
        parsed_rows(raw) == raw.filter(|x: (String, String)| sixteen_hex(x)).map_values(
            |x: (String, String)| (x.0, hex_value(x.1@) as u64)),
    decreases raw.len(),
{
    reveal(Seq::filter);
    let f = |x: (String, String)| (x.0, hex_value(x.1@) as u64);
    let p = |x: (String, String)| sixteen_hex(x);
    if raw.len() == 0 {
        assert(raw.filter(p).map_values(f) =~= Seq::<(String, u64)>::empty());
    } else {
        lemma_parsed_rows_filter(raw.drop_last());
        let sub = raw.drop_last().filter(p);
        if p(raw.last()) {
            assert(raw.filter(p) == sub.push(raw.last()));
            assert(sub.push(raw.last()).map_values(f) =~= sub.map_values(f).push(f(raw.last())));
        } else {
            assert(raw.filter(p) == sub);
        }
    }
}

/// Which rows re-grouping keeps depends on their pHash text alone, never on
/// the photo id: every row whose pHash is sixteen hex digits is kept, as its
/// id with that value; nothing else is kept; and rows with the same pHash
/// texts keep the same number of rows, with the same values in the same
/// order, whatever their ids.
pub proof fn law_parse_rows_keeps_every_parseable_row(raw: Seq<(String, String)>, other_ids: Seq<(String, String)>)
    ensures
        forall|i: int| 0 <= i < raw.len() && #[trigger] raw[i].1@.len() == 16 && all_hex_digits(raw[i].1@)
            ==> parsed_rows(raw).contains((raw[i].0, hex_value(raw[i].1@) as u64)),
        parsed_rows(raw) == raw.filter(|x: (String, String)| x.1@.len() == 16 && all_hex_digits(x.1@)).map_values(
            |x: (String, String)| (x.0, hex_value(x.1@) as u64)),
        raw.len() == other_ids.len() && (forall|i: int| 0 <= i < raw.len() ==> #[trigger] raw[i].1@ == other_ids[i].1@)
            ==> parsed_rows(raw).len() == parsed_rows(other_ids).len()
            && forall|k: int| 0 <= k < parsed_rows(raw).len() ==> #[trigger] parsed_rows(raw)[k].1 == parsed_rows(other_ids)[k].1,
{
    lemma_parsed_rows_members(raw);
    assert forall|i: int| 0 <= i < raw.len() && #[trigger] raw[i].1@.len() == 16 && all_hex_digits(raw[i].1@)
        implies parsed_rows(raw).contains((raw[i].0, hex_value(raw[i].1@) as u64)) by {
        assert(kept_row(raw, i));
    }
    lemma_parsed_rows_filter(raw);
    assert((|x: (String, String)| sixteen_hex(x)) == (|x: (String, String)| x.1@.len() == 16 && all_hex_digits(x.1@)));
    if raw.len() == other_ids.len() && (forall|i: int| 0 <= i < raw.len() ==> #[trigger] raw[i].1@ == other_ids[i].1@) {
        lemma_parsed_rows_same_texts(raw, other_ids);
    }
}

} // verus!
