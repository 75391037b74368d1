use vstd::prelude::*;
use crate::text::text_eq;

verus! {

/// Longest-side cap for generated thumbnails.
pub const THUMB_MAX_SIDE: u32 = 512;
pub const WEBP_QUALITY: u32 = 80;

/// The self-heal policy: `done` regenerates only when the file is missing or
/// the source mtime changed; `failed` retries only once the source mtime
/// changed; `pending` (or anything else) always regenerates.
pub open spec fn regen_needed(thumb_status: Seq<char>, stored_mtime: Option<i64>, cur_mtime: i64, dest_exists: bool) -> bool {
    if thumb_status == "done"@ {
        !dest_exists || stored_mtime != Some(cur_mtime)
    } else if thumb_status == "failed"@ {
        stored_mtime != Some(cur_mtime)
    } else {
        true
    }
}

/// What a persisted outcome means for the next run, given the source mtime
/// `m` recorded with it: a failed thumbnail of an unchanged source is not
/// retried (whether or not a file exists) and is retried under any other
/// mtime; a done thumbnail with its file present is skipped at `m` and
/// regenerated under any other mtime.
pub proof fn law_recorded_mtime_decides_next_run(m: i64, m2: i64, dest_exists: bool)
    ensures
        !regen_needed("failed"@, Some(m), m, dest_exists),
        m2 != m ==> regen_needed("failed"@, Some(m), m2, dest_exists),
        !regen_needed("done"@, Some(m), m, true),
        m2 != m ==> regen_needed("done"@, Some(m), m2, true),
{
    reveal_strlit("failed");
    reveal_strlit("done");
    assert("failed"@ != "done"@) by {
        assert("failed"@.len() != "done"@.len());
    }
}

/// Decide whether a photo needs its thumbnail (re)generated.
pub fn needs_regen(thumb_status: &str, stored_mtime: Option<i64>, cur_mtime: i64, dest_exists: bool) -> (r: bool)
    ensures
        r == regen_needed(thumb_status@, stored_mtime, cur_mtime, dest_exists),
{
    let unchanged = match stored_mtime {
        Some(m) => m == cur_mtime,
        None => false,
    };
    if text_eq(thumb_status, "done") {
        !dest_exists || !unchanged
    } else if text_eq(thumb_status, "failed") {
        !unchanged
    } else {
        true
    }
}

/// One photo row as read for a thumbnail run.
pub struct ThumbRow {
    pub id: String,
    pub path: String,
    pub thumb_status: String,
    pub thumb_src_mtime: Option<i64>,
}

/// What a stat of a photo's source and thumbnail showed: the source mtime
/// (nanoseconds) and whether the thumbnail file exists.
#[derive(Clone, Copy)]
pub struct SourceStat {
    pub mtime_nanos: i64,
    pub dest_exists: bool,
}

/// One thumbnail to (re)generate, with the source mtime observed when it was
/// chosen (persisted on completion).
pub struct ThumbWork {
    pub id: String,
    pub path: String,
    pub mtime_nanos: i64,
}

/// The `(id, path, mtime)` work chosen from `rows`, where `stats[i]` is the
/// stat of row `i` (`None`: the source is gone, nothing to do), in row order.
pub open spec fn thumb_work(rows: Seq<ThumbRow>, stats: Seq<Option<SourceStat>>) -> Seq<(Seq<char>, Seq<char>, i64)>
    decreases rows.len(),
{
    if rows.len() == 0 || stats.len() == 0 {
        Seq::empty()
    } else {
        let prev = thumb_work(rows.drop_last(), stats.drop_last());
        let row = rows.last();
        match stats.last() {
            Some(st) => if regen_needed(row.thumb_status@, row.thumb_src_mtime, st.mtime_nanos, st.dest_exists) {
                prev.push((row.id@, row.path@, st.mtime_nanos))
            } else {
                prev
            },
            None => prev,
        }
    }
}

pub open spec fn work_views(work: Seq<ThumbWork>) -> Seq<(Seq<char>, Seq<char>, i64)> {
    work.map_values(|w: ThumbWork| (w.id@, w.path@, w.mtime_nanos))
}

/// The stat-filter pass of a thumbnail run: keep the rows whose thumbnail
/// needs (re)generating (`regen_needed` with the observed mtime), and count
/// the rest (up to date, or source gone) as skipped.
pub fn plan_thumbnail_work(rows: &[ThumbRow], stats: &[Option<SourceStat>]) -> (r: (Vec<ThumbWork>, u32))
    requires
        rows@.len() == stats@.len(),
        rows@.len() <= u32::MAX,
    ensures
        work_views(r.0@) == thumb_work(rows@, stats@),
        r.1 == rows@.len() - r.0@.len(),
{
    let mut work: Vec<ThumbWork> = Vec::new();
    let mut skipped: u32 = 0;
    let mut i: usize = 0;
    proof {
        assert(rows@.take(0) =~= Seq::<ThumbRow>::empty());
        assert(work_views(work@) =~= Seq::<(Seq<char>, Seq<char>, i64)>::empty());
    }
    while i < rows.len()
        invariant
            rows@.len() == stats@.len(),
            rows@.len() <= u32::MAX,
            i <= rows@.len(),
            work_views(work@) == thumb_work(rows@.take(i as int), stats@.take(i as int)),
            skipped == i - work@.len(),
            work@.len() <= i,
        decreases rows.len() - i,
    {
        proof {
            assert(rows@.take(i + 1).drop_last() =~= rows@.take(i as int));
            assert(stats@.take(i + 1).drop_last() =~= stats@.take(i as int));
            assert(rows@.take(i + 1).last() == rows@[i as int]);
            assert(stats@.take(i + 1).last() == stats@[i as int]);
        }
        let row = &rows[i];
        let chosen = match stats[i] {
            Some(st) => if needs_regen(row.thumb_status.as_str(), row.thumb_src_mtime, st.mtime_nanos, st.dest_exists) {
                Some(st.mtime_nanos)
            } else {
                None
            },
            None => None,
        };
        match chosen {
            Some(m) => {
                let ghost prev = work@;
                work.push(ThumbWork { id: row.id.clone(), path: row.path.clone(), mtime_nanos: m });
                proof {
                    assert(work_views(work@) =~= work_views(prev).push((row.id@, row.path@, m)));
                }
            },
            None => {
                skipped = skipped + 1;
            },
        }
        i = i + 1;
    }
    proof {
        assert(rows@.take(rows@.len() as int) =~= rows@);
        assert(stats@.take(stats@.len() as int) =~= stats@);
    }
    (work, skipped)
}

/// Row `i` passes the stat filter with stat `st` (the policy, for use in
/// the proof below; the law states it in full).
spec fn selected(rows: Seq<ThumbRow>, stats: Seq<Option<SourceStat>>, i: int) -> bool {
    stats[i] matches Some(st) && regen_needed(rows[i].thumb_status@, rows[i].thumb_src_mtime, st.mtime_nanos, st.dest_exists)
}

spec fn work_of(rows: Seq<ThumbRow>, stats: Seq<Option<SourceStat>>, i: int) -> (Seq<char>, Seq<char>, i64) {
    (rows[i].id@, rows[i].path@, stats[i]->0.mtime_nanos)
}

spec fn chosen_from(rows: Seq<ThumbRow>, stats: Seq<Option<SourceStat>>, w: (Seq<char>, Seq<char>, i64)) -> bool {
    exists|i: int| 0 <= i < rows.len() && #[trigger] selected(rows, stats, i) && w == work_of(rows, stats, i)
}

proof fn lemma_thumb_work_members(rows: Seq<ThumbRow>, stats: Seq<Option<SourceStat>>)
    requires
        rows.len() == stats.len(),
    ensures
        forall|i: int| 0 <= i < rows.len() && #[trigger] selected(rows, stats, i) ==>
            thumb_work(rows, stats).contains(work_of(rows, stats, i)),
        forall|k: int| 0 <= k < thumb_work(rows, stats).len() ==>
            #[trigger] chosen_from(rows, stats, thumb_work(rows, stats)[k]),
    decreases rows.len(),
{
    if rows.len() > 0 {
        let r0 = rows.drop_last();
        let s0 = stats.drop_last();
        lemma_thumb_work_members(r0, s0);
        let prev = thumb_work(r0, s0);
        let tw = thumb_work(rows, stats);
        let n = rows.len() - 1;
        assert forall|i: int| 0 <= i < n implies #[trigger] selected(rows, stats, i) == selected(r0, s0, i)
            && work_of(rows, stats, i) == work_of(r0, s0, i) by {
            assert(rows[i] == r0[i] && stats[i] == s0[i]);
        }
        assert(rows.last() == rows[n] && stats.last() == stats[n]);
        if selected(rows, stats, n) {
            assert(tw == prev.push(work_of(rows, stats, n)));
        } else {
            assert(tw == prev);
        }
        assert forall|i: int| 0 <= i < rows.len() && #[trigger] selected(rows, stats, i) implies
            tw.contains(work_of(rows, stats, i)) by {
            if i < n {
                assert(selected(r0, s0, i));
                assert(prev.contains(work_of(r0, s0, i)));
                let k = choose|k: int| 0 <= k < prev.len() && prev[k] == work_of(r0, s0, i);
                assert(tw[k] == prev[k]);
            } else {
                assert(tw[tw.len() - 1] == work_of(rows, stats, n));
            }
        }
        assert forall|k: int| 0 <= k < tw.len() implies #[trigger] chosen_from(rows, stats, tw[k]) by {
            if k < prev.len() {
                assert(tw[k] == prev[k]);
                assert(chosen_from(r0, s0, prev[k]));
                let i = choose|i: int| 0 <= i < r0.len() && #[trigger] selected(r0, s0, i) && prev[k] == work_of(r0, s0, i);
                assert(selected(rows, stats, i));
            } else {
                assert(selected(rows, stats, n));
            }
        }
    }
}

/// What the stat-filter pass selects, for every input: a photo whose source
/// is present is chosen, under its id and path with the observed mtime,
/// exactly when
/// - it is `done` and its thumbnail file is missing or the source mtime
///   differs from the stored one,
/// - it is `failed` and the source mtime differs from the stored one, or
/// - it has any other status (`pending`);
/// and everything chosen is such a photo. A photo whose source is gone is
/// never chosen, and every row not chosen is counted as skipped.
pub proof fn law_thumbnail_selection(rows: Seq<ThumbRow>, stats: Seq<Option<SourceStat>>)
    requires
        rows.len() == stats.len(),
    ensures
        forall|i: int| #[trigger] stats[i] matches Some(st) ==> (0 <= i < rows.len() && (
            (rows[i].thumb_status@ == "done"@ && (!st.dest_exists || rows[i].thumb_src_mtime != Some(st.mtime_nanos)))
            || (rows[i].thumb_status@ == "failed"@ && rows[i].thumb_src_mtime != Some(st.mtime_nanos))
            || (rows[i].thumb_status@ != "done"@ && rows[i].thumb_status@ != "failed"@))
            ==> thumb_work(rows, stats).contains((rows[i].id@, rows[i].path@, st.mtime_nanos))),
        forall|k: int| #![trigger thumb_work(rows, stats)[k]] 0 <= k < thumb_work(rows, stats).len() ==> exists|i: int| #[trigger] stats[i] matches Some(st)
            && 0 <= i < rows.len() && (
            (rows[i].thumb_status@ == "done"@ && (!st.dest_exists || rows[i].thumb_src_mtime != Some(st.mtime_nanos)))
            || (rows[i].thumb_status@ == "failed"@ && rows[i].thumb_src_mtime != Some(st.mtime_nanos))
            || (rows[i].thumb_status@ != "done"@ && rows[i].thumb_status@ != "failed"@))
            && thumb_work(rows, stats)[k] == (rows[i].id@, rows[i].path@, st.mtime_nanos),
        thumb_work(rows, stats).len() <= rows.len(),
{
    lemma_thumb_work_members(rows, stats);
    lemma_thumb_work_len(rows, stats);
    assert forall|i: int| 0 <= i < rows.len() && #[trigger] stats[i] is Some && (
            (rows[i].thumb_status@ == "done"@ && (!stats[i]->0.dest_exists || rows[i].thumb_src_mtime != Some(stats[i]->0.mtime_nanos)))
            || (rows[i].thumb_status@ == "failed"@ && rows[i].thumb_src_mtime != Some(stats[i]->0.mtime_nanos))
            || (rows[i].thumb_status@ != "done"@ && rows[i].thumb_status@ != "failed"@))
            implies thumb_work(rows, stats).contains((rows[i].id@, rows[i].path@, stats[i]->0.mtime_nanos)) by {
        if selected(rows, stats, i) {
            assert(thumb_work(rows, stats).contains(work_of(rows, stats, i)));
        }
    }
    assert forall|k: int| #![trigger thumb_work(rows, stats)[k]] 0 <= k < thumb_work(rows, stats).len() implies exists|i: int| #[trigger] stats[i] matches Some(st)
            && 0 <= i < rows.len() && (
            (rows[i].thumb_status@ == "done"@ && (!st.dest_exists || rows[i].thumb_src_mtime != Some(st.mtime_nanos)))
            || (rows[i].thumb_status@ == "failed"@ && rows[i].thumb_src_mtime != Some(st.mtime_nanos))
            || (rows[i].thumb_status@ != "done"@ && rows[i].thumb_status@ != "failed"@))
            && thumb_work(rows, stats)[k] == (rows[i].id@, rows[i].path@, st.mtime_nanos) by {
        assert(chosen_from(rows, stats, thumb_work(rows, stats)[k]));
        let i = choose|i: int| 0 <= i < rows.len() && #[trigger] selected(rows, stats, i)
            && thumb_work(rows, stats)[k] == work_of(rows, stats, i);
        assert(stats[i] is Some);
    }
}

proof fn lemma_thumb_work_len(rows: Seq<ThumbRow>, stats: Seq<Option<SourceStat>>)
    ensures
        thumb_work(rows, stats).len() <= rows.len(),
    decreases rows.len(),
{
    if rows.len() > 0 && stats.len() > 0 {
        lemma_thumb_work_len(rows.drop_last(), stats.drop_last());
    }
}

} // verus!
