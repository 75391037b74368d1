use vstd::prelude::*;
use crate::model::{AppError, ExportFailure, ExportSummary};
use crate::text::{text_eq, concat, push_char, push_text, decimal_string, decimal, chars_of, decimal_value, lemma_decimal};

verus! {

broadcast use vstd::string::group_string_axioms;

/// Valid `photos.status` values.
pub const STATUSES: [&'static str; 3] = ["pending", "keep", "reject"];

/// `s` is one of the valid status values.
pub open spec fn is_status(s: Seq<char>) -> bool {
    s == "pending"@ || s == "keep"@ || s == "reject"@
}

/// Command-level check of a status value: unknown values are a `Validation`
/// error naming the value.
pub fn validate_status(status: &str) -> (r: Result<(), AppError>)
    ensures
        is_status(status@) ==> r is Ok,
        !is_status(status@) ==> (r matches Err(AppError::Validation(m)) && m@ == "invalid status: "@ + status@),
{
    if text_eq(status, "pending") || text_eq(status, "keep") || text_eq(status, "reject") {
        Ok(())
    } else {
        Err(AppError::Validation(concat("invalid status: ", status)))
    }
}

/// A status update that touched no row names no photo.
pub fn status_update_result(rows: usize) -> (r: Result<(), AppError>)
    ensures
        rows > 0 ==> r is Ok,
        rows == 0 ==> (r matches Err(AppError::NotFound(m)) && m@ == "no photo with that id"@),
{
    if rows == 0 {
        Err(AppError::NotFound(String::from_str("no photo with that id")))
    } else {
        Ok(())
    }
}

/// What happened to one keep during an export.
pub enum ExportStep {
    /// The source path has no file name.
    NoFileName,
    /// The source already lives directly in the destination folder.
    AlreadyInDest,
    /// Every renamed slot `name (1..=9999).ext` is taken.
    NoFreeName,
    /// Copied; `true` when written under a renamed target.
    Copied(bool),
    /// The copy failed for the given reason.
    CopyFailed(String),
}

/// Keeps accounted for so far: each one is exported, skipped or failed.
pub open spec fn accounted(s: ExportSummary) -> int {
    s.exported + s.skipped + s.failed@.len()
}

pub open spec fn no_file_name_reason() -> Seq<char> {
    "source path has no file name"@
}

pub open spec fn no_free_name_reason() -> Seq<char> {
    "too many name collisions (>9999) at destination"@
}

impl ExportSummary {
    /// An export with nothing done yet.
    pub fn new() -> (s: Self)
        ensures
            s.exported == 0,
            s.renamed == 0,
            s.skipped == 0,
            s.failed@.len() == 0,
    {
        ExportSummary { exported: 0, renamed: 0, skipped: 0, failed: Vec::new() }
    }

    /// Record what happened to the keep at `source`. Every keep lands in
    /// exactly one of exported / skipped / failed, never silently dropped.
    pub fn record(&mut self, source: &str, step: ExportStep)
        requires
            old(self).exported < usize::MAX,
            old(self).renamed < usize::MAX,
            old(self).skipped < usize::MAX,
        ensures
            accounted(*final(self)) == accounted(*old(self)) + 1,
            final(self).exported == old(self).exported + (if step is Copied { 1int } else { 0 }),
            final(self).renamed == old(self).renamed + (if step matches ExportStep::Copied(true) { 1int } else { 0 }),
            final(self).skipped == old(self).skipped + (if step is AlreadyInDest { 1int } else { 0 }),
            (step is Copied || step is AlreadyInDest) ==> final(self).failed@ == old(self).failed@,
            !(step is Copied || step is AlreadyInDest) ==> {
                &&& final(self).failed@.drop_last() == old(self).failed@
                &&& final(self).failed@.last().source@ == source@
                &&& final(self).failed@.last().reason@ == (match step {
                    ExportStep::NoFileName => no_file_name_reason(),
                    ExportStep::NoFreeName => no_free_name_reason(),
                    ExportStep::CopyFailed(reason) => reason@,
                    _ => Seq::empty(),
                })
            },
    {
        let ghost before = self.failed@;
        match step {
            ExportStep::NoFileName => {
                self.failed.push(ExportFailure {
                    source: String::from_str(source),
                    reason: String::from_str("source path has no file name"),
                });
            },
            ExportStep::AlreadyInDest => {
                self.skipped = self.skipped + 1;
            },
            ExportStep::NoFreeName => {
                self.failed.push(ExportFailure {
                    source: String::from_str(source),
                    reason: String::from_str("too many name collisions (>9999) at destination"),
                });
            },
            ExportStep::Copied(renamed) => {
                self.exported = self.exported + 1;
                if renamed {
                    self.renamed = self.renamed + 1;
                }
            },
            ExportStep::CopyFailed(reason) => {
                self.failed.push(ExportFailure { source: String::from_str(source), reason });
            },
        }
        proof {
            if !(step is Copied || step is AlreadyInDest) {
                assert(self.failed@.drop_last() =~= before);
            }
        }
    }
}

/// Index of the last `.` in `s`, or -1.
pub open spec fn last_dot(s: Seq<char>) -> int
    decreases s.len(),
{
    if s.len() == 0 {
        -1
    } else if s.last() == '.' {
        s.len() - 1
    } else {
        last_dot(s.drop_last())
    }
}

proof fn lemma_last_dot(s: Seq<char>)
    ensures
        -1 <= last_dot(s) < s.len(),
        last_dot(s) >= 0 ==> s[last_dot(s)] == '.',
        forall|k: int| last_dot(s) < k < s.len() ==> s[k] != '.',
    decreases s.len(),
{
    if s.len() > 0 && s.last() != '.' {
        lemma_last_dot(s.drop_last());
        assert forall|k: int| last_dot(s) < k < s.len() implies s[k] != '.' by {
            if k < s.len() - 1 {
                assert(s[k] == s.drop_last()[k]);
            }
        }
    }
}

/// Stem and extension of a file name (one path component), split at the
/// last `.` as `Path::file_stem` / `Path::extension` do: no extension when
/// there is no dot or when the only dot leads the name (`.bashrc`); `.` and
/// `..` name no file, so their stem is empty.
pub open spec fn stem_and_extension(name: Seq<char>) -> (Seq<char>, Option<Seq<char>>) {
    let d = last_dot(name);
    if name == seq!['.'] || name == seq!['.', '.'] {
        (Seq::empty(), None)
    } else if d <= 0 {
        (name, None)
    } else {
        (name.subrange(0, d), Some(name.subrange(d + 1, name.len() as int)))
    }
}

/// Split a file name into its stem and optional extension.
pub fn split_file_name(name: &str) -> (r: (String, Option<String>))
    ensures
        r.0@ == stem_and_extension(name@).0,
        r.1 is Some <==> stem_and_extension(name@).1 is Some,
        r.1 matches Some(e) ==> e@ == stem_and_extension(name@).1->0,
{
    let cs = chars_of(name);
    proof { lemma_last_dot(name@); }
    if (cs.len() == 2 && cs[0] == '.' && cs[1] == '.') || (cs.len() == 1 && cs[0] == '.') {
        proof {
            assert(name@ =~= seq!['.', '.'] || name@ =~= seq!['.']);
        }
        return (String::new(), None);
    }
    let mut d: usize = cs.len();
    let mut found = false;
    while d > 0 && !found
        invariant
            cs@ == name@,
            d <= cs@.len(),
            found ==> d < cs@.len() && cs@[d as int] == '.' && d as int == last_dot(name@),
            !found ==> forall|k: int| d <= k < cs@.len() ==> cs@[k] != '.',
        decreases d + (if found { 0int } else { 1 }),
    {
        if cs[d - 1] == '.' {
            d = d - 1;
            found = true;
            proof {
                lemma_last_dot(name@);
                if last_dot(name@) != d as int {
                    assert(name@[last_dot(name@)] == '.');
                }
            }
        } else {
            d = d - 1;
        }
    }
    if !found {
        proof {
            if last_dot(name@) >= 0 {
                assert(cs@[last_dot(name@)] == '.');
            }
        }
        return (String::from_str(name), None);
    }
    if d == 0 {
        return (String::from_str(name), None);
    }
    let mut stem = String::new();
    let mut ext = String::new();
    let mut i: usize = 0;
    while i < cs.len()
        invariant
            cs@ == name@,
            0 < d < cs@.len(),
            i <= cs@.len(),
            i <= d ==> stem@ == cs@.subrange(0, i as int) && ext@ == Seq::<char>::empty(),
            i > d ==> stem@ == cs@.subrange(0, d as int) && ext@ == cs@.subrange(d + 1, i as int),
        decreases cs.len() - i,
    {
        if i < d {
            push_char(&mut stem, cs[i]);
            proof { assert(cs@.subrange(0, i + 1) =~= cs@.subrange(0, i as int).push(cs@[i as int])); }
        } else if i > d {
            push_char(&mut ext, cs[i]);
            proof { assert(cs@.subrange(d + 1, i + 1) =~= cs@.subrange(d + 1, i as int).push(cs@[i as int])); }
        } else {
            proof { assert(cs@.subrange(d + 1, d + 1) =~= Seq::<char>::empty()); }
        }
        i = i + 1;
    }
    (stem, Some(ext))
}

/// `stem (n).ext`, or `stem (n)` without an extension.
pub open spec fn renamed_file_name(stem: Seq<char>, ext: Option<Seq<char>>, n: nat) -> Seq<char> {
    let base = stem + seq![' ', '('] + decimal(n) + seq![')'];
    match ext {
        Some(e) => base + seq!['.'] + e,
        None => base,
    }
}

/// The `n`-th candidate name for a file whose original name is taken.
pub fn collision_name(stem: &str, ext: Option<&str>, n: u32) -> (r: String)
    ensures
        r@ == renamed_file_name(stem@, match ext { Some(e) => Some(e@), None => None }, n as nat),
{
    let mut r = String::from_str(stem);
    push_char(&mut r, ' ');
    push_char(&mut r, '(');
    let digits = decimal_string(n as u128);
    push_text(&mut r, digits.as_str());
    push_char(&mut r, ')');
    match ext {
        Some(e) => {
            push_char(&mut r, '.');
            push_text(&mut r, e);
            proof {
                assert(r@ =~= stem@ + seq![' ', '('] + decimal(n as nat) + seq![')'] + seq!['.'] + e@);
            }
        },
        None => {
            proof {
                assert(r@ =~= stem@ + seq![' ', '('] + decimal(n as nat) + seq![')']);
            }
        },
    }
    r
}

/// Highest `n` tried for a renamed target `stem (n).ext`.
pub const MAX_RENAMES: u32 = 9999;

/// The `n`-th name tried for an exported file: its own name first (`n == 0`),
/// then `stem (n).ext` for `n` in `1..=MAX_RENAMES`.
pub open spec fn candidate_name(file_name: Seq<char>, n: nat) -> Seq<char> {
    if n == 0 {
        file_name
    } else {
        renamed_file_name(stem_and_extension(file_name).0, stem_and_extension(file_name).1, n)
    }
}

/// The `n`-th name tried for `file_name` at the destination.
pub fn target_name(file_name: &str, n: u32) -> (r: String)
    ensures
        r@ == candidate_name(file_name@, n as nat),
{
    if n == 0 {
        String::from_str(file_name)
    } else {
        let (stem, ext) = split_file_name(file_name);
        match ext {
            Some(e) => collision_name(stem.as_str(), Some(e.as_str()), n),
            None => collision_name(stem.as_str(), None, n),
        }
    }
}

/// What to do after probing the destination for one candidate name.
pub enum TargetStep {
    /// Probe this next candidate.
    Probe(String),
    /// Write to this free name; `true` when it is a renamed one.
    Chosen(String, bool),
    /// Every candidate is taken.
    Exhausted,
}

/// One step of choosing a non-colliding target: `taken` tells whether the
/// `n`-th candidate already exists at the destination. A free candidate is
/// chosen (renamed unless it is the original name); a taken one moves on to
/// the next, until the `MAX_RENAMES`-th is taken too.
pub fn next_target(file_name: &str, n: u32, taken: bool) -> (s: TargetStep)
    requires
        n <= MAX_RENAMES,
    ensures
        !taken ==> (s matches TargetStep::Chosen(name, renamed) && name@ == candidate_name(file_name@, n as nat)
            && renamed == (n > 0)),
        taken && n < MAX_RENAMES ==> (s matches TargetStep::Probe(name) && name@ == candidate_name(file_name@, (n + 1) as nat)),
        taken && n == MAX_RENAMES ==> s is Exhausted,
{
    if !taken {
        TargetStep::Chosen(target_name(file_name, n), n > 0)
    } else if n < MAX_RENAMES {
        TargetStep::Probe(target_name(file_name, n + 1))
    } else {
        TargetStep::Exhausted
    }
}

proof fn lemma_stem_and_extension_len(name: Seq<char>)
    ensures
        stem_and_extension(name).1 matches Some(e) ==> stem_and_extension(name).0.len() + 1 + e.len() == name.len(),
        stem_and_extension(name).1 is None ==> (stem_and_extension(name).0 == name || name.len() <= 2),
{
    lemma_last_dot(name);
}

/// Distinct probe numbers give distinct names, so choosing the first free
/// candidate never lands two keeps on one name and never overwrites the
/// original: `candidate_name(f, n1) != candidate_name(f, n2)` for `n1 != n2`.
pub proof fn law_candidate_names_distinct(file_name: Seq<char>, n1: nat, n2: nat)
    requires
        n1 != n2,
    ensures
        candidate_name(file_name, n1) != candidate_name(file_name, n2),
{
    lemma_stem_and_extension_len(file_name);
    lemma_decimal(n1);
    lemma_decimal(n2);
    let (stem, ext) = stem_and_extension(file_name);
    let c1 = candidate_name(file_name, n1);
    let c2 = candidate_name(file_name, n2);
    if n1 == 0 || n2 == 0 {
        let k = if n1 == 0 { n2 } else { n1 };
        lemma_decimal(k);
        assert(candidate_name(file_name, k).len() > file_name.len());
    } else if c1 == c2 {
        let d1 = decimal(n1);
        let d2 = decimal(n2);
        let start: int = stem.len() as int + 2;
        let tail_len: int = match ext { Some(e) => e.len() as int + 1, None => 0int };
        assert(c1.len() == start + d1.len() + 1 + tail_len);
        assert(c2.len() == start + d2.len() + 1 + tail_len);
        assert(d1 =~= c1.subrange(start, start + d1.len() as int));
        assert(d2 =~= c2.subrange(start, start + d2.len() as int));
        assert(decimal_value(d1) == decimal_value(d2));
    }
}

proof fn lemma_last_dot_append(s: Seq<char>, t: Seq<char>)
    requires
        forall|k: int| 0 <= k < t.len() ==> t[k] != '.',
    ensures
        last_dot(s + t) == last_dot(s),
    decreases t.len(),
{
    if t.len() > 0 {
        let u = t.drop_last();
        assert((s + t).drop_last() =~= s + u);
        assert((s + t).last() == t.last());
        lemma_last_dot_append(s, u);
    } else {
        assert(s + t =~= s);
    }
}

/// A renamed export target keeps the file's extension: for every `n > 0`
/// the `n`-th candidate has exactly the original name's extension (none if
/// it has none), ends with `.` and that extension when there is one, and
/// its own stem is the original stem followed by ` (n)`.
pub proof fn law_renamed_candidate_keeps_extension(file_name: Seq<char>, n: nat)
    requires
        n > 0,
    ensures
        stem_and_extension(candidate_name(file_name, n)).1 == stem_and_extension(file_name).1,
        stem_and_extension(file_name).1 matches Some(e) ==> candidate_name(file_name, n).len() > e.len() + 1
            && candidate_name(file_name, n).subrange(
                candidate_name(file_name, n).len() - e.len() - 1, candidate_name(file_name, n).len() as int) == seq!['.'] + e,
        stem_and_extension(candidate_name(file_name, n)).0
            == stem_and_extension(file_name).0 + seq![' ', '('] + decimal(n) + seq![')'],
{
    lemma_last_dot(file_name);
    lemma_decimal(n);
    let (stem, ext) = stem_and_extension(file_name);
    let mid = seq![' ', '('] + decimal(n) + seq![')'];
    assert forall|k: int| 0 <= k < mid.len() implies mid[k] != '.' by {
        if 2 <= k < mid.len() - 1 {
            assert(mid[k] == decimal(n)[k - 2]);
        }
    }
    let base = stem + mid;
    assert(base =~= stem + seq![' ', '('] + decimal(n) + seq![')']);
    lemma_last_dot_append(stem, mid);
    let c = candidate_name(file_name, n);
    match ext {
        Some(e) => {
            let d = last_dot(file_name);
            assert(e == file_name.subrange(d + 1, file_name.len() as int));
            assert forall|k: int| 0 <= k < e.len() implies e[k] != '.' by {
                assert(e[k] == file_name[d + 1 + k]);
            }
            assert(c =~= base.push('.') + e);
            assert(last_dot(base.push('.')) == base.len()) by {
                assert(base.push('.').drop_last() =~= base);
            }
            lemma_last_dot_append(base.push('.'), e);
            assert(c.len() >= 5);
            assert(c != seq!['.'] && c != seq!['.', '.']);
            assert(c.subrange(0, base.len() as int) =~= base);
            assert(c.subrange(base.len() as int + 1, c.len() as int) =~= e);
            assert(c.subrange(c.len() - e.len() - 1, c.len() as int) =~= seq!['.'] + e);
        },
        None => {
            assert(c =~= base);
            assert(c.len() >= 4);
            assert(c != seq!['.'] && c != seq!['.', '.']);
            if stem.len() > 0 {
                assert(stem == file_name);
            } else {
                assert(last_dot(stem) == -1);
            }
        },
    }
}

} // verus!
