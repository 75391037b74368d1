use vstd::prelude::*;
use crate::model::{AppError, ProjectSummary};
use crate::text::{chars_of, concat, push_char, text_eq};

verus! {

broadcast use vstd::string::group_string_axioms;

/// Unicode `White_Space` (what `char::is_whitespace` tests).
pub open spec fn is_white_space(c: char) -> bool {
    let u = c as u32;
    (0x09 <= u <= 0x0d) || u == 0x20 || u == 0x85 || u == 0xa0 || u == 0x1680 || (0x2000 <= u <= 0x200a)
        || u == 0x2028 || u == 0x2029 || u == 0x202f || u == 0x205f || u == 0x3000
}

fn is_white_space_exec(c: char) -> (r: bool)
    ensures
        r == is_white_space(c),
{
    let u = c as u32;
    (0x09 <= u && u <= 0x0d) || u == 0x20 || u == 0x85 || u == 0xa0 || u == 0x1680 || (0x2000 <= u && u <= 0x200a)
        || u == 0x2028 || u == 0x2029 || u == 0x202f || u == 0x205f || u == 0x3000
}

pub open spec fn trim_start(s: Seq<char>) -> Seq<char>
    decreases s.len(),
{
    if s.len() > 0 && is_white_space(s[0]) {
        trim_start(s.drop_first())
    } else {
        s
    }
}

pub open spec fn trim_end(s: Seq<char>) -> Seq<char>
    decreases s.len(),
{
    if s.len() > 0 && is_white_space(s.last()) {
        trim_end(s.drop_last())
    } else {
        s
    }
}

/// `s` without leading and trailing white space (`str::trim`).
pub open spec fn trimmed(s: Seq<char>) -> Seq<char> {
    trim_end(trim_start(s))
}

/// `s.trim()`.
pub fn trim(s: &str) -> (r: String)
    ensures
        r@ == trimmed(s@),
{
    let cs = chars_of(s);
    let n = cs.len();
    let mut i: usize = 0;
    proof { assert(s@.subrange(0, n as int) =~= s@); }
    while i < n && is_white_space_exec(cs[i])
        invariant
            cs@ == s@,
            n == s@.len(),
            i <= n,
            trim_start(s@) == trim_start(s@.subrange(i as int, n as int)),
        decreases n - i,
    {
        proof {
            assert(s@.subrange(i as int, n as int).drop_first() =~= s@.subrange(i + 1, n as int));
        }
        i = i + 1;
    }
    let mut j: usize = n;
    proof {
        assert(trim_start(s@.subrange(i as int, n as int)) == s@.subrange(i as int, n as int));
    }
    while j > i && is_white_space_exec(cs[j - 1])
        invariant
            cs@ == s@,
            n == s@.len(),
            i <= j <= n,
            trim_start(s@) == s@.subrange(i as int, n as int),
            trimmed(s@) == trim_end(s@.subrange(i as int, j as int)),
        decreases j,
    {
        proof {
            assert(s@.subrange(i as int, j as int).drop_last() =~= s@.subrange(i as int, j - 1));
        }
        j = j - 1;
    }
    let mut r = String::new();
    let mut k: usize = i;
    proof { assert(s@.subrange(i as int, i as int) =~= Seq::<char>::empty()); }
    while k < j
        invariant
            cs@ == s@,
            i <= k <= j <= n,
            n == s@.len(),
            r@ == s@.subrange(i as int, k as int),
        decreases j - k,
    {
        push_char(&mut r, cs[k]);
        proof { assert(s@.subrange(i as int, k + 1) =~= s@.subrange(i as int, k as int).push(s@[k as int])); }
        k = k + 1;
    }
    r
}

/// A new project's name is trimmed and must not be empty.
pub fn validate_project_name(name: &str) -> (r: Result<String, AppError>)
    ensures
        trimmed(name@).len() == 0 ==> (r matches Err(AppError::Validation(m)) && m@ == "project name must not be empty"@),
        trimmed(name@).len() > 0 ==> (r matches Ok(t) && t@ == trimmed(name@)),
{
    let t = trim(name);
    if t.as_str().is_empty() {
        Err(AppError::Validation(String::from_str("project name must not be empty")))
    } else {
        Ok(t)
    }
}

/// A freshly created project: never opened, no photos.
pub fn created_project(id: String, name: String, created_at: String) -> (p: ProjectSummary)
    ensures
        p.id == id,
        p.name == name,
        p.created_at == created_at,
        p.last_opened_at is None,
        p.photo_count == 0,
{
    ProjectSummary { id, name, created_at, last_opened_at: None, photo_count: 0 }
}

/// An update or delete that touched no project row names no project.
pub fn project_found(rows: usize, project_id: &str) -> (r: Result<(), AppError>)
    ensures
        rows > 0 ==> r is Ok,
        rows == 0 ==> (r matches Err(AppError::NotFound(m)) && m@ == "no project with id: "@ + project_id@),
{
    if rows == 0 {
        Err(AppError::NotFound(concat("no project with id: ", project_id)))
    } else {
        Ok(())
    }
}

/// The current project after deleting `deleted`: cleared if it was the one
/// deleted, unchanged otherwise.
pub fn current_after_delete(current: Option<String>, deleted: &str) -> (r: Option<String>)
    ensures
        (current matches Some(c) && c@ == deleted@) ==> r is None,
        !(current matches Some(c) && c@ == deleted@) ==> r == current,
{
    match current {
        Some(c) => {
            if text_eq(c.as_str(), deleted) {
                None
            } else {
                Some(c)
            }
        },
        None => None,
    }
}

/// The open project's id, or a `Validation` error when none is open.
pub fn require_open_project(current: Option<String>) -> (r: Result<String, AppError>)
    ensures
        current matches Some(c) ==> r == Ok::<String, AppError>(c),
        current is None ==> (r matches Err(AppError::Validation(m)) && m@ == "no project open"@),
{
    match current {
        Some(c) => Ok(c),
        None => Err(AppError::Validation(String::from_str("no project open"))),
    }
}

} // verus!
