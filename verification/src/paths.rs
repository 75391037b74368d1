use vstd::prelude::*;
use crate::text::{chars_of, text_eq};
use crate::photos::{split_file_name, stem_and_extension};

verus! {

broadcast use vstd::string::group_string_axioms;

/// One component of a parsed path (`std::path::Component`, with names held
/// as text).
#[derive(Debug, PartialEq, Eq)]
pub enum PathComponent {
    Prefix(String),
    RootDir,
    CurDir,
    ParentDir,
    Normal(String),
}

/// A component as text, for stating what a path parses into.
pub enum PathPart {
    Prefix(Seq<char>),
    Root,
    Cur,
    Parent,
    Name(Seq<char>),
}

pub open spec fn part_of(c: PathComponent) -> PathPart {
    match c {
        PathComponent::Prefix(p) => PathPart::Prefix(p@),
        PathComponent::RootDir => PathPart::Root,
        PathComponent::CurDir => PathPart::Cur,
        PathComponent::ParentDir => PathPart::Parent,
        PathComponent::Normal(n) => PathPart::Name(n@),
    }
}

pub open spec fn parts(comps: Seq<PathComponent>) -> Seq<PathPart> {
    comps.map_values(|c: PathComponent| part_of(c))
}

/// A path text with no `\`, no drive prefix (an ASCII letter then `:`) and
/// no leading `//`: it holds no Windows prefix and no separator but `/`, so
/// every platform parses it alike (a `:` elsewhere is an ordinary character).
pub open spec fn plain_path(p: Seq<char>) -> bool {
    &&& forall|i: int| 0 <= i < p.len() ==> #[trigger] p[i] != '\\'
    &&& !(p.len() >= 2 && p[1] == ':' && (('a' <= p[0] <= 'z') || ('A' <= p[0] <= 'Z')))
    &&& !(p.len() >= 2 && p[0] == '/' && p[1] == '/')
}

/// The texts between `/` separators, empty ones included.
pub open spec fn path_segments(p: Seq<char>) -> Seq<Seq<char>>
    decreases p.len(),
{
    if p.len() == 0 {
        seq![Seq::empty()]
    } else {
        let prev = path_segments(p.drop_last());
        if p.last() == '/' {
            prev.push(Seq::empty())
        } else {
            prev.update(prev.len() - 1, prev.last().push(p.last()))
        }
    }
}

/// The components the segments stand for: empty segments (repeated or
/// trailing separators) and `.` vanish, except a `.` that begins the path.
pub open spec fn segment_parts(segs: Seq<Seq<char>>) -> Seq<PathPart>
    decreases segs.len(),
{
    if segs.len() == 0 {
        Seq::empty()
    } else {
        let prev = segment_parts(segs.drop_last());
        let s = segs.last();
        if s.len() == 0 {
            prev
        } else if s == seq!['.'] {
            if segs.len() == 1 { prev.push(PathPart::Cur) } else { prev }
        } else if s == seq!['.', '.'] {
            prev.push(PathPart::Parent)
        } else {
            prev.push(PathPart::Name(s))
        }
    }
}

/// `Path::components` of a plain path, as its documentation gives it: a root
/// for a leading `/`, then the segments between separators, with repeated
/// and trailing separators and every `.` but a leading one normalized away.
pub open spec fn plain_path_parts(p: Seq<char>) -> Seq<PathPart> {
    if p.len() > 0 && p[0] == '/' {
        seq![PathPart::Root] + segment_parts(path_segments(p))
    } else {
        segment_parts(path_segments(p))
    }
}

/// `Path::components` of `path`, each component's text taken lossily. For a
/// plain path (no `\`, no drive prefix, no leading `//`) the result is stated as the
/// `std::path` documentation gives it; parsing any other path is platform
/// dependent (Windows prefixes and `\` separators), and nothing is stated of it.
#[verifier::external_body]
fn path_components(path: &str) -> (comps: Vec<PathComponent>)
    ensures
        plain_path(path@) ==> parts(comps@) == plain_path_parts(path@),
{
    std::path::Path::new(path).components().map(|c| match c {
        std::path::Component::Prefix(p) => PathComponent::Prefix(p.as_os_str().to_string_lossy().into_owned()),
        std::path::Component::RootDir => PathComponent::RootDir,
        std::path::Component::CurDir => PathComponent::CurDir,
        std::path::Component::ParentDir => PathComponent::ParentDir,
        std::path::Component::Normal(n) => PathComponent::Normal(n.to_string_lossy().into_owned()),
    }).collect()
}

/// One step of lexical normalization: drop `.`, let `..` cancel a preceding
/// normal component (a `..` at or above the root stays), keep the rest.
pub open spec fn normalize_step(out: Seq<PathComponent>, c: PathComponent) -> Seq<PathComponent> {
    match c {
        PathComponent::CurDir => out,
        PathComponent::ParentDir => if out.len() > 0 && out.last() is Normal {
            out.drop_last()
        } else {
            out.push(PathComponent::ParentDir)
        },
        _ => out.push(c),
    }
}

/// Lexical normalization of a component list, left to right.
pub open spec fn normalized(comps: Seq<PathComponent>) -> Seq<PathComponent>
    decreases comps.len(),
{
    if comps.len() == 0 {
        Seq::empty()
    } else {
        normalize_step(normalized(comps.drop_last()), comps.last())
    }
}

fn copy_component(c: &PathComponent) -> (r: PathComponent)
    ensures
        r == *c,
{
    match c {
        PathComponent::Prefix(p) => PathComponent::Prefix(p.clone()),
        PathComponent::RootDir => PathComponent::RootDir,
        PathComponent::CurDir => PathComponent::CurDir,
        PathComponent::ParentDir => PathComponent::ParentDir,
        PathComponent::Normal(n) => PathComponent::Normal(n.clone()),
    }
}

/// Lexically normalize a component list without touching the filesystem.
pub fn lexical_normalize(comps: &[PathComponent]) -> (out: Vec<PathComponent>)
    ensures
        out@ == normalized(comps@),
{
    let mut out: Vec<PathComponent> = Vec::new();
    let mut i: usize = 0;
    proof { assert(comps@.take(0) =~= Seq::<PathComponent>::empty()); }
    while i < comps.len()
        invariant
            i <= comps@.len(),
            out@ == normalized(comps@.take(i as int)),
        decreases comps.len() - i,
    {
        proof {
            assert(comps@.take(i + 1).drop_last() =~= comps@.take(i as int));
            assert(comps@.take(i + 1).last() == comps@[i as int]);
        }
        match &comps[i] {
            PathComponent::CurDir => {},
            PathComponent::ParentDir => {
                let n = out.len();
                let pops = n > 0 && match &out[n - 1] {
                    PathComponent::Normal(_) => true,
                    _ => false,
                };
                if pops {
                    let ghost before = out@;
                    out.pop();
                    proof { assert(out@ =~= before.drop_last()); }
                } else {
                    out.push(PathComponent::ParentDir);
                }
            },
            c => {
                out.push(copy_component(c));
            },
        }
        i = i + 1;
    }
    proof { assert(comps@.take(comps@.len() as int) =~= comps@); }
    out
}

/// No `.` component, and no `..` directly after a name: what lexical
/// normalization leaves.
pub open spec fn in_normal_form(comps: Seq<PathComponent>) -> bool {
    &&& forall|i: int| 0 <= i < comps.len() ==> !(#[trigger] comps[i] is CurDir)
    &&& forall|i: int| 0 <= i < comps.len() - 1 ==> !(#[trigger] comps[i] is Normal && comps[i + 1] is ParentDir)
}

proof fn lemma_normalized_normal_form(comps: Seq<PathComponent>)
    ensures
        in_normal_form(normalized(comps)),
    decreases comps.len(),
{
    if comps.len() > 0 {
        let out = normalized(comps.drop_last());
        lemma_normalized_normal_form(comps.drop_last());
        let c = comps.last();
        let r = normalize_step(out, c);
        if c is ParentDir && out.len() > 0 && out.last() is Normal {
            assert forall|i: int| 0 <= i < r.len() - 1 implies !(#[trigger] r[i] is Normal && r[i + 1] is ParentDir) by {
                assert(r[i] == out[i] && r[i + 1] == out[i + 1]);
            }
            assert forall|i: int| 0 <= i < r.len() implies !(#[trigger] r[i] is CurDir) by {
                assert(r[i] == out[i]);
            }
        } else if !(c is CurDir) {
            assert forall|i: int| 0 <= i < r.len() - 1 implies !(#[trigger] r[i] is Normal && r[i + 1] is ParentDir) by {
                assert(r[i] == out[i]);
                if i + 1 < out.len() {
                    assert(r[i + 1] == out[i + 1]);
                }
            }
            assert forall|i: int| 0 <= i < r.len() implies !(#[trigger] r[i] is CurDir) by {
                if i < out.len() {
                    assert(r[i] == out[i]);
                }
            }
        }
    }
}

proof fn lemma_normal_form_fixed(comps: Seq<PathComponent>)
    requires
        in_normal_form(comps),
    ensures
        normalized(comps) == comps,
    decreases comps.len(),
{
    if comps.len() > 0 {
        let t = comps.drop_last();
        assert(in_normal_form(t)) by {
            assert forall|i: int| 0 <= i < t.len() implies !(#[trigger] t[i] is CurDir) by {
                assert(t[i] == comps[i]);
            }
            assert forall|i: int| 0 <= i < t.len() - 1 implies !(#[trigger] t[i] is Normal && t[i + 1] is ParentDir) by {
                assert(t[i] == comps[i] && t[i + 1] == comps[i + 1]);
            }
        }
        lemma_normal_form_fixed(t);
        assert(!(comps[comps.len() - 1] is CurDir));
        if comps.len() >= 2 {
            assert(!(comps[comps.len() - 2] is Normal && comps[comps.len() - 1] is ParentDir));
        }
        assert(t.push(comps.last()) =~= comps);
    }
}

/// Lexical normalization leaves no `.` component and no `..` right after a
/// name, and normalizing its result again changes nothing.
pub proof fn law_lexical_normalize_normal_form(comps: Seq<PathComponent>)
    ensures
        in_normal_form(normalized(comps)),
        normalized(normalized(comps)) == normalized(comps),
{
    lemma_normalized_normal_form(comps);
    lemma_normal_form_fixed(normalized(comps));
}

/// ASCII lowercase of one character.
pub open spec fn ascii_lower(c: char) -> char {
    if 'A' <= c <= 'Z' {
        ((c as u8) + 32) as u8 as char
    } else {
        c
    }
}

/// ASCII-lowercased text.
pub open spec fn ascii_lowercase(s: Seq<char>) -> Seq<char> {
    Seq::new(s.len(), |i: int| ascii_lower(s[i]))
}

fn ascii_lower_exec(c: char) -> (r: char)
    ensures
        r == ascii_lower(c),
{
    if 'A' <= c && c <= 'Z' {
        let b = c as u8;
        (b + 32) as char
    } else {
        c
    }
}


/// `x` and `y` are the same text, ignoring ASCII case when `fold`.
pub open spec fn same_text(x: Seq<char>, y: Seq<char>, fold: bool) -> bool {
    if fold {
        ascii_lowercase(x) == ascii_lowercase(y)
    } else {
        x == y
    }
}

fn text_same_exec(x: &str, y: &str, fold: bool) -> (r: bool)
    ensures
        r == same_text(x@, y@, fold),
{
    if !fold {
        return text_eq(x, y);
    }
    let a = chars_of(x);
    let b = chars_of(y);
    if a.len() != b.len() {
        proof {
            assert(ascii_lowercase(x@).len() != ascii_lowercase(y@).len());
        }
        return false;
    }
    let mut i: usize = 0;
    while i < a.len()
        invariant
            a@ == x@,
            b@ == y@,
            a@.len() == b@.len(),
            i <= a@.len(),
            forall|k: int| 0 <= k < i ==> ascii_lower(a@[k]) == ascii_lower(b@[k]),
        decreases a.len() - i,
    {
        if ascii_lower_exec(a[i]) != ascii_lower_exec(b[i]) {
            proof {
                assert(ascii_lowercase(x@)[i as int] != ascii_lowercase(y@)[i as int]);
            }
            return false;
        }
        i = i + 1;
    }
    proof {
        assert(ascii_lowercase(x@) =~= ascii_lowercase(y@));
    }
    true
}

/// Two components match: same kind, and the same name (ignoring ASCII case
/// when `fold`) for prefixes and normal names.
pub open spec fn same_component(a: PathComponent, b: PathComponent, fold: bool) -> bool {
    match a {
        PathComponent::Prefix(x) => b matches PathComponent::Prefix(y) && same_text(x@, y@, fold),
        PathComponent::RootDir => b is RootDir,
        PathComponent::CurDir => b is CurDir,
        PathComponent::ParentDir => b is ParentDir,
        PathComponent::Normal(x) => b matches PathComponent::Normal(y) && same_text(x@, y@, fold),
    }
}

/// Component lists that match pairwise.
pub open spec fn same_components(a: Seq<PathComponent>, b: Seq<PathComponent>, fold: bool) -> bool {
    &&& a.len() == b.len()
    &&& forall|i: int| 0 <= i < a.len() ==> same_component(#[trigger] a[i], b[i], fold)
}

fn same_component_exec(a: &PathComponent, b: &PathComponent, fold: bool) -> (r: bool)
    ensures
        r == same_component(*a, *b, fold),
{
    match (a, b) {
        (PathComponent::Prefix(x), PathComponent::Prefix(y)) => text_same_exec(x.as_str(), y.as_str(), fold),
        (PathComponent::RootDir, PathComponent::RootDir) => true,
        (PathComponent::CurDir, PathComponent::CurDir) => true,
        (PathComponent::ParentDir, PathComponent::ParentDir) => true,
        (PathComponent::Normal(x), PathComponent::Normal(y)) => text_same_exec(x.as_str(), y.as_str(), fold),
        _ => false,
    }
}

fn same_components_exec(a: &Vec<PathComponent>, b: &Vec<PathComponent>, fold: bool) -> (r: bool)
    ensures
        r == same_components(a@, b@, fold),
{
    if a.len() != b.len() {
        return false;
    }
    let mut i: usize = 0;
    while i < a.len()
        invariant
            a@.len() == b@.len(),
            i <= a@.len(),
            forall|k: int| 0 <= k < i ==> same_component(#[trigger] a@[k], b@[k], fold),
        decreases a.len() - i,
    {
        if !same_component_exec(&a[i], &b[i], fold) {
            return false;
        }
        i = i + 1;
    }
    true
}

/// Lexical (no-IO) path equality: both component lists normalized, then
/// compared pairwise, ignoring ASCII case when `fold_ascii_case`.
pub fn components_lexically_equal(a: &[PathComponent], b: &[PathComponent], fold_ascii_case: bool) -> (r: bool)
    ensures
        r == same_components(normalized(a@), normalized(b@), fold_ascii_case),
{
    let na = lexical_normalize(a);
    let nb = lexical_normalize(b);
    same_components_exec(&na, &nb, fold_ascii_case)
}

/// `Path::parent` exists: the last component is a name, `.` or `..`.
pub open spec fn has_parent(comps: Seq<PathComponent>) -> bool {
    comps.len() > 0 && (comps.last() is Normal || comps.last() is CurDir || comps.last() is ParentDir)
}

/// The source's parent directory is lexically the destination directory.
pub fn parent_is_lexically(src: &[PathComponent], dest: &[PathComponent], fold_ascii_case: bool) -> (r: bool)
    ensures
        r == (has_parent(src@) && same_components(normalized(src@.drop_last()), normalized(dest@), fold_ascii_case)),
{
    let n = src.len();
    if n == 0 {
        return false;
    }
    let named = match &src[n - 1] {
        PathComponent::Normal(_) => true,
        PathComponent::CurDir => true,
        PathComponent::ParentDir => true,
        _ => false,
    };
    if !named {
        return false;
    }
    let mut parent: Vec<PathComponent> = Vec::new();
    let mut i: usize = 0;
    while i + 1 < n
        invariant
            n == src@.len(),
            n > 0,
            i < n,
            parent@ == src@.take(i as int),
        decreases n - i,
    {
        parent.push(copy_component(&src[i]));
        proof { assert(src@.take(i + 1) =~= src@.take(i as int).push(src@[i as int])); }
        i = i + 1;
    }
    proof { assert(src@.take(i as int) =~= src@.drop_last()); }
    components_lexically_equal(parent.as_slice(), dest, fold_ascii_case)
}

/// Lexical normalization of parts (`normalized`, on texts).
pub open spec fn normalize_part_step(out: Seq<PathPart>, c: PathPart) -> Seq<PathPart> {
    match c {
        PathPart::Cur => out,
        PathPart::Parent => if out.len() > 0 && out.last() is Name {
            out.drop_last()
        } else {
            out.push(PathPart::Parent)
        },
        _ => out.push(c),
    }
}

pub open spec fn normalized_parts(ps: Seq<PathPart>) -> Seq<PathPart>
    decreases ps.len(),
{
    if ps.len() == 0 {
        Seq::empty()
    } else {
        normalize_part_step(normalized_parts(ps.drop_last()), ps.last())
    }
}

/// Two parts match: same kind, and the same text (ignoring ASCII case when
/// `fold`) for prefixes and names.
pub open spec fn same_part(a: PathPart, b: PathPart, fold: bool) -> bool {
    match a {
        PathPart::Prefix(x) => b matches PathPart::Prefix(y) && same_text(x, y, fold),
        PathPart::Root => b is Root,
        PathPart::Cur => b is Cur,
        PathPart::Parent => b is Parent,
        PathPart::Name(x) => b matches PathPart::Name(y) && same_text(x, y, fold),
    }
}

pub open spec fn same_parts(a: Seq<PathPart>, b: Seq<PathPart>, fold: bool) -> bool {
    &&& a.len() == b.len()
    &&& forall|i: int| 0 <= i < a.len() ==> same_part(#[trigger] a[i], b[i], fold)
}

/// Plain paths `a` and `b` are the same after lexical normalization.
pub open spec fn plain_paths_lexically_equal(a: Seq<char>, b: Seq<char>, fold: bool) -> bool {
    same_parts(normalized_parts(plain_path_parts(a)), normalized_parts(plain_path_parts(b)), fold)
}

/// Plain path `src` has a parent (its last part is a name, `.` or `..`) that
/// is lexically the plain path `dest`.
pub open spec fn plain_path_in_dir(src: Seq<char>, dest: Seq<char>, fold: bool) -> bool {
    let ps = plain_path_parts(src);
    &&& ps.len() > 0
    &&& (ps.last() is Name || ps.last() is Cur || ps.last() is Parent)
    &&& same_parts(normalized_parts(ps.drop_last()), normalized_parts(plain_path_parts(dest)), fold)
}

proof fn lemma_parts_normalized(cs: Seq<PathComponent>)
    ensures
        parts(normalized(cs)) == normalized_parts(parts(cs)),
    decreases cs.len(),
{
    if cs.len() > 0 {
        let t = cs.drop_last();
        lemma_parts_normalized(t);
        assert(parts(cs).drop_last() =~= parts(t));
        assert(parts(cs).last() == part_of(cs.last()));
        let out = normalized(t);
        let po = parts(out);
        assert(po.len() == out.len());
        if out.len() > 0 {
            assert(po.last() == part_of(out.last()));
            assert(parts(out.drop_last()) =~= po.drop_last());
        }
        assert(parts(out.push(cs.last())) =~= po.push(part_of(cs.last())));
        assert(parts(out.push(PathComponent::ParentDir)) =~= po.push(PathPart::Parent));
    }
}

proof fn lemma_same_parts(a: Seq<PathComponent>, b: Seq<PathComponent>, fold: bool)
    ensures
        same_components(a, b, fold) == same_parts(parts(a), parts(b), fold),
{
    if a.len() == b.len() {
        assert forall|i: int| 0 <= i < a.len() implies same_component(#[trigger] a[i], b[i], fold) == same_part(parts(a)[i], parts(b)[i], fold) by {
            assert(parts(a)[i] == part_of(a[i]));
            assert(parts(b)[i] == part_of(b[i]));
        }
        if same_parts(parts(a), parts(b), fold) {
            assert forall|i: int| 0 <= i < a.len() implies same_component(#[trigger] a[i], b[i], fold) by {
                assert(same_part(parts(a)[i], parts(b)[i], fold));
            }
        }
        if same_components(a, b, fold) {
            assert forall|i: int| 0 <= i < parts(a).len() implies same_part(#[trigger] parts(a)[i], parts(b)[i], fold) by {
                assert(same_component(a[i], b[i], fold));
            }
        }
    }
}

/// Lexical path equality of two paths (see `components_lexically_equal`).
/// For plain paths (no `\`, no drive prefix, no leading `//`) the result is stated in
/// full; other paths parse differently per platform.
pub fn paths_lexically_equal(a: &str, b: &str, fold_ascii_case: bool) -> (r: bool)
    ensures
        plain_path(a@) && plain_path(b@) ==> r == plain_paths_lexically_equal(a@, b@, fold_ascii_case),
{
    let ca = path_components(a);
    let cb = path_components(b);
    proof {
        lemma_parts_normalized(ca@);
        lemma_parts_normalized(cb@);
        lemma_same_parts(normalized(ca@), normalized(cb@), fold_ascii_case);
    }
    components_lexically_equal(ca.as_slice(), cb.as_slice(), fold_ascii_case)
}

/// `src_path`'s parent is lexically `dest` (see `parent_is_lexically`). For
/// plain paths (no `\`, no drive prefix, no leading `//`) the result is stated in
/// full; other paths parse differently per platform.
pub fn lexically_in_dir(src_path: &str, dest: &str, fold_ascii_case: bool) -> (r: bool)
    ensures
        plain_path(src_path@) && plain_path(dest@) ==> r == plain_path_in_dir(src_path@, dest@, fold_ascii_case),
{
    let cs = path_components(src_path);
    let cd = path_components(dest);
    proof {
        let src = cs@;
        if src.len() > 0 {
            assert(parts(src.drop_last()) =~= parts(src).drop_last());
            assert(parts(src).last() == part_of(src.last()));
        }
        lemma_parts_normalized(src.drop_last());
        lemma_parts_normalized(cd@);
        lemma_same_parts(normalized(src.drop_last()), normalized(cd@), fold_ascii_case);
    }
    parent_is_lexically(cs.as_slice(), cd.as_slice(), fold_ascii_case)
}

/// Supported image extensions, compared case-insensitively.
pub open spec fn supported_ext(e: Seq<char>) -> bool {
    let l = ascii_lowercase(e);
    l == "jpg"@ || l == "jpeg"@ || l == "png"@ || l == "heic"@ || l == "heif"@
}

/// The file name has one of the supported image extensions (any case).
pub open spec fn name_is_supported(name: Seq<char>) -> bool {
    stem_and_extension(name).1 matches Some(e) && supported_ext(e)
}

/// Image names are recognised by their extension alone, in any ASCII case:
/// a name with no extension is never supported; one whose extension is, up to
/// ASCII case, `jpg`, `jpeg`, `png`, `heic` or `heif` always is, and no other
/// is; and two names whose extensions differ only in ASCII case are both
/// supported or both not.
pub proof fn law_supported_extension_any_case(name1: Seq<char>, name2: Seq<char>)
    ensures
        stem_and_extension(name1).1 is None ==> !name_is_supported(name1),
        stem_and_extension(name1).1 matches Some(e) ==> (name_is_supported(name1) <==> (
            ascii_lowercase(e) == "jpg"@ || ascii_lowercase(e) == "jpeg"@ || ascii_lowercase(e) == "png"@
            || ascii_lowercase(e) == "heic"@ || ascii_lowercase(e) == "heif"@)),
        stem_and_extension(name1).1 matches Some(e1) && stem_and_extension(name2).1 matches Some(e2)
            && ascii_lowercase(e1) == ascii_lowercase(e2) ==> name_is_supported(name1) == name_is_supported(name2),
{
}

fn ascii_lowercase_string(s: &str) -> (r: String)
    ensures
        r@ == ascii_lowercase(s@),
{
    let cs = chars_of(s);
    let mut r = String::new();
    let mut i: usize = 0;
    while i < cs.len()
        invariant
            cs@ == s@,
            i <= cs@.len(),
            r@ == ascii_lowercase(s@.take(i as int)),
        decreases cs.len() - i,
    {
        crate::text::push_char(&mut r, ascii_lower_exec(cs[i]));
        proof { assert(ascii_lowercase(s@.take(i + 1)) =~= ascii_lowercase(s@.take(i as int)).push(ascii_lower(s@[i as int]))); }
        i = i + 1;
    }
    proof { assert(s@.take(s@.len() as int) =~= s@); }
    r
}

/// A file name with a supported image extension.
pub fn has_supported_extension(file_name: &str) -> (r: bool)
    ensures
        r == name_is_supported(file_name@),
{
    let (_stem, ext) = split_file_name(file_name);
    match ext {
        None => false,
        Some(e) => {
            let l = ascii_lowercase_string(e.as_str());
            text_eq(l.as_str(), "jpg") || text_eq(l.as_str(), "jpeg") || text_eq(l.as_str(), "png")
                || text_eq(l.as_str(), "heic") || text_eq(l.as_str(), "heif")
        },
    }
}

/// The last component is a file name with a supported image extension.
pub open spec fn last_is_supported(comps: Seq<PathComponent>) -> bool {
    comps.len() > 0 && (comps.last() matches PathComponent::Normal(n) && name_is_supported(n@))
}

/// The last component is a name with a supported image extension.
pub fn file_is_supported(comps: &[PathComponent]) -> (r: bool)
    ensures
        r == last_is_supported(comps@),
{
    let n = comps.len();
    if n == 0 {
        return false;
    }
    match &comps[n - 1] {
        PathComponent::Normal(name) => has_supported_extension(name.as_str()),
        _ => false,
    }
}

/// The path names a file with a supported image extension (see
/// `file_is_supported`). For a plain path (no `\`, no drive prefix, no leading `//`)
/// the result is stated in full; other paths parse differently per platform.
pub fn is_supported(path: &str) -> (r: bool)
    ensures
        plain_path(path@) ==> r == (plain_path_parts(path@).len() > 0
            && (plain_path_parts(path@).last() matches PathPart::Name(n) && name_is_supported(n))),
{
    let comps = path_components(path);
    proof {
        if comps@.len() > 0 {
            assert(parts(comps@).last() == part_of(comps@.last()));
        }
    }
    file_is_supported(comps.as_slice())
}

} // verus!
