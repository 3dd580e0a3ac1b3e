//! File paths of the logs to parse.
use vstd::prelude::*;

verus! {

/// `p` has no drive or network prefix on any platform: no `:`, no `\`, and
/// it does not start with two slashes.
pub open spec fn no_prefix(p: Seq<char>) -> bool {
    &&& forall|i: int| 0 <= i < p.len() ==> #[trigger] p[i] != ':' && p[i] != '\\'
    &&& !(p.len() >= 2 && p[0] == '/' && p[1] == '/')
}

/// `name` starts with `/` and `dir` has no prefix (see [`no_prefix`]):
/// joined to `dir`, `name` takes its place on every platform.
pub open spec fn replaces_dir(dir: Seq<char>, name: Seq<char>) -> bool {
    &&& name.len() > 0
    &&& name[0] == '/'
    &&& no_prefix(dir)
}

/// `name` is relative on every platform: no `:`, no `\`, and it does not
/// start with `/`.
pub open spec fn relative_name(name: Seq<char>) -> bool {
    &&& forall|i: int| 0 <= i < name.len() ==> #[trigger] name[i] != ':' && name[i] != '\\'
    &&& !(name.len() > 0 && name[0] == '/')
}

/// `r` is `name` joined to `dir`, as far as every platform agrees: a rooted
/// `name` replaces a `dir` without prefix; a relative `name` follows `dir`,
/// with one separator (`/`, or `\` on Windows) in between unless `dir` is
/// empty or already ends in `/`.
pub open spec fn path_joined(dir: Seq<char>, name: Seq<char>, r: Seq<char>) -> bool {
    &&& (replaces_dir(dir, name) ==> r == name)
    &&& (no_prefix(dir) && relative_name(name) ==> if dir.len() == 0 || dir.last() == '/' {
        r == dir + name
    } else {
        &&& r.len() == dir.len() + 1 + name.len()
        &&& (r[dir.len() as int] == '/' || r[dir.len() as int] == '\\')
        &&& r == dir + seq![r[dir.len() as int]] + name
    })
}

/// `std::path::Path::join`, the result read back as a string. What it gives
/// depends on the platform's path rules (the separator it inserts, drive
/// and network prefixes), so only what the documentation promises on every
/// platform is stated (see [`path_joined`]); a `dir` or `name` with a
/// prefix, a `\`, or a `:` is left unsaid.
#[verifier::external_body]
pub(crate) fn join_path(dir: &str, name: &str) -> (r: String)
    ensures
        path_joined(dir@, name@, r@),
{
    std::path::Path::new(dir).join(name).to_string_lossy().into_owned()
}

/// Position of the last `c` in `p`, or -1.
pub open spec fn last_index_of(p: Seq<char>, c: char) -> int
    decreases p.len(),
{
    if p.len() == 0 {
        -1
    } else if p.last() == c {
        p.len() - 1
    } else {
        last_index_of(p.drop_last(), c)
    }
}

/// The last `/`-separated part of `p`.
pub open spec fn file_name_of(p: Seq<char>) -> Seq<char> {
    p.skip(last_index_of(p, '/') + 1)
}

/// A path whose file name is its last `/`-separated part on every platform:
/// no prefix (see [`no_prefix`]), and that part is neither empty nor `.`
/// nor `..`.
pub open spec fn has_file_name(p: Seq<char>) -> bool {
    &&& no_prefix(p)
    &&& file_name_of(p).len() > 0
    &&& file_name_of(p) != seq!['.']
    &&& file_name_of(p) != seq!['.', '.']
}

/// The stem of file name `p`: the part before its last `.`, or the whole
/// name when it has no `.` or its only `.` comes first.
pub open spec fn stem_of(p: Seq<char>) -> Seq<char> {
    if last_index_of(p, '.') <= 0 {
        p
    } else {
        p.take(last_index_of(p, '.'))
    }
}

/// `std::path::Path::file_stem`, read back as a string. Which part of a
/// path is its file name depends on the platform's path rules, so only what
/// the documentation promises on every platform is stated: a path that has
/// a file name in the sense of [`has_file_name`] has the stem of that name
/// (see [`stem_of`]). The stem of other paths is left unsaid.
#[verifier::external_body]
pub(crate) fn path_file_stem(path: &str) -> (r: Option<String>)
    ensures
        has_file_name(path@) ==> r is Some && r->0@ == stem_of(file_name_of(path@)),
{
    std::path::Path::new(path).file_stem().and_then(|s| s.to_str()).map(|s| s.to_string())
}

} // verus!
