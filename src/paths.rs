//! Path rules of the project directory: validation of project-relative
//! paths, the persisted file's location, the trash location and names. The
//! file system itself is reached by the caller.

use vstd::prelude::*;
use vstd::string::StringSliceAdditionalSpecFns;

verus! {

/// Name of the persisted project file in a project directory.
pub const PROJECT_FILE_NAME: &'static str = "needlepoint.yaml";

/// Trash directory, relative to the project directory.
pub const TRASH_DIR: &'static str = ".needlepoint/trash";

/// Format of the timestamp that prefixes trashed file names.
pub const TRASH_TIMESTAMP_FORMAT: &'static str = "%Y%m%d_%H%M%S_%3f";

/// `s` contains the character `c`.
pub open spec fn has_char(s: Seq<char>, c: char) -> bool {
    exists|i: int| 0 <= i < s.len() && s[i] == c
}

/// Some `/`-separated component of `s` is `..`.
pub open spec fn has_parent_component(s: Seq<char>) -> bool {
    exists|i: int|
        0 <= i && i + 2 <= s.len() && #[trigger] s[i] == '.' && s[i + 1] == '.' && (i == 0 || s[i
            - 1] == '/') && (i + 2 == s.len() || s[i + 2] == '/')
}

/// `s` with each backslash read as a slash.
pub open spec fn with_slashes(s: Seq<char>) -> Seq<char> {
    s.map_values(|c: char| if c == '\\' { '/' } else { c })
}

/// `t` holds `pat` starting at index `i`.
pub open spec fn occurs_at(t: Seq<char>, pat: Seq<char>, i: int) -> bool {
    0 <= i && i + pat.len() <= t.len() && t.subrange(i, i + pat.len()) == pat
}

pub open spec fn up_prefix() -> Seq<char> {
    seq!['.', '.', '/']
}

pub open spec fn up_infix() -> Seq<char> {
    seq!['/', '.', '.', '/']
}

pub open spec fn up_only() -> Seq<char> {
    seq!['.', '.']
}

/// The slash-normalized path leaves its directory: it starts with `../`,
/// contains `/../`, or is `..`.
pub open spec fn leaves_directory(t: Seq<char>) -> bool {
    occurs_at(t, up_prefix(), 0) || (exists|i: int| #[trigger] occurs_at(t, up_infix(), i)) || t
        == up_only()
}

/// `dir` joined with the relative path `rel`, with one separator between.
pub open spec fn joined(dir: Seq<char>, rel: Seq<char>) -> Seq<char> {
    if dir.len() == 0 || dir.last() == '/' {
        dir + rel
    } else {
        dir + "/"@ + rel
    }
}

/// The outcome of validating `file` as a path inside the directory `dir`.
pub open spec fn path_check(dir: Seq<char>, file: Seq<char>) -> Result<Seq<char>, Seq<char>> {
    if file.len() == 0 {
        Err("File path cannot be empty"@)
    } else if has_char(file, '\0') {
        Err("File path contains invalid characters"@)
    } else if file[0] == '/' {
        Err("Absolute paths are not allowed"@)
    } else if has_parent_component(file) {
        Err("Path cannot contain '..' (directory traversal not allowed)"@)
    } else if leaves_directory(with_slashes(file)) {
        Err("Path cannot traverse outside project directory"@)
    } else {
        Ok(joined(dir, file))
    }
}

/// Joins a relative path onto a directory.
pub fn join_path(dir: &str, rel: &str) -> (r: String)
    ensures
        r@ == joined(dir@, rel@),
{
    let mut r = String::from_str(dir);
    let n = dir.unicode_len();
    if n > 0 && dir.get_char(n - 1) != '/' {
        r.append("/");
    }
    r.append(rel);
    r
}

fn char_at_is(s: &str, n: usize, i: usize, c: char) -> (r: bool)
    requires
        n == s@.len(),
    ensures
        r == (0 <= i < s@.len() && s@[i as int] == c),
{
    i < n && s.get_char(i) == c
}

/// Checks a project-relative path: it must be non-empty, hold no NUL, not be
/// absolute and not climb out of the project directory. Returns the path
/// joined onto `project_path`, or the reason it was refused.
pub fn validate_path(project_path: &str, file_path: &str) -> (r: Result<String, String>)
    ensures
        match (r, path_check(project_path@, file_path@)) {
            (Ok(p), Ok(q)) => p@ == q,
            (Err(m), Err(q)) => m@ == q,
            _ => false,
        },
{
    let n = file_path.unicode_len();
    if n == 0 {
        return Err(String::from_str("File path cannot be empty"));
    }
    let s = file_path;
    let mut i: usize = 0;
    while i < n
        invariant
            s@ == file_path@,
            n == s@.len(),
            n > 0,
            i <= n,
            forall|j: int| 0 <= j < i ==> s@[j] != '\0',
        decreases n - i,
    {
        if s.get_char(i) == '\0' {
            assert(s@[i as int] == '\0');
            assert(has_char(s@, '\0'));
            return Err(String::from_str("File path contains invalid characters"));
        }
        i += 1;
    }
    if s.get_char(0) == '/' {
        return Err(String::from_str("Absolute paths are not allowed"));
    }
    let mut i: usize = 0;
    while i + 1 < n
        invariant
            s@ == file_path@,
            n == s@.len(),
            n > 0,
            i + 1 <= n,
            forall|j: int| 0 <= j < n ==> s@[j] != '\0',
            s@[0] != '/',
            forall|j: int|
                0 <= j < i && j + 2 <= n ==> !(#[trigger] s@[j] == '.' && s@[j + 1] == '.' && (j == 0
                    || s@[j - 1] == '/') && (j + 2 == n || s@[j + 2] == '/')),
        decreases n - i,
    {
        if s.get_char(i) == '.' && s.get_char(i + 1) == '.' && (i == 0 || s.get_char(i - 1) == '/')
            && (i + 2 == n || s.get_char(i + 2) == '/') {
            assert(s@[i as int] == '.');
            assert(has_parent_component(s@));
            assert(!has_char(s@, '\0'));
            return Err(String::from_str("Path cannot contain '..' (directory traversal not allowed)"));
        }
        i += 1;
    }
    assert(!has_parent_component(s@)) by {
        if has_parent_component(s@) {
            let j = choose|j: int|
                0 <= j && j + 2 <= s@.len() && #[trigger] s@[j] == '.' && s@[j + 1] == '.' && (j == 0
                    || s@[j - 1] == '/') && (j + 2 == s@.len() || s@[j + 2] == '/');
            assert(j < i);
        }
    }
    if leaves_directory_exec(s, n) {
        return Err(String::from_str("Path cannot traverse outside project directory"));
    }
    Ok(join_path(project_path, file_path))
}

/// The character at `i` of `s`, with a backslash read as a slash.
fn slash_char(s: &str, i: usize) -> (r: char)
    requires
        i < s@.len(),
    ensures
        r == with_slashes(s@)[i as int],
{
    let c = s.get_char(i);
    if c == '\\' {
        '/'
    } else {
        c
    }
}

/// Executable form of `leaves_directory` on the slash-normalized path.
fn leaves_directory_exec(s: &str, n: usize) -> (r: bool)
    requires
        n == s@.len(),
    ensures
        r == leaves_directory(with_slashes(s@)),
{
    let ghost t = with_slashes(s@);
    let starts = n >= 3 && slash_char(s, 0) == '.' && slash_char(s, 1) == '.' && slash_char(s, 2) == '/';
    assert(starts == occurs_at(t, up_prefix(), 0)) by {
        if n >= 3 {
            assert(starts == (t.subrange(0, 3) =~= up_prefix()));
        }
    }
    let whole = n == 2 && slash_char(s, 0) == '.' && slash_char(s, 1) == '.';
    proof {
        if n == 2 {
            assert(whole == (t =~= up_only()));
        } else {
            assert(t.len() != up_only().len());
        }
    }
    let mut found = false;
    let mut i: usize = 0;
    while n >= 4 && i <= n - 4
        invariant
            n == s@.len(),
            t == with_slashes(s@),
            i <= n,
            found == exists|j: int| 0 <= j < i && #[trigger] occurs_at(t, up_infix(), j),
        decreases n - i,
    {
        let hit = slash_char(s, i) == '/' && slash_char(s, i + 1) == '.' && slash_char(s, i + 2) == '.'
            && slash_char(s, i + 3) == '/';
        proof {
            assert(hit == (t.subrange(i as int, i + 4) =~= up_infix()));
            assert(hit == occurs_at(t, up_infix(), i as int));
        }
        found = found || hit;
        i += 1;
    }
    proof {
        assert forall|j: int| #[trigger] occurs_at(t, up_infix(), j) implies 0 <= j < i by {}
    }
    starts || found || whole
}

/// The trash directory of a project.
pub fn get_trash_dir(project_path: &str) -> (r: String)
    ensures
        r@ == joined(project_path@, TRASH_DIR@),
{
    join_path(project_path, TRASH_DIR)
}

/// The location of the persisted project file in a project directory.
pub fn project_file_path(directory: &str) -> (r: String)
    ensures
        r@ == joined(directory@, PROJECT_FILE_NAME@),
{
    join_path(directory, PROJECT_FILE_NAME)
}

/// The name a trashed file gets: the timestamp, an underscore, and the
/// original path with every slash and backslash replaced by an underscore.
pub open spec fn trash_name(timestamp: Seq<char>, original: Seq<char>) -> Seq<char> {
    timestamp + "_"@ + original.map_values(|c: char| if c == '/' || c == '\\' { '_' } else { c })
}

/// The trash name of `original_path` with the given timestamp.
pub fn trash_filename(timestamp: &str, original_path: &str) -> (r: String)
    ensures
        r@ == trash_name(timestamp@, original_path@),
{
    let mut r = String::from_str(timestamp);
    r.append("_");
    let ghost start = r@;
    let n = original_path.unicode_len();
    let mut i: usize = 0;
    while i < n
        invariant
            n == original_path@.len(),
            i <= n,
            r@ == start + original_path@.subrange(0, i as int).map_values(
                |c: char| if c == '/' || c == '\\' { '_' } else { c },
            ),
        decreases n - i,
    {
        let c = original_path.get_char(i);
        if c == '/' || c == '\\' {
            r.append("_");
        } else {
            let one = char_to_string(c);
            r.append(one.as_str());
        }
        proof {
            reveal_strlit("_");
        }
        i += 1;
        assert(r@ =~= start + original_path@.subrange(0, i as int).map_values(
            |c: char| if c == '/' || c == '\\' { '_' } else { c },
        ));
    }
    assert(original_path@.subrange(0, n as int) =~= original_path@);
    r
}

/// Relies on `char::to_string`: the one-character string.
#[verifier::external_body]
fn char_to_string(c: char) -> (r: String)
    ensures
        r@ == seq![c],
{
    c.to_string()
}

/// A character a formatted timestamp may hold: a digit, `_`, or a year sign.
pub open spec fn stamp_char(c: char) -> bool {
    ('0' <= c <= '9') || c == '_' || c == '+' || c == '-'
}

/// Relies on chrono's `Utc::now` and `DateTime::format`: the current UTC time
/// written with `format`, whose items (`%Y %m %d %H %M %S %3f`) are numbers
/// (a year may carry a sign) joined by `_`. Nothing is promised of the time.
#[verifier::external_body]
fn utc_now_formatted(format: &str) -> (r: String)
    requires
        format@ == TRASH_TIMESTAMP_FORMAT@,
    ensures
        forall|i: int| 0 <= i < r@.len() ==> stamp_char(#[trigger] r@[i]),
{
    chrono::Utc::now().format(format).to_string()
}

/// A fresh trash name for `original_path`, stamped with the current UTC time.
pub fn get_trash_filename(original_path: &str) -> (r: String)
    ensures
        exists|t: Seq<char>|
            r@ == trash_name(t, original_path@) && forall|i: int| 0 <= i < t.len() ==> stamp_char(
                #[trigger] t[i],
            ),
        forall|i: int| 0 <= i < r@.len() ==> #[trigger] r@[i] != '/' && r@[i] != '\\',
{
    let stamp = utc_now_formatted(TRASH_TIMESTAMP_FORMAT);
    let r = trash_filename(stamp.as_str(), original_path);
    proof {
        reveal_strlit("_");
        let t = stamp@;
        let tail = original_path@.map_values(|c: char| if c == '/' || c == '\\' { '_' } else { c });
        assert forall|i: int| 0 <= i < r@.len() implies #[trigger] r@[i] != '/' && r@[i] != '\\' by {
            if i < t.len() {
                assert(r@[i] == t[i]);
                assert(stamp_char(t[i]));
            } else if i == t.len() {
                assert(r@[i] == '_');
            } else {
                assert(r@[i] == tail[i - t.len() - 1]);
            }
        }
    }
    r
}

/// The name a new project gets when none is given.
pub fn default_project_name() -> (r: String)
    ensures
        r@ == "New Project"@,
{
    String::from_str("New Project")
}

/// Shortens `s` to at most `max_len` bytes for display: a longer text keeps
/// its first `max_len - 3` bytes followed by `...`.
pub fn truncate(s: &str, max_len: usize) -> (r: String)
    requires
        s.spec_bytes().len() <= usize::MAX,
        s.spec_bytes().len() > max_len ==> max_len >= 3 && vstd::utf8::is_char_boundary(
            s.spec_bytes(),
            max_len - 3,
        ),
    ensures
        s.spec_bytes().len() <= max_len ==> r@ == s@,
        s.spec_bytes().len() > max_len ==> r@.len() >= 3 && r@.subrange(r@.len() - 3, r@.len() as int)
            == "..."@ && vstd::utf8::encode_utf8(r@.subrange(0, r@.len() - 3))
            == s.spec_bytes().subrange(0, max_len - 3),
{
    if s.len() <= max_len {
        String::from_str(s)
    } else {
        let (head, _) = s.split_at(max_len - 3);
        let mut r = String::from_str(head);
        r.append("...");
        proof {
            assert(vstd::utf8::encode_utf8(head@) == head.spec_bytes());
            reveal_strlit("...");
            assert(r@ == head@ + "..."@);
            assert(r@.subrange(0, r@.len() - 3) =~= head@);
            assert(r@.subrange(r@.len() - 3, r@.len() as int) =~= "..."@);
        }
        r
    }
}

} // verus!
