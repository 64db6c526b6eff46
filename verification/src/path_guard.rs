//! Validation of untrusted relative paths before they may be joined to
//! the root directory.
//!
//! A requested path is accepted only when every `/`-delimited segment is
//! harmless (no `..`, no absolute-root marker, no drive prefix) and its
//! file name carries a `jpg` extension, compared case-insensitively.
//! This is the sole defence against directory traversal, so the input is
//! treated as hostile and the decision is pinned down exactly.

use vstd::prelude::*;

verus! {

/// `s[a..b)` is one complete `/`-delimited segment of `s`: it is bounded
/// by separators (or by the ends of the string) and contains none itself.
pub open spec fn is_segment(s: Seq<char>, a: int, b: int) -> bool {
    &&& 0 <= a <= b <= s.len()
    &&& (a == 0 || s[a - 1] == '/')
    &&& (b == s.len() || s[b] == '/')
    &&& (forall|k: int| a <= k < b ==> s[k] != '/')
}

/// Some segment of `s` is the parent-directory reference `..`.
pub open spec fn has_parent_segment(s: Seq<char>) -> bool {
    exists|a: int|
        #[trigger] is_segment(s, a, a + 2) && s[a] == '.' && s[a + 1] == '.'
}

/// The path starts at an absolute root.
pub open spec fn has_root_marker(s: Seq<char>) -> bool {
    s.len() > 0 && s[0] == '/'
}

pub open spec fn is_ascii_letter(c: char) -> bool {
    ('a' as u32 <= c as u32 && c as u32 <= 'z' as u32)
        || ('A' as u32 <= c as u32 && c as u32 <= 'Z' as u32)
}

/// The path opens with a platform path prefix in drive-letter form,
/// such as `c:`.
pub open spec fn has_drive_prefix(s: Seq<char>) -> bool {
    s.len() >= 2 && is_ascii_letter(s[0]) && s[1] == ':'
}

/// No segment of the path can step above the root directory.
pub open spec fn is_traversal_free(s: Seq<char>) -> bool {
    !has_parent_segment(s) && !has_root_marker(s) && !has_drive_prefix(s)
}

/// A name segment is one that path normalization keeps: nonempty and
/// not the current-directory reference `.`.
pub open spec fn is_name_segment(s: Seq<char>, a: int, b: int) -> bool {
    is_segment(s, a, b) && b - a >= 1 && !(b - a == 1 && s[a] == '.')
}

/// `s[a..b)` is the path's file name: its last name segment.
pub open spec fn is_file_name_at(s: Seq<char>, a: int, b: int) -> bool {
    &&& is_name_segment(s, a, b)
    &&& (forall|a2: int, b2: int|
        #[trigger] is_name_segment(s, a2, b2) && a2 > a ==> false)
}

/// The segment `s[a..b)` ends in `.jpg` (extension compared
/// case-insensitively) with the dot not its first character.  Because
/// none of the three letters is a dot, that dot is the last one in the
/// segment, so this says exactly: the file name's extension exists and
/// equals `jpg` case-insensitively.
pub open spec fn jpg_extension_at(s: Seq<char>, a: int, b: int) -> bool {
    &&& b - a >= 5
    &&& s[b - 4] == '.'
    &&& (s[b - 3] == 'j' || s[b - 3] == 'J')
    &&& (s[b - 2] == 'p' || s[b - 2] == 'P')
    &&& (s[b - 1] == 'g' || s[b - 1] == 'G')
}

/// The path has a file name whose extension is `jpg`, case-insensitively.
pub open spec fn has_jpg_extension(s: Seq<char>) -> bool {
    exists|a: int, b: int|
        #[trigger] is_file_name_at(s, a, b) && jpg_extension_at(s, a, b)
}

/// The decision on one requested path.
#[derive(Clone, Copy, PartialEq, Eq, Structural, Debug)]
pub enum PathVerdict {
    /// Safe to join to the root directory and serve.
    Safe,
    /// Some segment could traverse outside the root.
    Traversal,
    /// The file name's extension is absent or not `jpg`.
    WrongType,
}

/// What `check_path` decides for a given path, with the traversal rule
/// taking precedence over the extension rule.
pub open spec fn verdict_of(s: Seq<char>) -> PathVerdict {
    if !is_traversal_free(s) {
        PathVerdict::Traversal
    } else if !has_jpg_extension(s) {
        PathVerdict::WrongType
    } else {
        PathVerdict::Safe
    }
}

/// Any path holding a `..` segment, an absolute-root marker or a
/// drive prefix is turned away, whatever its extension looks like.
pub proof fn lemma_traversal_always_rejected(s: Seq<char>)
    requires
        !is_traversal_free(s),
    ensures
        verdict_of(s) == PathVerdict::Traversal,
{
}

/// For traversal-free paths, acceptance is decided by the extension
/// rule and by nothing else.
pub proof fn lemma_extension_rule_decides(s: Seq<char>)
    requires
        is_traversal_free(s),
    ensures
        (verdict_of(s) == PathVerdict::Safe) <==> has_jpg_extension(s),
        (verdict_of(s) == PathVerdict::WrongType) <==> !has_jpg_extension(s),
{
}

fn char_is_letter(c: char) -> (r: bool)
    ensures
        r == is_ascii_letter(c),
{
    let u = c as u32;
    ('a' as u32 <= u && u <= 'z' as u32) || ('A' as u32 <= u && u <= 'Z' as u32)
}

/// Scans every position for a complete `..` segment.
fn scan_parent_segment(path: &str) -> (r: bool)
    ensures
        r == has_parent_segment(path@),
{
    let n = path.unicode_len();
    let mut a: usize = 0;
    while a < n
        invariant
            a <= n,
            n == path@.len(),
            forall|x: int|
                0 <= x < a ==> !(#[trigger] is_segment(path@, x, x + 2) && path@[x] == '.'
                    && path@[x + 1] == '.'),
        decreases n - a,
    {
        if n - a >= 2 && path.get_char(a) == '.' && path.get_char(a + 1) == '.'
            && (a == 0 || path.get_char(a - 1) == '/')
            && (a + 2 == n || path.get_char(a + 2) == '/') {
            assert(is_segment(path@, a as int, a + 2));
            return true;
        }
        a += 1;
    }
    assert(forall|x: int|
        #[trigger] is_segment(path@, x, x + 2) ==> 0 <= x < n || !(x + 2 <= n));
    false
}

/// Finds the path's file name: the start and end of its last name
/// segment, or `None` when every segment is empty or `.`.
fn find_file_name(path: &str) -> (r: Option<(usize, usize)>)
    ensures
        match r {
            Some(p) => is_file_name_at(path@, p.0 as int, p.1 as int),
            None => forall|a: int, b: int| !is_name_segment(path@, a, b),
        },
{
    let n = path.unicode_len();
    let mut seg_start: usize = 0;
    let mut best: Option<(usize, usize)> = None;
    let mut i: usize = 0;
    while i < n
        invariant
            seg_start <= i <= n,
            n == path@.len(),
            seg_start == 0 || (1 <= seg_start && path@[seg_start - 1] == '/'),
            forall|k: int| seg_start <= k < i ==> path@[k] != '/',
            best_tracks(path@, best, seg_start as int, i as int),
        decreases n - i,
    {
        if path.get_char(i) == '/' {
            best = close_segment(path, seg_start, i, best);
            seg_start = i + 1;
        }
        i += 1;
    }
    let last = close_segment(path, seg_start, n, best);
    last
}

/// The loop state of `find_file_name`: `[seg_start, i)` is the open
/// segment still being read, and `best` is the last name segment that
/// ends before `i`, if any; no unrecorded name segment ends before `i`.
spec fn best_tracks(s: Seq<char>, best: Option<(usize, usize)>, seg_start: int, i: int) -> bool {
    match best {
        Some(p) => {
            &&& is_name_segment(s, p.0 as int, p.1 as int)
            &&& p.1 < i
            &&& (forall|a2: int, b2: int|
                #[trigger] is_name_segment(s, a2, b2) && a2 > p.0 ==> b2 >= i)
        },
        None => forall|a2: int, b2: int| #[trigger] is_name_segment(s, a2, b2) ==> b2 >= i,
    }
}

/// Closes the open segment `[seg_start, i)` at the separator (or string
/// end) `i`, recording it when it is a name segment.
fn close_segment(path: &str, seg_start: usize, i: usize, best: Option<(usize, usize)>) -> (r:
    Option<(usize, usize)>)
    requires
        seg_start <= i <= path@.len(),
        i == path@.len() || path@[i as int] == '/',
        seg_start == 0 || (1 <= seg_start && path@[seg_start - 1] == '/'),
        forall|k: int| seg_start <= k < i ==> path@[k] != '/',
        best_tracks(path@, best, seg_start as int, i as int),
    ensures
        best_tracks(path@, r, i + 1, i + 1),
{
    // Any segment that ends exactly at `i` must start at `seg_start`: a
    // later start would put a separator inside `[seg_start, i)`, an
    // earlier one would contain the separator before `seg_start`.
    assert forall|a2: int, b2: int|
        #[trigger] is_segment(path@, a2, b2) && b2 == i implies a2 == seg_start by {
        if a2 < seg_start {
            assert(path@[seg_start - 1] == '/');
            assert(a2 <= seg_start - 1 < b2);
        } else if a2 > seg_start {
            assert(path@[a2 - 1] == '/');
            assert(seg_start <= a2 - 1 < i);
        }
    }
    let named = i > seg_start && !(i == seg_start + 1 && path.get_char(seg_start) == '.');
    if named {
        assert(is_name_segment(path@, seg_start as int, i as int));
        Some((seg_start, i))
    } else {
        best
    }
}

/// Decides whether an untrusted relative path may be served: rejects any
/// path that could traverse outside the root, then any whose file name
/// does not end in a case-insensitive `jpg` extension.
pub fn check_path(path: &str) -> (v: PathVerdict)
    ensures
        v == verdict_of(path@),
{
    let n = path.unicode_len();
    if n > 0 && path.get_char(0) == '/' {
        return PathVerdict::Traversal;
    }
    if n >= 2 && char_is_letter(path.get_char(0)) && path.get_char(1) == ':' {
        return PathVerdict::Traversal;
    }
    if scan_parent_segment(path) {
        return PathVerdict::Traversal;
    }
    match find_file_name(path) {
        None => PathVerdict::WrongType,
        Some((a, b)) => {
            if b - a >= 5 && path.get_char(b - 4) == '.'
                && (path.get_char(b - 3) == 'j' || path.get_char(b - 3) == 'J')
                && (path.get_char(b - 2) == 'p' || path.get_char(b - 2) == 'P')
                && (path.get_char(b - 1) == 'g' || path.get_char(b - 1) == 'G') {
                PathVerdict::Safe
            } else {
                assert forall|a2: int, b2: int|
                    #[trigger] is_file_name_at(path@, a2, b2) implies !jpg_extension_at(
                    path@,
                    a2,
                    b2,
                ) by {
                    lemma_file_name_unique(path@, a as int, b as int, a2, b2);
                }
                PathVerdict::WrongType
            }
        },
    }
}

/// A path has at most one file name.
proof fn lemma_file_name_unique(s: Seq<char>, a: int, b: int, a2: int, b2: int)
    requires
        is_file_name_at(s, a, b),
        is_file_name_at(s, a2, b2),
    ensures
        a == a2 && b == b2,
{
    if a < a2 {
        assert(!(is_name_segment(s, a2, b2) && a2 > a));
    } else if a2 < a {
        assert(!(is_name_segment(s, a, b) && a > a2));
    } else {
        if b < b2 {
            assert(s[b] == '/');
            assert(a2 <= b && b < b2 && s[b] != '/');
        } else if b2 < b {
            assert(s[b2] == '/');
            assert(a <= b2 && b2 < b && s[b2] != '/');
        }
    }
}

} // verus!

