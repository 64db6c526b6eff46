//! The fixed directory-shape matcher.
//!
//! Screenshots live at a fixed depth under the root directory:
//! `<user>/760/remote/<folder>/screenshots/<file>` where `<user>` and
//! `<folder>` are arbitrary names and `<file>` ends in a
//! case-insensitive `.jpg`.  A candidate path (forward-slash separated,
//! relative to the root) matches exactly when it splits that way.
//! The walker that enumerates directories is plain I/O and stays
//! outside the library; it asks [`level_accepts`] which entries to
//! enter at each depth, and [`matches_candidate`] decides full paths.

use vstd::prelude::*;

verus! {

/// No path separator occurs in `s` (true of any single directory-entry
/// name).
pub open spec fn no_separator(s: Seq<char>) -> bool {
    forall|k: int| 0 <= k < s.len() ==> s[k] != '/'
}

/// The literal run between the two wildcard directory levels:
/// `/760/remote/`.
pub open spec fn before_folder() -> Seq<char> {
    seq!['/', '7', '6', '0', '/', 'r', 'e', 'm', 'o', 't', 'e', '/']
}

/// The literal run between the folder level and the file name:
/// `/screenshots/`.
pub open spec fn before_file() -> Seq<char> {
    seq!['/', 's', 'c', 'r', 'e', 'e', 'n', 's', 'h', 'o', 't', 's', '/']
}

/// The file-name shape `*.jpg` with the extension compared
/// case-insensitively, as the glob understands it: anything (possibly
/// empty) followed by a literal dot and the three letters.
pub open spec fn is_jpg_file(n: Seq<char>) -> bool {
    &&& n.len() >= 4
    &&& n[n.len() - 4] == '.'
    &&& (n[n.len() - 3] == 'j' || n[n.len() - 3] == 'J')
    &&& (n[n.len() - 2] == 'p' || n[n.len() - 2] == 'P')
    &&& (n[n.len() - 1] == 'g' || n[n.len() - 1] == 'G')
}

/// The path splits into the fixed shape at separator positions `b0`
/// (start of `/760/remote/`) and `b1` (start of `/screenshots/`): no
/// separator before `b0` (the user level), the first literal run at
/// `b0`, no separator across the folder level, the second literal run
/// at `b1`, and a separator-free `*.jpg` file name after it.
pub open spec fn splits_at(s: Seq<char>, b0: int, b1: int) -> bool {
    &&& 0 <= b0
    &&& b0 + 12 <= b1
    &&& b1 + 13 <= s.len()
    &&& (forall|k: int| 0 <= k < b0 ==> s[k] != '/')
    &&& s.subrange(b0, b0 + 12) == before_folder()
    &&& (forall|k: int| b0 + 12 <= k < b1 ==> s[k] != '/')
    &&& s.subrange(b1, b1 + 13) == before_file()
    &&& (forall|k: int| b1 + 13 <= k < s.len() ==> s[k] != '/')
    &&& is_jpg_file(s.subrange(b1 + 13, s.len() as int))
}

/// A candidate path matches the fixed screenshot pattern.
pub open spec fn pattern_matches(s: Seq<char>) -> bool {
    exists|b0: int, b1: int| #[trigger] splits_at(s, b0, b1)
}

/// Finds the first separator at or after `from`.
fn find_sep_from(path: &str, from: usize) -> (r: Option<usize>)
    requires
        from <= path@.len(),
    ensures
        match r {
            Some(j) => from <= j < path@.len() && path@[j as int] == '/' && (forall|k: int|
                from <= k < j ==> path@[k] != '/'),
            None => forall|k: int| from <= k < path@.len() ==> path@[k] != '/',
        },
{
    let n = path.unicode_len();
    let mut i: usize = from;
    while i < n
        invariant
            from <= i <= n,
            n == path@.len(),
            forall|k: int| from <= k < i ==> path@[k] != '/',
        decreases n - i,
    {
        if path.get_char(i) == '/' {
            return Some(i);
        }
        i += 1;
    }
    None
}

/// Compares `path[at..at + lit.len())` with a separator-framed literal
/// run, character by character.
fn run_matches(path: &str, at: usize, lit: &[char]) -> (r: bool)
    requires
        at + lit@.len() <= path@.len(),
    ensures
        r == (path@.subrange(at as int, at + lit@.len()) == lit@),
{
    let n = path.unicode_len();
    let m = lit.len();
    let mut j: usize = 0;
    while j < m
        invariant
            j <= m,
            m == lit@.len(),
            n == path@.len(),
            at + m <= n,
            forall|k: int| 0 <= k < j ==> path@[at + k] == lit@[k],
        decreases m - j,
    {
        if path.get_char(at + j) != lit[j] {
            assert(path@.subrange(at as int, at + lit@.len())[j as int] != lit@[j as int]);
            return false;
        }
        j += 1;
    }
    assert(path@.subrange(at as int, at + lit@.len()) =~= lit@);
    true
}

/// Checks the file-name shape `*.jpg` (case-insensitive extension) on
/// the characters `name[from..)`.
fn tail_is_jpg_file(name: &str, from: usize) -> (r: bool)
    requires
        from <= name@.len(),
    ensures
        r == is_jpg_file(name@.subrange(from as int, name@.len() as int)),
{
    let n = name.unicode_len();
    let len = n - from;
    if len < 4 {
        return false;
    }
    let ghost t = name@.subrange(from as int, name@.len() as int);
    assert(t[t.len() - 4] == name@[n - 4] && t[t.len() - 3] == name@[n - 3] && t[t.len() - 2]
        == name@[n - 2] && t[t.len() - 1] == name@[n - 1]);
    name.get_char(n - 4) == '.' && (name.get_char(n - 3) == 'j' || name.get_char(n - 3) == 'J') && (
    name.get_char(n - 2) == 'p' || name.get_char(n - 2) == 'P') && (name.get_char(n - 1) == 'g'
        || name.get_char(n - 1) == 'G')
}

/// Decides whether one candidate path matches the screenshot pattern.
pub fn matches_candidate(path: &str) -> (r: bool)
    ensures
        r == pattern_matches(path@),
{
    let folder_run: [char; 12] = ['/', '7', '6', '0', '/', 'r', 'e', 'm', 'o', 't', 'e', '/'];
    let file_run: [char; 13] = [
        '/',
        's',
        'c',
        'r',
        'e',
        'e',
        'n',
        's',
        'h',
        'o',
        't',
        's',
        '/',
    ];
    assert(folder_run@ =~= before_folder());
    assert(file_run@ =~= before_file());
    let n = path.unicode_len();
    let b0 = match find_sep_from(path, 0) {
        None => {
            assert forall|x0: int, x1: int| !splits_at(path@, x0, x1) by {
                if splits_at(path@, x0, x1) {
                    assert(path@[x0] == path@.subrange(x0, x0 + 12)[0]);
                }
            }
            return false;
        },
        Some(j) => j,
    };
    if n - b0 < 12 || !run_matches(path, b0, &folder_run) {
        assert forall|x0: int, x1: int| !splits_at(path@, x0, x1) by {
            if splits_at(path@, x0, x1) {
                assert(path@[x0] == path@.subrange(x0, x0 + 12)[0]);
                assert(x0 == b0);
            }
        }
        return false;
    }
    let b1 = match find_sep_from(path, b0 + 12) {
        None => {
            assert forall|x0: int, x1: int| !splits_at(path@, x0, x1) by {
                if splits_at(path@, x0, x1) {
                    assert(path@[x0] == path@.subrange(x0, x0 + 12)[0]);
                    assert(x0 == b0);
                    assert(path@[x1] == path@.subrange(x1, x1 + 13)[0]);
                }
            }
            return false;
        },
        Some(j) => j,
    };
    if n - b1 < 13 || !run_matches(path, b1, &file_run) {
        assert forall|x0: int, x1: int| !splits_at(path@, x0, x1) by {
            if splits_at(path@, x0, x1) {
                assert(path@[x0] == path@.subrange(x0, x0 + 12)[0]);
                assert(x0 == b0);
                assert(path@[x1] == path@.subrange(x1, x1 + 13)[0]);
                assert(x1 == b1);
            }
        }
        return false;
    }
    match find_sep_from(path, b1 + 13) {
        Some(_) => {
            assert forall|x0: int, x1: int| !splits_at(path@, x0, x1) by {
                if splits_at(path@, x0, x1) {
                    assert(path@[x0] == path@.subrange(x0, x0 + 12)[0]);
                    assert(x0 == b0);
                    assert(path@[x1] == path@.subrange(x1, x1 + 13)[0]);
                    assert(x1 == b1);
                }
            }
            false
        },
        None => {
            let ok = tail_is_jpg_file(path, b1 + 13);
            if ok {
                assert(splits_at(path@, b0 as int, b1 as int));
            } else {
                assert forall|x0: int, x1: int| !splits_at(path@, x0, x1) by {
                    if splits_at(path@, x0, x1) {
                        assert(path@[x0] == path@.subrange(x0, x0 + 12)[0]);
                        assert(x0 == b0);
                        assert(path@[x1] == path@.subrange(x1, x1 + 13)[0]);
                        assert(x1 == b1);
                    }
                }
            }
            ok
        },
    }
}

/// The per-depth decision the directory walker asks for: may an entry
/// named `name` be entered (or, at the last level, listed) at `level`?
/// Levels `0` and `3` are wildcards, levels `1`, `2` and `4` are the
/// literal names `760`, `remote` and `screenshots`, and level `5` is
/// the `*.jpg` file name.  Entry names never contain a separator.
pub open spec fn level_accepts_spec(level: int, name: Seq<char>) -> bool {
    if level == 1 {
        name == seq!['7', '6', '0']
    } else if level == 2 {
        name == seq!['r', 'e', 'm', 'o', 't', 'e']
    } else if level == 4 {
        name == seq!['s', 'c', 'r', 'e', 'e', 'n', 's', 'h', 'o', 't', 's']
    } else if level == 5 {
        is_jpg_file(name)
    } else {
        true
    }
}

/// Decides `level_accepts_spec` for one directory entry.
pub fn level_accepts(level: usize, name: &str) -> (r: bool)
    ensures
        r == level_accepts_spec(level as int, name@),
{
    if level == 1 {
        let lit: [char; 3] = ['7', '6', '0'];
        name_equals(name, &lit)
    } else if level == 2 {
        let lit: [char; 6] = ['r', 'e', 'm', 'o', 't', 'e'];
        name_equals(name, &lit)
    } else if level == 4 {
        let lit: [char; 11] = ['s', 'c', 'r', 'e', 'e', 'n', 's', 'h', 'o', 't', 's'];
        name_equals(name, &lit)
    } else if level == 5 {
        let r = tail_is_jpg_file(name, 0);
        assert(name@.subrange(0, name@.len() as int) =~= name@);
        r
    } else {
        true
    }
}

/// Compares a whole entry name with a literal.
fn name_equals(name: &str, lit: &[char]) -> (r: bool)
    ensures
        r == (name@ == lit@),
{
    let n = name.unicode_len();
    if n != lit.len() {
        assert(name@.len() != lit@.len());
        return false;
    }
    let r = run_matches(name, 0, lit);
    assert(name@.subrange(0, lit@.len() as int) =~= name@);
    r
}

/// Soundness of the level-by-level walk: joining six entry names that
/// each pass their level check yields a candidate path that matches
/// the whole pattern.
pub proof fn lemma_accepted_walk_matches(
    n0: Seq<char>,
    n1: Seq<char>,
    n2: Seq<char>,
    n3: Seq<char>,
    n4: Seq<char>,
    n5: Seq<char>,
)
    requires
        no_separator(n0),
        no_separator(n3),
        no_separator(n5),
        level_accepts_spec(0, n0),
        level_accepts_spec(1, n1),
        level_accepts_spec(2, n2),
        level_accepts_spec(3, n3),
        level_accepts_spec(4, n4),
        level_accepts_spec(5, n5),
    ensures
        pattern_matches(
            n0 + seq!['/'] + n1 + seq!['/'] + n2 + seq!['/'] + n3 + seq!['/'] + n4 + seq!['/'] + n5,
        ),
{
    let s = n0 + seq!['/'] + n1 + seq!['/'] + n2 + seq!['/'] + n3 + seq!['/'] + n4 + seq!['/']
        + n5;
    let b0 = n0.len() as int;
    let b1 = n0.len() + 12 + n3.len() as int;
    assert(s =~= n0 + before_folder() + n3 + before_file() + n5);
    let t = n0 + before_folder() + n3 + before_file() + n5;
    assert(t.subrange(b0, b0 + 12) =~= before_folder());
    assert(t.subrange(b1, b1 + 13) =~= before_file());
    assert(t.subrange(b1 + 13, t.len() as int) =~= n5);
    assert(splits_at(t, b0, b1));
}

/// A matching path contains a separator (its depth is fixed and more
/// than one), so the gallery can always split off its file name.
pub proof fn lemma_match_has_separator(s: Seq<char>)
    requires
        pattern_matches(s),
    ensures
        crate::gallery::contains_sep(s),
{
    let (b0, b1) = choose|b0: int, b1: int| splits_at(s, b0, b1);
    assert(s[b0] == s.subrange(b0, b0 + 12)[0]);
    assert(s[b0] == '/');
}

/// The round trip from listing to serving: a candidate path that
/// matches the pattern (split at `b0` and `b1`) is accepted by the
/// path guard, provided its wildcard parts are names a directory walk
/// can produce: a nonempty user level that is neither `..` nor in
/// drive-letter form, a folder level other than `..`, and a file name
/// with a nonempty stem.  Every image such a walk lists can be fetched.
pub proof fn lemma_matched_path_is_servable(s: Seq<char>, b0: int, b1: int)
    requires
        splits_at(s, b0, b1),
        b0 > 0,
        !(b0 == 2 && s[0] == '.' && s[1] == '.'),
        !(b0 >= 2 && crate::path_guard::is_ascii_letter(s[0]) && s[1] == ':'),
        !(b1 == b0 + 14 && s[b0 + 12] == '.' && s[b0 + 13] == '.'),
        s.len() - (b1 + 13) >= 5,
    ensures
        crate::path_guard::verdict_of(s) == crate::path_guard::PathVerdict::Safe,
{
    let len = s.len() as int;
    // The separators of `s` stand exactly at the five fixed positions.
    assert forall|k: int| 0 <= k < len implies (s[k] == '/' <==> (k == b0 || k == b0 + 4 || k == b0
        + 11 || k == b1 || k == b1 + 12)) by {
        if b0 <= k < b0 + 12 {
            assert(s[k] == s.subrange(b0, b0 + 12)[k - b0]);
        } else if b1 <= k < b1 + 13 {
            assert(s[k] == s.subrange(b1, b1 + 13)[k - b1]);
        }
    }
    assert(!crate::path_guard::has_root_marker(s));
    assert(!crate::path_guard::has_drive_prefix(s)) by {
        if b0 == 1 {
            assert(s[1] == s.subrange(b0, b0 + 12)[0]);
        }
    }
    assert(!crate::path_guard::has_parent_segment(s)) by {
        assert forall|a: int|
            !(#[trigger] crate::path_guard::is_segment(s, a, a + 2) && s[a] == '.' && s[a + 1]
                == '.') by {
            if crate::path_guard::is_segment(s, a, a + 2) && s[a] == '.' && s[a + 1] == '.' {
                if a != 0 {
                    assert(s[a - 1] == '/');
                }
                if a + 2 != len {
                    assert(s[a + 2] == '/');
                }
            }
        }
    }
    let a = b1 + 13;
    let tail = s.subrange(a, len);
    assert(crate::path_guard::is_file_name_at(s, a, len)) by {
        assert(s[a - 1] == '/');
        assert forall|a2: int, b2: int|
            #[trigger] crate::path_guard::is_name_segment(s, a2, b2) && a2 > a implies false by {
            assert(s[a2 - 1] == '/');
        }
    }
    assert(crate::path_guard::jpg_extension_at(s, a, len)) by {
        assert(tail[tail.len() - 4] == s[len - 4]);
        assert(tail[tail.len() - 3] == s[len - 3]);
        assert(tail[tail.len() - 2] == s[len - 2]);
        assert(tail[tail.len() - 1] == s[len - 1]);
    }
    assert(crate::path_guard::has_jpg_extension(s));
}

} // verus!
