//! Ordering of matched entries and thumbnail derivation.
//!
//! The listing shows entries newest first; entries whose modification
//! time is unknown come after all entries with a known time, and ties
//! (including all unknowns) keep the order of the walk.  For each
//! entry a companion thumbnail path is derived by inserting a
//! `thumbnails/` segment immediately before the file name.

use vstd::multiset::Multiset;
use vstd::prelude::*;

verus! {

/// One file discovered by the pattern walk: its candidate path
/// (forward-slash separated, relative to the root) and its last
/// modification time, when the filesystem offers one.
pub struct MatchedEntry {
    pub path: String,
    pub modified: Option<u64>,
}

/// One row of the listing: the image's candidate path and the
/// candidate path of its thumbnail.
pub struct ImageEntry {
    pub path: String,
    pub thumbnail: String,
}

/// Display order on modification times: `a` may stand at or before `b`
/// when `a` is at least as new, a known time standing before any
/// unknown one.
pub open spec fn keeps_order(a: Option<u64>, b: Option<u64>) -> bool {
    match (a, b) {
        (Some(x), Some(y)) => x >= y,
        (Some(_), None) => true,
        (None, Some(_)) => false,
        (None, None) => true,
    }
}

/// Stable insertion of the earliest-walked entry `e` into the already
/// ordered `t`: `e` goes in front of the first entry it may stand
/// before, so it precedes every later-walked entry with the same time.
pub open spec fn place_entry(e: MatchedEntry, t: Seq<MatchedEntry>) -> Seq<MatchedEntry>
    decreases t.len(),
{
    if t.len() == 0 {
        seq![e]
    } else if keeps_order(e.modified, t[0].modified) {
        seq![e] + t
    } else {
        seq![t[0]] + place_entry(e, t.drop_first())
    }
}

/// The display order of the walked entries: newest first, unknown
/// times last, ties keeping walk order — the canonical stable sort,
/// written as insertion sort.
pub open spec fn display_order(s: Seq<MatchedEntry>) -> Seq<MatchedEntry>
    decreases s.len(),
{
    if s.len() == 0 {
        Seq::empty()
    } else {
        place_entry(s[0], display_order(s.drop_first()))
    }
}

/// The sequence is in display order.
pub open spec fn is_ordered(s: Seq<MatchedEntry>) -> bool {
    forall|i: int, j: int| 0 <= i < j < s.len() ==> keeps_order(s[i].modified, s[j].modified)
}

/// The subsequence of entries with unknown modification time, in the
/// order they stand.
pub open spec fn unknown_part(s: Seq<MatchedEntry>) -> Seq<MatchedEntry>
    decreases s.len(),
{
    if s.len() == 0 {
        Seq::empty()
    } else if s[0].modified is None {
        seq![s[0]] + unknown_part(s.drop_first())
    } else {
        unknown_part(s.drop_first())
    }
}

proof fn lemma_place_entry_len(e: MatchedEntry, t: Seq<MatchedEntry>)
    ensures
        place_entry(e, t).len() == t.len() + 1,
    decreases t.len(),
{
    if t.len() > 0 && !keeps_order(e.modified, t[0].modified) {
        lemma_place_entry_len(e, t.drop_first());
    }
}

/// Placing an entry adds exactly it: the result holds the same entries
/// as `t` plus `e`.
proof fn lemma_place_entry_multiset(e: MatchedEntry, t: Seq<MatchedEntry>)
    ensures
        place_entry(e, t).to_multiset() == t.to_multiset().insert(e),
    decreases t.len(),
{
    broadcast use vstd::seq_lib::group_to_multiset_ensures;

    if t.len() == 0 {
        assert(seq![e] =~= Seq::<MatchedEntry>::empty().push(e));
    } else if keeps_order(e.modified, t[0].modified) {
        vstd::seq_lib::lemma_multiset_commutative(seq![e], t);
        assert(seq![e].to_multiset() =~= Multiset::<MatchedEntry>::empty().insert(e));
        assert((seq![e] + t).to_multiset() =~= t.to_multiset().insert(e));
    } else {
        lemma_place_entry_multiset(e, t.drop_first());
        vstd::seq_lib::lemma_multiset_commutative(seq![t[0]], place_entry(e, t.drop_first()));
        vstd::seq_lib::lemma_multiset_commutative(seq![t[0]], t.drop_first());
        assert(seq![t[0]] + t.drop_first() =~= t);
        assert(seq![t[0]].to_multiset() =~= Multiset::<MatchedEntry>::empty().insert(t[0]));
        assert((seq![t[0]] + place_entry(e, t.drop_first())).to_multiset() =~= t.to_multiset()
            .insert(e));
    }
}

/// The display order is a permutation of the walk order.
pub proof fn lemma_display_order_permutes(s: Seq<MatchedEntry>)
    ensures
        display_order(s).to_multiset() == s.to_multiset(),
        display_order(s).len() == s.len(),
    decreases s.len(),
{
    broadcast use vstd::seq_lib::group_to_multiset_ensures;

    if s.len() > 0 {
        lemma_display_order_permutes(s.drop_first());
        lemma_place_entry_multiset(s[0], display_order(s.drop_first()));
        lemma_place_entry_len(s[0], display_order(s.drop_first()));
        assert(s =~= seq![s[0]] + s.drop_first());
        vstd::seq_lib::lemma_multiset_commutative(seq![s[0]], s.drop_first());
        assert(seq![s[0]].to_multiset() =~= Multiset::<MatchedEntry>::empty().insert(s[0]));
        assert(s.to_multiset() =~= s.drop_first().to_multiset().insert(s[0]));
    }
}

/// Placing an entry into an ordered sequence keeps it ordered.
proof fn lemma_place_entry_ordered(e: MatchedEntry, t: Seq<MatchedEntry>)
    requires
        is_ordered(t),
    ensures
        is_ordered(place_entry(e, t)),
    decreases t.len(),
{
    if t.len() == 0 {
    } else if keeps_order(e.modified, t[0].modified) {
        let r = seq![e] + t;
        assert forall|i: int, j: int| 0 <= i < j < r.len() implies keeps_order(
            r[i].modified,
            r[j].modified,
        ) by {
            if i == 0 {
                assert(r[j] == t[j - 1]);
                if j - 1 > 0 {
                    assert(keeps_order(t[0].modified, t[j - 1].modified));
                }
            } else {
                assert(r[i] == t[i - 1]);
                assert(r[j] == t[j - 1]);
            }
        }
    } else {
        assert(is_ordered(t.drop_first()));
        lemma_place_entry_ordered(e, t.drop_first());
        let p = place_entry(e, t.drop_first());
        lemma_place_entry_len(e, t.drop_first());
        let r = seq![t[0]] + p;
        // `t[0]` may stand before `e` and before the rest of `t`, and
        // every element of `p` is either `e` or from the rest of `t`.
        lemma_place_entry_multiset(e, t.drop_first());
        broadcast use vstd::seq_lib::group_to_multiset_ensures;

        assert forall|i: int, j: int| 0 <= i < j < r.len() implies keeps_order(
            r[i].modified,
            r[j].modified,
        ) by {
            if i == 0 {
                assert(p.contains(p[j - 1]));
                assert(p.to_multiset().count(p[j - 1]) > 0);
                if p[j - 1] == e {
                    assert(keeps_order(t[0].modified, e.modified));
                } else {
                    assert(t.drop_first().to_multiset().count(p[j - 1]) > 0);
                    assert(t.drop_first().contains(p[j - 1]));
                    let k = choose|k: int|
                        0 <= k < t.drop_first().len() && t.drop_first()[k] == p[j - 1];
                    assert(keeps_order(t[0].modified, t[k + 1].modified));
                }
            }
        }
    }
}

/// The display order is ordered.
pub proof fn lemma_display_order_is_ordered(s: Seq<MatchedEntry>)
    ensures
        is_ordered(display_order(s)),
    decreases s.len(),
{
    if s.len() > 0 {
        lemma_display_order_is_ordered(s.drop_first());
        lemma_place_entry_ordered(s[0], display_order(s.drop_first()));
    }
}

/// When every entry has a known modification time and no two share
/// one, the display order is strictly descending by time.
pub proof fn lemma_distinct_times_strictly_descend(s: Seq<MatchedEntry>)
    requires
        forall|i: int| 0 <= i < s.len() ==> (#[trigger] s[i].modified) is Some,
        forall|i: int, j: int|
            0 <= i < j < s.len() ==> (#[trigger] s[i].modified) != (#[trigger] s[j].modified),
    ensures
        forall|i: int, j: int|
            0 <= i < j < display_order(s).len() ==> (#[trigger] display_order(
                s,
            )[i].modified)->Some_0 > (#[trigger] display_order(s)[j].modified)->Some_0,
{
    broadcast use vstd::seq_lib::group_to_multiset_ensures;

    let d = display_order(s);
    lemma_display_order_permutes(s);
    lemma_display_order_is_ordered(s);
    assert forall|i: int, j: int| 0 <= i < j < d.len() implies (#[trigger] d[i].modified)->Some_0
        > (#[trigger] d[j].modified)->Some_0 by {
        assert(d.contains(d[i]) && d.contains(d[j]));
        assert(d.to_multiset().count(d[i]) > 0 && d.to_multiset().count(d[j]) > 0);
        assert(s.to_multiset().count(d[i]) > 0 && s.to_multiset().count(d[j]) > 0);
        assert(s.contains(d[i]) && s.contains(d[j]));
        let ghost ii = choose|k: int| 0 <= k < s.len() && s[k] == d[i];
        let ghost jj = choose|k: int| 0 <= k < s.len() && s[k] == d[j];
        assert(d[i].modified is Some && d[j].modified is Some);
        assert(keeps_order(d[i].modified, d[j].modified));
        if d[i].modified == d[j].modified {
            // Two positions of the display order holding entries with
            // one time: they must be one entry counted twice, which
            // the permutation rules out.
            if d[i] == d[j] {
                assert(d.remove(i).to_multiset() == d.to_multiset().remove(d[i]));
                if j < i {
                    assert(d.remove(i)[j] == d[j]);
                } else {
                    assert(d.remove(i)[j - 1] == d[j]);
                }
                assert(d.remove(i).contains(d[j]));
                let r = d.remove(i);
                assert(r.to_multiset().count(d[i]) > 0);
                assert(s.remove(ii).to_multiset() == s.to_multiset().remove(s[ii]));
                assert(s.remove(ii).to_multiset().count(d[i]) > 0);
                assert(s.remove(ii).contains(d[i]));
                let kk = choose|k: int| 0 <= k < s.remove(ii).len() && s.remove(ii)[k] == d[i];
                if kk < ii {
                    assert(s[kk] == d[i]);
                    assert(s[kk].modified != s[ii].modified);
                } else {
                    assert(s[kk + 1] == d[i]);
                    assert(s[ii].modified != s[kk + 1].modified);
                }
            } else {
                assert(ii != jj || d[i] == d[j]);
                assert(s[ii].modified != s[jj].modified || ii == jj);
            }
        }
    }
}

/// Entries with unknown modification times come after every entry with
/// a known one, and keep their walk order among themselves.
pub proof fn lemma_unknown_times_last_and_stable(s: Seq<MatchedEntry>)
    ensures
        forall|i: int, j: int|
            0 <= i < j < display_order(s).len() && (#[trigger] display_order(s)[i].modified)
                is None ==> (#[trigger] display_order(s)[j].modified) is None,
        unknown_part(display_order(s)) == unknown_part(s),
    decreases s.len(),
{
    lemma_display_order_is_ordered(s);
    let d = display_order(s);
    assert forall|i: int, j: int|
        0 <= i < j < d.len() && (#[trigger] d[i].modified) is None implies (
    #[trigger] d[j].modified) is None by {
        assert(keeps_order(d[i].modified, d[j].modified));
    }
    if s.len() > 0 {
        lemma_unknown_times_last_and_stable(s.drop_first());
        lemma_place_entry_unknowns(s[0], display_order(s.drop_first()));
    }
}

/// How stable insertion moves the unknown-time subsequence: an entry
/// with a known time slips in front of every unknown one, and an
/// unknown entry joins the unknowns at their front — it was walked
/// before all of them.
proof fn lemma_place_entry_unknowns(e: MatchedEntry, t: Seq<MatchedEntry>)
    ensures
        e.modified is None ==> unknown_part(place_entry(e, t)) == seq![e] + unknown_part(t),
        e.modified is Some ==> unknown_part(place_entry(e, t)) == unknown_part(t),
    decreases t.len(),
{
    if t.len() == 0 {
        assert(seq![e].drop_first() =~= Seq::<MatchedEntry>::empty());
        assert(unknown_part(seq![e].drop_first()) =~= Seq::<MatchedEntry>::empty());
        assert(seq![e][0] == e);
        if e.modified is None {
            assert(unknown_part(seq![e]) =~= seq![e] + unknown_part(t));
        } else {
            assert(unknown_part(seq![e]) =~= unknown_part(t));
        }
    } else if keeps_order(e.modified, t[0].modified) {
        let r = seq![e] + t;
        assert(r[0] == e);
        assert(r.drop_first() =~= t);
        if e.modified is None {
            assert(unknown_part(r) == seq![e] + unknown_part(t));
        }
    } else {
        lemma_place_entry_unknowns(e, t.drop_first());
        let r = seq![t[0]] + place_entry(e, t.drop_first());
        assert(r[0] == t[0]);
        assert(r.drop_first() =~= place_entry(e, t.drop_first()));
        // `e` not standing before `t[0]` forces `t[0]` to have a known
        // time whenever `e` does not.
        if e.modified is None {
            assert(t[0].modified is Some);
            assert(unknown_part(r) == unknown_part(place_entry(e, t.drop_first())));
            assert(unknown_part(t) == unknown_part(t.drop_first()));
        } else {
            if t[0].modified is None {
                assert(unknown_part(r) == seq![t[0]] + unknown_part(
                    place_entry(e, t.drop_first()),
                ));
                assert(unknown_part(t) == seq![t[0]] + unknown_part(t.drop_first()));
            }
        }
    }
}

/// The candidate path contains a separator, so it can be split into a
/// folder and a file name.
pub open spec fn contains_sep(s: Seq<char>) -> bool {
    exists|k: int| 0 <= k < s.len() && s[k] == '/'
}

/// The index of the path's last separator (meaningful only when it
/// contains one).
pub open spec fn last_sep_index(s: Seq<char>) -> int
    decreases s.len(),
{
    if s.len() == 0 {
        0
    } else if s[s.len() - 1] == '/' {
        s.len() - 1
    } else {
        last_sep_index(s.drop_last())
    }
}

/// The run inserted before the file name: `/thumbnails/`.
pub open spec fn thumb_run() -> Seq<char> {
    seq!['/', 't', 'h', 'u', 'm', 'b', 'n', 'a', 'i', 'l', 's', '/']
}

/// The thumbnail's candidate path: the folder part of `p`, then
/// `/thumbnails/`, then the file name of `p`.
pub open spec fn thumbnail_of(p: Seq<char>) -> Seq<char> {
    let i = last_sep_index(p);
    p.subrange(0, i) + thumb_run() + p.subrange(i + 1, p.len() as int)
}

/// In a path with a separator, the last separator is exactly that: a
/// separator with none after it.
proof fn lemma_last_sep_index(s: Seq<char>)
    requires
        contains_sep(s),
    ensures
        0 <= last_sep_index(s) < s.len(),
        s[last_sep_index(s)] == '/',
        forall|k: int| last_sep_index(s) < k < s.len() ==> s[k] != '/',
    decreases s.len(),
{
    if s[s.len() - 1] != '/' {
        let w = choose|k: int| 0 <= k < s.len() && s[k] == '/';
        assert(s.drop_last()[w] == '/');
        lemma_last_sep_index(s.drop_last());
        assert forall|k: int| last_sep_index(s) < k < s.len() implies s[k] != '/' by {
            if k < s.len() - 1 {
                assert(s.drop_last()[k] != '/');
            }
        }
    }
}

/// What the thumbnail path says: writing `p` as `folder / name` at its
/// last separator (so `name` is the final segment), the thumbnail is
/// `p` with `thumbnails/` inserted immediately before `name`, the
/// prefix up to and including that separator shared.
pub proof fn lemma_thumbnail_inserts_segment(p: Seq<char>)
    requires
        contains_sep(p),
    ensures
        ({
            let i = last_sep_index(p);
            let name = p.subrange(i + 1, p.len() as int);
            &&& p == p.subrange(0, i + 1) + name
            &&& thumbnail_of(p) == p.subrange(0, i + 1) + seq![
                't',
                'h',
                'u',
                'm',
                'b',
                'n',
                'a',
                'i',
                'l',
                's',
                '/',
            ] + name
            &&& forall|k: int| 0 <= k < name.len() ==> name[k] != '/'
        }),
{
    lemma_last_sep_index(p);
    let i = last_sep_index(p);
    let name = p.subrange(i + 1, p.len() as int);
    assert(p =~= p.subrange(0, i + 1) + name);
    assert(thumbnail_of(p) =~= p.subrange(0, i + 1) + seq![
        't',
        'h',
        'u',
        'm',
        'b',
        'n',
        'a',
        'i',
        'l',
        's',
        '/',
    ] + name);
}

/// Sorting an already ordered sequence leaves it unchanged, so the
/// display order is idempotent: an unchanged set of walked entries
/// yields an identical listing.
pub proof fn lemma_display_order_idempotent(s: Seq<MatchedEntry>)
    ensures
        display_order(display_order(s)) == display_order(s),
{
    lemma_display_order_is_ordered(s);
    lemma_ordered_fixed_point(display_order(s));
}

/// An ordered sequence is a fixed point of `display_order`.
proof fn lemma_ordered_fixed_point(s: Seq<MatchedEntry>)
    requires
        is_ordered(s),
    ensures
        display_order(s) == s,
    decreases s.len(),
{
    if s.len() > 0 {
        assert(is_ordered(s.drop_first()));
        lemma_ordered_fixed_point(s.drop_first());
        if s.len() > 1 {
            assert(keeps_order(s[0].modified, s.drop_first()[0].modified));
        }
        assert(place_entry(s[0], s.drop_first()) =~= s);
    }
}

/// Decides `keeps_order` for two modification times.
fn stands_at_or_before(a: Option<u64>, b: Option<u64>) -> (r: bool)
    ensures
        r == keeps_order(a, b),
{
    match (a, b) {
        (Some(x), Some(y)) => x >= y,
        (Some(_), None) => true,
        (None, Some(_)) => false,
        (None, None) => true,
    }
}

/// Where stable insertion puts an entry with time `m`: in front of the
/// first element it may stand before.
fn find_place(out: &Vec<MatchedEntry>, m: Option<u64>) -> (pos: usize)
    ensures
        pos <= out@.len(),
        forall|k: int| 0 <= k < pos ==> !keeps_order(m, out@[k].modified),
        pos < out@.len() ==> keeps_order(m, out@[pos as int].modified),
{
    let mut pos: usize = 0;
    while pos < out.len()
        invariant
            pos <= out@.len(),
            forall|k: int| 0 <= k < pos ==> !keeps_order(m, out@[k].modified),
        decreases out@.len() - pos,
    {
        if stands_at_or_before(m, out[pos].modified) {
            return pos;
        }
        pos += 1;
    }
    pos
}

/// Inserting at the found place realizes `place_entry`.
proof fn lemma_place_entry_at(e: MatchedEntry, t: Seq<MatchedEntry>, pos: int)
    requires
        0 <= pos <= t.len(),
        forall|k: int| 0 <= k < pos ==> !keeps_order(e.modified, t[k].modified),
        pos < t.len() ==> keeps_order(e.modified, t[pos].modified),
    ensures
        place_entry(e, t) == t.insert(pos, e),
    decreases pos,
{
    if pos == 0 {
        if t.len() == 0 {
            assert(place_entry(e, t) =~= t.insert(0, e));
        } else {
            assert(seq![e] + t =~= t.insert(0, e));
        }
    } else {
        lemma_place_entry_at(e, t.drop_first(), pos - 1);
        assert(seq![t[0]] + place_entry(e, t.drop_first()) =~= t.insert(pos, e));
    }
}

/// Sorts the walked entries into display order.
pub fn sort_entries(entries: Vec<MatchedEntry>) -> (r: Vec<MatchedEntry>)
    ensures
        r@ == display_order(entries@),
{
    let ghost orig = entries@;
    let mut rest = entries;
    let mut out: Vec<MatchedEntry> = Vec::new();
    while rest.len() > 0
        invariant
            rest@.len() <= orig.len(),
            rest@ == orig.subrange(0, rest@.len() as int),
            out@ == display_order(orig.skip(rest@.len() as int)),
        decreases rest@.len(),
    {
        let ghost m = rest@.len() as int;
        let e = rest.pop().unwrap();
        assert(e == orig[m - 1]);
        let pos = find_place(&out, e.modified);
        proof {
            lemma_place_entry_at(e, out@, pos as int);
            assert(orig.skip(m - 1)[0] == e);
            assert(orig.skip(m - 1).drop_first() =~= orig.skip(m));
            assert(rest@ =~= orig.subrange(0, m - 1));
        }
        out.insert(pos, e);
        assert(out@ == display_order(orig.skip(rest@.len() as int)));
    }
    assert(orig.skip(0) =~= orig);
    out
}

/// Derives the thumbnail path for one candidate path, or `None` when
/// the path has no folder component to split at.
fn thumbnail_for(path: &str) -> (r: Option<String>)
    ensures
        match r {
            Some(t) => contains_sep(path@) && t@ == thumbnail_of(path@),
            None => !contains_sep(path@),
        },
{
    let n = path.unicode_len();
    let mut j: usize = n;
    while j > 0
        invariant
            j <= n,
            n == path@.len(),
            forall|k: int| j <= k < n ==> path@[k] != '/',
        decreases j,
    {
        if path.get_char(j - 1) == '/' {
            let i = j - 1;
            proof {
                lemma_last_sep_index(path@);
                assert(last_sep_index(path@) == i) by {
                    let l = last_sep_index(path@);
                    if l < i {
                        assert(path@[i as int] == '/');
                    } else if l > i {
                        assert(path@[l] != '/');
                    }
                }
            }
            let folder = path.substring_char(0, i);
            let name = path.substring_char(i + 1, n);
            let mut out = String::from_str(folder);
            out.append("/thumbnails/");
            out.append(name);
            proof {
                reveal_strlit("/thumbnails/");
                assert("/thumbnails/"@ =~= thumb_run());
            }
            return Some(out);
        }
        j -= 1;
    }
    None
}

/// Builds the listing: sorts the walked entries into display order and
/// pairs each candidate path with its thumbnail path.  Returns `None`
/// when some entry's path has no folder component — impossible for
/// paths the pattern walk produced, and fatal for the request.
#[verifier::loop_isolation(false)]
pub fn build_gallery(entries: Vec<MatchedEntry>) -> (r: Option<Vec<ImageEntry>>)
    ensures
        match r {
            Some(images) => {
                &&& forall|i: int|
                    0 <= i < entries@.len() ==> contains_sep(#[trigger] entries@[i].path@)
                &&& images@.len() == entries@.len()
                &&& forall|i: int|
                    0 <= i < images@.len() ==> (#[trigger] images@[i].path) == display_order(
                        entries@,
                    )[i].path
                &&& forall|i: int|
                    0 <= i < images@.len() ==> (#[trigger] images@[i].thumbnail@) == thumbnail_of(
                        display_order(entries@)[i].path@,
                    )
            },
            None => exists|i: int|
                0 <= i < entries@.len() && !contains_sep(#[trigger] entries@[i].path@),
        },
{
    broadcast use vstd::seq_lib::group_to_multiset_ensures;

    let ghost input = entries@;
    let ghost d = display_order(input);
    proof {
        lemma_display_order_permutes(input);
    }
    let mut sorted = sort_entries(entries);
    let mut images: Vec<ImageEntry> = Vec::new();
    let mut idx: usize = 0;
    let total = sorted.len();
    while idx < total
        invariant
            total == d.len() == input.len(),
            idx <= total,
            sorted@ == d.skip(idx as int),
            d.to_multiset() == input.to_multiset(),
            images@.len() == idx,
            forall|k: int| 0 <= k < idx ==> (#[trigger] images@[k].path) == d[k].path,
            forall|k: int|
                0 <= k < idx ==> (#[trigger] images@[k].thumbnail@) == thumbnail_of(d[k].path@),
            forall|k: int| 0 <= k < idx ==> contains_sep(#[trigger] d[k].path@),
        decreases total - idx,
    {
        let e = sorted.remove(0);
        assert(e == d[idx as int]);
        let thumb = thumbnail_for(e.path.as_str());
        match thumb {
            None => {
                proof {
                    broadcast use vstd::seq_lib::group_to_multiset_ensures;

                    // The failing entry stands in the walked input too.
                    assert(d.contains(e));
                    assert(d.to_multiset().count(e) > 0);
                    assert(input.to_multiset().count(e) > 0);
                    assert(input.contains(e));
                    let w = choose|i: int| 0 <= i < input.len() && input[i] == e;
                    assert(!contains_sep(input[w].path@));
                }
                return None;
            },
            Some(t) => {
                images.push(ImageEntry { path: e.path, thumbnail: t });
                proof {
                    assert(sorted@ =~= d.skip(idx + 1));
                }
            },
        }
        idx += 1;
    }
    proof {
        assert forall|i: int| 0 <= i < input.len() implies contains_sep(
            #[trigger] input[i].path@,
        ) by {
            assert(input.contains(input[i]));
            assert(d.to_multiset().count(input[i]) > 0);
            assert(d.contains(input[i]));
            let w = choose|k: int| 0 <= k < d.len() && d[k] == input[i];
            assert(contains_sep(d[w].path@));
        }
    }
    Some(images)
}

} // verus!
