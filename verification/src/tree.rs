//! Trees: one snapshot of tracked files, as a mapping from file path to blob
//! hash.  Entries are kept sorted by path so that a tree with given contents
//! always serializes to the same text, and therefore always hashes to the
//! same identity.

use vstd::prelude::*;
use crate::chars::{
    is_plain, lex_lt, lemma_lex_irrefl, lemma_lex_connected, lemma_lex_trans, has_prefix,
    split_on, join_with, lemma_split_join, str_lt, str_starts_with, find_char, substring,
    split_char,
};

verus! {

/// An entry associates a path (first component) with a blob hash (second
/// component).
pub type EntrySeq = Seq<(Seq<char>, Seq<char>)>;

/// Both fields of the entry can stand in the tab- and newline-delimited
/// record format.
pub open spec fn entry_plain(e: (Seq<char>, Seq<char>)) -> bool {
    is_plain(e.0) && is_plain(e.1)
}

pub open spec fn entries_plain(s: EntrySeq) -> bool {
    forall|i: int| 0 <= i < s.len() ==> entry_plain(#[trigger] s[i])
}

/// Paths occur in strictly increasing lexicographic order; in particular
/// each path occurs at most once.
pub open spec fn entries_sorted(s: EntrySeq) -> bool {
    forall|i: int, j: int| 0 <= i < j < s.len() ==> lex_lt(#[trigger] s[i].0, #[trigger] s[j].0)
}

pub open spec fn entries_wf(s: EntrySeq) -> bool {
    entries_sorted(s) && entries_plain(s)
}

pub open spec fn entries_unique(s: EntrySeq) -> bool {
    forall|i: int, j: int| 0 <= i < j < s.len() ==> (#[trigger] s[i].0) != (#[trigger] s[j].0)
}

pub proof fn lemma_sorted_unique(s: EntrySeq)
    requires
        entries_sorted(s),
    ensures
        entries_unique(s),
{
    assert forall|i: int, j: int| 0 <= i < j < s.len() implies (#[trigger] s[i].0) != (
    #[trigger] s[j].0) by {
        lemma_lex_irrefl(s[i].0);
    }
}

/// Some entry carries this path.
pub open spec fn has_key(s: EntrySeq, p: Seq<char>) -> bool {
    exists|i: int| 0 <= i < s.len() && (#[trigger] s[i]).0 == p
}

/// The path-to-hash mapping that the entries describe.
pub open spec fn as_map(s: EntrySeq) -> Map<Seq<char>, Seq<char>> {
    Map::new(
        |p: Seq<char>| has_key(s, p),
        |p: Seq<char>| s[choose|i: int| 0 <= i < s.len() && (#[trigger] s[i]).0 == p].1,
    )
}

pub proof fn lemma_as_map_get(s: EntrySeq, i: int)
    requires
        entries_unique(s),
        0 <= i < s.len(),
    ensures
        as_map(s).contains_key(s[i].0),
        as_map(s)[s[i].0] == s[i].1,
{
    assert(has_key(s, s[i].0));
    let j = choose|j: int| 0 <= j < s.len() && (#[trigger] s[j]).0 == s[i].0;
    assert(j == i);
}

/// Inserts `(p, h)` into a sorted entry sequence, keeping the order and
/// replacing any entry already carrying the path `p`.
pub open spec fn insert_entry(s: EntrySeq, p: Seq<char>, h: Seq<char>) -> EntrySeq
    decreases s.len(),
{
    if s.len() == 0 {
        seq![(p, h)]
    } else if s[0].0 == p {
        seq![(p, h)] + s.drop_first()
    } else if lex_lt(p, s[0].0) {
        seq![(p, h)] + s
    } else {
        seq![s[0]] + insert_entry(s.drop_first(), p, h)
    }
}

/// Every entry of the insertion result is the new pair or an original; the
/// new pair is present; every original either carried `p` or is still
/// present.
pub proof fn lemma_insert_entry_elems(s: EntrySeq, p: Seq<char>, h: Seq<char>)
    ensures
        forall|j: int|
            0 <= j < insert_entry(s, p, h).len() ==> ((#[trigger] insert_entry(s, p, h)[j]) == (p,
            h) || s.contains(insert_entry(s, p, h)[j])),
        insert_entry(s, p, h).contains((p, h)),
        forall|i: int|
            0 <= i < s.len() ==> ((#[trigger] s[i]).0 == p || insert_entry(s, p, h).contains(
                s[i],
            )),
    decreases s.len(),
{
    let r = insert_entry(s, p, h);
    if s.len() == 0 {
        assert(r[0] == (p, h));
    } else if s[0].0 == p {
        assert(r[0] == (p, h));
        assert forall|j: int| 0 <= j < r.len() implies ((#[trigger] r[j]) == (p, h)
            || s.contains(r[j])) by {
            if j > 0 {
                assert(r[j] == s[j]);
            }
        }
        assert forall|i: int| 0 <= i < s.len() implies ((#[trigger] s[i]).0 == p || r.contains(
            s[i],
        )) by {
            if i > 0 {
                assert(r[i] == s[i]);
            }
        }
    } else if lex_lt(p, s[0].0) {
        assert(r[0] == (p, h));
        assert forall|j: int| 0 <= j < r.len() implies ((#[trigger] r[j]) == (p, h)
            || s.contains(r[j])) by {
            if j > 0 {
                assert(r[j] == s[j - 1]);
            }
        }
        assert forall|i: int| 0 <= i < s.len() implies ((#[trigger] s[i]).0 == p || r.contains(
            s[i],
        )) by {
            assert(r[i + 1] == s[i]);
        }
    } else {
        lemma_insert_entry_elems(s.drop_first(), p, h);
        let t = insert_entry(s.drop_first(), p, h);
        assert(r == seq![s[0]] + t);
        assert forall|j: int| 0 <= j < r.len() implies ((#[trigger] r[j]) == (p, h)
            || s.contains(r[j])) by {
            if j == 0 {
                assert(r[0] == s[0]);
                assert(s.contains(s[0]));
            } else {
                assert(r[j] == t[j - 1]);
                if t[j - 1] == (p, h) {
                } else {
                    let i = choose|i: int|
                        0 <= i < s.drop_first().len() && s.drop_first()[i] == t[j - 1];
                    assert(s[i + 1] == t[j - 1]);
                }
            }
        }
        assert(t.contains((p, h)));
        let jw = choose|jw: int| 0 <= jw < t.len() && t[jw] == (p, h);
        assert(r[jw + 1] == (p, h));
        assert(r.contains((p, h)));
        assert forall|i: int| 0 <= i < s.len() implies ((#[trigger] s[i]).0 == p || r.contains(
            s[i],
        )) by {
            if i == 0 {
                assert(r[0] == s[0]);
            } else {
                assert(s.drop_first()[i - 1] == s[i]);
                if s[i].0 != p {
                    let jj = choose|jj: int| 0 <= jj < t.len() && t[jj] == s.drop_first()[i - 1];
                    assert(r[jj + 1] == s[i]);
                }
            }
        }
    }
}

pub proof fn lemma_insert_entry_sorted(s: EntrySeq, p: Seq<char>, h: Seq<char>)
    requires
        entries_sorted(s),
    ensures
        entries_sorted(insert_entry(s, p, h)),
    decreases s.len(),
{
    let r = insert_entry(s, p, h);
    if s.len() == 0 {
    } else if s[0].0 == p {
        assert forall|i: int, j: int| 0 <= i < j < r.len() implies lex_lt(
            (#[trigger] r[i]).0,
            (#[trigger] r[j]).0,
        ) by {
            assert(r[j] == s[j]);
            if i == 0 {
                assert(lex_lt(s[0].0, s[j].0));
            } else {
                assert(r[i] == s[i]);
            }
        }
    } else if lex_lt(p, s[0].0) {
        assert forall|i: int, j: int| 0 <= i < j < r.len() implies lex_lt(
            (#[trigger] r[i]).0,
            (#[trigger] r[j]).0,
        ) by {
            assert(r[j] == s[j - 1]);
            if i == 0 {
                if j == 1 {
                } else {
                    lemma_lex_trans(p, s[0].0, s[j - 1].0);
                }
            } else {
                assert(r[i] == s[i - 1]);
            }
        }
    } else {
        if !lex_lt(s[0].0, p) {
            lemma_lex_connected(p, s[0].0);
            assert(false);
        }
        assert(lex_lt(s[0].0, p));
        lemma_insert_entry_sorted(s.drop_first(), p, h);
        lemma_insert_entry_elems(s.drop_first(), p, h);
        let t = insert_entry(s.drop_first(), p, h);
        assert forall|i: int, j: int| 0 <= i < j < r.len() implies lex_lt(
            (#[trigger] r[i]).0,
            (#[trigger] r[j]).0,
        ) by {
            assert(r[j] == t[j - 1]);
            if i == 0 {
                assert(r[0] == s[0]);
                if t[j - 1] == (p, h) {
                } else {
                    let w = choose|w: int|
                        0 <= w < s.drop_first().len() && s.drop_first()[w] == t[j - 1];
                    assert(s[w + 1] == t[j - 1]);
                    assert(lex_lt(s[0].0, s[w + 1].0));
                }
            } else {
                assert(r[i] == t[i - 1]);
            }
        }
    }
}

pub proof fn lemma_insert_entry_plain(s: EntrySeq, p: Seq<char>, h: Seq<char>)
    requires
        entries_plain(s),
        is_plain(p),
        is_plain(h),
    ensures
        entries_plain(insert_entry(s, p, h)),
{
    lemma_insert_entry_elems(s, p, h);
    let r = insert_entry(s, p, h);
    assert forall|j: int| 0 <= j < r.len() implies entry_plain(#[trigger] r[j]) by {
        if r[j] == (p, h) {
        } else {
            let i = choose|i: int| 0 <= i < s.len() && s[i] == r[j];
            assert(entry_plain(s[i]));
        }
    }
}

/// Inserting an entry changes the described mapping by exactly that
/// association.
pub proof fn lemma_insert_entry_map(s: EntrySeq, p: Seq<char>, h: Seq<char>)
    requires
        entries_sorted(s),
    ensures
        as_map(insert_entry(s, p, h)) == as_map(s).insert(p, h),
{
    let r = insert_entry(s, p, h);
    lemma_sorted_unique(s);
    lemma_insert_entry_sorted(s, p, h);
    lemma_sorted_unique(r);
    lemma_insert_entry_elems(s, p, h);
    assert forall|q: Seq<char>| #[trigger] as_map(r).contains_key(q) implies as_map(s).insert(
        p,
        h,
    ).contains_key(q) by {
        let j = choose|j: int| 0 <= j < r.len() && (#[trigger] r[j]).0 == q;
        if r[j] == (p, h) {
        } else {
            let i = choose|i: int| 0 <= i < s.len() && s[i] == r[j];
            assert(s[i].0 == q);
            assert(has_key(s, q));
        }
    }
    assert forall|q: Seq<char>| #[trigger] as_map(s).insert(p, h).contains_key(q) implies as_map(
        r,
    ).contains_key(q) by {
        if q == p {
            let j = choose|j: int| 0 <= j < r.len() && r[j] == (p, h);
            assert(r[j].0 == p);
            assert(has_key(r, q));
        } else {
            let i = choose|i: int| 0 <= i < s.len() && (#[trigger] s[i]).0 == q;
            assert(s[i].0 != p);
            assert(r.contains(s[i]));
            let j = choose|j: int| 0 <= j < r.len() && r[j] == s[i];
            assert(r[j].0 == q);
            assert(has_key(r, q));
        }
    }
    assert forall|q: Seq<char>|
        as_map(r).contains_key(q) && as_map(s).insert(p, h).contains_key(q) implies as_map(r)[q]
        == as_map(s).insert(p, h)[q] by {
        let j = choose|j: int| 0 <= j < r.len() && (#[trigger] r[j]).0 == q;
        lemma_as_map_get(r, j);
        if q == p {
            let jw = choose|jw: int| 0 <= jw < r.len() && r[jw] == (p, h);
            assert(r[jw].0 == p);
            if jw != j {
                if jw < j {
                    assert(r[jw].0 != r[j].0);
                } else {
                    assert(r[j].0 != r[jw].0);
                }
                assert(false);
            }
            assert(as_map(r)[q] == h);
        } else {
            assert(r[j] != (p, h));
            let i = choose|i: int| 0 <= i < s.len() && s[i] == r[j];
            lemma_as_map_get(s, i);
            assert(as_map(r)[q] == s[i].1);
        }
    }
    assert(as_map(r) =~= as_map(s).insert(p, h));
}

/// When the new path follows every present path, insertion appends.
pub proof fn lemma_insert_entry_append(s: EntrySeq, p: Seq<char>, h: Seq<char>)
    requires
        entries_sorted(s),
        forall|i: int| 0 <= i < s.len() ==> lex_lt((#[trigger] s[i]).0, p),
    ensures
        insert_entry(s, p, h) == s.push((p, h)),
    decreases s.len(),
{
    if s.len() == 0 {
        assert(insert_entry(s, p, h) =~= s.push((p, h)));
    } else {
        lemma_lex_irrefl(s[0].0);
        assert(s[0].0 != p);
        if lex_lt(p, s[0].0) {
            lemma_lex_trans(p, s[0].0, p);
            lemma_lex_irrefl(p);
            assert(false);
        }
        lemma_insert_entry_append(s.drop_first(), p, h);
        assert(insert_entry(s, p, h) =~= s.push((p, h)));
    }
}

/// Where the scan for the insertion point of `p` stops at position `k`, the
/// insertion result takes a concrete concatenated shape.
pub proof fn lemma_insert_entry_at(s: EntrySeq, p: Seq<char>, h: Seq<char>, k: int)
    requires
        entries_sorted(s),
        0 <= k <= s.len(),
        forall|i: int| 0 <= i < k ==> lex_lt((#[trigger] s[i]).0, p),
        k < s.len() ==> (s[k].0 == p || lex_lt(p, s[k].0)),
    ensures
        insert_entry(s, p, h) == if k < s.len() && s[k].0 == p {
            s.take(k) + seq![(p, h)] + s.skip(k + 1)
        } else {
            s.take(k) + seq![(p, h)] + s.skip(k)
        },
    decreases k,
{
    if k == 0 {
        if s.len() == 0 {
            assert(insert_entry(s, p, h) =~= s.take(0) + seq![(p, h)] + s.skip(0));
        } else if s[0].0 == p {
            assert(insert_entry(s, p, h) =~= s.take(0) + seq![(p, h)] + s.skip(1));
        } else {
            assert(lex_lt(p, s[0].0));
            assert(insert_entry(s, p, h) =~= s.take(0) + seq![(p, h)] + s.skip(0));
        }
    } else {
        assert(s.len() > 0);
        assert(lex_lt(s[0].0, p));
        lemma_lex_irrefl(s[0].0);
        assert(s[0].0 != p);
        if lex_lt(p, s[0].0) {
            lemma_lex_trans(p, s[0].0, p);
            lemma_lex_irrefl(p);
            assert(false);
        }
        let d = s.drop_first();
        assert(forall|i: int| 0 <= i < k - 1 ==> lex_lt((#[trigger] d[i]).0, p));
        assert(k - 1 < d.len() ==> (d[k - 1].0 == p || lex_lt(p, d[k - 1].0)));
        lemma_insert_entry_at(d, p, h, k - 1);
        if k < s.len() && s[k].0 == p {
            assert(d[k - 1].0 == p);
            assert(seq![s[0]] + (d.take(k - 1) + seq![(p, h)] + d.skip(k)) =~= s.take(k) + seq![
                (p, h),
            ] + s.skip(k + 1));
        } else {
            assert(seq![s[0]] + (d.take(k - 1) + seq![(p, h)] + d.skip(k - 1)) =~= s.take(k)
                + seq![(p, h)] + s.skip(k));
        }
    }
}

/// Overlays staged `(path, hash)` pairs onto a base entry sequence, in
/// order; a later pair for the same path wins.
pub open spec fn overlay_entries(s: EntrySeq, pairs: EntrySeq) -> EntrySeq
    decreases pairs.len(),
{
    if pairs.len() == 0 {
        s
    } else {
        insert_entry(overlay_entries(s, pairs.drop_last()), pairs.last().0, pairs.last().1)
    }
}

/// The same overlay, described directly on mappings.
pub open spec fn overlay_map(m: Map<Seq<char>, Seq<char>>, pairs: EntrySeq) -> Map<
    Seq<char>,
    Seq<char>,
>
    decreases pairs.len(),
{
    if pairs.len() == 0 {
        m
    } else {
        overlay_map(m, pairs.drop_last()).insert(pairs.last().0, pairs.last().1)
    }
}

pub proof fn lemma_overlay_entries_sorted(s: EntrySeq, pairs: EntrySeq)
    requires
        entries_sorted(s),
    ensures
        entries_sorted(overlay_entries(s, pairs)),
    decreases pairs.len(),
{
    if pairs.len() > 0 {
        lemma_overlay_entries_sorted(s, pairs.drop_last());
        lemma_insert_entry_sorted(
            overlay_entries(s, pairs.drop_last()),
            pairs.last().0,
            pairs.last().1,
        );
    }
}

pub proof fn lemma_overlay_entries_plain(s: EntrySeq, pairs: EntrySeq)
    requires
        entries_plain(s),
        entries_plain(pairs),
    ensures
        entries_plain(overlay_entries(s, pairs)),
    decreases pairs.len(),
{
    if pairs.len() > 0 {
        lemma_overlay_entries_plain(s, pairs.drop_last());
        assert(entry_plain(pairs.last()));
        lemma_insert_entry_plain(
            overlay_entries(s, pairs.drop_last()),
            pairs.last().0,
            pairs.last().1,
        );
    }
}

/// The mapping described by an overlay of entries is the overlay of the
/// mappings.
pub proof fn lemma_overlay_entries_map(s: EntrySeq, pairs: EntrySeq)
    requires
        entries_sorted(s),
    ensures
        as_map(overlay_entries(s, pairs)) == overlay_map(as_map(s), pairs),
    decreases pairs.len(),
{
    if pairs.len() > 0 {
        lemma_overlay_entries_map(s, pairs.drop_last());
        lemma_overlay_entries_sorted(s, pairs.drop_last());
        lemma_insert_entry_map(
            overlay_entries(s, pairs.drop_last()),
            pairs.last().0,
            pairs.last().1,
        );
    }
}

/// The tag and separator that open every tree record.
pub open spec fn blob_prefix() -> Seq<char> {
    seq!['b', 'l', 'o', 'b', '\t']
}

/// One serialized tree record: the tag, the hash, then the path,
/// tab-separated.
pub open spec fn tree_line(e: (Seq<char>, Seq<char>)) -> Seq<char> {
    blob_prefix() + e.1 + seq!['\t'] + e.0
}

/// The serialized text of a tree: its records joined by newlines.
pub open spec fn serialize_tree_entries(s: EntrySeq) -> Seq<char> {
    join_with(s.map_values(|e: (Seq<char>, Seq<char>)| tree_line(e)), '\n')
}

/// Reads one record back: the tagged line yields its `(path, hash)` pair;
/// anything else yields nothing.
pub open spec fn parse_tree_line(line: Seq<char>) -> Option<(Seq<char>, Seq<char>)> {
    if !has_prefix(line, blob_prefix()) {
        None
    } else {
        let rest = line.skip(5);
        match rest.index_of_first('\t') {
            None => None,
            Some(j) => {
                let h = rest.take(j);
                let p = rest.skip(j + 1);
                if p.contains('\t') || p.contains('\n') || h.contains('\n') {
                    None
                } else {
                    Some((p, h))
                }
            },
        }
    }
}

/// The tree described by a sequence of record lines, later records winning
/// over earlier ones for the same path; unreadable lines are passed over.
pub open spec fn tree_from_lines(lines: Seq<Seq<char>>) -> EntrySeq
    decreases lines.len(),
{
    if lines.len() == 0 {
        Seq::empty()
    } else {
        let rest = tree_from_lines(lines.drop_last());
        match parse_tree_line(lines.last()) {
            Some(e) => insert_entry(rest, e.0, e.1),
            None => rest,
        }
    }
}

/// The tree described by a serialized text.
pub open spec fn parse_tree_text(text: Seq<char>) -> EntrySeq {
    tree_from_lines(split_on(text, '\n'))
}

/// Whatever a record line parses to is fit for a tree entry.
pub proof fn lemma_parse_tree_line_plain(line: Seq<char>)
    ensures
        match parse_tree_line(line) {
            Some(e) => entry_plain(e),
            None => true,
        },
{
    if has_prefix(line, blob_prefix()) {
        let rest = line.skip(5);
        rest.index_of_first_ensures('\t');
        match rest.index_of_first('\t') {
            None => {},
            Some(j) => {
                let h = rest.take(j);
                let p = rest.skip(j + 1);
                if !(p.contains('\t') || p.contains('\n') || h.contains('\n')) {
                    assert(!h.contains('\t')) by {
                        if h.contains('\t') {
                            let k = choose|k: int| 0 <= k < h.len() && h[k] == '\t';
                            assert(rest[k] == '\t');
                        }
                    }
                }
            },
        }
    }
}

/// Every tree built from lines is well formed.
pub proof fn lemma_tree_from_lines_wf(lines: Seq<Seq<char>>)
    ensures
        entries_wf(tree_from_lines(lines)),
    decreases lines.len(),
{
    if lines.len() == 0 {
    } else {
        lemma_tree_from_lines_wf(lines.drop_last());
        let rest = tree_from_lines(lines.drop_last());
        match parse_tree_line(lines.last()) {
            Some(e) => {
                lemma_parse_tree_line_plain(lines.last());
                lemma_insert_entry_sorted(rest, e.0, e.1);
                lemma_insert_entry_plain(rest, e.0, e.1);
            },
            None => {},
        }
    }
}

/// A record line never contains a newline.
pub proof fn lemma_tree_line_plain(e: (Seq<char>, Seq<char>))
    requires
        entry_plain(e),
    ensures
        !tree_line(e).contains('\n'),
{
    let line = tree_line(e);
    if line.contains('\n') {
        let i = choose|i: int| 0 <= i < line.len() && line[i] == '\n';
        if i < 5 {
            assert(blob_prefix()[i] == '\n');
            assert(false);
        } else if i < 5 + e.1.len() {
            assert(e.1[i - 5] == '\n');
            assert(false);
        } else if i == 5 + e.1.len() {
            assert(false);
        } else {
            assert(e.0[i - 6 - e.1.len()] == '\n');
            assert(false);
        }
    }
}

/// Reading a serialized record gives the entry back.
pub proof fn lemma_parse_tree_line_round_trip(e: (Seq<char>, Seq<char>))
    requires
        entry_plain(e),
    ensures
        parse_tree_line(tree_line(e)) == Some((e.0, e.1)),
{
    let line = tree_line(e);
    assert(has_prefix(line, blob_prefix()));
    let rest = line.skip(5);
    assert(rest =~= e.1 + seq!['\t'] + e.0);
    assert(rest[e.1.len() as int] == '\t');
    assert(rest.contains('\t'));
    rest.index_of_first_ensures('\t');
    let j = rest.index_of_first('\t').unwrap();
    if j < e.1.len() {
        assert(rest[j] == e.1[j]);
        assert(e.1.contains('\t'));
        assert(false);
    }
    if j > e.1.len() {
        assert(rest[e.1.len() as int] != '\t');
        assert(false);
    }
    assert(j == e.1.len());
    assert(rest.take(j) =~= e.1);
    assert(rest.skip(j + 1) =~= e.0);
}

/// Serializing a well-formed tree and parsing the text gives the tree back.
pub proof fn lemma_tree_round_trip(s: EntrySeq)
    requires
        entries_wf(s),
    ensures
        parse_tree_text(serialize_tree_entries(s)) == s,
{
    let lines = s.map_values(|e: (Seq<char>, Seq<char>)| tree_line(e));
    if s.len() == 0 {
        assert(lines.len() == 0);
        assert(serialize_tree_entries(s) == Seq::<char>::empty());
        let pieces = split_on(Seq::<char>::empty(), '\n');
        assert(pieces =~~= seq![Seq::<char>::empty()]);
        assert(parse_tree_line(Seq::<char>::empty()) is None);
        assert(pieces.len() == 1);
        assert(pieces.last() == Seq::<char>::empty());
        assert(pieces.drop_last() =~~= Seq::<Seq<char>>::empty());
        assert(tree_from_lines(pieces.drop_last()) == Seq::<(Seq<char>, Seq<char>)>::empty());
        assert(tree_from_lines(pieces) == Seq::<(Seq<char>, Seq<char>)>::empty());
        assert(s =~= Seq::<(Seq<char>, Seq<char>)>::empty());
    } else {
        assert forall|k: int| 0 <= k < lines.len() implies !(#[trigger] lines[k]).contains(
            '\n',
        ) by {
            assert(entry_plain(s[k]));
            lemma_tree_line_plain(s[k]);
        }
        lemma_split_join(lines, '\n');
        lemma_tree_from_entry_lines(s);
    }
}

/// Folding the record lines of well-formed entries rebuilds those entries.
pub proof fn lemma_tree_from_entry_lines(s: EntrySeq)
    requires
        entries_wf(s),
    ensures
        tree_from_lines(s.map_values(|e: (Seq<char>, Seq<char>)| tree_line(e))) == s,
    decreases s.len(),
{
    let f = |e: (Seq<char>, Seq<char>)| tree_line(e);
    let lines = s.map_values(f);
    if s.len() == 0 {
        assert(tree_from_lines(lines) =~= s);
    } else {
        let d = s.drop_last();
        assert(entries_wf(d));
        lemma_tree_from_entry_lines(d);
        assert(lines.drop_last() =~= d.map_values(f));
        assert(lines.last() == tree_line(s.last()));
        assert(entry_plain(s.last()));
        lemma_parse_tree_line_round_trip(s.last());
        assert(parse_tree_line(lines.last()) == Some((s.last().0, s.last().1)));
        assert forall|i: int| 0 <= i < d.len() implies lex_lt((#[trigger] d[i]).0, s.last().0) by {
            assert(d[i] == s[i]);
            assert(lex_lt(s[i].0, s[s.len() - 1].0));
        }
        lemma_insert_entry_append(d, s.last().0, s.last().1);
        assert(tree_from_lines(lines) == d.push((s.last().0, s.last().1)));
        assert(d.push((s.last().0, s.last().1)) =~= s);
    }
}

/// One snapshot of tracked files: a mapping from file path to blob hash,
/// held as entries sorted by path.
pub struct Tree {
    entries: Vec<(String, String)>,
}

impl Tree {
    /// The entries as mathematical pairs, in storage order.
    pub closed spec fn entries_view(&self) -> EntrySeq {
        Seq::new(self.entries@.len(), |i: int| (self.entries@[i].0@, self.entries@[i].1@))
    }

    /// Sorted by path, every field fit for the record format.
    pub open spec fn wf(&self) -> bool {
        entries_wf(self.entries_view())
    }

    /// The path-to-hash mapping this tree describes.
    pub open spec fn tree_map(&self) -> Map<Seq<char>, Seq<char>> {
        as_map(self.entries_view())
    }

    /// The empty snapshot.
    pub fn new() -> (t: Tree)
        ensures
            t.wf(),
            t.entries_view() == Seq::<(Seq<char>, Seq<char>)>::empty(),
    {
        let t = Tree { entries: Vec::new() };
        proof {
            assert(t.entries_view() =~= Seq::<(Seq<char>, Seq<char>)>::empty());
        }
        t
    }

    pub fn len(&self) -> (n: usize)
        ensures
            n == self.entries_view().len(),
    {
        self.entries.len()
    }

    /// The entry at a position, as owned values.
    pub fn entry_at(&self, i: usize) -> (e: (String, String))
        requires
            i < self.entries_view().len(),
        ensures
            (e.0@, e.1@) == self.entries_view()[i as int],
    {
        let pair = &self.entries[i];
        (pair.0.clone(), pair.1.clone())
    }

    /// The hash recorded for a path, if any.
    pub fn get(&self, path: &String) -> (r: Option<String>)
        requires
            self.wf(),
        ensures
            match r {
                Some(h) => self.tree_map().contains_key(path@) && h@ == self.tree_map()[path@],
                None => !self.tree_map().contains_key(path@),
            },
    {
        let ghost s = self.entries_view();
        let mut i: usize = 0;
        while i < self.entries.len()
            invariant
                0 <= i <= self.entries.len(),
                s == self.entries_view(),
                entries_wf(s),
                forall|j: int| 0 <= j < i ==> (#[trigger] s[j]).0 != path@,
            decreases self.entries.len() - i,
        {
            if self.entries[i].0 == *path {
                proof {
                    lemma_sorted_unique(s);
                    assert(s[i as int].0 == path@);
                    lemma_as_map_get(s, i as int);
                }
                return Some(self.entries[i].1.clone());
            }
            i = i + 1;
        }
        proof {
            if has_key(s, path@) {
                let j = choose|j: int| 0 <= j < s.len() && (#[trigger] s[j]).0 == path@;
                assert(false);
            }
        }
        None
    }

    /// Records a hash for a path, replacing any earlier record for it and
    /// keeping the entries sorted.
    pub fn insert(&mut self, path: String, hash: String)
        requires
            old(self).wf(),
            is_plain(path@),
            is_plain(hash@),
        ensures
            final(self).wf(),
            final(self).entries_view() == insert_entry(old(self).entries_view(), path@, hash@),
            final(self).tree_map() == old(self).tree_map().insert(path@, hash@),
    {
        let ghost s = old(self).entries_view();
        let mut k: usize = 0;
        while k < self.entries.len() && str_lt(self.entries[k].0.as_str(), path.as_str())
            invariant
                0 <= k <= self.entries.len(),
                self == old(self),
                s == self.entries_view(),
                forall|i: int| 0 <= i < k ==> lex_lt((#[trigger] s[i]).0, path@),
            decreases self.entries.len() - k,
        {
            proof {
                assert(s[k as int].0 == self.entries@[k as int].0@);
            }
            k = k + 1;
        }
        let ghost kk = k as int;
        let replace: bool = k < self.entries.len() && self.entries[k].0 == path;
        proof {
            if kk < s.len() && !(s[kk].0 == path@) {
                assert(!lex_lt(s[kk].0, path@));
                if !lex_lt(path@, s[kk].0) {
                    lemma_lex_connected(path@, s[kk].0);
                    assert(false);
                }
            }
            lemma_insert_entry_at(s, path@, hash@, kk);
        }
        if replace {
            let _old_entry = self.entries.remove(k);
            self.entries.insert(k, (path, hash));
            proof {
                assert(self.entries_view() =~= s.take(kk) + seq![(path@, hash@)] + s.skip(kk + 1));
            }
        } else {
            self.entries.insert(k, (path, hash));
            proof {
                assert(self.entries_view() =~= s.take(kk) + seq![(path@, hash@)] + s.skip(kk));
            }
        }
        proof {
            lemma_insert_entry_sorted(s, path@, hash@);
            lemma_insert_entry_plain(s, path@, hash@);
            lemma_insert_entry_map(s, path@, hash@);
        }
    }

    /// The tracked paths, in storage order.
    pub fn paths(&self) -> (r: Vec<String>)
        ensures
            r.deep_view() == self.entries_view().map_values(|e: (Seq<char>, Seq<char>)| e.0),
    {
        let mut r: Vec<String> = Vec::new();
        let mut i: usize = 0;
        proof {
            let keys = self.entries_view().map_values(|e: (Seq<char>, Seq<char>)| e.0);
            assert(r.deep_view() =~~= keys.take(0int));
        }
        while i < self.entries.len()
            invariant
                0 <= i <= self.entries.len(),
                r.deep_view() == self.entries_view().map_values(
                    |e: (Seq<char>, Seq<char>)| e.0,
                ).take(i as int),
            decreases self.entries.len() - i,
        {
            let ghost before = r.deep_view();
            r.push(self.entries[i].0.clone());
            proof {
                let keys = self.entries_view().map_values(|e: (Seq<char>, Seq<char>)| e.0);
                assert(r.deep_view() =~= before.push(self.entries@[i as int].0@));
                assert(keys.take(i + 1) =~= keys.take(i as int).push(keys[i as int]));
            }
            i = i + 1;
        }
        proof {
            let keys = self.entries_view().map_values(|e: (Seq<char>, Seq<char>)| e.0);
            assert(keys.take(self.entries@.len() as int) =~= keys);
        }
        r
    }

    /// The serialized text of this snapshot: its records joined by
    /// newlines.
    pub fn serialize(&self) -> (r: String)
        ensures
            r@ == serialize_tree_entries(self.entries_view()),
    {
        let mut lines: Vec<String> = Vec::new();
        let mut i: usize = 0;
        proof {
            reveal_strlit("blob\t");
            reveal_strlit("\t");
            assert("blob\t"@ =~= blob_prefix());
            assert("\t"@ =~= seq!['\t']);
            let lns = self.entries_view().map_values(|e: (Seq<char>, Seq<char>)| tree_line(e));
            assert(lines.deep_view() =~~= lns.take(0int));
        }
        while i < self.entries.len()
            invariant
                0 <= i <= self.entries.len(),
                "blob\t"@ == blob_prefix(),
                "\t"@ == seq!['\t'],
                lines.deep_view() == self.entries_view().map_values(
                    |e: (Seq<char>, Seq<char>)| tree_line(e),
                ).take(i as int),
            decreases self.entries.len() - i,
        {
            let ghost before = lines.deep_view();
            let mut line = String::new();
            line.append("blob\t");
            line.append(self.entries[i].1.as_str());
            line.append("\t");
            line.append(self.entries[i].0.as_str());
            proof {
                assert(line@ =~= tree_line(self.entries_view()[i as int]));
            }
            lines.push(line);
            proof {
                let lns = self.entries_view().map_values(
                    |e: (Seq<char>, Seq<char>)| tree_line(e),
                );
                assert(lines.deep_view() =~= before.push(tree_line(
                    self.entries_view()[i as int],
                )));
                assert(lns.take(i + 1) =~= lns.take(i as int).push(lns[i as int]));
            }
            i = i + 1;
        }
        proof {
            let lns = self.entries_view().map_values(|e: (Seq<char>, Seq<char>)| tree_line(e));
            assert(lns.take(self.entries@.len() as int) =~= lns);
        }
        crate::chars::join_lines(&lines)
    }
}

/// Reads one record line; yields the owned `(path, hash)` pair of a
/// well-formed record and nothing otherwise.
pub fn parse_line(line: &String) -> (r: Option<(String, String)>)
    ensures
        match r {
            Some(ph) => parse_tree_line(line@) == Some((ph.0@, ph.1@)) && is_plain(ph.0@)
                && is_plain(ph.1@),
            None => parse_tree_line(line@) is None,
        },
{
    let tagged: bool = str_starts_with(line.as_str(), "blob\t");
    proof {
        reveal_strlit("blob\t");
        assert("blob\t"@ =~= blob_prefix());
    }
    if !tagged {
        return None;
    }
    let len: usize = line.as_str().unicode_len();
    let ghost rest = line@.skip(5);
    proof {
        rest.index_of_first_ensures('\t');
    }
    match find_char(line.as_str(), 5, '\t') {
        None => {
            proof {
                assert(!rest.contains('\t')) by {
                    if rest.contains('\t') {
                        let k = choose|k: int| 0 <= k < rest.len() && rest[k] == '\t';
                        assert(line@[k + 5] == '\t');
                    }
                }
                if rest.index_of_first('\t') is Some {
                    assert(false);
                }
            }
            None
        },
        Some(j) => {
            proof {
                assert(rest[j - 5] == '\t');
                assert(rest.contains('\t'));
                let io = rest.index_of_first('\t').unwrap();
                if io < j - 5 {
                    assert(line@[io + 5] == '\t');
                    assert(false);
                }
                if io > j - 5 {
                    assert(rest[j - 5] != '\t');
                    assert(false);
                }
                assert(io == j - 5);
            }
            let h: String = substring(line.as_str(), 5, j);
            let p: String = substring(line.as_str(), j + 1, len);
            proof {
                assert(h@ =~= rest.take(j - 5));
                assert(p@ =~= rest.skip(j - 5 + 1));
            }
            match find_char(line.as_str(), j + 1, '\t') {
                Some(k2) => {
                    proof {
                        assert(p@[k2 - (j + 1)] == '\t');
                        assert(p@.contains('\t'));
                    }
                    None
                },
                None => {
                    proof {
                        assert(!p@.contains('\t')) by {
                            if p@.contains('\t') {
                                let k = choose|k: int| 0 <= k < p@.len() && p@[k] == '\t';
                                assert(line@[k + j + 1] == '\t');
                            }
                        }
                    }
                    match find_char(line.as_str(), 5, '\n') {
                        Some(k3) => {
                            proof {
                                if k3 < j {
                                    assert(h@[k3 - 5] == '\n');
                                    assert(h@.contains('\n'));
                                } else {
                                    assert(line@[j as int] == '\t');
                                    assert(k3 != j);
                                    assert(p@[k3 - (j + 1)] == '\n');
                                    assert(p@.contains('\n'));
                                }
                            }
                            None
                        },
                        None => {
                            proof {
                                assert(!p@.contains('\n')) by {
                                    if p@.contains('\n') {
                                        let k = choose|k: int| 0 <= k < p@.len() && p@[k] == '\n';
                                        assert(line@[k + j + 1] == '\n');
                                    }
                                }
                                assert(!h@.contains('\n')) by {
                                    if h@.contains('\n') {
                                        let k = choose|k: int| 0 <= k < h@.len() && h@[k] == '\n';
                                        assert(line@[k + 5] == '\n');
                                    }
                                }
                                assert(!h@.contains('\t')) by {
                                    if h@.contains('\t') {
                                        let k = choose|k: int| 0 <= k < h@.len() && h@[k] == '\t';
                                        assert(line@[k + 5] == '\t');
                                    }
                                }
                            }
                            Some((p, h))
                        },
                    }
                },
            }
        },
    }
}

/// Reads a serialized snapshot back into a tree; unreadable lines are
/// passed over, later records win for a repeated path.
pub fn parse_tree(text: &String) -> (t: Tree)
    ensures
        t.wf(),
        t.entries_view() == parse_tree_text(text@),
{
    let lines: Vec<String> = split_char(text.as_str(), '\n');
    let mut t = Tree::new();
    let mut i: usize = 0;
    proof {
        assert(lines.deep_view().take(0int) =~= Seq::<Seq<char>>::empty());
    }
    while i < lines.len()
        invariant
            0 <= i <= lines.len(),
            lines.deep_view() == split_on(text@, '\n'),
            t.wf(),
            t.entries_view() == tree_from_lines(lines.deep_view().take(i as int)),
        decreases lines.len() - i,
    {
        let ghost dv = lines.deep_view();
        proof {
            assert(dv.take(i + 1).drop_last() =~= dv.take(i as int));
            assert(dv.take(i + 1).last() == dv[i as int]);
        }
        match parse_line(&lines[i]) {
            Some(ph) => {
                let (p, h) = ph;
                t.insert(p, h);
            },
            None => {},
        }
        i = i + 1;
    }
    proof {
        assert(lines.deep_view().take(lines@.len() as int) =~= lines.deep_view());
    }
    t
}

} // verus!
