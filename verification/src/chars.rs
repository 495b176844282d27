//! Character-level utilities for the line- and tab-delimited text formats:
//! a lexicographic order on texts, prefix tests, searching, splitting and
//! joining, together with the laws that connect splitting to joining.

use vstd::prelude::*;
use vstd::string::StrSliceExecFns;

verus! {

/// A text that can stand as a single field of a record: it contains neither
/// the tab that separates fields nor the newline that separates records.
pub open spec fn is_plain(s: Seq<char>) -> bool {
    !s.contains('\t') && !s.contains('\n')
}

/// `p` is a prefix of `s`.
pub open spec fn has_prefix(s: Seq<char>, p: Seq<char>) -> bool {
    p.len() <= s.len() && forall|i: int| 0 <= i < p.len() ==> s[i] == p[i]
}

/// Strict lexicographic order on texts, by code point.
pub open spec fn lex_lt(a: Seq<char>, b: Seq<char>) -> bool
    decreases a.len(),
{
    if b.len() == 0 {
        false
    } else if a.len() == 0 {
        true
    } else if a[0] == b[0] {
        lex_lt(a.drop_first(), b.drop_first())
    } else {
        (a[0] as int) < (b[0] as int)
    }
}

pub proof fn lemma_lex_irrefl(a: Seq<char>)
    ensures
        !lex_lt(a, a),
    decreases a.len(),
{
    if a.len() > 0 {
        lemma_lex_irrefl(a.drop_first());
    }
}

/// Two texts neither of which precedes the other are equal.
pub proof fn lemma_lex_connected(a: Seq<char>, b: Seq<char>)
    requires
        !lex_lt(a, b),
        !lex_lt(b, a),
    ensures
        a == b,
    decreases a.len(),
{
    if b.len() == 0 {
        assert(a.len() == 0);
        assert(a =~= b);
    } else {
        assert(a.len() > 0);
        if a[0] == b[0] {
            lemma_lex_connected(a.drop_first(), b.drop_first());
            assert(a.drop_first().len() == a.len() - 1);
            assert(b.drop_first().len() == b.len() - 1);
            assert forall|i: int| 0 <= i < a.len() implies a[i] == b[i] by {
                if i > 0 {
                    assert(a[i] == a.drop_first()[i - 1]);
                    assert(b[i] == b.drop_first()[i - 1]);
                }
            }
            assert(a =~= b);
        } else {
            assert(false);
        }
    }
}

pub proof fn lemma_lex_trans(a: Seq<char>, b: Seq<char>, c: Seq<char>)
    requires
        lex_lt(a, b),
        lex_lt(b, c),
    ensures
        lex_lt(a, c),
    decreases a.len(),
{
    if a.len() == 0 {
        assert(c.len() > 0);
    } else {
        assert(b.len() > 0 && c.len() > 0);
        if a[0] == b[0] && b[0] == c[0] {
            lemma_lex_trans(a.drop_first(), b.drop_first(), c.drop_first());
        }
    }
}

/// Finds the first occurrence of `c` in `s` at or after position `from`.
pub fn find_char(s: &str, from: usize, c: char) -> (r: Option<usize>)
    requires
        from <= s@.len(),
    ensures
        match r {
            Some(i) => from <= i < s@.len() && s@[i as int] == c && (forall|j: int|
                from <= j < i ==> s@[j] != c),
            None => forall|j: int| from <= j < s@.len() ==> s@[j] != c,
        },
{
    let len: usize = s.unicode_len();
    let mut i: usize = from;
    while i < len
        invariant
            from <= i <= len,
            len == s@.len(),
            forall|j: int| from <= j < i ==> s@[j] != c,
        decreases len - i,
    {
        if s.get_char(i) == c {
            return Some(i);
        }
        i = i + 1;
    }
    None
}

/// The characters of `s` from `from` (inclusive) to `to` (exclusive), as an
/// owned text.
pub fn substring(s: &str, from: usize, to: usize) -> (r: String)
    requires
        from <= to <= s@.len(),
    ensures
        r@ == s@.subrange(from as int, to as int),
{
    s.substring_char(from, to).to_owned()
}

/// Whether `s` starts with `p`.
pub fn str_starts_with(s: &str, p: &str) -> (r: bool)
    ensures
        r == has_prefix(s@, p@),
{
    let plen: usize = p.unicode_len();
    let slen: usize = s.unicode_len();
    if plen > slen {
        return false;
    }
    let mut i: usize = 0;
    while i < plen
        invariant
            0 <= i <= plen,
            plen <= slen,
            plen == p@.len(),
            slen == s@.len(),
            forall|j: int| 0 <= j < i ==> s@[j] == p@[j],
        decreases plen - i,
    {
        if s.get_char(i) != p.get_char(i) {
            assert(s@[i as int] != p@[i as int]);
            return false;
        }
        i = i + 1;
    }
    true
}

/// Whether `a` precedes `b` in the lexicographic order.
pub fn str_lt(a: &str, b: &str) -> (r: bool)
    ensures
        r == lex_lt(a@, b@),
    decreases a@.len(),
{
    let alen: usize = a.unicode_len();
    let blen: usize = b.unicode_len();
    if blen == 0 {
        false
    } else if alen == 0 {
        true
    } else {
        let ca: char = a.get_char(0);
        let cb: char = b.get_char(0);
        if ca == cb {
            let ra: &str = a.substring_char(1, alen);
            let rb: &str = b.substring_char(1, blen);
            assert(ra@ == a@.drop_first());
            assert(rb@ == b@.drop_first());
            str_lt(ra, rb)
        } else {
            assert(ca as int == a@[0] as int && cb as int == b@[0] as int);
            (ca as u32) < (cb as u32)
        }
    }
}

/// The pieces of `s` between occurrences of the separator `c`.  A text with
/// no separator is one piece; every separator ends a piece, so `n`
/// separators give `n + 1` pieces.
pub open spec fn split_on(s: Seq<char>, c: char) -> Seq<Seq<char>>
    decreases s.len(),
{
    if s.len() == 0 {
        seq![Seq::<char>::empty()]
    } else if s[0] == c {
        seq![Seq::<char>::empty()] + split_on(s.drop_first(), c)
    } else {
        let r = split_on(s.drop_first(), c);
        seq![seq![s[0]] + r[0]] + r.drop_first()
    }
}

pub proof fn lemma_split_on_len(s: Seq<char>, c: char)
    ensures
        split_on(s, c).len() >= 1,
    decreases s.len(),
{
    if s.len() > 0 {
        lemma_split_on_len(s.drop_first(), c);
    }
}

/// Splitting a text free of the separator yields that one piece.
pub proof fn lemma_split_on_no_sep(s: Seq<char>, c: char)
    requires
        !s.contains(c),
    ensures
        split_on(s, c) == seq![s],
    decreases s.len(),
{
    if s.len() == 0 {
        assert(s =~= Seq::<char>::empty());
        assert(split_on(s, c) =~~= seq![s]);
    } else {
        assert(s[0] != c);
        assert(!s.drop_first().contains(c)) by {
            if s.drop_first().contains(c) {
                let j = choose|j: int| 0 <= j < s.drop_first().len() && s.drop_first()[j] == c;
                assert(s[j + 1] == c);
            }
        }
        lemma_split_on_no_sep(s.drop_first(), c);
        let r = split_on(s.drop_first(), c);
        assert(r[0] == s.drop_first());
        assert(seq![s[0]] + r[0] =~= s);
        assert(split_on(s, c) =~~= seq![s]);
    }
}

/// Splitting `t + c + rest` where `t` is free of the separator yields `t`
/// followed by the pieces of `rest`.
pub proof fn lemma_split_on_prepend(t: Seq<char>, c: char, rest: Seq<char>)
    requires
        !t.contains(c),
    ensures
        split_on(t + seq![c] + rest, c) == seq![t] + split_on(rest, c),
    decreases t.len(),
{
    let s = t + seq![c] + rest;
    if t.len() == 0 {
        assert(s[0] == c);
        assert(s.drop_first() =~= rest);
        assert(t =~= Seq::<char>::empty());
        assert(split_on(s, c) =~~= seq![t] + split_on(rest, c));
    } else {
        assert(s[0] == t[0]);
        assert(t[0] != c);
        assert(!t.drop_first().contains(c)) by {
            if t.drop_first().contains(c) {
                let j = choose|j: int| 0 <= j < t.drop_first().len() && t.drop_first()[j] == c;
                assert(t[j + 1] == c);
            }
        }
        assert(s.drop_first() =~= t.drop_first() + seq![c] + rest);
        lemma_split_on_prepend(t.drop_first(), c, rest);
        lemma_split_on_len(rest, c);
        let r = split_on(s.drop_first(), c);
        assert(r == seq![t.drop_first()] + split_on(rest, c));
        assert(r[0] == t.drop_first());
        assert(seq![s[0]] + r[0] =~= t);
        assert(r.drop_first() =~= split_on(rest, c));
        assert(split_on(s, c) =~~= seq![t] + split_on(rest, c));
    }
}

/// The pieces joined with the separator `c` between them.
pub open spec fn join_with(parts: Seq<Seq<char>>, c: char) -> Seq<char>
    decreases parts.len(),
{
    if parts.len() == 0 {
        Seq::<char>::empty()
    } else if parts.len() == 1 {
        parts[0]
    } else {
        parts[0] + seq![c] + join_with(parts.drop_first(), c)
    }
}

/// Joining pieces that are free of the separator and splitting the result
/// gives the pieces back.
pub proof fn lemma_split_join(parts: Seq<Seq<char>>, c: char)
    requires
        parts.len() >= 1,
        forall|k: int| 0 <= k < parts.len() ==> !(#[trigger] parts[k]).contains(c),
    ensures
        split_on(join_with(parts, c), c) == parts,
    decreases parts.len(),
{
    if parts.len() == 1 {
        lemma_split_on_no_sep(parts[0], c);
        assert(split_on(join_with(parts, c), c) =~~= parts);
    } else {
        lemma_split_on_prepend(parts[0], c, join_with(parts.drop_first(), c));
        assert(forall|k: int|
            0 <= k < parts.drop_first().len() ==> !(#[trigger] parts.drop_first()[k]).contains(c));
        lemma_split_join(parts.drop_first(), c);
        assert(split_on(join_with(parts, c), c) =~~= parts);
    }
}

/// Appending one more piece extends the join by a separator and that piece.
pub proof fn lemma_join_push(parts: Seq<Seq<char>>, p: Seq<char>, c: char)
    ensures
        join_with(parts.push(p), c) == if parts.len() == 0 {
            p
        } else {
            join_with(parts, c) + seq![c] + p
        },
    decreases parts.len(),
{
    let w = parts.push(p);
    if parts.len() == 0 {
        assert(w[0] == p);
    } else if parts.len() == 1 {
        assert(w.drop_first() =~= seq![p]);
        assert(w[0] == parts[0]);
        assert(join_with(seq![p], c) == p);
        assert(join_with(w, c) == parts[0] + seq![c] + p);
        assert(join_with(parts, c) == parts[0]);
    } else {
        assert(w.drop_first() =~= parts.drop_first().push(p));
        lemma_join_push(parts.drop_first(), p, c);
        assert(join_with(w, c) == w[0] + seq![c] + join_with(parts.drop_first().push(p), c));
        assert(join_with(w, c) =~= join_with(parts, c) + seq![c] + p);
    }
}

/// Splits `s` at every occurrence of `c`.
pub fn split_char(s: &str, c: char) -> (r: Vec<String>)
    ensures
        r.deep_view() == split_on(s@, c),
{
    let len: usize = s.unicode_len();
    let mut r: Vec<String> = Vec::new();
    let mut pos: usize = 0;
    proof {
        assert(r.deep_view() =~~= Seq::<Seq<char>>::empty());
        assert(s@.skip(0) =~= s@);
        assert(Seq::<Seq<char>>::empty() + split_on(s@, c) =~~= split_on(s@, c));
    }
    loop
        invariant
            pos <= len,
            len == s@.len(),
            split_on(s@, c) == r.deep_view() + split_on(s@.skip(pos as int), c),
        decreases len - pos,
    {
        let ghost old_dv = r.deep_view();
        match find_char(s, pos, c) {
            Some(i) => {
                let piece: String = substring(s, pos, i);
                r.push(piece);
                proof {
                    let tok = s@.subrange(pos as int, i as int);
                    assert(!tok.contains(c)) by {
                        if tok.contains(c) {
                            let j = choose|j: int| 0 <= j < tok.len() && tok[j] == c;
                            assert(s@[pos + j] == c);
                        }
                    }
                    assert(s@.skip(pos as int) =~= tok + seq![c] + s@.skip(i + 1));
                    lemma_split_on_prepend(tok, c, s@.skip(i + 1));
                    assert(r.deep_view() =~~= old_dv.push(tok));
                    assert(old_dv.push(tok) + split_on(s@.skip(i + 1), c) =~~= old_dv + (seq![tok]
                        + split_on(s@.skip(i + 1), c)));
                }
                pos = i + 1;
            },
            None => {
                let piece: String = substring(s, pos, len);
                r.push(piece);
                proof {
                    let tok = s@.subrange(pos as int, len as int);
                    assert(tok =~= s@.skip(pos as int));
                    assert(!tok.contains(c)) by {
                        if tok.contains(c) {
                            let j = choose|j: int| 0 <= j < tok.len() && tok[j] == c;
                            assert(s@[pos + j] == c);
                        }
                    }
                    lemma_split_on_no_sep(tok, c);
                    assert(r.deep_view() =~~= old_dv.push(tok));
                    assert(old_dv.push(tok) =~~= old_dv + seq![tok]);
                }
                return r;
            },
        }
    }
}

/// Joins the pieces with a newline between each pair.
pub fn join_lines(parts: &Vec<String>) -> (r: String)
    ensures
        r@ == join_with(parts.deep_view(), '\n'),
{
    let mut r: String = String::new();
    let mut i: usize = 0;
    proof {
        reveal_strlit("\n");
    }
    while i < parts.len()
        invariant
            0 <= i <= parts.len(),
            r@ == join_with(parts.deep_view().take(i as int), '\n'),
            "\n"@ == seq!['\n'],
        decreases parts.len() - i,
    {
        if i > 0 {
            r.append("\n");
        }
        r.append(parts[i].as_str());
        proof {
            let dv = parts.deep_view();
            assert(dv.take(i + 1) =~= dv.take(i as int).push(dv[i as int]));
            lemma_join_push(dv.take(i as int), dv[i as int], '\n');
            if i == 0 {
                assert(dv.take(0int).len() == 0);
            }
        }
        i = i + 1;
    }
    proof {
        assert(parts.deep_view().take(parts.len() as int) =~= parts.deep_view());
    }
    r
}

/// A whitespace character of the persisted HEAD format.
pub open spec fn is_space_char(c: char) -> bool {
    c == ' ' || c == '\t' || c == '\n' || c == '\r'
}

/// A text that carries no information: empty or all whitespace.
pub open spec fn is_blank(s: Seq<char>) -> bool {
    forall|i: int| 0 <= i < s.len() ==> is_space_char(#[trigger] s[i])
}

/// Whether `s` is empty or all whitespace.
pub fn blank_text(s: &str) -> (b: bool)
    ensures
        b == is_blank(s@),
{
    let len: usize = s.unicode_len();
    let mut i: usize = 0;
    while i < len
        invariant
            0 <= i <= len,
            len == s@.len(),
            forall|j: int| 0 <= j < i ==> is_space_char(#[trigger] s@[j]),
        decreases len - i,
    {
        let c: char = s.get_char(i);
        if !(c == ' ' || c == '\t' || c == '\n' || c == '\r') {
            assert(!is_space_char(s@[i as int]));
            return false;
        }
        i = i + 1;
    }
    true
}

/// Whether `s` contains neither a tab nor a newline.
pub fn is_plain_text(s: &str) -> (b: bool)
    ensures
        b == is_plain(s@),
{
    match find_char(s, 0, '\t') {
        Some(i) => {
            proof {
                assert(s@.contains('\t'));
            }
            false
        },
        None => {
            match find_char(s, 0, '\n') {
                Some(i) => {
                    proof {
                        assert(s@.contains('\n'));
                    }
                    false
                },
                None => {
                    proof {
                        assert(!s@.contains('\t')) by {
                            if s@.contains('\t') {
                                let k = choose|k: int| 0 <= k < s@.len() && s@[k] == '\t';
                                assert(s@[k] != '\t');
                            }
                        }
                        assert(!s@.contains('\n')) by {
                            if s@.contains('\n') {
                                let k = choose|k: int| 0 <= k < s@.len() && s@[k] == '\n';
                                assert(s@[k] != '\n');
                            }
                        }
                    }
                    true
                },
            }
        },
    }
}

} // verus!
