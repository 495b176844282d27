//! Commit records: an immutable text linking a tree snapshot, an optional
//! parent commit and a message.  The text holds a `tree` line, a `parent`
//! line only when a parent exists, a blank separator line, then the message.
//! Readers go by the line tags, never by line position alone, so a
//! parentless record is never misread.

use vstd::prelude::*;
use vstd::string::StrSliceExecFns;
use crate::chars::{is_plain, has_prefix, find_char, substring, str_starts_with};

verus! {

pub open spec fn tree_prefix() -> Seq<char> {
    seq!['t', 'r', 'e', 'e', '\t']
}

pub open spec fn parent_prefix() -> Seq<char> {
    seq!['p', 'a', 'r', 'e', 'n', 't', '\t']
}

/// The full text of a commit record.
pub open spec fn commit_body(tree_h: Seq<char>, parent: Option<Seq<char>>, msg: Seq<char>) -> Seq<
    char,
> {
    tree_prefix() + tree_h + seq!['\n'] + (match parent {
        Some(p) => parent_prefix() + p + seq!['\n'],
        None => Seq::<char>::empty(),
    }) + seq!['\n'] + msg
}

/// Where the first line of `s` ends: the position of the first newline, or
/// the end of the text.
pub open spec fn line_end(s: Seq<char>) -> int {
    match s.index_of_first('\n') {
        Some(i) => i,
        None => s.len() as int,
    }
}

/// The text after the first newline, if there is one.
pub open spec fn after_line(s: Seq<char>) -> Option<Seq<char>> {
    match s.index_of_first('\n') {
        Some(i) => Some(s.skip(i + 1)),
        None => None,
    }
}

/// The tree hash of a commit record: the rest of the first line, provided
/// that line carries the `tree` tag.
pub open spec fn parse_commit_tree(text: Seq<char>) -> Option<Seq<char>> {
    if has_prefix(text, tree_prefix()) {
        Some(text.subrange(5, line_end(text)))
    } else {
        None
    }
}

/// The parent hash of a commit record: the rest of the second line,
/// provided that line carries the `parent` tag.
pub open spec fn parse_commit_parent(text: Seq<char>) -> Option<Seq<char>> {
    match after_line(text) {
        None => None,
        Some(rest) => if has_prefix(rest, parent_prefix()) {
            Some(rest.subrange(7, line_end(rest)))
        } else {
            None
        },
    }
}

/// The message of a commit record: everything after the blank separator
/// line that closes the header.
pub open spec fn parse_commit_message(text: Seq<char>) -> Option<Seq<char>> {
    match after_line(text) {
        None => None,
        Some(rest) => {
            let rest2 = if has_prefix(rest, parent_prefix()) {
                after_line(rest)
            } else {
                Some(rest)
            };
            match rest2 {
                None => None,
                Some(r2) => if r2.len() >= 1 && r2[0] == '\n' {
                    Some(r2.skip(1))
                } else {
                    None
                },
            }
        },
    }
}

/// Reading the three fields of a built commit record gives back exactly
/// what it was built from.
pub proof fn lemma_commit_round_trip(t: Seq<char>, parent: Option<Seq<char>>, msg: Seq<char>)
    requires
        is_plain(t),
        parent is Some ==> is_plain(parent.unwrap()),
    ensures
        parse_commit_tree(commit_body(t, parent, msg)) == Some(t),
        parse_commit_parent(commit_body(t, parent, msg)) == parent,
        parse_commit_message(commit_body(t, parent, msg)) == Some(msg),
{
    let text = commit_body(t, parent, msg);
    assert(has_prefix(text, tree_prefix()));
    text.index_of_first_ensures('\n');
    assert(text[5 + t.len() as int] == '\n');
    assert(text.contains('\n'));
    let io = text.index_of_first('\n').unwrap();
    if io < 5 {
        assert(text[io] == tree_prefix()[io]);
        assert(false);
    }
    if 5 <= io < 5 + t.len() {
        assert(text[io] == t[io - 5]);
        assert(t.contains('\n'));
        assert(false);
    }
    if io > 5 + t.len() {
        assert(text[5 + t.len() as int] != '\n');
        assert(false);
    }
    assert(io == 5 + t.len());
    assert(line_end(text) == 5 + t.len());
    assert(text.subrange(5, 5 + t.len() as int) =~= t);
    let rest = text.skip(io + 1);
    match parent {
        None => {
            assert(rest =~= seq!['\n'] + msg);
            assert(rest[0] == '\n');
            assert(parent_prefix()[0] == 'p');
            assert(!has_prefix(rest, parent_prefix()));
            assert(rest.skip(1) =~= msg);
        },
        Some(p) => {
            assert(rest =~= parent_prefix() + p + seq!['\n'] + seq!['\n'] + msg);
            assert(has_prefix(rest, parent_prefix()));
            rest.index_of_first_ensures('\n');
            assert(rest[7 + p.len() as int] == '\n');
            assert(rest.contains('\n'));
            let io2 = rest.index_of_first('\n').unwrap();
            if io2 < 7 {
                assert(rest[io2] == parent_prefix()[io2]);
                assert(false);
            }
            if 7 <= io2 < 7 + p.len() {
                assert(rest[io2] == p[io2 - 7]);
                assert(p.contains('\n'));
                assert(false);
            }
            if io2 > 7 + p.len() {
                assert(rest[7 + p.len() as int] != '\n');
                assert(false);
            }
            assert(io2 == 7 + p.len());
            assert(line_end(rest) == 7 + p.len());
            assert(rest.subrange(7, 7 + p.len() as int) =~= p);
            let r2 = rest.skip(io2 + 1);
            assert(r2 =~= seq!['\n'] + msg);
            assert(r2[0] == '\n');
            assert(r2.skip(1) =~= msg);
        },
    }
}

/// Finds where the first line of `s` ends.
pub fn find_line_end(s: &str) -> (e: usize)
    ensures
        e == line_end(s@),
        e <= s@.len(),
        e < s@.len() ==> s@[e as int] == '\n',
        forall|j: int| 0 <= j < e ==> s@[j] != '\n',
{
    proof {
        s@.index_of_first_ensures('\n');
    }
    match find_char(s, 0, '\n') {
        Some(i) => {
            proof {
                let io = s@.index_of_first('\n').unwrap();
                if io < i {
                    assert(s@[io] != '\n');
                    assert(false);
                }
                if io > i {
                    assert(s@[i as int] != '\n');
                    assert(false);
                }
            }
            i
        },
        None => {
            proof {
                assert(!s@.contains('\n')) by {
                    if s@.contains('\n') {
                        let k = choose|k: int| 0 <= k < s@.len() && s@[k] == '\n';
                        assert(s@[k] != '\n');
                    }
                }
                if s@.index_of_first('\n') is Some {
                    assert(false);
                }
            }
            s.unicode_len()
        },
    }
}

/// Reads the tree hash out of a commit record text.
pub fn commit_tree_field(text: &String) -> (r: Option<String>)
    ensures
        match r {
            Some(h) => parse_commit_tree(text@) == Some(h@),
            None => parse_commit_tree(text@) is None,
        },
{
    let tagged: bool = str_starts_with(text.as_str(), "tree\t");
    proof {
        reveal_strlit("tree\t");
        assert("tree\t"@ =~= tree_prefix());
    }
    if !tagged {
        return None;
    }
    let e: usize = find_line_end(text.as_str());
    proof {
        if e < 5 {
            assert(text@[e as int] == tree_prefix()[e as int]);
            assert(false);
        }
    }
    Some(substring(text.as_str(), 5, e))
}

/// Reads the parent hash out of a commit record text, if the record has
/// one.
pub fn commit_parent_field(text: &String) -> (r: Option<String>)
    ensures
        match r {
            Some(h) => parse_commit_parent(text@) == Some(h@),
            None => parse_commit_parent(text@) is None,
        },
{
    let len: usize = text.as_str().unicode_len();
    let e: usize = find_line_end(text.as_str());
    proof {
        text@.index_of_first_ensures('\n');
    }
    if e == len {
        proof {
            if text@.index_of_first('\n') is Some {
                let io = text@.index_of_first('\n').unwrap();
                assert(text@[io] != '\n');
                assert(false);
            }
        }
        return None;
    }
    proof {
        let io = text@.index_of_first('\n').unwrap();
        assert(io == e);
    }
    let rest: String = substring(text.as_str(), e + 1, len);
    proof {
        assert(rest@ =~= text@.skip(e + 1));
    }
    let tagged: bool = str_starts_with(rest.as_str(), "parent\t");
    proof {
        reveal_strlit("parent\t");
        assert("parent\t"@ =~= parent_prefix());
    }
    if !tagged {
        return None;
    }
    let rlen: usize = rest.as_str().unicode_len();
    let e2: usize = find_line_end(rest.as_str());
    proof {
        if e2 < 7 {
            assert(rest@[e2 as int] == parent_prefix()[e2 as int]);
            assert(false);
        }
    }
    Some(substring(rest.as_str(), 7, e2))
}

/// Reads the message out of a commit record text: the content after the
/// blank separator line.
pub fn commit_message_field(text: &String) -> (r: Option<String>)
    ensures
        match r {
            Some(m) => parse_commit_message(text@) == Some(m@),
            None => parse_commit_message(text@) is None,
        },
{
    let len: usize = text.as_str().unicode_len();
    let e: usize = find_line_end(text.as_str());
    proof {
        text@.index_of_first_ensures('\n');
    }
    if e == len {
        proof {
            if text@.index_of_first('\n') is Some {
                let io = text@.index_of_first('\n').unwrap();
                assert(text@[io] != '\n');
                assert(false);
            }
        }
        return None;
    }
    proof {
        let io = text@.index_of_first('\n').unwrap();
        assert(io == e);
    }
    let rest: String = substring(text.as_str(), e + 1, len);
    proof {
        assert(rest@ =~= text@.skip(e + 1));
    }
    let tagged: bool = str_starts_with(rest.as_str(), "parent\t");
    proof {
        reveal_strlit("parent\t");
        assert("parent\t"@ =~= parent_prefix());
    }
    let rlen: usize = rest.as_str().unicode_len();
    let rest2: String = if tagged {
        let e2: usize = find_line_end(rest.as_str());
        proof {
            rest@.index_of_first_ensures('\n');
        }
        if e2 == rlen {
            proof {
                if rest@.index_of_first('\n') is Some {
                    let io2 = rest@.index_of_first('\n').unwrap();
                    assert(rest@[io2] != '\n');
                    assert(false);
                }
            }
            return None;
        }
        proof {
            let io2 = rest@.index_of_first('\n').unwrap();
            assert(io2 == e2);
        }
        let r2: String = substring(rest.as_str(), e2 + 1, rlen);
        proof {
            assert(r2@ =~= rest@.skip(e2 + 1));
        }
        r2
    } else {
        rest
    };
    let r2len: usize = rest2.as_str().unicode_len();
    if r2len >= 1 && rest2.as_str().get_char(0) == '\n' {
        Some(substring(rest2.as_str(), 1, r2len))
    } else {
        None
    }
}

} // verus!
