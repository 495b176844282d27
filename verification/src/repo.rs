//! The repository: a content-addressed object store, the staging index and
//! the HEAD pointer, held as one value.  Every operation is described
//! against a mathematical model of that value, so that staging, committing
//! and stepping backward are pinned down exactly.

use vstd::prelude::*;
use vstd::hash_map::StringHashMap;
use vstd::string::{StringExecFns, StrSliceExecFns};
use crate::hashing::{hash_of, is_hash, hash_string, lemma_hash_is_plain};
use crate::chars::{
    is_plain, is_blank, split_on, join_with, join_lines, split_char, is_plain_text, blank_text,
};
use crate::tree::{
    EntrySeq, as_map, overlay_entries, serialize_tree_entries, parse_tree_text, Tree, parse_tree,
};
use crate::commitfmt::{
    commit_body, parse_commit_tree, parse_commit_parent, parse_commit_message, commit_tree_field,
    commit_parent_field, commit_message_field,
};

verus! {

broadcast use vstd::hash_map::group_hash_map_axioms;

/// Why an operation could not run to completion.
#[derive(Debug, Clone, Copy, PartialEq, Eq)]
pub enum RepoError {
    /// An object that the repository state refers to is not in the store.
    NotFound,
    /// A commit was asked for while the staging index is empty.
    NothingToCommit,
    /// A step backward was asked for before any commit exists.
    NoHead,
    /// A step backward was asked for at the first commit of the chain.
    NoParent,
}

/// What staging a file did.
#[derive(Debug, Clone, Copy, PartialEq, Eq)]
pub enum StageOutcome {
    /// A new blob was stored and the path queued for the next commit.
    Staged,
    /// The content matched what HEAD's tree already records: nothing was
    /// stored, nothing was queued.
    NoChanges,
}

/// What a commit wrote: the new record and the new tree, each with its
/// hash, so a caller persisting the store can write exactly these objects.
pub struct CommitOutcome {
    pub hash: String,
    pub body: String,
    pub tree_hash: String,
    pub tree_body: String,
}

/// The mathematical model of a repository: the stored objects by hash, the
/// staged paths in order, and the hash of the most recent commit.
pub struct RepoModel {
    pub objects: Map<Seq<char>, Seq<char>>,
    pub index: Seq<Seq<char>>,
    pub head: Option<Seq<char>>,
}

/// The stored text under a hash, if any.
pub open spec fn lookup(m: RepoModel, h: Seq<char>) -> Option<Seq<char>> {
    if m.objects.contains_key(h) {
        Some(m.objects[h])
    } else {
        None
    }
}

/// The tree hash recorded by a commit: nothing if the commit is absent,
/// its object is missing, or its record is unreadable.
pub open spec fn tree_of_commit(m: RepoModel, x: Option<Seq<char>>) -> Option<Seq<char>> {
    match x {
        None => None,
        Some(h) => match lookup(m, h) {
            None => None,
            Some(text) => parse_commit_tree(text),
        },
    }
}

/// The parent hash recorded by a commit, under the same conditions.
pub open spec fn parent_of_commit(m: RepoModel, x: Option<Seq<char>>) -> Option<Seq<char>> {
    match x {
        None => None,
        Some(h) => match lookup(m, h) {
            None => None,
            Some(text) => parse_commit_parent(text),
        },
    }
}

/// The message recorded by a commit.
pub open spec fn message_of_commit(m: RepoModel, h: Seq<char>) -> Option<Seq<char>> {
    match lookup(m, h) {
        None => None,
        Some(text) => parse_commit_message(text),
    }
}

/// The entries of the tree under a hash: the empty tree where no hash (or
/// an empty one) is given, nothing where the tree object is missing.
pub open spec fn tree_entries_of(m: RepoModel, x: Option<Seq<char>>) -> Option<EntrySeq> {
    match x {
        None => Some(Seq::<(Seq<char>, Seq<char>)>::empty()),
        Some(h) => if h.len() == 0 {
            Some(Seq::<(Seq<char>, Seq<char>)>::empty())
        } else {
            match lookup(m, h) {
                None => None,
                Some(text) => Some(parse_tree_text(text)),
            }
        },
    }
}

/// The entries of HEAD's tree.
pub open spec fn head_tree_entries(m: RepoModel) -> Option<EntrySeq> {
    tree_entries_of(m, tree_of_commit(m, m.head))
}

/// Storing a text puts it in the store under its hash and changes nothing
/// else.
pub open spec fn store_step(m: RepoModel, c: Seq<char>) -> RepoModel {
    RepoModel { objects: m.objects.insert(hash_of(c), c), index: m.index, head: m.head }
}

/// Staging this content for this path would change nothing: HEAD's tree
/// already records exactly this content's hash for the path.
pub open spec fn stage_no_change(m: RepoModel, path: Seq<char>, content: Seq<char>) -> bool {
    head_tree_entries(m) is Some && as_map(head_tree_entries(m).unwrap()).contains_key(path)
        && as_map(head_tree_entries(m).unwrap())[path] == hash_of(content)
}

/// The index after queuing a path: appended only if not already present.
pub open spec fn index_after_stage(index: Seq<Seq<char>>, path: Seq<char>) -> Seq<Seq<char>> {
    if index.contains(path) {
        index
    } else {
        index.push(path)
    }
}

/// The `(path, hash)` pairs that the staged contents contribute, in index
/// order.
pub open spec fn staged_pairs(index: Seq<Seq<char>>, contents: Seq<Seq<char>>) -> EntrySeq {
    Seq::new(index.len(), |i: int| (index[i], hash_of(contents[i])))
}

/// A commit can run: something is staged and the parent tree is readable.
pub open spec fn commit_ok(m: RepoModel, contents: Seq<Seq<char>>) -> bool {
    m.index.len() > 0 && head_tree_entries(m) is Some
}

/// The entries of the tree a commit builds: the parent tree overlaid with
/// the staged pairs; staged entries win over the parent's.
pub open spec fn commit_tree_entries(m: RepoModel, contents: Seq<Seq<char>>) -> EntrySeq {
    overlay_entries(head_tree_entries(m).unwrap(), staged_pairs(m.index, contents))
}

/// The serialized text of that tree.
pub open spec fn commit_tree_text(m: RepoModel, contents: Seq<Seq<char>>) -> Seq<char> {
    serialize_tree_entries(commit_tree_entries(m, contents))
}

/// The text of the commit record itself.
pub open spec fn commit_record_text(
    m: RepoModel,
    contents: Seq<Seq<char>>,
    msg: Seq<char>,
) -> Seq<char> {
    commit_body(hash_of(commit_tree_text(m, contents)), m.head, msg)
}

/// The hash of the new commit.
pub open spec fn commit_hash(m: RepoModel, contents: Seq<Seq<char>>, msg: Seq<char>) -> Seq<
    char,
> {
    hash_of(commit_record_text(m, contents, msg))
}

/// A successful commit stores the new tree and the new record, points HEAD
/// at the record, and clears the index.
pub open spec fn commit_step(m: RepoModel, contents: Seq<Seq<char>>, msg: Seq<char>) -> RepoModel {
    RepoModel {
        objects: m.objects.insert(
            hash_of(commit_tree_text(m, contents)),
            commit_tree_text(m, contents),
        ).insert(commit_hash(m, contents, msg), commit_record_text(m, contents, msg)),
        index: Seq::<Seq<char>>::empty(),
        head: Some(commit_hash(m, contents, msg)),
    }
}

/// Where one step backward leads: the parent recorded by HEAD's commit.
pub open spec fn revert_target(m: RepoModel) -> Option<Seq<char>> {
    parent_of_commit(m, m.head)
}

/// The entries of the tree to restore.
pub open spec fn revert_entries(m: RepoModel) -> Option<EntrySeq> {
    tree_entries_of(m, tree_of_commit(m, revert_target(m)))
}

/// Every blob these entries point at is in the store.
pub open spec fn blobs_present(m: RepoModel, s: EntrySeq) -> bool {
    forall|i: int| 0 <= i < s.len() ==> m.objects.contains_key((#[trigger] s[i]).1)
}

/// A step backward can run to completion.
pub open spec fn revert_ok(m: RepoModel) -> bool {
    m.head is Some && revert_target(m) is Some && revert_entries(m) is Some && blobs_present(
        m,
        revert_entries(m).unwrap(),
    )
}

/// A successful step backward only moves HEAD; it touches neither the
/// store nor the staging index.
pub open spec fn revert_step(m: RepoModel) -> RepoModel {
    RepoModel { objects: m.objects, index: m.index, head: revert_target(m) }
}

/// The files a step backward rewrites: every path of the restored tree,
/// with the stored text of its recorded blob.
pub open spec fn restored_files(m: RepoModel, s: EntrySeq) -> EntrySeq {
    Seq::new(s.len(), |i: int| (s[i].0, m.objects[s[i].1]))
}

/// Every staged path can stand in the index and tree formats.
pub open spec fn index_wf(index: Seq<Seq<char>>) -> bool {
    forall|i: int| 0 <= i < index.len() ==> is_plain(#[trigger] index[i])
}

/// Owned string pairs as mathematical pairs.
pub open spec fn pairs_view(s: Seq<(String, String)>) -> EntrySeq {
    Seq::new(s.len(), |i: int| (s[i].0@, s[i].1@))
}

pub open spec fn opt_text(x: Option<&String>) -> Option<Seq<char>> {
    match x {
        Some(s) => Some(s@),
        None => None,
    }
}

pub open spec fn opt_owned_text(x: Option<String>) -> Option<Seq<char>> {
    match x {
        Some(s) => Some(s@),
        None => None,
    }
}

/// Mapping the values of a map commutes with inserting one association.
proof fn lemma_map_values_insert(m: Map<Seq<char>, String>, k: Seq<char>, v: String)
    ensures
        m.insert(k, v).map_values(|x: String| x@) == m.map_values(|x: String| x@).insert(k, v@),
{
    assert(m.insert(k, v).map_values(|x: String| x@) =~= m.map_values(|x: String| x@).insert(
        k,
        v@,
    ));
}

/// A minimal local change tracker's state: object store, staging index and
/// HEAD pointer.
pub struct Repository {
    objects: StringHashMap<String>,
    index: Vec<String>,
    head: Option<String>,
}

impl View for Repository {
    type V = RepoModel;

    closed spec fn view(&self) -> RepoModel {
        RepoModel {
            objects: self.objects@.map_values(|x: String| x@),
            index: self.index.deep_view(),
            head: match self.head {
                Some(h) => Some(h@),
                None => None,
            },
        }
    }
}

impl Repository {
    pub open spec fn wf(&self) -> bool {
        index_wf(self@.index)
    }

    /// A repository with nothing stored, nothing staged and no commits.
    pub fn new() -> (r: Repository)
        ensures
            r.wf(),
            r@.objects == Map::<Seq<char>, Seq<char>>::empty(),
            r@.index == Seq::<Seq<char>>::empty(),
            r@.head is None,
    {
        let r = Repository { objects: StringHashMap::new(), index: Vec::new(), head: None };
        proof {
            assert(r@.objects =~= Map::<Seq<char>, Seq<char>>::empty());
            assert(r@.index =~= Seq::<Seq<char>>::empty());
        }
        r
    }

    /// Puts a text in the store under a caller-chosen key, for loading a
    /// persisted store back in.
    pub fn insert_object(&mut self, hash: String, content: String)
        ensures
            final(self)@.objects == old(self)@.objects.insert(hash@, content@),
            final(self)@.index == old(self)@.index,
            final(self)@.head == old(self)@.head,
    {
        proof {
            lemma_map_values_insert(self.objects@, hash@, content);
        }
        self.objects.insert(hash, content);
    }

    /// How many distinct objects the store holds.
    pub fn object_count(&self) -> (n: usize)
        ensures
            n == self@.objects.dom().len(),
    {
        let n = self.objects.len();
        proof {
            assert(self@.objects.dom() =~= self.objects@.dom());
        }
        n
    }

    /// Stores a text under its content hash and returns that hash.
    /// Storing what is already stored rewrites the same association.
    pub fn store(&mut self, content: String) -> (r: String)
        ensures
            r@ == hash_of(content@),
            is_hash(r@),
            final(self)@ == store_step(old(self)@, content@),
    {
        let h = hash_string(&content);
        let key = h.clone();
        proof {
            lemma_map_values_insert(self.objects@, key@, content);
        }
        self.objects.insert(key, content);
        proof {
            assert(final(self)@ =~~= store_step(old(self)@, content@));
        }
        h
    }

    /// The stored text under a hash; fails where no object has that hash.
    pub fn load(&self, hash: &String) -> (r: Result<String, RepoError>)
        ensures
            match r {
                Ok(c) => lookup(self@, hash@) == Some(c@),
                Err(e) => e == RepoError::NotFound && lookup(self@, hash@) is None,
            },
    {
        match self.objects.get(hash.as_str()) {
            Some(v) => {
                proof {
                    assert(self@.objects.contains_key(hash@));
                    assert(self@.objects[hash@] == v@);
                }
                Ok(v.clone())
            },
            None => {
                proof {
                    assert(!self@.objects.contains_key(hash@));
                }
                Err(RepoError::NotFound)
            },
        }
    }

    /// The hash of the most recent commit, if any commit exists.
    pub fn get_current_head(&self) -> (r: Option<String>)
        ensures
            opt_owned_text(r) == self@.head,
    {
        match &self.head {
            Some(h) => Some(h.clone()),
            None => None,
        }
    }

    /// Points HEAD somewhere else, for loading a persisted repository.
    pub fn set_head(&mut self, h: Option<String>)
        ensures
            final(self)@.head == opt_owned_text(h),
            final(self)@.objects == old(self)@.objects,
            final(self)@.index == old(self)@.index,
    {
        self.head = h;
    }

    /// The staged paths, in order.
    pub fn get_index(&self) -> (r: Vec<String>)
        ensures
            r.deep_view() == self@.index,
    {
        let mut r: Vec<String> = Vec::new();
        let mut i: usize = 0;
        proof {
            assert(r.deep_view() =~= self@.index.take(0int));
        }
        while i < self.index.len()
            invariant
                0 <= i <= self.index.len(),
                r.deep_view() == self@.index.take(i as int),
            decreases self.index.len() - i,
        {
            let ghost before = r.deep_view();
            r.push(self.index[i].clone());
            proof {
                assert(r.deep_view() =~= before.push(self.index@[i as int]@));
                assert(self@.index.take(i + 1) =~= self@.index.take(i as int).push(
                    self@.index[i as int],
                ));
            }
            i = i + 1;
        }
        proof {
            assert(self@.index.take(self.index@.len() as int) =~= self@.index);
        }
        r
    }

    /// Replaces the staging index, keeping only paths that can stand in
    /// the stored formats; for loading a persisted index.
    pub fn set_index(&mut self, v: Vec<String>)
        ensures
            final(self)@.index == v.deep_view().filter(|p: Seq<char>| is_plain(p)),
            final(self)@.objects == old(self)@.objects,
            final(self)@.head == old(self)@.head,
            final(self).wf(),
    {
        let mut out: Vec<String> = Vec::new();
        let mut i: usize = 0;
        let ghost pred = |p: Seq<char>| is_plain(p);
        proof {
            reveal(Seq::filter);
            assert(v.deep_view().take(0int) =~= Seq::<Seq<char>>::empty());
            assert(out.deep_view() =~= Seq::<Seq<char>>::empty().filter(pred));
        }
        while i < v.len()
            invariant
                0 <= i <= v.len(),
                pred == (|p: Seq<char>| is_plain(p)),
                out.deep_view() == v.deep_view().take(i as int).filter(pred),
                forall|j: int|
                    0 <= j < out.deep_view().len() ==> is_plain(#[trigger] out.deep_view()[j]),
            decreases v.len() - i,
        {
            let ghost before = out.deep_view();
            let ghost tk = v.deep_view().take(i as int);
            if is_plain_text(v[i].as_str()) {
                out.push(v[i].clone());
                proof {
                    assert(out.deep_view() =~= before.push(v@[i as int]@));
                }
            }
            proof {
                reveal(Seq::filter);
                let tk1 = v.deep_view().take(i + 1);
                assert(tk1.drop_last() =~= tk);
                assert(tk1.last() == v.deep_view()[i as int]);
                assert(tk1.filter(pred) == if pred(v.deep_view()[i as int]) {
                    tk.filter(pred).push(v.deep_view()[i as int])
                } else {
                    tk.filter(pred)
                });
                assert(out.deep_view() == tk1.filter(pred));
            }
            i = i + 1;
        }
        proof {
            assert(v.deep_view().take(v@.len() as int) =~= v.deep_view());
        }
        self.index = out;
    }

    /// The staged paths joined as the persisted index text.
    pub fn index_text(&self) -> (r: String)
        ensures
            r@ == join_with(self@.index, '\n'),
    {
        join_lines(&self.index)
    }

    /// The message of the commit stored under this hash.
    pub fn get_commit_message(&self, x: &String) -> (r: Option<String>)
        ensures
            match r {
                Some(m) => message_of_commit(self@, x@) == Some(m@),
                None => message_of_commit(self@, x@) is None,
            },
    {
        match self.objects.get(x.as_str()) {
            None => {
                proof {
                    assert(!self@.objects.contains_key(x@));
                }
                None
            },
            Some(text) => {
                proof {
                    assert(self@.objects[x@] == text@);
                }
                commit_message_field(text)
            },
        }
    }

    /// The parent hash of the commit stored under this hash.
    pub fn get_parent_of_commit(&self, x: Option<&String>) -> (r: Option<String>)
        ensures
            opt_owned_text(r) == parent_of_commit(self@, opt_text(x)),
    {
        match x {
            None => None,
            Some(h) => match self.objects.get(h.as_str()) {
                None => {
                    proof {
                        assert(!self@.objects.contains_key(h@));
                    }
                    None
                },
                Some(text) => {
                    proof {
                        assert(self@.objects[h@] == text@);
                    }
                    commit_parent_field(text)
                },
            },
        }
    }

    /// The tree hash of the commit stored under this hash.
    pub fn get_tree_of_commit(&self, x: Option<&String>) -> (r: Option<String>)
        ensures
            opt_owned_text(r) == tree_of_commit(self@, opt_text(x)),
    {
        match x {
            None => None,
            Some(h) => match self.objects.get(h.as_str()) {
                None => {
                    proof {
                        assert(!self@.objects.contains_key(h@));
                    }
                    None
                },
                Some(text) => {
                    proof {
                        assert(self@.objects[h@] == text@);
                    }
                    commit_tree_field(text)
                },
            },
        }
    }

    /// The tree stored under this hash: the empty tree where no hash (or
    /// an empty one) is given; fails where the tree object is missing.
    pub fn get_tree(&self, x: Option<&String>) -> (r: Result<Tree, RepoError>)
        ensures
            match r {
                Ok(t) => t.wf() && tree_entries_of(self@, opt_text(x)) == Some(t.entries_view()),
                Err(e) => e == RepoError::NotFound && tree_entries_of(self@, opt_text(x)) is None,
            },
    {
        match x {
            None => Ok(Tree::new()),
            Some(h) => {
                if h.as_str().unicode_len() == 0 {
                    Ok(Tree::new())
                } else {
                    match self.objects.get(h.as_str()) {
                        None => {
                            proof {
                                assert(!self@.objects.contains_key(h@));
                            }
                            Err(RepoError::NotFound)
                        },
                        Some(text) => {
                            proof {
                                assert(self@.objects[h@] == text@);
                            }
                            Ok(parse_tree(text))
                        },
                    }
                }
            },
        }
    }

    /// Builds and stores the snapshot for the staged files: the parent
    /// tree overlaid with one entry per staged path, hashing the given
    /// contents.  Yields nothing when the index is empty; the new tree's
    /// hash and text otherwise.
    fn build_snapshot(&mut self, parent: Option<String>, contents: &Vec<String>) -> (r: Result<
        Option<(String, String)>,
        RepoError,
    >)
        requires
            old(self).wf(),
            contents@.len() == old(self)@.index.len(),
        ensures
            final(self).wf(),
            final(self)@.index == old(self)@.index,
            final(self)@.head == old(self)@.head,
            match r {
                Ok(None) => old(self)@.index.len() == 0 && final(self)@ == old(self)@,
                Ok(Some(ht)) => {
                    &&& old(self)@.index.len() > 0
                    &&& tree_entries_of(old(self)@, opt_owned_text(parent)) is Some
                    &&& (ht.1@ == serialize_tree_entries(
                        overlay_entries(
                            tree_entries_of(old(self)@, opt_owned_text(parent)).unwrap(),
                            staged_pairs(old(self)@.index, contents.deep_view()),
                        ),
                    ))
                    &&& ht.0@ == hash_of(ht.1@)
                    &&& is_hash(ht.0@)
                    &&& final(self)@.objects == old(self)@.objects.insert(hash_of(ht.1@), ht.1@)
                },
                Err(e) => {
                    &&& e == RepoError::NotFound
                    &&& old(self)@.index.len() > 0
                    &&& tree_entries_of(old(self)@, opt_owned_text(parent)) is None
                    &&& final(self)@ == old(self)@
                },
            },
    {
        if self.index.len() == 0 {
            return Ok(None);
        }
        let parent_ref: Option<&String> = parent.as_ref();
        proof {
            assert(opt_text(parent_ref) == opt_owned_text(parent));
        }
        let mut t = match self.get_tree(parent_ref) {
            Ok(t) => t,
            Err(e) => {
                return Err(e);
            },
        };
        let ghost base = t.entries_view();
        let ghost pairs = staged_pairs(self@.index, contents.deep_view());
        let n: usize = self.index.len();
        let mut i: usize = 0;
        proof {
            assert(pairs.take(0int) =~= Seq::<(Seq<char>, Seq<char>)>::empty());
            assert(overlay_entries(base, pairs.take(0int)) == base);
        }
        while i < n
            invariant
                0 <= i <= n,
                n == self.index.len(),
                contents@.len() == n,
                self.wf(),
                self@.index == old(self)@.index,
                self@.head == old(self)@.head,
                self@.objects == old(self)@.objects,
                pairs == staged_pairs(self@.index, contents.deep_view()),
                t.wf(),
                t.entries_view() == overlay_entries(base, pairs.take(i as int)),
            decreases n - i,
        {
            let path: String = self.index[i].clone();
            let content: &String = &contents[i];
            let h: String = hash_string(content);
            proof {
                assert(path@ == self@.index[i as int]);
                assert(is_plain(path@));
                lemma_hash_is_plain(h@);
                assert(pairs.take(i + 1).drop_last() =~= pairs.take(i as int));
                assert(pairs.take(i + 1).last() == (path@, h@));
            }
            t.insert(path, h);
            i = i + 1;
        }
        proof {
            assert(pairs.take(n as int) =~= pairs);
        }
        let text: String = t.serialize();
        let ghost text_view = text@;
        let hash: String = self.store(text.clone());
        proof {
            assert(final(self)@.objects =~~= old(self)@.objects.insert(
                hash_of(text_view),
                text_view,
            ));
        }
        Ok(Some((hash, text)))
    }

    /// Builds and stores the snapshot for the staged files, on top of the
    /// given parent tree; its hash, or nothing when the index is empty.
    pub fn create_new_tree(&mut self, parent: Option<String>, contents: &Vec<String>) -> (r:
        Result<Option<String>, RepoError>)
        requires
            old(self).wf(),
            contents@.len() == old(self)@.index.len(),
        ensures
            final(self).wf(),
            final(self)@.index == old(self)@.index,
            final(self)@.head == old(self)@.head,
            match r {
                Ok(None) => old(self)@.index.len() == 0 && final(self)@ == old(self)@,
                Ok(Some(h)) => {
                    &&& old(self)@.index.len() > 0
                    &&& tree_entries_of(old(self)@, opt_owned_text(parent)) is Some
                    &&& (h@ == hash_of(
                        serialize_tree_entries(
                            overlay_entries(
                                tree_entries_of(old(self)@, opt_owned_text(parent)).unwrap(),
                                staged_pairs(old(self)@.index, contents.deep_view()),
                            ),
                        ),
                    ))
                    &&& final(self)@.objects == old(self)@.objects.insert(
                        h@,
                        serialize_tree_entries(
                            overlay_entries(
                                tree_entries_of(old(self)@, opt_owned_text(parent)).unwrap(),
                                staged_pairs(old(self)@.index, contents.deep_view()),
                            ),
                        ),
                    )
                },
                Err(e) => {
                    &&& e == RepoError::NotFound
                    &&& old(self)@.index.len() > 0
                    &&& tree_entries_of(old(self)@, opt_owned_text(parent)) is None
                    &&& final(self)@ == old(self)@
                },
            },
    {
        match self.build_snapshot(parent, contents) {
            Ok(Some(ht)) => Ok(Some(ht.0)),
            Ok(None) => Ok(None),
            Err(e) => Err(e),
        }
    }

    /// Stages a file: stores its content as a new blob and queues the path,
    /// unless HEAD's tree already records exactly this content for it.
    /// Fails where HEAD's tree object is missing from the store.
    pub fn stage(&mut self, path: String, content: String) -> (r: Result<StageOutcome, RepoError>)
        requires
            old(self).wf(),
            is_plain(path@),
        ensures
            final(self).wf(),
            match r {
                Ok(StageOutcome::NoChanges) => stage_no_change(old(self)@, path@, content@)
                    && final(self)@ == old(self)@,
                Ok(StageOutcome::Staged) => {
                    &&& head_tree_entries(old(self)@) is Some
                    &&& !stage_no_change(old(self)@, path@, content@)
                    &&& final(self)@.objects == old(self)@.objects.insert(
                        hash_of(content@),
                        content@,
                    )
                    &&& final(self)@.index == index_after_stage(old(self)@.index, path@)
                    &&& final(self)@.head == old(self)@.head
                },
                Err(e) => e == RepoError::NotFound && head_tree_entries(old(self)@) is None
                    && final(self)@ == old(self)@,
            },
    {
        let h: String = hash_string(&content);
        let head: Option<String> = self.get_current_head();
        let head_ref: Option<&String> = head.as_ref();
        let th: Option<String> = self.get_tree_of_commit(head_ref);
        proof {
            assert(opt_text(head_ref) == self@.head);
            assert(opt_owned_text(th) == tree_of_commit(self@, self@.head));
        }
        let th_ref: Option<&String> = th.as_ref();
        proof {
            assert(opt_text(th_ref) == opt_owned_text(th));
        }
        let tree: Tree = match self.get_tree(th_ref) {
            Ok(t) => t,
            Err(e) => {
                return Err(e);
            },
        };
        proof {
            assert(head_tree_entries(self@) == Some(tree.entries_view()));
        }
        match tree.get(&path) {
            Some(recorded) => {
                if recorded == h {
                    return Ok(StageOutcome::NoChanges);
                }
            },
            None => {},
        }
        let _blob_hash: String = self.store(content);
        if !index_contains(&self.index, &path) {
            let ghost before = self@.index;
            self.index.push(path);
            proof {
                assert(self@.index =~= before.push(self@.index.last()));
            }
        }
        Ok(StageOutcome::Staged)
    }

    /// Empties the staging index and changes nothing else.
    pub fn clear_index(&mut self)
        ensures
            final(self).wf(),
            final(self)@.index == Seq::<Seq<char>>::empty(),
            final(self)@.objects == old(self)@.objects,
            final(self)@.head == old(self)@.head,
    {
        self.index.clear();
        proof {
            assert(self@.index =~= Seq::<Seq<char>>::empty());
        }
    }

    /// Commits the staged files: builds the snapshot from HEAD's tree and
    /// the given contents (one per staged path, in index order), stores
    /// the commit record, points HEAD at it and clears the index.  Fails
    /// when nothing is staged, or where the parent tree object is missing.
    pub fn commit(&mut self, message: &String, contents: &Vec<String>) -> (r: Result<
        CommitOutcome,
        RepoError,
    >)
        requires
            old(self).wf(),
            contents@.len() == old(self)@.index.len(),
        ensures
            final(self).wf(),
            (r is Ok) == commit_ok(old(self)@, contents.deep_view()),
            match r {
                Ok(out) => {
                    &&& final(self)@ == commit_step(old(self)@, contents.deep_view(), message@)
                    &&& out.hash@ == commit_hash(old(self)@, contents.deep_view(), message@)
                    &&& out.body@ == commit_record_text(old(self)@, contents.deep_view(), message@)
                    &&& out.tree_hash@ == hash_of(commit_tree_text(old(self)@, contents.deep_view()))
                    &&& out.tree_body@ == commit_tree_text(old(self)@, contents.deep_view())
                    &&& is_hash(out.hash@)
                    &&& is_hash(out.tree_hash@)
                },
                Err(e) => {
                    &&& final(self)@ == old(self)@
                    &&& (e == RepoError::NothingToCommit <==> old(self)@.index.len() == 0)
                    &&& (e == RepoError::NotFound <==> (old(self)@.index.len() > 0
                        && head_tree_entries(old(self)@) is None))
                },
            },
    {
        let head: Option<String> = self.get_current_head();
        let head_ref: Option<&String> = head.as_ref();
        let th: Option<String> = self.get_tree_of_commit(head_ref);
        proof {
            assert(opt_text(head_ref) == self@.head);
            assert(opt_owned_text(th) == tree_of_commit(self@, self@.head));
        }
        let built = match self.build_snapshot(th, contents) {
            Ok(Some(ht)) => ht,
            Ok(None) => {
                return Err(RepoError::NothingToCommit);
            },
            Err(e) => {
                return Err(e);
            },
        };
        let (tree_hash, tree_body) = built;
        let mut body = String::new();
        body.append("tree\t");
        body.append(tree_hash.as_str());
        body.append("\n");
        match &head {
            Some(hh) => {
                body.append("parent\t");
                body.append(hh.as_str());
                body.append("\n");
            },
            None => {},
        }
        body.append("\n");
        body.append(message.as_str());
        proof {
            reveal_strlit("tree\t");
            reveal_strlit("parent\t");
            reveal_strlit("\n");
            assert("tree\t"@ =~= crate::commitfmt::tree_prefix());
            assert("parent\t"@ =~= crate::commitfmt::parent_prefix());
            assert("\n"@ =~= seq!['\n']);
            assert(body@ =~= commit_record_text(old(self)@, contents.deep_view(), message@));
        }
        let body_copy = body.clone();
        let chash: String = self.store(body);
        let chash_out = chash.clone();
        self.head = Some(chash);
        self.clear_index();
        proof {
            assert(final(self)@ =~~= commit_step(old(self)@, contents.deep_view(), message@));
        }
        Ok(CommitOutcome { hash: chash_out, body: body_copy, tree_hash, tree_body })
    }

    /// Steps one commit backward: points HEAD at the parent of the current
    /// commit and yields every `(path, content)` of the parent's tree, for
    /// the caller to rewrite.  The staging index is deliberately left as
    /// it is, so uncommitted work survives the step.  Fails before any
    /// commit, at the first commit of the chain, and where a needed
    /// object is missing; a failure changes nothing.
    pub fn revert(&mut self) -> (r: Result<Vec<(String, String)>, RepoError>)
        requires
            old(self).wf(),
        ensures
            final(self).wf(),
            match r {
                Ok(files) => {
                    &&& revert_ok(old(self)@)
                    &&& final(self)@ == revert_step(old(self)@)
                    &&& pairs_view(files@) == restored_files(
                        old(self)@,
                        revert_entries(old(self)@).unwrap(),
                    )
                },
                Err(e) => {
                    &&& final(self)@ == old(self)@
                    &&& (e == RepoError::NoHead <==> old(self)@.head is None)
                    &&& (e == RepoError::NoParent <==> (old(self)@.head is Some && revert_target(
                        old(self)@,
                    ) is None))
                    &&& (e == RepoError::NotFound <==> (revert_target(old(self)@) is Some
                        && !revert_ok(old(self)@)))
                },
            },
    {
        let head: String = match &self.head {
            None => {
                return Err(RepoError::NoHead);
            },
            Some(h) => {
                let hh = h.clone();
                proof {
                    assert(self@.head == Some(hh@));
                }
                hh
            },
        };
        let parent: String = match self.get_parent_of_commit(Some(&head)) {
            None => {
                return Err(RepoError::NoParent);
            },
            Some(p) => p,
        };
        proof {
            assert(Some(parent@) == revert_target(self@));
        }
        let th: Option<String> = self.get_tree_of_commit(Some(&parent));
        proof {
            assert(opt_owned_text(th) == tree_of_commit(self@, revert_target(self@)));
        }
        let th_ref: Option<&String> = th.as_ref();
        proof {
            assert(opt_text(th_ref) == opt_owned_text(th));
        }
        let tree: Tree = match self.get_tree(th_ref) {
            Ok(t) => t,
            Err(e) => {
                proof {
                    assert(revert_entries(self@) is None);
                }
                return Err(e);
            },
        };
        proof {
            assert(revert_entries(self@) == Some(tree.entries_view()));
        }
        let ghost entries = tree.entries_view();
        let n: usize = tree.len();
        let mut files: Vec<(String, String)> = Vec::new();
        let mut i: usize = 0;
        proof {
            assert(pairs_view(files@) =~= restored_files(self@, entries.take(0int)));
        }
        while i < n
            invariant
                0 <= i <= n,
                self == old(self),
                self.wf(),
                n == entries.len(),
                entries == tree.entries_view(),
                tree.wf(),
                old(self)@.head is Some,
                revert_target(old(self)@) is Some,
                revert_entries(old(self)@) == Some(entries),
                pairs_view(files@) == restored_files(self@, entries.take(i as int)),
                forall|j: int|
                    0 <= j < i ==> self@.objects.contains_key((#[trigger] entries[j]).1),
            decreases n - i,
        {
            let (p, bh) = tree.entry_at(i);
            proof {
                assert(p@ == entries[i as int].0);
                assert(bh@ == entries[i as int].1);
            }
            let content: String = match self.load(&bh) {
                Ok(c) => c,
                Err(err) => {
                    proof {
                        assert(!self@.objects.contains_key(entries[i as int].1));
                        assert(!blobs_present(self@, entries));
                    }
                    return Err(err);
                },
            };
            let ghost before = files@;
            let ghost gp = p@;
            let ghost gc = content@;
            files.push((p, content));
            proof {
                assert(pairs_view(before).len() == before.len());
                assert(restored_files(self@, entries.take(i as int)).len() == i);
                assert(before.len() == i);
                assert(files@.len() == i + 1);
                assert(files@.last().0@ == gp);
                assert(files@.last().1@ == gc);
                assert(gc == self@.objects[entries[i as int].1]);
                assert forall|j: int| 0 <= j < files@.len() implies pairs_view(files@)[j]
                    == restored_files(self@, entries.take(i + 1))[j] by {
                    if j < i {
                        assert(pairs_view(before)[j] == restored_files(
                            self@,
                            entries.take(i as int),
                        )[j]);
                        assert(files@[j] == before[j]);
                        assert(entries.take(i as int)[j] == entries.take(i + 1)[j]);
                    } else {
                        assert(j == i);
                        assert(files@[j] == files@.last());
                        assert(entries.take(i + 1)[j] == entries[i as int]);
                    }
                }
                assert(pairs_view(files@) =~= restored_files(self@, entries.take(i + 1)));
            }
            i = i + 1;
        }
        proof {
            assert(entries.take(n as int) =~= entries);
        }
        self.head = Some(parent);
        Ok(files)
    }
}

/// Whether a path is already queued.
fn index_contains(v: &Vec<String>, p: &String) -> (b: bool)
    ensures
        b == v.deep_view().contains(p@),
{
    let mut i: usize = 0;
    while i < v.len()
        invariant
            0 <= i <= v.len(),
            forall|j: int| 0 <= j < i ==> v.deep_view()[j] != p@,
        decreases v.len() - i,
    {
        if v[i] == *p {
            proof {
                assert(v.deep_view()[i as int] == p@);
            }
            return true;
        }
        i = i + 1;
    }
    proof {
        if v.deep_view().contains(p@) {
            let j = choose|j: int| 0 <= j < v.deep_view().len() && v.deep_view()[j] == p@;
            assert(false);
        }
    }
    false
}

/// Reads the persisted staging index back: its non-empty lines, in order.
pub fn parse_index(text: &String) -> (r: Vec<String>)
    ensures
        r.deep_view() == split_on(text@, '\n').filter(|l: Seq<char>| l.len() > 0),
{
    let lines: Vec<String> = split_char(text.as_str(), '\n');
    let mut r: Vec<String> = Vec::new();
    let mut i: usize = 0;
    let ghost pred = |l: Seq<char>| l.len() > 0;
    proof {
        reveal(Seq::filter);
        assert(lines.deep_view().take(0int) =~= Seq::<Seq<char>>::empty());
        assert(r.deep_view() =~= Seq::<Seq<char>>::empty().filter(pred));
    }
    while i < lines.len()
        invariant
            0 <= i <= lines.len(),
            pred == (|l: Seq<char>| l.len() > 0),
            lines.deep_view() == split_on(text@, '\n'),
            r.deep_view() == lines.deep_view().take(i as int).filter(pred),
        decreases lines.len() - i,
    {
        let ghost before = r.deep_view();
        let ghost tk = lines.deep_view().take(i as int);
        if lines[i].as_str().unicode_len() > 0 {
            r.push(lines[i].clone());
            proof {
                assert(r.deep_view() =~= before.push(lines@[i as int]@));
            }
        }
        proof {
            reveal(Seq::filter);
            let tk1 = lines.deep_view().take(i + 1);
            assert(tk1.drop_last() =~= tk);
            assert(tk1.last() == lines.deep_view()[i as int]);
            assert(tk1.filter(pred) == if pred(lines.deep_view()[i as int]) {
                tk.filter(pred).push(lines.deep_view()[i as int])
            } else {
                tk.filter(pred)
            });
            assert(r.deep_view() == tk1.filter(pred));
        }
        i = i + 1;
    }
    proof {
        assert(lines.deep_view().take(lines@.len() as int) =~= lines.deep_view());
    }
    r
}

/// Reads the persisted HEAD text back: the recorded hash, or nothing where
/// the text is empty or all whitespace.
pub fn parse_head(text: &String) -> (r: Option<String>)
    ensures
        match r {
            Some(h) => !is_blank(text@) && h@ == text@,
            None => is_blank(text@),
        },
{
    if blank_text(text.as_str()) {
        None
    } else {
        Some(text.clone())
    }
}

} // verus!
