//! The laws of the repository that span more than one operation: content
//! addressing round-trips, storing is idempotent, overlaying gives staged
//! entries precedence, the commit chain links each commit to its
//! predecessor, and one step backward restores the previous snapshot.

use vstd::prelude::*;
use crate::hashing::{hash_of, is_hash, lemma_hash_is_plain};
use crate::tree::{
    EntrySeq, as_map, entries_wf, entry_plain, entries_plain, overlay_map,
    lemma_overlay_entries_map, lemma_overlay_entries_sorted, lemma_overlay_entries_plain,
    lemma_tree_round_trip, lemma_tree_from_lines_wf,
};
use crate::commitfmt::lemma_commit_round_trip;
use crate::repo::{
    RepoModel, lookup, store_step, commit_step, commit_ok, commit_hash, commit_tree_text,
    commit_tree_entries, commit_record_text, staged_pairs, head_tree_entries, tree_entries_of,
    tree_of_commit, parent_of_commit, revert_target, revert_entries, revert_ok, revert_step,
    blobs_present, index_wf,
};

verus! {

/// Content addressing round-trip: a text just stored is found under the
/// hash that storing it returns, and loads back exactly.
pub proof fn lemma_store_load_round_trip(m: RepoModel, c: Seq<char>)
    ensures
        lookup(store_step(m, c), hash_of(c)) == Some(c),
{
}

/// Deduplication: storing the same text twice gives the same store as
/// storing it once — the key is the same both times and no second object
/// appears, so the object count does not grow.
pub proof fn lemma_store_dedup(m: RepoModel, c: Seq<char>)
    ensures
        store_step(store_step(m, c), c) == store_step(m, c),
        store_step(store_step(m, c), c).objects.dom().len() == store_step(
            m,
            c,
        ).objects.dom().len(),
{
    assert(store_step(store_step(m, c), c).objects =~= store_step(m, c).objects);
}

/// Content addressing: where every stored object sits under the hash of
/// its own text, storing keeps it so — the store never comes to hold two
/// different keys for one text, nor reaches a state where a key and its
/// text disagree.
pub proof fn lemma_store_preserves_addressing(m: RepoModel, c: Seq<char>)
    requires
        forall|h: Seq<char>|
            m.objects.contains_key(h) ==> hash_of(#[trigger] m.objects[h]) == h,
    ensures
        forall|h: Seq<char>|
            store_step(m, c).objects.contains_key(h) ==> hash_of(
                #[trigger] store_step(m, c).objects[h],
            ) == h,
{
}

/// Overlay precedence: in an overlaid mapping, every pair whose path is
/// not staged again later records exactly its hash, and every path that no
/// pair carries keeps the base mapping's record.
pub proof fn lemma_overlay_precedence(base: Map<Seq<char>, Seq<char>>, pairs: EntrySeq)
    ensures
        forall|i: int|
            0 <= i < pairs.len() && (forall|j: int|
                i < j < pairs.len() ==> (#[trigger] pairs[j]).0 != pairs[i].0) ==> overlay_map(
                base,
                pairs,
            ).contains_key((#[trigger] pairs[i]).0) && overlay_map(base, pairs)[pairs[i].0]
                == pairs[i].1,
        forall|q: Seq<char>|
            #![trigger overlay_map(base, pairs).contains_key(q)]
            !(exists|i: int| 0 <= i < pairs.len() && (#[trigger] pairs[i]).0 == q) ==> (
            overlay_map(base, pairs).contains_key(q) == base.contains_key(q) && (
            base.contains_key(q) ==> overlay_map(base, pairs)[q] == base[q])),
    decreases pairs.len(),
{
    if pairs.len() > 0 {
        let d = pairs.drop_last();
        let last = pairs.last();
        lemma_overlay_precedence(base, d);
        assert forall|i: int|
            0 <= i < pairs.len() && (forall|j: int|
                i < j < pairs.len() ==> (#[trigger] pairs[j]).0 != pairs[i].0) implies overlay_map(
            base,
            pairs,
        ).contains_key((#[trigger] pairs[i]).0) && overlay_map(base, pairs)[pairs[i].0]
            == pairs[i].1 by {
            if i == pairs.len() - 1 {
                assert(overlay_map(base, pairs)[last.0] == last.1);
            } else {
                assert(pairs[pairs.len() - 1].0 != pairs[i].0);
                assert(d[i] == pairs[i]);
                assert(forall|j: int| i < j < d.len() ==> (#[trigger] d[j]).0 != d[i].0) by {
                    assert(forall|j: int|
                        i < j < d.len() ==> (#[trigger] d[j]) == pairs[j]);
                }
                assert(overlay_map(base, d).contains_key(pairs[i].0) && overlay_map(base, d)[
                    pairs[i].0] == pairs[i].1);
                assert(last.0 != pairs[i].0);
            }
        }
        assert forall|q: Seq<char>|
            #![trigger overlay_map(base, pairs).contains_key(q)]
            !(exists|i: int| 0 <= i < pairs.len() && (#[trigger] pairs[i]).0 == q) implies (
        overlay_map(base, pairs).contains_key(q) == base.contains_key(q) && (base.contains_key(q)
            ==> overlay_map(base, pairs)[q] == base[q])) by {
            assert(pairs[pairs.len() - 1].0 != q);
            if exists|i: int| 0 <= i < d.len() && (#[trigger] d[i]).0 == q {
                let i = choose|i: int| 0 <= i < d.len() && (#[trigger] d[i]).0 == q;
                assert(pairs[i].0 == q);
                assert(false);
            }
            assert(overlay_map(base, d).contains_key(q) == base.contains_key(q));
            assert(base.contains_key(q) ==> overlay_map(base, d)[q] == base[q]);
            assert(overlay_map(base, pairs) == overlay_map(base, d).insert(last.0, last.1));
            assert(last.0 != q);
        }
    }
}

/// The parent tree that a commit starts from is well formed: it is either
/// the empty tree or a parsed snapshot.
pub proof fn lemma_head_tree_wf(m: RepoModel)
    requires
        head_tree_entries(m) is Some,
    ensures
        entries_wf(head_tree_entries(m).unwrap()),
{
    match tree_of_commit(m, m.head) {
        None => {},
        Some(h) => {
            if h.len() == 0 {
            } else {
                crate::chars::lemma_split_on_len(m.objects[h], '\n');
                lemma_tree_from_lines_wf(crate::chars::split_on(m.objects[h], '\n'));
            }
        },
    }
}

/// The staged pairs of a commit are fit for tree entries.
pub proof fn lemma_staged_pairs_plain(index: Seq<Seq<char>>, contents: Seq<Seq<char>>)
    requires
        index_wf(index),
        forall|i: int| 0 <= i < index.len() ==> is_hash(hash_of(#[trigger] contents[i])),
    ensures
        entries_plain(staged_pairs(index, contents)),
{
    let pairs = staged_pairs(index, contents);
    assert forall|i: int| 0 <= i < pairs.len() implies entry_plain(#[trigger] pairs[i]) by {
        assert(pairs[i].0 == index[i]);
        lemma_hash_is_plain(hash_of(contents[i]));
    }
}

/// The snapshot a commit builds is well formed, and seen as a mapping it
/// is the parent tree's mapping with every staged pair overlaid.
pub proof fn lemma_built_snapshot_map(m: RepoModel, contents: Seq<Seq<char>>)
    requires
        commit_ok(m, contents),
        index_wf(m.index),
        forall|i: int| 0 <= i < m.index.len() ==> is_hash(hash_of(#[trigger] contents[i])),
    ensures
        entries_wf(commit_tree_entries(m, contents)),
        as_map(commit_tree_entries(m, contents)) == overlay_map(
            as_map(head_tree_entries(m).unwrap()),
            staged_pairs(m.index, contents),
        ),
{
    let base = head_tree_entries(m).unwrap();
    lemma_head_tree_wf(m);
    lemma_staged_pairs_plain(m.index, contents);
    lemma_overlay_entries_sorted(base, staged_pairs(m.index, contents));
    lemma_overlay_entries_plain(base, staged_pairs(m.index, contents));
    lemma_overlay_entries_map(base, staged_pairs(m.index, contents));
}

/// Chain linkage: after one commit and then another, HEAD names the second
/// commit, and the second commit's record names the first commit as its
/// parent.
pub proof fn lemma_chain_linkage(
    m0: RepoModel,
    c1: Seq<Seq<char>>,
    msg1: Seq<char>,
    m1: RepoModel,
    c2: Seq<Seq<char>>,
    msg2: Seq<char>,
    m2: RepoModel,
)
    requires
        m1 == commit_step(m0, c1, msg1),
        m2 == commit_step(m1, c2, msg2),
        is_hash(hash_of(commit_tree_text(m1, c2))),
        is_hash(commit_hash(m0, c1, msg1)),
    ensures
        m1.head == Some(commit_hash(m0, c1, msg1)),
        m2.head == Some(commit_hash(m1, c2, msg2)),
        parent_of_commit(m2, m2.head) == Some(commit_hash(m0, c1, msg1)),
{
    let th2 = hash_of(commit_tree_text(m1, c2));
    let ch1 = commit_hash(m0, c1, msg1);
    let ch2 = commit_hash(m1, c2, msg2);
    let ct2 = commit_record_text(m1, c2, msg2);
    assert(m2.objects.contains_key(ch2));
    assert(m2.objects[ch2] == ct2);
    lemma_hash_is_plain(th2);
    lemma_hash_is_plain(ch1);
    lemma_commit_round_trip(th2, Some(ch1), msg2);
}

/// Restore correctness: after a first commit with no predecessor and a
/// second on top of it, one step backward can run, moves HEAD to the first
/// commit, and restores exactly the first commit's snapshot — every path
/// of that tree, each with the text stored under its recorded hash.  From
/// there no further step backward is possible: the first record names no
/// parent, so a second step fails and leaves HEAD in place.  The
/// hypotheses keep the four objects the two commits wrote apart: on a hash
/// collision among them the store overwrites and the law does not hold.
pub proof fn lemma_revert_restores(
    m0: RepoModel,
    c1: Seq<Seq<char>>,
    msg1: Seq<char>,
    m1: RepoModel,
    c2: Seq<Seq<char>>,
    msg2: Seq<char>,
    m2: RepoModel,
)
    requires
        m0.head is None,
        index_wf(m0.index),
        commit_ok(m0, c1),
        m1 == commit_step(m0, c1, msg1),
        commit_ok(m1, c2),
        m2 == commit_step(m1, c2, msg2),
        forall|i: int| 0 <= i < m0.index.len() ==> is_hash(hash_of(#[trigger] c1[i])),
        is_hash(hash_of(commit_tree_text(m0, c1))),
        is_hash(commit_hash(m0, c1, msg1)),
        is_hash(hash_of(commit_tree_text(m1, c2))),
        hash_of(commit_tree_text(m0, c1)) != commit_hash(m0, c1, msg1),
        hash_of(commit_tree_text(m0, c1)) != hash_of(commit_tree_text(m1, c2)),
        hash_of(commit_tree_text(m0, c1)) != commit_hash(m1, c2, msg2),
        commit_hash(m0, c1, msg1) != hash_of(commit_tree_text(m1, c2)),
        commit_hash(m0, c1, msg1) != commit_hash(m1, c2, msg2),
        forall|i: int|
            0 <= i < commit_tree_entries(m0, c1).len() ==> m0.objects.contains_key(
                (#[trigger] commit_tree_entries(m0, c1)[i]).1,
            ),
    ensures
        revert_ok(m2),
        revert_target(m2) == Some(commit_hash(m0, c1, msg1)),
        revert_step(m2).head == Some(commit_hash(m0, c1, msg1)),
        revert_entries(m2) == Some(commit_tree_entries(m0, c1)),
        revert_target(revert_step(m2)) is None,
        !revert_ok(revert_step(m2)),
{
    let th1 = hash_of(commit_tree_text(m0, c1));
    let ch1 = commit_hash(m0, c1, msg1);
    let th2 = hash_of(commit_tree_text(m1, c2));
    let ch2 = commit_hash(m1, c2, msg2);
    let tt1 = commit_tree_text(m0, c1);
    let ct1 = commit_record_text(m0, c1, msg1);
    let ct2 = commit_record_text(m1, c2, msg2);
    let entries1 = commit_tree_entries(m0, c1);
    lemma_hash_is_plain(th1);
    lemma_hash_is_plain(ch1);
    lemma_hash_is_plain(th2);
    // The second record is under HEAD and names the first as parent.
    assert(m2.head == Some(ch2));
    assert(m2.objects[ch2] == ct2);
    lemma_commit_round_trip(th2, Some(ch1), msg2);
    assert(revert_target(m2) == Some(ch1));
    // The first record is still stored intact and names the first tree.
    assert(m2.objects.contains_key(ch1));
    assert(m2.objects[ch1] == ct1);
    lemma_commit_round_trip(th1, None, msg1);
    assert(tree_of_commit(m2, Some(ch1)) == Some(th1));
    // The first tree is still stored intact and parses back exactly.
    assert(m2.objects.contains_key(th1));
    assert(m2.objects[th1] == tt1);
    lemma_head_tree_wf(m0);
    lemma_staged_pairs_plain(m0.index, c1);
    lemma_overlay_entries_sorted(head_tree_entries(m0).unwrap(), staged_pairs(m0.index, c1));
    lemma_overlay_entries_plain(head_tree_entries(m0).unwrap(), staged_pairs(m0.index, c1));
    lemma_tree_round_trip(entries1);
    assert(th1.len() > 0);
    assert(tree_entries_of(m2, Some(th1)) == Some(entries1));
    assert(revert_entries(m2) == Some(entries1));
    // Every blob the first tree records is still stored.
    assert(blobs_present(m2, entries1));
    // After the step backward, the first record still names no parent.
    let m3 = revert_step(m2);
    assert(m3.head == Some(ch1));
    assert(m3.objects[ch1] == ct1);
    assert(revert_target(m3) is None);
}

} // verus!
