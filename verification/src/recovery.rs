//! What a store holds after the storage operations of a commit were
//! carried out, all of them or only the first: what reopening finds.

use vstd::prelude::*;
use crate::db::{proposal_on, stored_revision, DbError};
use crate::manager::{commit_ops, releases};
use crate::node::branch::NodeView;
use crate::revision::{header_of, node_writes, release_ops, CommittedView, ProposalView};
use crate::storage::{decode_header, encode_header, lemma_header_roundtrip, StorageOpView};
use crate::trie::lookup::resolved;
use crate::trie::merkle::{merkle, trie_hash};
use crate::trie::persist::fits;
use crate::trie::shape::canonical;
use crate::trie::store::{lemma_load_frame, lemma_load_written, node_blob, recordable};

verus! {

/// The store after `bytes` were written at offset `at`; a gap before `at` is filled with zeros.
pub open spec fn write_at(image: Seq<u8>, at: nat, bytes: Seq<u8>) -> Seq<u8> {
    Seq::new(
        if image.len() > at + bytes.len() {
            image.len()
        } else {
            at + bytes.len()
        },
        |i: int|
            if at <= i < at + bytes.len() {
                bytes[i - at]
            } else if i < image.len() {
                image[i]
            } else {
                0u8
            },
    )
}

/// The store after one storage operation. Only writes change its bytes.
pub open spec fn carry_out(image: Seq<u8>, op: StorageOpView) -> Seq<u8> {
    match op {
        StorageOpView::Truncate => Seq::empty(),
        StorageOpView::WriteHeader(bytes) => write_at(image, 0, bytes),
        StorageOpView::WriteNode(at, bytes) => write_at(image, at as nat, bytes),
        _ => image,
    }
}

/// The store after a list of storage operations, first to last.
pub open spec fn carry_out_all(image: Seq<u8>, ops: Seq<StorageOpView>) -> Seq<u8>
    decreases ops.len(),
{
    if ops.len() == 0 {
        image
    } else {
        carry_out(carry_out_all(image, ops.drop_last()), ops.last())
    }
}

/// Carrying out two lists one after the other is carrying out their concatenation.
pub proof fn lemma_carry_out_concat(image: Seq<u8>, a: Seq<StorageOpView>, b: Seq<StorageOpView>)
    ensures
        carry_out_all(image, a + b) == carry_out_all(carry_out_all(image, a), b),
    decreases b.len(),
{
    if b.len() == 0 {
        assert(a + b =~= a);
    } else {
        lemma_carry_out_concat(image, a, b.drop_last());
        assert((a + b).drop_last() =~= a + b.drop_last());
        assert((a + b).last() == b.last());
    }
}

/// Whether an operation writes nothing.
pub open spec fn writes_nothing(op: StorageOpView) -> bool {
    !(op is Truncate) && !(op is WriteHeader) && !(op is WriteNode)
}

/// Operations that write nothing leave the store as it is.
pub proof fn lemma_carry_out_quiet(image: Seq<u8>, ops: Seq<StorageOpView>)
    requires
        forall|i: int| 0 <= i < ops.len() ==> writes_nothing(#[trigger] ops[i]),
    ensures
        carry_out_all(image, ops) == image,
    decreases ops.len(),
{
    if ops.len() > 0 {
        assert forall|i: int| 0 <= i < ops.drop_last().len() implies writes_nothing(
            #[trigger] ops.drop_last()[i],
        ) by {
            assert(ops.drop_last()[i] == ops[i]);
        }
        lemma_carry_out_quiet(image, ops.drop_last());
        assert(writes_nothing(ops[ops.len() - 1]));
    }
}

/// Releases write nothing.
pub proof fn lemma_releases_quiet(revs: Seq<CommittedView>)
    ensures
        forall|i: int| 0 <= i < releases(revs).len() ==> writes_nothing(#[trigger] releases(revs)[i]),
    decreases revs.len(),
{
    if revs.len() > 0 {
        lemma_releases_quiet(revs.drop_last());
        let front = releases(revs.drop_last());
        let last = release_ops(revs.last().deleted);
        assert forall|i: int| 0 <= i < releases(revs).len() implies writes_nothing(
            #[trigger] releases(revs)[i],
        ) by {
            if i < front.len() {
                assert(releases(revs)[i] == front[i]);
            } else {
                assert(releases(revs)[i] == last[i - front.len()]);
            }
        }
    }
}

/// The store after the operations of a commit up to, and without, the
/// write of the header: the store with the proposal's nodes behind it.
pub open spec fn nodes_written(image: Seq<u8>, p: ProposalView) -> Seq<u8> {
    carry_out_all(image, node_writes(p.new_nodes))
}

/// The operations of a commit, carried out to the end, leave the store
/// with the proposal's nodes written and then the header.
pub proof fn lemma_commit_ops_carried_out(
    image: Seq<u8>,
    p: ProposalView,
    reaped: Seq<CommittedView>,
)
    ensures
        carry_out_all(image, commit_ops(p, reaped)) == write_at(
            nodes_written(image, p),
            0,
            encode_header(header_of(p)),
        ),
{
    let a = seq![StorageOpView::PersistDeleted(p.deleted)];
    let b = releases(reaped);
    let c = seq![StorageOpView::FlushFreeList];
    let d = node_writes(p.new_nodes);
    let e = seq![
        StorageOpView::Sync,
        StorageOpView::WriteHeader(encode_header(header_of(p))),
        StorageOpView::Sync,
    ];
    lemma_releases_quiet(reaped);
    let quiet = a + b + c;
    assert forall|i: int| 0 <= i < quiet.len() implies writes_nothing(#[trigger] quiet[i]) by {
        if i < 1 {
        } else if i < 1 + b.len() {
            assert(quiet[i] == b[i - 1]);
        } else {
        }
    }
    lemma_carry_out_quiet(image, quiet);
    lemma_carry_out_concat(image, quiet, d);
    lemma_carry_out_concat(image, quiet + d, e);
    let written = nodes_written(image, p);
    assert(carry_out_all(image, quiet + d) == written);
    assert(e.drop_last().drop_last() =~= seq![StorageOpView::Sync]);
    assert(e.drop_last().last() == StorageOpView::WriteHeader(encode_header(header_of(p))));
    let sync = seq![StorageOpView::Sync];
    assert(sync.drop_last() =~= Seq::<StorageOpView>::empty());
    assert(carry_out_all(written, sync.drop_last()) == written);
    assert(sync.last() == StorageOpView::Sync);
    assert(carry_out_all(written, sync) == written);
    assert(carry_out_all(written, e.drop_last()) == write_at(
        written,
        0,
        encode_header(header_of(p)),
    ));
    assert(commit_ops(p, reaped) == quiet + d + e);
}

/// Reopening recovers what was committed: after the storage operations of
/// the commit of a proposal of this database were carried out on a store,
/// the store holds the revision that was committed, with the same root
/// hash and the same trie.
pub proof fn lemma_reopen_after_commit(
    image: Seq<u8>,
    tip: CommittedView,
    root: Option<NodeView>,
    base: nat,
    region: Option<u64>,
    reaped: Seq<CommittedView>,
)
    requires
        65 <= image.len() <= base,
        root matches Some(n) ==> resolved(n) && canonical(n) && recordable(n) && fits(n, base)
            && merkle(n).len() == 32,
    ensures
        stored_revision(
            carry_out_all(image, commit_ops(proposal_on(tip, root, base, region), reaped)),
        ) == Ok::<CommittedView, DbError>(
            CommittedView {
                root_address: proposal_on(tip, root, base, region).root_address,
                root_hash: trie_hash(root),
                deleted: Seq::empty(),
                root,
            },
        ),
{
    let p = proposal_on(tip, root, base, region);
    lemma_commit_ops_carried_out(image, p, reaped);
    let written = nodes_written(image, p);
    let header = encode_header(header_of(p));
    let last = write_at(written, 0, header);
    match root {
        None => {
            assert(node_writes(p.new_nodes) =~= Seq::<StorageOpView>::empty());
            assert(written == image);
            lemma_header_roundtrip(header_of(p), last.skip(65));
            assert(last =~= header + last.skip(65));
        },
        Some(n) => {
            let blob = node_blob(n, base);
            let writes = node_writes(p.new_nodes);
            assert(writes =~= seq![StorageOpView::WriteNode(base as u64, blob)]);
            assert(writes.drop_last() =~= Seq::<StorageOpView>::empty());
            assert(carry_out_all(image, writes.drop_last()) == image);
            assert(writes.last() == StorageOpView::WriteNode(base as u64, blob));
            assert(base as u64 as nat == base);
            assert(written == write_at(image, base, blob));
            crate::trie::store::lemma_blob_begins_at(n, base);
            lemma_header_roundtrip(header_of(p), last.skip(65));
            assert(last =~= header + last.skip(65));
            let prefix = last.take(base as int);
            assert(last =~= prefix + blob);
            lemma_load_written(prefix, n, base);
        },
    }
}

/// A crash before the root moves loses nothing: whatever bytes were
/// appended to a store before the header was written, reopening finds the
/// header, the root and the trie that the store held before.
pub proof fn lemma_crash_before_root_move(image: Seq<u8>, appended: Seq<u8>)
    requires
        stored_revision(image) is Ok,
    ensures
        decode_header(image + appended) == decode_header(image),
        stored_revision(image + appended) == stored_revision(image),
{
    let grown = image + appended;
    assert(grown.subrange(0, 8) =~= image.subrange(0, 8));
    assert(grown.subrange(8, 16) =~= image.subrange(8, 16));
    assert(grown.subrange(16, 24) =~= image.subrange(16, 24));
    assert(grown.subrange(25, 57) =~= image.subrange(25, 57));
    assert(grown.subrange(57, 65) =~= image.subrange(57, 65));
    let h = decode_header(image)->Ok_0;
    match (h.root_address, h.root_hash) {
        (Some(a), Some(hash)) => {
            lemma_load_frame(image, appended, a as nat);
        },
        _ => {},
    }
}

/// The node writes of a commit only append: on a store that ends at or
/// before the first new address, carrying out the first `k` storage
/// operations of the commit of a proposal of this database, for any `k`
/// that stops before the header is written, leaves the store as it was
/// and more bytes behind it.
pub proof fn lemma_commit_appends(
    image: Seq<u8>,
    tip: CommittedView,
    root: Option<NodeView>,
    base: nat,
    region: Option<u64>,
    reaped: Seq<CommittedView>,
    k: int,
)
    requires
        image.len() <= base,
        base <= u64::MAX,
        0 <= k <= commit_ops(proposal_on(tip, root, base, region), reaped).len() - 2,
    ensures
        exists|appended: Seq<u8>|
            carry_out_all(
                image,
                commit_ops(proposal_on(tip, root, base, region), reaped).take(k),
            ) == image + appended,
{
    let p = proposal_on(tip, root, base, region);
    let ops = commit_ops(p, reaped);
    let first = ops.take(k);
    lemma_releases_quiet(reaped);
    lemma_only_node_writes(image, p, reaped, first, base);
}

/// A list of operations that write nothing but at most one region at or
/// behind the end of the store only appends to the store.
proof fn lemma_only_node_writes(
    image: Seq<u8>,
    p: ProposalView,
    reaped: Seq<CommittedView>,
    ops: Seq<StorageOpView>,
    base: nat,
)
    requires
        image.len() <= base,
        base <= u64::MAX,
        p.new_nodes.len() <= 1,
        p.new_nodes.len() == 1 ==> p.new_nodes[0].0 == base,
        ops.len() <= commit_ops(p, reaped).len() - 2,
        ops == commit_ops(p, reaped).take(ops.len() as int),
        forall|i: int| 0 <= i < releases(reaped).len() ==> writes_nothing(
            #[trigger] releases(reaped)[i],
        ),
    ensures
        exists|appended: Seq<u8>| carry_out_all(image, ops) == image + appended,
    decreases ops.len(),
{
    let all = commit_ops(p, reaped);
    let r = releases(reaped);
    let n = p.new_nodes.len() as int;
    let w = 2 + r.len();
    if ops.len() == 0 {
        assert(image + Seq::<u8>::empty() =~= image);
    } else {
        let front = ops.drop_last();
        let m = front.len() as int;
        assert(front =~= all.take(m)) by {
            assert(all.take(ops.len() as int).drop_last() =~= all.take(m));
        }
        lemma_only_node_writes(image, p, reaped, front, base);
        let op = ops.last();
        assert(op == all[m]);
        if m < 1 {
            assert(all[m] == StorageOpView::PersistDeleted(p.deleted));
        } else if m < 1 + r.len() {
            assert(all[m] == r[m - 1]);
        } else if m < w {
            assert(all[m] == StorageOpView::FlushFreeList);
        } else if m < w + n {
            assert(all[m] == node_writes(p.new_nodes)[m - w]);
            assert(m == w);
            assert forall|i: int| 0 <= i < front.len() implies writes_nothing(
                #[trigger] front[i],
            ) by {
                assert(front[i] == all[i]);
                if i < 1 {
                } else if i < 1 + r.len() {
                    assert(all[i] == r[i - 1]);
                } else {
                }
            }
            lemma_carry_out_quiet(image, front);
            let bytes = p.new_nodes[0].1;
            let out = write_at(image, base, bytes);
            assert(out =~= image + out.skip(image.len() as int));
        } else {
            assert(m == w + n);
            assert(all[m] == StorageOpView::Sync);
        }
        if !(op is WriteNode) {
            assert(writes_nothing(op));
        }
    }
}

/// New nodes never land on nodes in use: the nodes of a proposal lie
/// from its base on, its root among them, and the nodes of every proposal
/// made after it lie behind them.
pub proof fn lemma_regions_apart(
    tip: CommittedView,
    first: NodeView,
    base: nat,
    region: Option<u64>,
    later_tip: CommittedView,
    later: NodeView,
    later_base: nat,
    later_region: Option<u64>,
)
    requires
        fits(first, base),
        fits(later, later_base),
        later_base >= base + node_blob(first, base).len(),
    ensures
        ({
            let p = proposal_on(tip, Some(first), base, region);
            let q = proposal_on(later_tip, Some(later), later_base, later_region);
            &&& p.new_nodes[0].0 == base
            &&& q.new_nodes[0].0 == later_base
            &&& base <= p.root_address->0 < base + p.new_nodes[0].1.len()
            &&& later_base <= q.root_address->0 < later_base + q.new_nodes[0].1.len()
            &&& base + p.new_nodes[0].1.len() <= later_base
        }),
{
    crate::trie::store::lemma_blob_begins_at(first, base);
    crate::trie::store::lemma_blob_begins_at(later, later_base);
}

/// A fresh proposal lands on nothing: its nodes begin at the next free
/// address, behind the nodes of every live proposal, behind the beginning
/// of the current trie, and behind every address that a reaped revision
/// will release.
pub proof fn lemma_fresh_region(db: crate::db::DbView, root: NodeView, region: Option<u64>)
    requires
        crate::db::all_within(db),
        db.manager.historical.len() >= 1,
    ensures
        ({
            let p = proposal_on(
                db.manager.historical.last(),
                Some(root),
                db.next_address as nat,
                region,
            );
            &&& p.new_nodes[0].0 == db.next_address
            &&& forall|j: int|
                0 <= j < db.manager.proposals.len() && (
                #[trigger] db.manager.proposals[j]).new_nodes.len() == 1
                    ==> db.manager.proposals[j].new_nodes[0].0
                    + db.manager.proposals[j].new_nodes[0].1.len() <= p.new_nodes[0].0
            &&& forall|j: int, k: int|
                0 <= j < db.manager.proposals.len() && 0 <= k < (
                #[trigger] db.manager.proposals[j]).deleted.len() ==> (
                #[trigger] db.manager.proposals[j].deleted[k]) < p.new_nodes[0].0
            &&& forall|i: int, k: int|
                0 <= i < db.manager.historical.len() && 0 <= k < (
                #[trigger] db.manager.historical[i]).deleted.len() ==> (
                #[trigger] db.manager.historical[i].deleted[k]) < p.new_nodes[0].0
            &&& (db.tip_region matches Some(t) ==> t < p.new_nodes[0].0)
        }),
{
    let end = db.next_address as nat;
    assert forall|j: int, k: int|
        0 <= j < db.manager.proposals.len() && 0 <= k < (
        #[trigger] db.manager.proposals[j]).deleted.len() implies (
    #[trigger] db.manager.proposals[j].deleted[k]) < end by {
        assert(crate::db::proposal_within(db.manager.proposals[j], end));
    }
    assert forall|i: int, k: int|
        0 <= i < db.manager.historical.len() && 0 <= k < (
        #[trigger] db.manager.historical[i]).deleted.len() implies (
    #[trigger] db.manager.historical[i].deleted[k]) < end by {
        assert(crate::db::revision_within(db.manager.historical[i], end));
    }
}

} // verus!
