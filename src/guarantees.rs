use vstd::prelude::*;
use crate::block::{Block, block_check, is_macro_height};
use crate::blockchain::{lemma_chain_live_prefix, Blockchain, ChainOrdering, ExternalChecks, ForkEvent, PushError, PushResult};
use crate::micro_block::{ForkProof, Transaction, TRANSACTION_VALIDITY_WINDOW};

verus! {

/// Once a push has stored a block, pushing it again reports it as known,
/// whatever the verdicts, and reports no fork; `push` then changes nothing.
pub proof fn known_after_store(
    before: Blockchain,
    after: Blockchain,
    hash: u64,
    block: Block,
    p: int,
    again: Block,
    checks: ExternalChecks,
)
    requires
        after.wf(),
        after.infos@ == before.infos@.push(Blockchain::record(hash, block, p)),
        after.pruned@ == before.pruned@.push(false),
    ensures
        after.push_result(hash, again, checks) == Ok::<PushResult, PushError>(PushResult::Known),
        after.push_fork_events(hash, again, checks) == Seq::<ForkEvent>::empty(),
{
    let i = before.infos@.len() as int;
    assert(after.live(i) && after.hash_of(i) == hash);
}

/// A block whose parent the store does not know is an orphan.
pub proof fn orphan_without_parent(s: Blockchain, hash: u64, block: Block, checks: ExternalChecks)
    requires
        s.wf(),
        !s.knows(hash),
        block_check(block, s.network_id) is Ok,
        !s.knows(block.parent()),
    ensures
        s.push_result(hash, block, checks) == Err::<PushResult, PushError>(PushError::Orphan),
{
}

/// A valid block on top of the head extends the main chain: once its
/// parent has become the head, the former orphan is accepted.
pub proof fn child_of_head_extends(s: Blockchain, hash: u64, block: Block, checks: ExternalChecks)
    requires
        s.wf(),
        !s.knows(hash),
        block.parent() == s.head_hash_spec(),
        block.number() == s.head_number() + 1,
        block_check(block, s.network_id) is Ok,
        block.is_macro_spec() == is_macro_height(block.number()),
        !(block matches Block::Macro(m) && m.justification is None),
        checks.signature_valid,
        checks.fork_proofs_valid,
        checks.body_valid,
        checks.validators_valid,
        checks.computed_body_valid,
        checks.accounts_valid,
        !s.replay_conflict(s.head as int, block.txs(), block.number()),
    ensures
        s.push_result(hash, block, checks) == Ok::<PushResult, PushError>(PushResult::Extended),
{
    assert(s.knows(block.parent()));
    s.lemma_index_of(block.parent(), s.head as int);
}

/// A block on top of the head that repeats a transaction of one of the
/// blocks of its validity window is refused as a duplicate, once it has
/// passed the checks that come before.
pub proof fn replay_refused(
    s: Blockchain,
    hash: u64,
    block: Block,
    checks: ExternalChecks,
    h: int,
    a: int,
    b: int,
)
    requires
        s.wf(),
        block.parent() == s.head_hash_spec(),
        s.precheck(hash, block, checks) is None,
        Blockchain::postcheck(block, checks) is None,
        block.number() - TRANSACTION_VALIDITY_WINDOW <= h < block.number(),
        0 <= h,
        0 <= a < block.txs().len(),
        0 <= b < s.infos@[s.ancestor_at(s.head as int, h)].head.txs().len(),
        block.txs()[a] == s.infos@[s.ancestor_at(s.head as int, h)].head.txs()[b],
    ensures
        s.push_result(hash, block, checks) == Err::<PushResult, PushError>(
            PushError::DuplicateTransaction,
        ),
{
    assert(s.knows(block.parent()));
    s.lemma_index_of(block.parent(), s.head as int);
    assert(s.shares_tx(s.ancestor_at(s.head as int, h), block.txs()));
}

/// A better branch whose common ancestor with the main chain lies before
/// the last accepted macro block is refused, and nothing is pruned.
pub proof fn no_rebranch_across_macro(s: Blockchain, hash: u64, block: Block, checks: ExternalChecks)
    requires
        s.wf(),
        s.precheck(hash, block, checks) is None,
        Blockchain::postcheck(block, checks) is None,
        s.chain_order(s.index_of(block.parent()), block.number(), block.view())
            == ChainOrdering::Better,
        s.ancestor_number(s.index_of(block.parent())) < s.macro_number,
    ensures
        s.push_result(hash, block, checks) == Err::<PushResult, PushError>(PushError::InvalidFork),
        s.pruned_after_failure(s.index_of(block.parent()), block, checks) == s.pruned@,
{
}

proof fn detected_holds(s: Blockchain, m: int, i: int, hash: u64, sig: u64, n: u32, v: u32)
    requires
        0 <= i < m,
        s.live(i),
        !s.infos@[i].head.is_macro_spec(),
        s.number_of(i) == n,
        s.view_of(i) == v,
    ensures
        s.detected(m, hash, sig, n, v).contains(
            ForkEvent::Detected(
                ForkProof {
                    header1_hash: hash,
                    header2_hash: s.hash_of(i),
                    justification1: sig,
                    justification2: s.infos@[i].head.signature(),
                    block_number: n,
                    view_number: v,
                },
            ),
        ),
    decreases m,
{
    let e = ForkEvent::Detected(
        ForkProof {
                    header1_hash: hash,
                    header2_hash: s.hash_of(i),
                    justification1: sig,
                    justification2: s.infos@[i].head.signature(),
                    block_number: n,
                    view_number: v,
                },
    );
    if i == m - 1 {
        assert(s.detected(m, hash, sig, n, v).last() == e);
    } else {
        detected_holds(s, m - 1, i, hash, sig, n, v);
        let prev = s.detected(m - 1, hash, sig, n, v);
        let k = choose|k: int| 0 <= k < prev.len() && prev[k] == e;
        assert(s.detected(m, hash, sig, n, v)[k] == e);
    }
}

/// A micro block that passes the checks before fork detection reports a
/// fork with every known micro block of the same number and view.
pub proof fn fork_reported(s: Blockchain, hash: u64, block: Block, checks: ExternalChecks, i: int)
    requires
        s.wf(),
        s.precheck(hash, block, checks) is None,
        !block.is_macro_spec(),
        s.live(i),
        !s.infos@[i].head.is_macro_spec(),
        s.number_of(i) == block.number(),
        s.view_of(i) == block.view(),
    ensures
        s.push_fork_events(hash, block, checks).contains(
            ForkEvent::Detected(
                ForkProof {
                    header1_hash: hash,
                    header2_hash: s.hash_of(i),
                    justification1: block.signature(),
                    justification2: s.infos@[i].head.signature(),
                    block_number: block.number(),
                    view_number: block.view(),
                },
            ),
        ),
{
    detected_holds(s, s.len(), i, hash, block.signature(), block.number(), block.view());
}

/// The parts of a chain that decide a push.
pub open spec fn same_chain(a: Blockchain, b: Blockchain) -> bool {
    &&& a.infos@ == b.infos@
    &&& a.pruned@ == b.pruned@
    &&& a.head == b.head
    &&& a.macro_number == b.macro_number
    &&& a.network_id == b.network_id
}

proof fn same_ancestor(a: Blockchain, b: Blockchain, i: int, h: int)
    requires
        same_chain(a, b),
    ensures
        a.ancestor_at(i, h) == b.ancestor_at(i, h),
    decreases i,
{
    if !(a.number_of(i) <= h || i <= 0 || a.parent_of(i) >= i || i >= a.len()) {
        same_ancestor(a, b, a.parent_of(i), h);
    }
}

proof fn same_fork_point(a: Blockchain, b: Blockchain, i: int)
    requires
        same_chain(a, b),
    ensures
        a.fork_point(i) == b.fork_point(i),
    decreases i,
{
    same_ancestor(a, b, a.head as int, a.number_of(i) as int);
    if !(a.on_main(i) || i <= 0 || a.parent_of(i) >= i || i >= a.len()) {
        same_fork_point(a, b, a.parent_of(i));
    }
}

proof fn same_first_difference(a: Blockchain, b: Blockchain, p: int, n: u32, v: u32, h: int, hmax: int)
    requires
        same_chain(a, b),
    ensures
        a.first_difference(p, n, v, h, hmax) == b.first_difference(p, n, v, h, hmax),
    decreases hmax + 1 - h,
{
    if h <= hmax {
        same_ancestor(a, b, a.head as int, h);
        same_ancestor(a, b, p, h);
        same_first_difference(a, b, p, n, v, h + 1, hmax);
    }
}

proof fn same_order(a: Blockchain, b: Blockchain, p: int, n: u32, v: u32)
    requires
        same_chain(a, b),
    ensures
        a.chain_order(p, n, v) == b.chain_order(p, n, v),
{
    same_fork_point(a, b, p);
    let hmax = if a.head_number() < n {
        a.head_number() as int
    } else {
        n as int
    };
    same_first_difference(a, b, p, n, v, a.number_of(a.fork_point(p)) + 1, hmax);
}

proof fn same_replay(a: Blockchain, b: Blockchain, p: int, txs: Seq<Transaction>, n: u32)
    requires
        same_chain(a, b),
    ensures
        a.replay_conflict(p, txs, n) == b.replay_conflict(p, txs, n),
{
    assert forall|h: int| #[trigger] a.shares_tx(a.ancestor_at(p, h), txs) == b.shares_tx(
        b.ancestor_at(p, h),
        txs,
    ) by {
        same_ancestor(a, b, p, h);
    }
    if a.replay_conflict(p, txs, n) {
        let h = choose|h: int|
            n - TRANSACTION_VALIDITY_WINDOW <= h < n && 0 <= h && #[trigger] a.shares_tx(
                a.ancestor_at(p, h),
                txs,
            );
        assert(b.shares_tx(b.ancestor_at(p, h), txs));
    }
    if b.replay_conflict(p, txs, n) {
        let h = choose|h: int|
            n - TRANSACTION_VALIDITY_WINDOW <= h < n && 0 <= h && #[trigger] b.shares_tx(
                b.ancestor_at(p, h),
                txs,
            );
        assert(a.shares_tx(a.ancestor_at(p, h), txs));
    }
}

proof fn same_path(a: Blockchain, b: Blockchain, i: int, stop: int)
    requires
        same_chain(a, b),
    ensures
        a.path(i, stop) == b.path(i, stop),
    decreases i,
{
    if !(a.number_of(i) <= stop || i <= 0 || a.parent_of(i) >= i || i >= a.len()) {
        same_path(a, b, a.parent_of(i), stop);
    }
}

proof fn same_first_conflict(a: Blockchain, b: Blockchain, s: Seq<usize>, k: int, failing: Option<u64>)
    requires
        same_chain(a, b),
    ensures
        a.first_conflict(s, k, failing) == b.first_conflict(s, k, failing),
    decreases s.len() - k,
{
    if 0 <= k < s.len() {
        let f = s[k] as int;
        same_replay(a, b, a.parent_of(f), a.infos@[f].head.txs(), a.number_of(f));
        same_first_conflict(a, b, s, k + 1, failing);
    }
}

proof fn same_detected(a: Blockchain, b: Blockchain, m: int, hash: u64, sig: u64, n: u32, v: u32)
    requires
        same_chain(a, b),
    ensures
        a.detected(m, hash, sig, n, v) == b.detected(m, hash, sig, n, v),
    decreases m,
{
    if m > 0 {
        same_detected(a, b, m - 1, hash, sig, n, v);
    }
}

/// A push is decided by the chain it is made on: two chains with the same
/// records, pruning flags, head, last macro number and network give the
/// same result, report the same forks, store the block under the same
/// parent, and announce, prune and adopt the same blocks.
pub proof fn same_state_same_push(
    a: Blockchain,
    b: Blockchain,
    hash: u64,
    block: Block,
    checks: ExternalChecks,
)
    requires
        a.wf(),
        b.wf(),
        same_chain(a, b),
    ensures
        a.push_result(hash, block, checks) == b.push_result(hash, block, checks),
        a.push_fork_events(hash, block, checks) == b.push_fork_events(hash, block, checks),
        a.knows(block.parent()) ==> {
            let p = a.index_of(block.parent());
            &&& p == b.index_of(block.parent())
            &&& a.hashes(a.reverted(p)) == b.hashes(b.reverted(p))
            &&& a.hashes(a.adopted(p)) == b.hashes(b.adopted(p))
            &&& a.pruned_after_failure(p, block, checks) == b.pruned_after_failure(p, block, checks)
        },
{
    assert(a.knows(hash) == b.knows(hash)) by {
        if a.knows(hash) {
            let i = choose|i: int| a.live(i) && a.hash_of(i) == hash;
            assert(b.live(i) && b.hash_of(i) == hash);
        }
        if b.knows(hash) {
            let i = choose|i: int| b.live(i) && b.hash_of(i) == hash;
            assert(a.live(i) && a.hash_of(i) == hash);
        }
    }
    assert(a.knows(block.parent()) == b.knows(block.parent())) by {
        if a.knows(block.parent()) {
            let i = choose|i: int| a.live(i) && a.hash_of(i) == block.parent();
            assert(b.live(i) && b.hash_of(i) == block.parent());
        }
        if b.knows(block.parent()) {
            let i = choose|i: int| b.live(i) && b.hash_of(i) == block.parent();
            assert(a.live(i) && a.hash_of(i) == block.parent());
        }
    }
    same_detected(a, b, a.len(), hash, block.signature(), block.number(), block.view());
    if a.knows(block.parent()) {
        let p = a.index_of(block.parent());
        assert(a.live(p) && a.hash_of(p) == block.parent());
        b.lemma_index_of(block.parent(), p);
        same_order(a, b, p, block.number(), block.view());
        same_replay(a, b, p, block.txs(), block.number());
        same_fork_point(a, b, p);
        let an = a.ancestor_number(p) as int;
        same_path(a, b, p, an);
        same_path(a, b, a.head as int, an);
        same_first_conflict(a, b, a.adopted(p), 0, checks.branch_accounts_failure);
        lemma_chain_live_prefix(&a, &b, p);
        assert(a.has_macro(a.adopted(p)) == b.has_macro(b.adopted(p)));
        assert(a.hashes(a.reverted(p)) =~= b.hashes(b.reverted(p)));
        assert(a.hashes(a.adopted(p)) =~= b.hashes(b.adopted(p)));
        assert(a.pruned_after_failure(p, block, checks) =~= b.pruned_after_failure(p, block, checks));
    }
}

proof fn first_difference_monotone(s: Blockchain, p: int, n: u32, v1: u32, v2: u32, h: int, hmax: int)
    requires
        v1 <= v2,
        s.first_difference(p, n, v1, h, hmax) == ChainOrdering::Better,
    ensures
        s.first_difference(p, n, v2, h, hmax) == ChainOrdering::Better,
    decreases hmax + 1 - h,
{
    if h <= hmax {
        let main_view = s.view_of(s.ancestor_at(s.head as int, h));
        if main_view == s.branch_view(p, n, v1, h) && main_view == s.branch_view(p, n, v2, h) {
            first_difference_monotone(s, p, n, v1, v2, h + 1, hmax);
        }
    }
}

/// Of two candidates with the same parent and number, the one with the
/// higher view is ranked no lower: if the other one beats the main chain,
/// so does it.
pub proof fn higher_view_sibling_not_worse(s: Blockchain, p: int, n: u32, v1: u32, v2: u32)
    requires
        v1 <= v2,
        s.chain_order(p, n, v1) == ChainOrdering::Better,
    ensures
        s.chain_order(p, n, v2) == ChainOrdering::Better,
{
    if p != s.head {
        let hmax = if s.head_number() < n {
            s.head_number() as int
        } else {
            n as int
        };
        first_difference_monotone(s, p, n, v1, v2, s.number_of(s.fork_point(p)) + 1, hmax);
    }
}

/// A sibling of the head, with number `head number` and view `v`, is
/// compared with the head at that height alone.
proof fn sibling_order(s: Blockchain, v: u32)
    requires
        s.wf(),
        s.head > 0,
    ensures
        s.live(s.parent_of(s.head as int)),
        s.index_of(s.hash_of(s.parent_of(s.head as int))) == s.parent_of(s.head as int),
        s.chain_order(s.parent_of(s.head as int), s.head_number(), v) == (if s.view_of(s.head as int)
            > v {
            ChainOrdering::Inferior
        } else if s.view_of(s.head as int) < v {
            ChainOrdering::Better
        } else {
            ChainOrdering::Unknown
        }),
{
    let h = s.head as int;
    let p = s.parent_of(h);
    assert(s.infos@[h].parent < h);
    assert(s.chain_live(p));
    s.lemma_index_of(s.hash_of(p), p);
    assert(s.ancestor_at(h, s.number_of(p) as int) == s.ancestor_at(p, s.number_of(p) as int));
    assert(s.on_main(p));
    assert(s.fork_point(p) == p);
    assert(s.ancestor_at(h, s.head_number() as int) == h);
    let n = s.head_number() as int;
    assert(s.first_difference(p, s.head_number(), v, n + 1, n) == ChainOrdering::Unknown);
}

/// A sibling of the head with a lower view is ignored.
pub proof fn inferior_sibling_ignored(s: Blockchain, hash: u64, block: Block, checks: ExternalChecks)
    requires
        s.wf(),
        s.head > 0,
        !s.knows(hash),
        block_check(block, s.network_id) is Ok,
        block.parent() == s.hash_of(s.parent_of(s.head as int)),
        block.number() == s.head_number(),
        block.view() < s.view_of(s.head as int),
    ensures
        s.push_result(hash, block, checks) == Ok::<PushResult, PushError>(PushResult::Ignored),
        s.push_fork_events(hash, block, checks) == Seq::<ForkEvent>::empty(),
{
    sibling_order(s, block.view());
}

/// A valid micro sibling of a micro head with the same view is stored
/// beside the main chain, and a fork with the head is reported.
pub proof fn same_slot_sibling_forks(s: Blockchain, hash: u64, block: Block, checks: ExternalChecks)
    requires
        s.wf(),
        s.head > 0,
        !s.knows(hash),
        block_check(block, s.network_id) is Ok,
        !block.is_macro_spec(),
        !is_macro_height(block.number()),
        !s.infos@[s.head as int].head.is_macro_spec(),
        checks.signature_valid,
        checks.fork_proofs_valid,
        block.parent() == s.hash_of(s.parent_of(s.head as int)),
        block.number() == s.head_number(),
        block.view() == s.view_of(s.head as int),
    ensures
        s.push_result(hash, block, checks) == Ok::<PushResult, PushError>(PushResult::Forked),
        s.push_fork_events(hash, block, checks).contains(
            ForkEvent::Detected(
                ForkProof {
                    header1_hash: hash,
                    header2_hash: s.head_hash_spec(),
                    justification1: block.signature(),
                    justification2: s.infos@[s.head as int].head.signature(),
                    block_number: block.number(),
                    view_number: block.view(),
                },
            ),
        ),
{
    sibling_order(s, block.view());
    assert(s.live(s.head as int));
    fork_reported(s, hash, block, checks, s.head as int);
}

} // verus!
