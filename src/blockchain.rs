use vstd::prelude::*;
use crate::block::{
    Block, MacroBlock, BATCH_LENGTH, EPOCH_LENGTH, block_check, is_macro_height, is_election_height,
};
use crate::micro_block::{BlockError, ForkProof, Transaction, TRANSACTION_VALIDITY_WINDOW};

verus! {

/// How a candidate block relates to the current main chain.
#[derive(Clone, Copy, Debug, PartialEq, Eq, Structural)]
pub enum ChainOrdering {
    Extend,
    Better,
    Inferior,
    Unknown,
}

#[derive(Clone, Copy, Debug, PartialEq, Eq, Structural)]
pub enum PushResult {
    Known,
    Extended,
    Rebranched,
    Forked,
    Ignored,
}

#[derive(Clone, Copy, Debug, PartialEq, Eq, Structural)]
pub enum PushError {
    InvalidBlock(BlockError),
    Orphan,
    DuplicateTransaction,
    InvalidSuccessor,
    InvalidFork,
    AccountsError,
}

/// Notifications about the main chain, in the order blocks were accepted.
#[derive(Clone, Debug)]
pub enum BlockchainEvent {
    Finalized(u64),
    EpochFinalized(u64),
    /// Reverted and adopted block hashes, each ordered from the common ancestor to the tip.
    Rebranched(Vec<u64>, Vec<u64>),
}

#[derive(Clone, Copy, Debug, PartialEq, Eq, Structural)]
pub enum ForkEvent {
    Detected(ForkProof),
}

/// Outcomes of the checks that rest on signatures, slot tables and the
/// accounts tree, computed by the caller for the block being pushed.
#[derive(Clone, Copy, Debug, PartialEq, Eq, Structural)]
pub struct ExternalChecks {
    /// The slot owner's signature (micro) or the aggregate justification (macro) is valid.
    pub signature_valid: bool,
    /// Every fork proof in a micro block's body is signed by its slot owner.
    pub fork_proofs_valid: bool,
    /// A macro block's body hashes to its header's body root.
    pub body_valid: bool,
    /// An election block lists the validators derived from its seed.
    pub validators_valid: bool,
    /// The macro body recomputed from the slashed sets hashes to the header's body root.
    pub computed_body_valid: bool,
    /// The accounts tree accepts the block and reaches its state root.
    pub accounts_valid: bool,
    /// When the branch that the block ends is re-applied to the accounts
    /// tree, the hash of the first stored block of it that the tree refuses.
    pub branch_accounts_failure: Option<u64>,
}

/// A stored block: its hash, the block itself and the index of its parent record.
pub struct ChainInfo {
    pub hash: u64,
    pub head: Block,
    pub parent: usize,
}

/// The chain store and the tip snapshot. Records are never moved: index 0 is
/// the genesis block and every other record points to an earlier one as its
/// parent. A pruned record is no longer known to the store.
pub struct Blockchain {
    pub network_id: u8,
    pub infos: Vec<ChainInfo>,
    pub pruned: Vec<bool>,
    pub head: usize,
    pub macro_number: u32,
    pub macro_head_hash: u64,
    pub election_head_hash: u64,
    pub events: Vec<BlockchainEvent>,
    pub fork_events: Vec<ForkEvent>,
}

/// Well-formedness depends on the records, the pruning flags and the head alone.
proof fn lemma_wf_frame(a: &Blockchain, b: &Blockchain)
    requires
        a.wf(),
        a.infos@ == b.infos@,
        a.pruned@ == b.pruned@,
        0 <= b.head < b.len(),
        a.chain_live(b.head as int),
    ensures
        b.wf(),
{
    lemma_chain_live_prefix(a, b, b.head as int);
    assert forall|i: int, j: int| b.live(i) && b.live(j) && i != j implies b.hash_of(i) != b.hash_of(
        j,
    ) by {
        assert(a.live(i) && a.live(j));
    }
}

/// Liveness of an ancestry depends only on the records and flags up to it.
pub proof fn lemma_chain_live_prefix(a: &Blockchain, b: &Blockchain, i: int)
    requires
        a.len() <= b.len(),
        a.pruned@.len() == a.len(),
        b.pruned@.len() == b.len(),
        0 <= i < a.len(),
        forall|j: int| 0 <= j < a.len() ==> a.infos@[j] == b.infos@[j] && a.pruned@[j] == b.pruned@[j],
    ensures
        a.chain_live(i) == b.chain_live(i),
    decreases i,
{
    assert(a.infos@[i] == b.infos@[i] && a.pruned@[i] == b.pruned@[i]);
    if !(i <= 0 || a.parent_of(i) >= i) {
        lemma_chain_live_prefix(a, b, a.parent_of(i));
    }
}

/// Pruning records that are not ancestors of `i` keeps the ancestry of `i` live.
proof fn lemma_prune_keeps(a: &Blockchain, b: &Blockchain, i: int)
    requires
        a.wf(),
        a.chain_live(i),
        a.infos@ == b.infos@,
        b.pruned@.len() == a.pruned@.len(),
        forall|x: int|
            0 <= x < a.len() && #[trigger] b.pruned@[x] && !a.pruned@[x] ==> a.ancestor_at(
                i,
                a.number_of(x) as int,
            ) != x,
    ensures
        b.chain_live(i),
    decreases i,
{
    if b.pruned@[i] && !a.pruned@[i] {
        assert(a.ancestor_at(i, a.number_of(i) as int) == i);
    }
    if !(i <= 0 || a.parent_of(i) >= i || i >= a.len()) {
        let q = a.parent_of(i);
        assert(a.infos@[i].parent < i);
        assert forall|x: int|
            0 <= x < a.len() && #[trigger] b.pruned@[x] && !a.pruned@[x] implies a.ancestor_at(
                q,
                a.number_of(x) as int,
            ) != x by {
            if a.number_of(x) < a.number_of(i) {
                assert(a.ancestor_at(i, a.number_of(x) as int) == a.ancestor_at(
                    q,
                    a.number_of(x) as int,
                ));
            } else {
                assert(a.ancestor_at(q, a.number_of(x) as int) == q);
            }
        }
        lemma_prune_keeps(a, b, q);
    }
}

/// The push stored the block.
pub open spec fn stores_block(r: Result<PushResult, PushError>) -> bool {
    r == Ok::<PushResult, PushError>(PushResult::Extended) || r == Ok::<PushResult, PushError>(
        PushResult::Rebranched,
    ) || r == Ok::<PushResult, PushError>(PushResult::Forked)
}

/// The push made the block the new head.
pub open spec fn moves_head(r: Result<PushResult, PushError>) -> bool {
    r == Ok::<PushResult, PushError>(PushResult::Extended) || r == Ok::<PushResult, PushError>(
        PushResult::Rebranched,
    )
}

impl Blockchain {
    pub open spec fn len(&self) -> int {
        self.infos@.len() as int
    }

    pub open spec fn live(&self, i: int) -> bool {
        0 <= i < self.len() && !self.pruned@[i]
    }

    pub open spec fn hash_of(&self, i: int) -> u64 {
        self.infos@[i].hash
    }

    pub open spec fn parent_of(&self, i: int) -> int {
        self.infos@[i].parent as int
    }

    pub open spec fn number_of(&self, i: int) -> u32 {
        self.infos@[i].head.number()
    }

    pub open spec fn view_of(&self, i: int) -> u32 {
        self.infos@[i].head.view()
    }

    pub open spec fn wf(&self) -> bool {
        &&& self.len() >= 1
        &&& self.pruned@.len() == self.len()
        &&& 0 <= self.head < self.len()
        &&& self.chain_live(self.head as int)
        &&& forall|i: int|
            #![trigger self.infos@[i]]
            0 < i < self.len() ==> {
                &&& self.parent_of(i) < i
                &&& self.infos@[i].head.parent() == self.hash_of(self.parent_of(i))
                &&& self.number_of(i) == self.number_of(self.parent_of(i)) + 1
            }
        &&& forall|i: int, j: int|
            #![trigger self.live(i), self.live(j)]
            self.live(i) && self.live(j) && i != j ==> self.hash_of(i) != self.hash_of(j)
    }

    /// Record `i` and all its ancestors are known to the store.
    pub open spec fn chain_live(&self, i: int) -> bool
        decreases i,
    {
        &&& self.live(i)
        &&& (i <= 0 || self.parent_of(i) >= i || i >= self.len() || self.chain_live(self.parent_of(i)))
    }

    /// The store knows a block of hash `h`.
    pub open spec fn knows(&self, h: u64) -> bool {
        exists|i: int| self.live(i) && self.hash_of(i) == h
    }

    pub open spec fn head_hash_spec(&self) -> u64 {
        self.hash_of(self.head as int)
    }

    pub open spec fn head_number(&self) -> u32 {
        self.number_of(self.head as int)
    }

    /// The ancestor of record `i` (or `i` itself) at height `h`.
    pub open spec fn ancestor_at(&self, i: int, h: int) -> int
        decreases i,
    {
        if self.number_of(i) <= h || i <= 0 || self.parent_of(i) >= i || i >= self.len() {
            i
        } else {
            self.ancestor_at(self.parent_of(i), h)
        }
    }

    /// Record `i` lies on the main chain, the ancestry of the head.
    pub open spec fn on_main(&self, i: int) -> bool {
        self.ancestor_at(self.head as int, self.number_of(i) as int) == i
    }

    /// The first ancestor of record `i` (or `i` itself) on the main chain.
    pub open spec fn fork_point(&self, i: int) -> int
        decreases i,
    {
        if self.on_main(i) || i <= 0 || self.parent_of(i) >= i || i >= self.len() {
            i
        } else {
            self.fork_point(self.parent_of(i))
        }
    }

    /// View number at height `h` on the branch ending in a candidate of
    /// number `n` and view `v` whose parent is record `p`.
    pub open spec fn branch_view(&self, p: int, n: u32, v: u32, h: int) -> u32 {
        if h == n {
            v
        } else {
            self.view_of(self.ancestor_at(p, h))
        }
    }

    /// Compares view numbers from height `h` up to `hmax`: the first
    /// difference decides, a higher branch view being better; if none
    /// differs the longer chain wins.
    pub open spec fn first_difference(&self, p: int, n: u32, v: u32, h: int, hmax: int) -> ChainOrdering
        decreases hmax + 1 - h,
    {
        if h > hmax {
            if self.head_number() < n {
                ChainOrdering::Better
            } else {
                ChainOrdering::Unknown
            }
        } else {
            let main_view = self.view_of(self.ancestor_at(self.head as int, h));
            let branch_view = self.branch_view(p, n, v, h);
            if main_view < branch_view {
                ChainOrdering::Better
            } else if main_view > branch_view {
                ChainOrdering::Inferior
            } else {
                self.first_difference(p, n, v, h + 1, hmax)
            }
        }
    }

    proof fn lemma_first_difference_not_extend(&self, p: int, n: u32, v: u32, h: int, hmax: int)
        ensures
            self.first_difference(p, n, v, h, hmax) != ChainOrdering::Extend,
        decreases hmax + 1 - h,
    {
        if h <= hmax {
            self.lemma_first_difference_not_extend(p, n, v, h + 1, hmax);
        }
    }

    /// Ordering of a candidate of number `n` and view `v` whose parent is record `p`.
    pub open spec fn chain_order(&self, p: int, n: u32, v: u32) -> ChainOrdering {
        if p == self.head {
            ChainOrdering::Extend
        } else {
            let hmax = if self.head_number() < n {
                self.head_number() as int
            } else {
                n as int
            };
            self.first_difference(p, n, v, self.number_of(self.fork_point(p)) + 1, hmax)
        }
    }

    /// Index of the record of hash `h` that the store knows.
    pub fn find(&self, h: u64) -> (r: Option<usize>)
        requires
            self.wf(),
        ensures
            r matches Some(i) ==> self.live(i as int) && self.hash_of(i as int) == h,
            r is None <==> !self.knows(h),
    {
        let mut i: usize = 0;
        while i < self.infos.len()
            invariant
                self.wf(),
                i <= self.len(),
                forall|j: int| 0 <= j < i ==> !(#[trigger] self.live(j) && self.hash_of(j) == h),
            decreases self.len() - i,
        {
            if !self.pruned[i] && self.infos[i].hash == h {
                assert(self.live(i as int) && self.hash_of(i as int) == h);
                return Some(i);
            }
            i = i + 1;
        }
        None
    }

    pub fn ancestor_at_exec(&self, i: usize, h: u32) -> (r: usize)
        requires
            self.wf(),
            i < self.len(),
        ensures
            r as int == self.ancestor_at(i as int, h as int),
            r < self.len(),
    {
        let mut cur = i;
        while cur > 0 && self.infos[cur].head.block_number() > h
            invariant
                self.wf(),
                cur < self.len(),
                self.ancestor_at(cur as int, h as int) == self.ancestor_at(i as int, h as int),
            decreases cur,
        {
            assert(self.infos@[cur as int].parent < cur);
            cur = self.infos[cur].parent;
        }
        cur
    }

    pub fn is_on_main(&self, i: usize) -> (r: bool)
        requires
            self.wf(),
            i < self.len(),
        ensures
            r == self.on_main(i as int),
    {
        self.ancestor_at_exec(self.head, self.infos[i].head.block_number()) == i
    }

    pub fn fork_point_exec(&self, i: usize) -> (r: usize)
        requires
            self.wf(),
            i < self.len(),
        ensures
            r as int == self.fork_point(i as int),
            r < self.len(),
    {
        let mut cur = i;
        while cur > 0 && !self.is_on_main(cur)
            invariant
                self.wf(),
                cur < self.len(),
                self.fork_point(cur as int) == self.fork_point(i as int),
            decreases cur,
        {
            assert(self.infos@[cur as int].parent < cur);
            cur = self.infos[cur].parent;
        }
        cur
    }

    /// Classifies a candidate of number `n` and view `v` whose parent is record `p`.
    pub fn order_chains(&self, p: usize, n: u32, v: u32) -> (r: ChainOrdering)
        requires
            self.wf(),
            p < self.len(),
        ensures
            r == self.chain_order(p as int, n, v),
    {
        if p == self.head {
            return ChainOrdering::Extend;
        }
        let head_number = self.infos[self.head].head.block_number();
        let hmax: u32 = if head_number < n { head_number } else { n };
        let fp = self.fork_point_exec(p);
        let mut h: u64 = self.infos[fp].head.block_number() as u64 + 1;
        while h <= hmax as u64
            invariant
                self.wf(),
                p < self.len(),
                hmax as int == (if self.head_number() < n { self.head_number() as int } else { n as int }),
                h >= 1,
                self.first_difference(p as int, n, v, h as int, hmax as int) == self.chain_order(p as int, n, v),
            decreases hmax + 1 - h,
        {
            let hh = h as u32;
            let main_view = self.infos[self.ancestor_at_exec(self.head, hh)].head.view_number();
            let branch_view = if hh == n {
                v
            } else {
                self.infos[self.ancestor_at_exec(p, hh)].head.view_number()
            };
            if main_view < branch_view {
                return ChainOrdering::Better;
            } else if main_view > branch_view {
                return ChainOrdering::Inferior;
            }
            h = h + 1;
        }
        if head_number < n {
            ChainOrdering::Better
        } else {
            ChainOrdering::Unknown
        }
    }

    /// Some transaction of `txs` also appears in record `q`.
    pub open spec fn shares_tx(&self, q: int, txs: Seq<Transaction>) -> bool {
        exists|a: int, b: int|
            0 <= a < txs.len() && 0 <= b < self.infos@[q].head.txs().len() && #[trigger] txs[a]
                == #[trigger] self.infos@[q].head.txs()[b]
    }

    /// A block of number `n` with transactions `txs` whose parent is record
    /// `p` repeats a transaction of one of the blocks of its validity window,
    /// the ancestors at heights `n - TRANSACTION_VALIDITY_WINDOW` to `n - 1`.
    pub open spec fn replay_conflict(&self, p: int, txs: Seq<Transaction>, n: u32) -> bool {
        exists|h: int|
            n - TRANSACTION_VALIDITY_WINDOW <= h < n && 0 <= h && #[trigger] self.shares_tx(
                self.ancestor_at(p, h),
                txs,
            )
    }

    fn shares_tx_exec(&self, q: usize, block: &Block) -> (r: bool)
        requires
            self.wf(),
            q < self.len(),
        ensures
            r == self.shares_tx(q as int, block.txs()),
    {
        let other = &self.infos[q].head;
        let na = block.tx_count();
        let nb = other.tx_count();
        let mut a: usize = 0;
        while a < na
            invariant
                self.wf(),
                q < self.len(),
                *other == self.infos@[q as int].head,
                na == block.txs().len(),
                nb == other.txs().len(),
                a <= na,
                forall|x: int, y: int|
                    0 <= x < a && 0 <= y < nb ==> #[trigger] block.txs()[x] != #[trigger] other.txs()[y],
            decreases na - a,
        {
            let t = block.tx_at(a);
            let mut b: usize = 0;
            while b < nb
                invariant
                    self.wf(),
                    q < self.len(),
                    *other == self.infos@[q as int].head,
                    na == block.txs().len(),
                    nb == other.txs().len(),
                    a < na,
                    t == block.txs()[a as int],
                    b <= nb,
                    forall|x: int, y: int|
                        0 <= x < a && 0 <= y < nb ==> #[trigger] block.txs()[x] != #[trigger] other.txs()[y],
                    forall|y: int| 0 <= y < b ==> t != #[trigger] other.txs()[y],
                decreases nb - b,
            {
                if other.tx_at(b) == t {
                    assert(block.txs()[a as int] == other.txs()[b as int]);
                    return true;
                }
                b = b + 1;
            }
            a = a + 1;
        }
        false
    }

    /// Whether `block`, of number `n` and with parent record `p`, repeats a
    /// transaction of its validity window.
    pub fn has_replay(&self, p: usize, block: &Block, n: u32) -> (r: bool)
        requires
            self.wf(),
            p < self.len(),
        ensures
            r == self.replay_conflict(p as int, block.txs(), n),
    {
        let mut h: u32 = if n > TRANSACTION_VALIDITY_WINDOW {
            n - TRANSACTION_VALIDITY_WINDOW
        } else {
            0
        };
        while h < n
            invariant
                self.wf(),
                p < self.len(),
                n - TRANSACTION_VALIDITY_WINDOW <= h,
                forall|g: int|
                    n - TRANSACTION_VALIDITY_WINDOW <= g < h && 0 <= g ==> !#[trigger] self.shares_tx(
                        self.ancestor_at(p as int, g),
                        block.txs(),
                    ),
            decreases n - h,
        {
            let q = self.ancestor_at_exec(p, h);
            if self.shares_tx_exec(q, block) {
                return true;
            }
            h = h + 1;
        }
        false
    }

    /// Fork events for a micro block of hash `hash`, signature `sig`, number `n` and view `v`:
    /// one for each known micro block among the first `m` records with the
    /// same number and view.
    pub open spec fn detected(&self, m: int, hash: u64, sig: u64, n: u32, v: u32) -> Seq<ForkEvent>
        decreases m,
    {
        if m <= 0 {
            Seq::empty()
        } else {
            let i = m - 1;
            let rest = self.detected(i, hash, sig, n, v);
            if self.live(i) && !self.infos@[i].head.is_macro_spec() && self.number_of(i) == n
                && self.view_of(i) == v {
                rest.push(
                    ForkEvent::Detected(
                        ForkProof {
                            header1_hash: hash,
                            header2_hash: self.hash_of(i),
                            justification1: sig,
                            justification2: self.infos@[i].head.signature(),
                            block_number: n,
                            view_number: v,
                        },
                    ),
                )
            } else {
                rest
            }
        }
    }

    fn fork_events_for(&self, hash: u64, sig: u64, n: u32, v: u32) -> (r: Vec<ForkEvent>)
        requires
            self.wf(),
        ensures
            r@ == self.detected(self.len(), hash, sig, n, v),
    {
        let mut r: Vec<ForkEvent> = Vec::new();
        let mut i: usize = 0;
        while i < self.infos.len()
            invariant
                self.wf(),
                i <= self.len(),
                r@ == self.detected(i as int, hash, sig, n, v),
            decreases self.len() - i,
        {
            let rec = &self.infos[i];
            if !self.pruned[i] && !rec.head.is_macro() && rec.head.block_number() == n
                && rec.head.view_number() == v {
                let proof_of_fork = ForkProof {
                    header1_hash: hash,
                    header2_hash: rec.hash,
                    justification1: sig,
                    justification2: rec.head.justification_signature(),
                    block_number: n,
                    view_number: v,
                };
                r.push(ForkEvent::Detected(proof_of_fork));
            }
            i = i + 1;
        }
        r
    }

    /// Records from `i` down to, but excluding, the first ancestor whose
    /// number is at most `stop`, ordered from that ancestor towards `i`.
    pub open spec fn path(&self, i: int, stop: int) -> Seq<usize>
        decreases i,
    {
        if self.number_of(i) <= stop || i <= 0 || self.parent_of(i) >= i || i >= self.len() {
            Seq::empty()
        } else {
            self.path(self.parent_of(i), stop).push(i as usize)
        }
    }

    /// No record of a branch, above its fork point, lies on the main chain.
    pub proof fn lemma_path_off_main(&self, i: int)
        requires
            self.len() <= usize::MAX,
        ensures
            forall|k: int|
                0 <= k < self.path(i, self.number_of(self.fork_point(i)) as int).len()
                    ==> !self.on_main(
                    #[trigger] self.path(i, self.number_of(self.fork_point(i)) as int)[k] as int,
                ),
        decreases i,
    {
        let st = self.number_of(self.fork_point(i)) as int;
        if !(self.on_main(i) || i <= 0 || self.parent_of(i) >= i || i >= self.len()) {
            self.lemma_path_off_main(self.parent_of(i));
            assert(self.fork_point(i) == self.fork_point(self.parent_of(i)));
            if self.number_of(i) > st {
                let q = self.parent_of(i);
                let ps = self.path(q, st);
                let r = self.path(i, st);
                assert(r == ps.push(i as usize));
                assert forall|k: int| 0 <= k < r.len() implies !self.on_main(#[trigger] r[k] as int) by {
                    if k < ps.len() {
                        assert(r[k] == ps[k]);
                        assert(ps[k] == self.path(q, self.number_of(self.fork_point(q)) as int)[k]);
                    } else {
                        assert(r[k] == i as usize);
                    }
                }
            } else {
                assert(self.path(i, st) =~= Seq::<usize>::empty());
            }
        } else {
            assert(self.path(i, st) =~= Seq::<usize>::empty());
        }
    }

    /// Whether record `i` and all its ancestors are known to the store.
    pub fn chain_live_exec(&self, i: usize) -> (r: bool)
        requires
            self.wf(),
            i < self.len(),
        ensures
            r == self.chain_live(i as int),
    {
        let mut cur = i;
        loop
            invariant
                self.wf(),
                cur < self.len(),
                self.chain_live(i as int) == self.chain_live(cur as int),
            decreases cur,
        {
            if self.pruned[cur] {
                return false;
            }
            if cur == 0 {
                return true;
            }
            assert(self.infos@[cur as int].parent < cur);
            cur = self.infos[cur].parent;
        }
    }

    fn path_exec(&self, i: usize, stop: u32) -> (r: Vec<usize>)
        requires
            self.wf(),
            i < self.len(),
        ensures
            r@ == self.path(i as int, stop as int),
            forall|k: int| 0 <= k < r@.len() ==> 0 < #[trigger] r@[k] < self.len(),
    {
        let mut v: Vec<usize> = Vec::new();
        let mut cur = i;
        while cur > 0 && self.infos[cur].head.block_number() > stop
            invariant
                self.wf(),
                cur < self.len(),
                self.path(i as int, stop as int) == self.path(cur as int, stop as int) + v@,
                forall|k: int| 0 <= k < v@.len() ==> 0 < #[trigger] v@[k] < self.len(),
            decreases cur,
        {
            let ghost old_v = v@;
            let parent = self.infos[cur].parent;
            v.insert(0, cur);
            assert(self.path(cur as int, stop as int) == self.path(parent as int, stop as int).push(cur));
            assert(self.path(parent as int, stop as int) + v@ == self.path(parent as int, stop as int).push(cur) + old_v);
            cur = parent;
        }
        v
    }

    /// Hashes of the records listed in `s`.
    pub open spec fn hashes(&self, s: Seq<usize>) -> Seq<u64> {
        s.map_values(|i: usize| self.hash_of(i as int))
    }

    fn hashes_exec(&self, s: &Vec<usize>) -> (r: Vec<u64>)
        requires
            forall|k: int| 0 <= k < s@.len() ==> #[trigger] s@[k] < self.len(),
        ensures
            r@ == self.hashes(s@),
    {
        let mut r: Vec<u64> = Vec::new();
        let mut k: usize = 0;
        while k < s.len()
            invariant
                forall|j: int| 0 <= j < s@.len() ==> #[trigger] s@[j] < self.len(),
                k <= s@.len(),
                r@ == self.hashes(s@.subrange(0, k as int)),
            decreases s@.len() - k,
        {
            r.push(self.infos[s[k]].hash);
            assert(s@.subrange(0, k + 1) == s@.subrange(0, k as int).push(s@[k as int]));
            k = k + 1;
        }
        assert(s@.subrange(0, s@.len() as int) == s@);
        r
    }

    /// A chain holding only the genesis block, a macro block of hash `genesis_hash`.
    pub fn new(network_id: u8, genesis_hash: u64, genesis: MacroBlock) -> (r: Self)
        ensures
            r.wf(),
            r.len() == 1,
            r.head == 0,
            r.hash_of(0) == genesis_hash,
            r.infos@[0].head == Block::Macro(genesis),
            r.network_id == network_id,
            r.macro_number == genesis.header.block_number,
            r.macro_head_hash == genesis_hash,
            r.election_head_hash == genesis_hash,
            r.events@.len() == 0,
            r.fork_events@.len() == 0,
    {
        let mut infos: Vec<ChainInfo> = Vec::new();
        infos.push(ChainInfo { hash: genesis_hash, head: Block::Macro(genesis), parent: 0 });
        let mut pruned: Vec<bool> = Vec::new();
        pruned.push(false);
        Blockchain {
            network_id,
            infos,
            pruned,
            head: 0,
            macro_number: genesis.header.block_number,
            macro_head_hash: genesis_hash,
            election_head_hash: genesis_hash,
            events: Vec::new(),
            fork_events: Vec::new(),
        }
    }

    pub fn head_hash(&self) -> (r: u64)
        requires
            self.wf(),
        ensures
            r == self.head_hash_spec(),
    {
        self.infos[self.head].hash
    }

    pub fn block_number(&self) -> (r: u32)
        requires
            self.wf(),
        ensures
            r == self.head_number(),
    {
        self.infos[self.head].head.block_number()
    }

    pub fn view_number(&self) -> (r: u32)
        requires
            self.wf(),
        ensures
            r == self.view_of(self.head as int),
    {
        self.infos[self.head].head.view_number()
    }

    /// Whether the store knows a block of hash `h`.
    pub fn contains(&self, h: u64) -> (r: bool)
        requires
            self.wf(),
        ensures
            r == self.knows(h),
    {
        self.find(h).is_some()
    }

    /// Hash of the main chain block at height `h`, if the main chain reaches it.
    pub fn main_chain_hash_at(&self, h: u32) -> (r: Option<u64>)
        requires
            self.wf(),
        ensures
            r == (if self.number_of(self.ancestor_at(self.head as int, h as int)) == h {
                Some(self.hash_of(self.ancestor_at(self.head as int, h as int)))
            } else {
                None::<u64>
            }),
    {
        let i = self.ancestor_at_exec(self.head, h);
        if self.infos[i].head.block_number() == h {
            Some(self.infos[i].hash)
        } else {
            None
        }
    }

    /// The record that the store knows under hash `h`.
    pub open spec fn index_of(&self, h: u64) -> int {
        choose|i: int| self.live(i) && self.hash_of(i) == h
    }

    /// The record stored for a new block of hash `hash` whose parent is record `p`.
    pub open spec fn record(hash: u64, block: Block, p: int) -> ChainInfo {
        ChainInfo { hash, head: block, parent: p as usize }
    }

    fn append_record(&mut self, hash: u64, block: Block, p: usize)
        requires
            old(self).wf(),
            p < old(self).len(),
            !old(self).knows(hash),
            block.parent() == old(self).hash_of(p as int),
            block.number() == old(self).number_of(p as int) + 1,
        ensures
            final(self).infos@ == old(self).infos@.push(Self::record(hash, block, p as int)),
            final(self).pruned@ == old(self).pruned@.push(false),
            final(self).head == old(self).head,
            final(self).macro_number == old(self).macro_number,
            final(self).macro_head_hash == old(self).macro_head_hash,
            final(self).election_head_hash == old(self).election_head_hash,
            final(self).network_id == old(self).network_id,
            final(self).events@ == old(self).events@,
            final(self).fork_events@ == old(self).fork_events@,
            final(self).wf(),
            old(self).chain_live(p as int) ==> final(self).chain_live(old(self).len()),
    {
        self.infos.push(ChainInfo { hash, head: block, parent: p });
        self.pruned.push(false);
        proof {
            let o = old(self);
            let n = o.len();
            lemma_chain_live_prefix(o, self, o.head as int);
            lemma_chain_live_prefix(o, self, p as int);
            assert(self.infos@[n] == Self::record(hash, block, p as int));
            assert forall|i: int| 0 < i < self.len() implies {
                &&& self.parent_of(i) < i
                &&& self.infos@[i].head.parent() == self.hash_of(self.parent_of(i))
                &&& self.number_of(i) == self.number_of(self.parent_of(i)) + 1
            } by {
                if i < n {
                    assert(o.infos@[i] == self.infos@[i]);
                    assert(o.parent_of(i) < i);
                    assert(o.infos@[o.parent_of(i)] == self.infos@[o.parent_of(i)]);
                } else {
                    assert(self.infos@[i] == Self::record(hash, block, p as int));
                    assert(o.infos@[p as int] == self.infos@[p as int]);
                }
            }
            assert forall|i: int, j: int| self.live(i) && self.live(j) && i != j implies self.hash_of(
                i,
            ) != self.hash_of(j) by {
                if i < n && j < n {
                    assert(o.live(i) && o.live(j));
                } else if i < n {
                    assert(o.live(i));
                } else if j < n {
                    assert(o.live(j));
                }
            }
        }
    }

    /// Outcome of extending the main chain by a block whose parent is the head record `p`.
    pub open spec fn extend_result(&self, p: int, block: Block, checks: ExternalChecks) -> Result<
        PushResult,
        PushError,
    > {
        if self.replay_conflict(p, block.txs(), block.number()) {
            Err(PushError::DuplicateTransaction)
        } else if !checks.accounts_valid {
            Err(PushError::AccountsError)
        } else if block.is_macro_spec() && is_election_height(block.number())
            && !checks.validators_valid {
            Err(PushError::InvalidBlock(BlockError::InvalidValidators))
        } else if block.is_macro_spec() && !checks.computed_body_valid {
            Err(PushError::InvalidBlock(BlockError::BodyHashMismatch))
        } else {
            Ok(PushResult::Extended)
        }
    }

    /// The event announcing a new head of hash `hash`.
    pub open spec fn finality_event(hash: u64, block: Block) -> BlockchainEvent {
        if block.is_macro_spec() && is_election_height(block.number()) {
            BlockchainEvent::EpochFinalized(hash)
        } else {
            BlockchainEvent::Finalized(hash)
        }
    }

    fn extend(&mut self, hash: u64, block: Block, p: usize, checks: ExternalChecks) -> (r: Result<
        PushResult,
        PushError,
    >)
        requires
            old(self).wf(),
            p == old(self).head,
            !old(self).knows(hash),
            block.parent() == old(self).hash_of(p as int),
            block.number() == old(self).number_of(p as int) + 1,
        ensures
            final(self).wf(),
            r == old(self).extend_result(p as int, block, checks),
            final(self).network_id == old(self).network_id,
            final(self).fork_events@ == old(self).fork_events@,
            r is Ok ==> {
                &&& final(self).infos@ == old(self).infos@.push(Self::record(hash, block, p as int))
                &&& final(self).pruned@ == old(self).pruned@.push(false)
                &&& final(self).head == old(self).len()
                &&& final(self).events@ == old(self).events@.push(Self::finality_event(hash, block))
                &&& final(self).macro_number == (if block.is_macro_spec() {
                    block.number()
                } else {
                    old(self).macro_number
                })
                &&& final(self).macro_head_hash == (if block.is_macro_spec() {
                    hash
                } else {
                    old(self).macro_head_hash
                })
                &&& final(self).election_head_hash == (if block.is_macro_spec()
                    && is_election_height(block.number()) {
                    hash
                } else {
                    old(self).election_head_hash
                })
            },
            r is Err ==> {
                &&& final(self).infos@ == old(self).infos@
                &&& final(self).pruned@ == old(self).pruned@
                &&& final(self).head == old(self).head
                &&& final(self).events@ == old(self).events@
                &&& final(self).macro_number == old(self).macro_number
                &&& final(self).macro_head_hash == old(self).macro_head_hash
                &&& final(self).election_head_hash == old(self).election_head_hash
            },
    {
        let n = block.block_number();
        if self.has_replay(p, &block, n) {
            return Err(PushError::DuplicateTransaction);
        }
        if !checks.accounts_valid {
            return Err(PushError::AccountsError);
        }
        let is_macro = block.is_macro();
        let election = is_macro && n % EPOCH_LENGTH == 0;
        if election && !checks.validators_valid {
            return Err(PushError::InvalidBlock(BlockError::InvalidValidators));
        }
        if is_macro && !checks.computed_body_valid {
            return Err(PushError::InvalidBlock(BlockError::BodyHashMismatch));
        }
        let new_index = self.infos.len();
        self.append_record(hash, block, p);
        let ghost mid = *self;
        self.head = new_index;
        if is_macro {
            self.macro_number = n;
            self.macro_head_hash = hash;
        }
        if election {
            self.election_head_hash = hash;
            self.events.push(BlockchainEvent::EpochFinalized(hash));
        } else {
            self.events.push(BlockchainEvent::Finalized(hash));
        }
        proof {
            lemma_wf_frame(&mid, self);
        }
        Ok(PushResult::Extended)
    }

    /// Some record listed in `s` holds a macro block.
    pub open spec fn has_macro(&self, s: Seq<usize>) -> bool {
        exists|k: int| 0 <= k < s.len() && #[trigger] self.infos@[s[k] as int].head.is_macro_spec()
    }

    /// Stored record `f` cannot be re-applied: it repeats a transaction of
    /// its own validity window, or the accounts tree refuses it (`failing`
    /// names the first stored block of the branch that it refuses, if any).
    pub open spec fn record_conflict(&self, f: int, failing: Option<u64>) -> bool {
        self.replay_conflict(self.parent_of(f), self.infos@[f].head.txs(), self.number_of(f))
            || failing == Some(self.hash_of(f))
    }

    /// Position of the first record of `s`, from position `k` on, that
    /// cannot be re-applied; `s.len()` if all can.
    pub open spec fn first_conflict(&self, s: Seq<usize>, k: int, failing: Option<u64>) -> int
        decreases s.len() - k,
    {
        if k < 0 || k >= s.len() {
            s.len() as int
        } else if self.record_conflict(s[k] as int, failing) {
            k
        } else {
            self.first_conflict(s, k + 1, failing)
        }
    }

    /// Height of the common ancestor of the main chain and the branch through record `p`.
    pub open spec fn ancestor_number(&self, p: int) -> u32 {
        self.number_of(self.fork_point(p))
    }

    /// Stored records of the branch through record `p`, from the common ancestor on.
    pub open spec fn adopted(&self, p: int) -> Seq<usize> {
        self.path(p, self.ancestor_number(p) as int)
    }

    /// Main chain records above the common ancestor with the branch through `p`.
    pub open spec fn reverted(&self, p: int) -> Seq<usize> {
        self.path(self.head as int, self.ancestor_number(p) as int)
    }

    /// The branch through `p` cannot replace the main chain at all: its
    /// common ancestor lies before the last macro block, it holds a macro
    /// block, or one of its ancestors is no longer known to the store.
    pub open spec fn fork_refused(&self, p: int) -> bool {
        self.ancestor_number(p) < self.macro_number || self.has_macro(self.adopted(p))
            || !self.chain_live(p)
    }

    /// Outcome of adopting the branch that a block with parent record `p` ends.
    pub open spec fn rebranch_result(&self, p: int, block: Block, checks: ExternalChecks) -> Result<
        PushResult,
        PushError,
    > {
        if block.is_macro_spec() || self.fork_refused(p) || self.first_conflict(self.adopted(p), 0, checks.branch_accounts_failure)
            < self.adopted(p).len()
            || self.replay_conflict(p, block.txs(), block.number()) || !checks.accounts_valid {
            Err(PushError::InvalidFork)
        } else {
            Ok(PushResult::Rebranched)
        }
    }

    /// Pruning flags once the records of `s` from position `k` on are pruned.
    pub open spec fn pruned_from(&self, s: Seq<usize>, k: int) -> Seq<bool> {
        Seq::new(
            self.pruned@.len(),
            |i: int| self.pruned@[i] || exists|j: int| k <= j < s.len() && s[j] == i,
        )
    }

    /// Pruning flags after a rebranch to `block`, whose parent is record `p`, failed.
    pub open spec fn pruned_after_failure(&self, p: int, block: Block, checks: ExternalChecks) -> Seq<
        bool,
    > {
        if block.is_macro_spec() || self.fork_refused(p) {
            self.pruned@
        } else {
            self.pruned_from(
                self.adopted(p),
                self.first_conflict(self.adopted(p), 0, checks.branch_accounts_failure),
            )
        }
    }

    fn prune_from(&mut self, s: &Vec<usize>, k: usize)
        requires
            old(self).wf(),
            k <= s@.len(),
            forall|j: int| 0 <= j < s@.len() ==> #[trigger] s@[j] < old(self).len(),
            forall|j: int| k <= j < s@.len() ==> !old(self).on_main(#[trigger] s@[j] as int),
        ensures
            final(self).wf(),
            final(self).pruned@ == old(self).pruned_from(s@, k as int),
            final(self).infos@ == old(self).infos@,
            final(self).head == old(self).head,
            final(self).macro_number == old(self).macro_number,
            final(self).macro_head_hash == old(self).macro_head_hash,
            final(self).election_head_hash == old(self).election_head_hash,
            final(self).network_id == old(self).network_id,
            final(self).events@ == old(self).events@,
            final(self).fork_events@ == old(self).fork_events@,
    {
        let mut j = k;
        while j < s.len()
            invariant
                old(self).wf(),
                k <= j <= s@.len(),
                forall|x: int| 0 <= x < s@.len() ==> #[trigger] s@[x] < old(self).len(),
                self.infos@ == old(self).infos@,
                self.head == old(self).head,
                self.macro_number == old(self).macro_number,
                self.macro_head_hash == old(self).macro_head_hash,
                self.election_head_hash == old(self).election_head_hash,
                self.network_id == old(self).network_id,
                self.events@ == old(self).events@,
                self.fork_events@ == old(self).fork_events@,
                self.pruned@.len() == old(self).pruned@.len(),
                forall|i: int|
                    0 <= i < self.pruned@.len() ==> #[trigger] self.pruned@[i] == (old(self).pruned@[i]
                        || exists|x: int| k <= x < j && s@[x] == i),
            decreases s@.len() - j,
        {
            let target = s[j];
            self.pruned.set(target, true);
            proof {
                assert forall|i: int| 0 <= i < self.pruned@.len() implies #[trigger] self.pruned@[i] == (
                old(self).pruned@[i] || exists|x: int| k <= x < j + 1 && s@[x] == i) by {
                    if i == target {
                        assert(s@[j as int] == i);
                    }
                }
            }
            j = j + 1;
        }
        proof {
            assert(self.pruned@ == old(self).pruned_from(s@, k as int));
            let o = old(self);
            assert forall|x: int|
                0 <= x < o.len() && #[trigger] self.pruned@[x] && !o.pruned@[x] implies o.ancestor_at(
                o.head as int,
                o.number_of(x) as int,
            ) != x by {
                let j = choose|j: int| k <= j < s@.len() && s@[j] == x;
                assert(!o.on_main(s@[j] as int));
            }
            lemma_prune_keeps(o, self, o.head as int);
            assert forall|a: int, b: int| self.live(a) && self.live(b) && a != b implies self.hash_of(
                a,
            ) != self.hash_of(b) by {
                assert(old(self).live(a) && old(self).live(b));
            }
        }
    }

    fn rebranch(&mut self, hash: u64, block: Block, p: usize, checks: ExternalChecks) -> (r: Result<
        PushResult,
        PushError,
    >)
        requires
            old(self).wf(),
            p < old(self).len(),
            !old(self).knows(hash),
            block.parent() == old(self).hash_of(p as int),
            block.number() == old(self).number_of(p as int) + 1,
        ensures
            final(self).wf(),
            r == old(self).rebranch_result(p as int, block, checks),
            final(self).network_id == old(self).network_id,
            final(self).fork_events@ == old(self).fork_events@,
            final(self).macro_number == old(self).macro_number,
            final(self).macro_head_hash == old(self).macro_head_hash,
            final(self).election_head_hash == old(self).election_head_hash,
            r is Ok ==> {
                &&& final(self).infos@ == old(self).infos@.push(Self::record(hash, block, p as int))
                &&& final(self).pruned@ == old(self).pruned@.push(false)
                &&& final(self).head == old(self).len()
                &&& final(self).events@.len() == old(self).events@.len() + 1
                &&& final(self).events@.subrange(0, old(self).events@.len() as int)
                    == old(self).events@
                &&& final(self).events@.last() matches BlockchainEvent::Rebranched(rv, ad)
                    && rv@ == old(self).hashes(old(self).reverted(p as int)) && ad@ == old(
                    self,
                ).hashes(old(self).adopted(p as int)).push(hash)
            },
            r is Err ==> {
                &&& final(self).infos@ == old(self).infos@
                &&& final(self).pruned@ == old(self).pruned_after_failure(p as int, block, checks)
                &&& final(self).head == old(self).head
                &&& final(self).events@ == old(self).events@
            },
    {
        if block.is_macro() {
            return Err(PushError::InvalidFork);
        }
        let fp = self.fork_point_exec(p);
        let an = self.infos[fp].head.block_number();
        let adopted = self.path_exec(p, an);
        if an < self.macro_number || !self.chain_live_exec(p) {
            return Err(PushError::InvalidFork);
        }
        assert(self.len() <= usize::MAX) by {
            assert(self.infos.len() <= usize::MAX);
        }
        proof {
            self.lemma_path_off_main(p as int);
        }
        let mut k: usize = 0;
        while k < adopted.len()
            invariant
                self.wf(),
                *self == *old(self),
                p < self.len(),
                adopted@ == self.adopted(p as int),
                k <= adopted@.len(),
                forall|x: int| 0 <= x < k ==> !#[trigger] self.infos@[adopted@[x] as int].head.is_macro_spec(),
                forall|x: int| 0 <= x < adopted@.len() ==> 0 < #[trigger] adopted@[x] < self.len(),
            decreases adopted@.len() - k,
        {
            if self.infos[adopted[k]].head.is_macro() {
                assert(self.has_macro(adopted@)) by {
                    assert(self.infos@[adopted@[k as int] as int].head.is_macro_spec());
                }
                return Err(PushError::InvalidFork);
            }
            k = k + 1;
        }
        assert(!self.fork_refused(p as int));
        let mut k: usize = 0;
        while k < adopted.len()
            invariant
                self.wf(),
                *self == *old(self),
                p < self.len(),
                adopted@ == self.adopted(p as int),
                k <= adopted@.len(),
                self.first_conflict(adopted@, 0, checks.branch_accounts_failure) == self.first_conflict(
                    adopted@,
                    k as int,
                    checks.branch_accounts_failure,
                ),
                !self.fork_refused(p as int),
                !block.is_macro_spec(),
                forall|x: int| 0 <= x < adopted@.len() ==> !self.on_main(#[trigger] adopted@[x] as int),
                forall|x: int| 0 <= x < adopted@.len() ==> 0 < #[trigger] adopted@[x] < self.len(),
            decreases adopted@.len() - k,
        {
            let f = adopted[k];
            assert(0 < f < self.len());
            assert(self.infos@[f as int].parent < f);
            let fparent = self.infos[f].parent;
            let refused = match checks.branch_accounts_failure {
                Some(h) => h == self.infos[f].hash,
                None => false,
            };
            if refused || self.has_replay(fparent, &self.infos[f].head, self.infos[f].head.block_number()) {
                assert(self.first_conflict(adopted@, k as int, checks.branch_accounts_failure) == k);
                self.prune_from(&adopted, k);
                return Err(PushError::InvalidFork);
            }
            k = k + 1;
        }
        assert(self.pruned_after_failure(p as int, block, checks) =~= self.pruned@);
        if self.has_replay(p, &block, block.block_number()) || !checks.accounts_valid {
            return Err(PushError::InvalidFork);
        }
        let reverted = self.path_exec(self.head, an);
        let reverted_hashes = self.hashes_exec(&reverted);
        let mut adopted_hashes = self.hashes_exec(&adopted);
        adopted_hashes.push(hash);
        let new_index = self.infos.len();
        self.append_record(hash, block, p);
        let ghost mid = *self;
        self.head = new_index;
        self.events.push(BlockchainEvent::Rebranched(reverted_hashes, adopted_hashes));
        proof {
            lemma_wf_frame(&mid, self);
        }
        Ok(PushResult::Rebranched)
    }

    /// Outcome of a push decided before fork detection, if any: known
    /// blocks, intrinsic errors, orphans, wrong numbers, inferior branches,
    /// wrong block types and bad signatures.
    pub open spec fn precheck(&self, hash: u64, block: Block, checks: ExternalChecks) -> Option<
        Result<PushResult, PushError>,
    > {
        if self.knows(hash) {
            Some(Ok(PushResult::Known))
        } else if block_check(block, self.network_id) is Err {
            Some(Err(PushError::InvalidBlock(block_check(block, self.network_id)->Err_0)))
        } else if !self.knows(block.parent()) {
            Some(Err(PushError::Orphan))
        } else if block.number() != self.number_of(self.index_of(block.parent())) + 1 {
            Some(Err(PushError::InvalidSuccessor))
        } else if self.chain_order(self.index_of(block.parent()), block.number(), block.view())
            == ChainOrdering::Inferior {
            Some(Ok(PushResult::Ignored))
        } else if block.is_macro_spec() != is_macro_height(block.number()) {
            Some(Err(PushError::InvalidBlock(BlockError::InvalidBlockType)))
        } else if block matches Block::Macro(m) && m.justification is None {
            Some(Err(PushError::InvalidBlock(BlockError::NoJustification)))
        } else if !checks.signature_valid {
            Some(Err(PushError::InvalidBlock(BlockError::InvalidJustification)))
        } else {
            None
        }
    }

    /// Error of the checks that follow fork detection: fork proofs of micro
    /// blocks, the body of macro blocks.
    pub open spec fn postcheck(block: Block, checks: ExternalChecks) -> Option<PushError> {
        if block.is_macro_spec() {
            if !checks.body_valid {
                Some(PushError::InvalidBlock(BlockError::BodyHashMismatch))
            } else {
                None
            }
        } else if !checks.fork_proofs_valid {
            Some(PushError::InvalidSuccessor)
        } else {
            None
        }
    }

    /// Outcome of pushing `block` of hash `hash`.
    pub open spec fn push_result(&self, hash: u64, block: Block, checks: ExternalChecks) -> Result<
        PushResult,
        PushError,
    > {
        match self.precheck(hash, block, checks) {
            Some(r) => r,
            None => match Self::postcheck(block, checks) {
                Some(e) => Err(e),
                None => {
                    let p = self.index_of(block.parent());
                    match self.chain_order(p, block.number(), block.view()) {
                        ChainOrdering::Extend => self.extend_result(p, block, checks),
                        ChainOrdering::Better => self.rebranch_result(p, block, checks),
                        _ => Ok(PushResult::Forked),
                    }
                },
            },
        }
    }

    /// Fork events that pushing `block` of hash `hash` reports.
    pub open spec fn push_fork_events(&self, hash: u64, block: Block, checks: ExternalChecks) -> Seq<
        ForkEvent,
    > {
        if self.precheck(hash, block, checks) is None && !block.is_macro_spec() {
            self.detected(self.len(), hash, block.signature(), block.number(), block.view())
        } else {
            Seq::empty()
        }
    }

    pub proof fn lemma_index_of(&self, h: u64, i: int)
        requires
            self.wf(),
            self.live(i),
            self.hash_of(i) == h,
        ensures
            self.index_of(h) == i,
    {
        let j = self.index_of(h);
        assert(self.live(j) && self.hash_of(j) == h);
    }

    /// Accepts `block`, of hash `hash`, into the chain store: it extends the
    /// main chain, adopts the branch it ends, or is stored beside the main
    /// chain; or the block is known, ignored or refused. `checks` carries the
    /// verdicts on signatures, bodies and accounts for this block.
    pub fn push(&mut self, hash: u64, block: Block, checks: ExternalChecks) -> (r: Result<
        PushResult,
        PushError,
    >)
        requires
            old(self).wf(),
        ensures
            final(self).wf(),
            r == old(self).push_result(hash, block, checks),
            final(self).network_id == old(self).network_id,
            final(self).fork_events@ == old(self).fork_events@ + old(self).push_fork_events(
                hash,
                block,
                checks,
            ),
            stores_block(r) ==> {
                &&& final(self).infos@ == old(self).infos@.push(
                    Self::record(hash, block, old(self).index_of(block.parent())),
                )
                &&& final(self).pruned@ == old(self).pruned@.push(false)
            },
            moves_head(r) ==> final(self).head == old(self).len(),
            r == Ok::<PushResult, PushError>(PushResult::Extended) ==> {
                &&& final(self).events@ == old(self).events@.push(Self::finality_event(hash, block))
                &&& final(self).macro_number == (if block.is_macro_spec() {
                    block.number()
                } else {
                    old(self).macro_number
                })
                &&& final(self).macro_head_hash == (if block.is_macro_spec() {
                    hash
                } else {
                    old(self).macro_head_hash
                })
                &&& final(self).election_head_hash == (if block.is_macro_spec()
                    && is_election_height(block.number()) {
                    hash
                } else {
                    old(self).election_head_hash
                })
            },
            r == Ok::<PushResult, PushError>(PushResult::Rebranched) ==> !block.is_macro_spec(),
            r == Ok::<PushResult, PushError>(PushResult::Rebranched) ==> {
                let p = old(self).index_of(block.parent());
                &&& final(self).events@.len() == old(self).events@.len() + 1
                &&& final(self).events@.subrange(0, old(self).events@.len() as int)
                    == old(self).events@
                &&& final(self).events@.last() matches BlockchainEvent::Rebranched(rv, ad)
                    && rv@ == old(self).hashes(old(self).reverted(p)) && ad@ == old(self).hashes(
                    old(self).adopted(p),
                ).push(hash)
            },
            r != Ok::<PushResult, PushError>(PushResult::Extended) ==> {
                &&& final(self).macro_number == old(self).macro_number
                &&& final(self).macro_head_hash == old(self).macro_head_hash
                &&& final(self).election_head_hash == old(self).election_head_hash
            },
            !moves_head(r) ==> {
                &&& final(self).head == old(self).head
                &&& final(self).events@ == old(self).events@
            },
            !stores_block(r) ==> final(self).infos@ == old(self).infos@,
            (r is Ok && !stores_block(r)) ==> final(self).pruned@ == old(self).pruned@,
            (r is Err && r != Err::<PushResult, PushError>(PushError::InvalidFork))
                ==> final(self).pruned@ == old(self).pruned@,
            r == Err::<PushResult, PushError>(PushError::InvalidFork) ==> final(self).pruned@
                == old(self).pruned_after_failure(old(self).index_of(block.parent()), block, checks),
    {
        let n = block.block_number();
        let v = block.view_number();
        let parent_hash = block.parent_hash();
        if self.find(hash).is_some() {
            return Ok(PushResult::Known);
        }
        let verdict = block.verify(self.network_id);
        if let Err(e) = verdict {
            return Err(PushError::InvalidBlock(e));
        }
        let p = match self.find(parent_hash) {
            Some(p) => p,
            None => {
                return Err(PushError::Orphan);
            },
        };
        proof {
            self.lemma_index_of(parent_hash, p as int);
        }
        if n as u64 != self.infos[p].head.block_number() as u64 + 1 {
            return Err(PushError::InvalidSuccessor);
        }
        let order = self.order_chains(p, n, v);
        proof {
            if p != self.head {
                let hmax = if self.head_number() < n {
                    self.head_number() as int
                } else {
                    n as int
                };
                let fp = self.fork_point(p as int);
                self.lemma_first_difference_not_extend(p as int, n, v, self.number_of(fp) + 1, hmax);
            }
        }
        if order == ChainOrdering::Inferior {
            return Ok(PushResult::Ignored);
        }
        if block.is_macro() != (n % BATCH_LENGTH == 0) {
            return Err(PushError::InvalidBlock(BlockError::InvalidBlockType));
        }
        if let Block::Macro(m) = &block {
            if m.justification.is_none() {
                return Err(PushError::InvalidBlock(BlockError::NoJustification));
            }
        }
        if !checks.signature_valid {
            return Err(PushError::InvalidBlock(BlockError::InvalidJustification));
        }
        let mut detected: Vec<ForkEvent> = if block.is_macro() {
            Vec::new()
        } else {
            self.fork_events_for(hash, block.justification_signature(), n, v)
        };
        let result = if block.is_macro() && !checks.body_valid {
            Err(PushError::InvalidBlock(BlockError::BodyHashMismatch))
        } else if !block.is_macro() && !checks.fork_proofs_valid {
            Err(PushError::InvalidSuccessor)
        } else {
            match order {
                ChainOrdering::Extend => self.extend(hash, block, p, checks),
                ChainOrdering::Better => self.rebranch(hash, block, p, checks),
                _ => {
                    self.append_record(hash, block, p);
                    Ok(PushResult::Forked)
                },
            }
        };
        let ghost mid = *self;
        self.fork_events.append(&mut detected);
        proof {
            lemma_wf_frame(&mid, self);
        }
        result
    }
}

} // verus!
