use vstd::prelude::*;

verus! {

/// Number of blocks for which a transaction stays valid after its validity start height.
pub const TRANSACTION_VALIDITY_WINDOW: u32 = 120;

/// Reasons why a transaction fails its intrinsic checks.
#[derive(Clone, Copy, Debug, PartialEq, Eq, Structural)]
pub enum TransactionError {
    ForeignNetwork,
}

/// Intrinsic block errors.
#[derive(Clone, Copy, Debug, PartialEq, Eq, Structural)]
pub enum BlockError {
    DuplicateTransaction,
    TransactionsNotOrdered,
    ExpiredTransaction,
    InvalidTransaction(TransactionError),
    DuplicateReceipt,
    ReceiptsNotOrdered,
    InvalidReceipt,
    UnsupportedReceipt,
    MissingViewChangeProof,
    UnexpectedViewChangeProof,
    InvalidJustification,
    NoJustification,
    InvalidBlockType,
    BodyHashMismatch,
    InvalidValidators,
}

/// A transaction as far as block validation reads it: its position in the
/// canonical block order, the height from which it is valid, and its network.
#[derive(Clone, Copy, Debug, PartialEq, Eq, Structural)]
pub struct Transaction {
    pub order_key: u64,
    pub validity_start_height: u32,
    pub network_id: u8,
}

/// Kind of a receipt.
#[derive(Clone, Copy, Debug, PartialEq, Eq, Structural)]
pub enum ReceiptKind {
    /// An account pruned by the block; `to_be_pruned` tells whether the account qualified.
    PrunedAccount { to_be_pruned: bool },
    /// A transaction receipt, whose validation rule is not defined.
    Transaction,
}

/// A receipt, ordered by `order_key`.
#[derive(Clone, Copy, Debug, PartialEq, Eq, Structural)]
pub struct Receipt {
    pub order_key: u64,
    pub kind: ReceiptKind,
}

/// Evidence that one validator signed two micro headers at the same height
/// and view: the two header hashes and the two justification signatures.
#[derive(Clone, Copy, Debug, PartialEq, Eq, Structural)]
pub struct ForkProof {
    pub header1_hash: u64,
    pub header2_hash: u64,
    pub justification1: u64,
    pub justification2: u64,
    pub block_number: u32,
    pub view_number: u32,
}

#[derive(Clone, Copy, Debug, PartialEq, Eq, Structural)]
pub struct MicroHeader {
    pub version: u16,
    pub block_number: u32,
    pub view_number: u32,
    pub parent_hash: u64,
    pub extrinsics_root: u64,
    pub state_root: u64,
    pub seed: u64,
    pub timestamp: u64,
}

/// A view change proof, identified by its aggregate signature.
#[derive(Clone, Copy, Debug, PartialEq, Eq, Structural)]
pub struct ViewChangeProof {
    pub signature: u64,
}

#[derive(Clone, Copy, Debug, PartialEq, Eq, Structural)]
pub struct MicroJustification {
    pub signature: u64,
    pub view_change_proof: Option<ViewChangeProof>,
}

#[derive(Clone, Debug)]
pub struct MicroExtrinsics {
    pub slash_inherents: Vec<ForkProof>,
    pub extra_data: Vec<u8>,
    pub transactions: Vec<Transaction>,
    pub receipts: Vec<Receipt>,
}

#[derive(Clone, Debug)]
pub struct MicroBlock {
    pub header: MicroHeader,
    pub justification: MicroJustification,
    pub extrinsics: Option<MicroExtrinsics>,
}

/// A transaction is valid at `h` iff `h` lies in its validity window.
pub open spec fn tx_valid_at(tx: Transaction, h: u32) -> bool {
    tx.validity_start_height <= h && (h as int) < tx.validity_start_height
        + TRANSACTION_VALIDITY_WINDOW
}

/// The error that transaction `i` of `txs` raises on its own, if any.
pub open spec fn tx_error_at(txs: Seq<Transaction>, i: int, h: u32, network_id: u8) -> Option<
    BlockError,
> {
    if i > 0 && txs[i - 1].order_key == txs[i].order_key {
        Some(BlockError::DuplicateTransaction)
    } else if i > 0 && txs[i - 1].order_key > txs[i].order_key {
        Some(BlockError::TransactionsNotOrdered)
    } else if !tx_valid_at(txs[i], h) {
        Some(BlockError::ExpiredTransaction)
    } else if txs[i].network_id != network_id {
        Some(BlockError::InvalidTransaction(TransactionError::ForeignNetwork))
    } else {
        None
    }
}

/// The first error among the first `n` transactions.
pub open spec fn first_tx_error(txs: Seq<Transaction>, n: int, h: u32, network_id: u8) -> Option<
    BlockError,
>
    decreases n,
{
    if n <= 0 {
        None
    } else {
        match first_tx_error(txs, n - 1, h, network_id) {
            Some(e) => Some(e),
            None => tx_error_at(txs, n - 1, h, network_id),
        }
    }
}

proof fn lemma_first_tx_error_stays(
    txs: Seq<Transaction>,
    n: int,
    m: int,
    h: u32,
    network_id: u8,
)
    requires
        n <= m,
        first_tx_error(txs, n, h, network_id).is_some(),
    ensures
        first_tx_error(txs, m, h, network_id) == first_tx_error(txs, n, h, network_id),
    decreases m - n,
{
    if n < m {
        lemma_first_tx_error_stays(txs, n, m - 1, h, network_id);
    }
}

/// The error that receipt `i` of `rs` raises on its own, if any.
pub open spec fn receipt_error_at(rs: Seq<Receipt>, i: int) -> Option<BlockError> {
    if i > 0 && rs[i - 1].order_key == rs[i].order_key {
        Some(BlockError::DuplicateReceipt)
    } else if i > 0 && rs[i - 1].order_key > rs[i].order_key {
        Some(BlockError::ReceiptsNotOrdered)
    } else {
        match rs[i].kind {
            ReceiptKind::PrunedAccount { to_be_pruned } => if to_be_pruned {
                None
            } else {
                Some(BlockError::InvalidReceipt)
            },
            ReceiptKind::Transaction => Some(BlockError::UnsupportedReceipt),
        }
    }
}

/// The first error among the first `n` receipts.
pub open spec fn first_receipt_error(rs: Seq<Receipt>, n: int) -> Option<BlockError>
    decreases n,
{
    if n <= 0 {
        None
    } else {
        match first_receipt_error(rs, n - 1) {
            Some(e) => Some(e),
            None => receipt_error_at(rs, n - 1),
        }
    }
}

proof fn lemma_first_receipt_error_stays(rs: Seq<Receipt>, n: int, m: int)
    requires
        n <= m,
        first_receipt_error(rs, n).is_some(),
    ensures
        first_receipt_error(rs, m) == first_receipt_error(rs, n),
    decreases m - n,
{
    if n < m {
        lemma_first_receipt_error_stays(rs, n, m - 1);
    }
}

/// Outcome of checking extrinsics: transactions first, then receipts.
pub open spec fn extrinsics_result(ext: MicroExtrinsics, h: u32, network_id: u8) -> Result<
    (),
    BlockError,
> {
    match first_tx_error(ext.transactions@, ext.transactions@.len() as int, h, network_id) {
        Some(e) => Err(e),
        None => match first_receipt_error(ext.receipts@, ext.receipts@.len() as int) {
            Some(e) => Err(e),
            None => Ok(()),
        },
    }
}

/// Intrinsic validity of a micro block.
pub open spec fn micro_block_valid(b: MicroBlock, network_id: u8) -> bool {
    &&& match b.extrinsics {
        Some(ext) => extrinsics_result(ext, b.header.block_number, network_id).is_ok(),
        None => true,
    }
    &&& (b.header.view_number >= 1 ==> b.justification.view_change_proof.is_some())
}

/// Big-endian bytes of `x`, most significant first, `k` bytes wide.
pub open spec fn be_bytes(x: u64, k: nat) -> Seq<u8>
    decreases k,
{
    if k == 0 {
        Seq::empty()
    } else {
        be_bytes(x / 256, (k - 1) as nat).push((x % 256) as u8)
    }
}

/// The header's fields in declaration order, each as fixed-width big-endian bytes.
pub open spec fn header_bytes(h: MicroHeader) -> Seq<u8> {
    be_bytes(h.version as u64, 2) + be_bytes(h.block_number as u64, 4) + be_bytes(
        h.view_number as u64,
        4,
    ) + be_bytes(h.parent_hash, 8) + be_bytes(h.extrinsics_root, 8) + be_bytes(h.state_root, 8)
        + be_bytes(h.seed, 8) + be_bytes(h.timestamp, 8)
}

/// Appends `x` to `out` as `k` big-endian bytes.
fn write_be(out: &mut Vec<u8>, x: u64, k: usize)
    requires
        k <= 8,
    ensures
        final(out)@ == old(out)@ + be_bytes(x, k as nat),
    decreases k,
{
    if k > 0 {
        write_be(out, x / 256, k - 1);
        out.push((x % 256) as u8);
        assert(be_bytes(x, k as nat) == be_bytes(x / 256, (k - 1) as nat).push((x % 256) as u8));
    }
}

/// `256` to the power `k`.
pub open spec fn pow256(k: nat) -> nat
    decreases k,
{
    if k == 0 {
        1
    } else {
        256 * pow256((k - 1) as nat)
    }
}

/// The number that big-endian bytes `s` write.
pub open spec fn be_value(s: Seq<u8>) -> nat
    decreases s.len(),
{
    if s.len() == 0 {
        0
    } else {
        be_value(s.drop_last()) * 256 + s.last() as nat
    }
}

/// The header that 50 bytes in the layout of `header_bytes` describe.
pub open spec fn header_from(b: Seq<u8>) -> MicroHeader {
    MicroHeader {
        version: be_value(b.subrange(0, 2)) as u16,
        block_number: be_value(b.subrange(2, 6)) as u32,
        view_number: be_value(b.subrange(6, 10)) as u32,
        parent_hash: be_value(b.subrange(10, 18)) as u64,
        extrinsics_root: be_value(b.subrange(18, 26)) as u64,
        state_root: be_value(b.subrange(26, 34)) as u64,
        seed: be_value(b.subrange(34, 42)) as u64,
        timestamp: be_value(b.subrange(42, 50)) as u64,
    }
}

/// Length of an encoded header.
pub const HEADER_SIZE: usize = 50;

proof fn lemma_pow256_grows(j: nat, k: nat)
    requires
        j <= k,
    ensures
        pow256(j) <= pow256(k),
    decreases k,
{
    if j < k {
        lemma_pow256_grows(j, (k - 1) as nat);
    }
}

pub proof fn lemma_be_round_trip(x: u64, k: nat)
    requires
        x < pow256(k),
    ensures
        be_bytes(x, k).len() == k,
        be_value(be_bytes(x, k)) == x,
    decreases k,
{
    if k > 0 {
        let y = x / 256;
        assert(y < pow256((k - 1) as nat)) by (nonlinear_arith)
            requires
                x < 256 * pow256((k - 1) as nat),
                y == x / 256,
        ;
        lemma_be_round_trip(y, (k - 1) as nat);
        let bs = be_bytes(x, k);
        assert(bs.drop_last() == be_bytes(y, (k - 1) as nat));
        assert(bs.last() as nat == x % 256);
    }
}

/// Reads `k` big-endian bytes of `b` from position `at`.
fn read_be(b: &Vec<u8>, at: usize, k: usize) -> (r: u64)
    requires
        at + k <= b@.len(),
        k <= 8,
    ensures
        r == be_value(b@.subrange(at as int, at + k)),
        r < pow256(k as nat),
{
    proof {
        reveal_with_fuel(pow256, 9);
        lemma_pow256_grows(k as nat, 8);
    }
    assert(b@.len() <= usize::MAX) by {
        assert(b.len() <= usize::MAX);
    }
    let mut acc: u64 = 0;
    let mut j: usize = 0;
    while j < k
        invariant
            at + k <= b@.len(),
            b@.len() <= usize::MAX,
            k <= 8,
            j <= k,
            pow256(k as nat) <= pow256(8),
            pow256(8) == 0x1_0000_0000_0000_0000,
            acc == be_value(b@.subrange(at as int, at + j)),
            acc < pow256(j as nat),
        decreases k - j,
    {
        proof {
            lemma_pow256_grows((j + 1) as nat, k as nat);
        }
        let byte = b[at + j];
        assert(acc * 256 + byte < pow256((j + 1) as nat)) by (nonlinear_arith)
            requires
                acc < pow256(j as nat),
                byte < 256,
                pow256((j + 1) as nat) == 256 * pow256(j as nat),
        ;
        acc = acc * 256 + byte as u64;
        assert(b@.subrange(at as int, at + j + 1).drop_last() =~= b@.subrange(at as int, at + j));
        j = j + 1;
    }
    acc
}

impl MicroHeader {
    /// Parses a header written by `serialize_without_signature`; `None`
    /// unless `b` holds exactly one header.
    pub fn deserialize(b: &Vec<u8>) -> (r: Option<MicroHeader>)
        ensures
            r == (if b@.len() == HEADER_SIZE {
                Some(header_from(b@))
            } else {
                None::<MicroHeader>
            }),
    {
        if b.len() != HEADER_SIZE {
            return None;
        }
        proof {
            reveal_with_fuel(pow256, 5);
        }
        Some(
            MicroHeader {
                version: read_be(b, 0, 2) as u16,
                block_number: read_be(b, 2, 4) as u32,
                view_number: read_be(b, 6, 4) as u32,
                parent_hash: read_be(b, 10, 8),
                extrinsics_root: read_be(b, 18, 8),
                state_root: read_be(b, 26, 8),
                seed: read_be(b, 34, 8),
                timestamp: read_be(b, 42, 8),
            },
        )
    }
}

/// Parsing the encoding of a header gives the header back.
pub proof fn header_round_trip(h: MicroHeader)
    ensures
        header_bytes(h).len() == HEADER_SIZE,
        header_from(header_bytes(h)) == h,
{
    reveal_with_fuel(pow256, 9);
    lemma_be_round_trip(h.version as u64, 2);
    lemma_be_round_trip(h.block_number as u64, 4);
    lemma_be_round_trip(h.view_number as u64, 4);
    lemma_be_round_trip(h.parent_hash, 8);
    lemma_be_round_trip(h.extrinsics_root, 8);
    lemma_be_round_trip(h.state_root, 8);
    lemma_be_round_trip(h.seed, 8);
    lemma_be_round_trip(h.timestamp, 8);
    let b = header_bytes(h);
    assert(b.subrange(0, 2) =~= be_bytes(h.version as u64, 2));
    assert(b.subrange(2, 6) =~= be_bytes(h.block_number as u64, 4));
    assert(b.subrange(6, 10) =~= be_bytes(h.view_number as u64, 4));
    assert(b.subrange(10, 18) =~= be_bytes(h.parent_hash, 8));
    assert(b.subrange(18, 26) =~= be_bytes(h.extrinsics_root, 8));
    assert(b.subrange(26, 34) =~= be_bytes(h.state_root, 8));
    assert(b.subrange(34, 42) =~= be_bytes(h.seed, 8));
    assert(b.subrange(42, 50) =~= be_bytes(h.timestamp, 8));
}

impl Transaction {
    pub fn is_valid_at(&self, h: u32) -> (r: bool)
        ensures
            r == tx_valid_at(*self, h),
    {
        self.validity_start_height <= h && (h as u64) < self.validity_start_height as u64
            + TRANSACTION_VALIDITY_WINDOW as u64
    }
}

impl MicroExtrinsics {
    /// Checks that transactions are strictly ordered, valid at `block_height`
    /// and of `network_id`, and that receipts are strictly ordered and valid.
    pub fn verify(&self, block_height: u32, network_id: u8) -> (r: Result<(), BlockError>)
        ensures
            r == extrinsics_result(*self, block_height, network_id),
    {
        let mut i: usize = 0;
        while i < self.transactions.len()
            invariant
                i <= self.transactions@.len(),
                first_tx_error(self.transactions@, i as int, block_height, network_id).is_none(),
            decreases self.transactions@.len() - i,
        {
            assert(first_tx_error(self.transactions@, i + 1, block_height, network_id) == tx_error_at(
                self.transactions@,
                i as int,
                block_height,
                network_id,
            ));
            proof {
                if tx_error_at(self.transactions@, i as int, block_height, network_id).is_some() {
                    lemma_first_tx_error_stays(
                        self.transactions@,
                        i + 1,
                        self.transactions@.len() as int,
                        block_height,
                        network_id,
                    );
                }
            }
            if i > 0 && self.transactions[i - 1].order_key == self.transactions[i].order_key {
                return Err(BlockError::DuplicateTransaction);
            }
            if i > 0 && self.transactions[i - 1].order_key > self.transactions[i].order_key {
                return Err(BlockError::TransactionsNotOrdered);
            }
            if !self.transactions[i].is_valid_at(block_height) {
                return Err(BlockError::ExpiredTransaction);
            }
            if self.transactions[i].network_id != network_id {
                return Err(BlockError::InvalidTransaction(TransactionError::ForeignNetwork));
            }
            i = i + 1;
        }
        let mut j: usize = 0;
        while j < self.receipts.len()
            invariant
                j <= self.receipts@.len(),
                first_tx_error(self.transactions@, self.transactions@.len() as int, block_height, network_id).is_none(),
                first_receipt_error(self.receipts@, j as int).is_none(),
            decreases self.receipts@.len() - j,
        {
            assert(first_receipt_error(self.receipts@, j + 1) == receipt_error_at(self.receipts@, j as int));
            proof {
                if receipt_error_at(self.receipts@, j as int).is_some() {
                    lemma_first_receipt_error_stays(self.receipts@, j + 1, self.receipts@.len() as int);
                }
            }
            if j > 0 && self.receipts[j - 1].order_key == self.receipts[j].order_key {
                return Err(BlockError::DuplicateReceipt);
            }
            if j > 0 && self.receipts[j - 1].order_key > self.receipts[j].order_key {
                return Err(BlockError::ReceiptsNotOrdered);
            }
            match self.receipts[j].kind {
                ReceiptKind::PrunedAccount { to_be_pruned } => {
                    if !to_be_pruned {
                        return Err(BlockError::InvalidReceipt);
                    }
                },
                ReceiptKind::Transaction => {
                    return Err(BlockError::UnsupportedReceipt);
                },
            }
            j = j + 1;
        }
        Ok(())
    }
}

impl MicroBlock {
    /// The bytes that the slot owner signs: the header, without the justification.
    pub fn serialize_without_signature(&self) -> (r: Vec<u8>)
        ensures
            r@ == header_bytes(self.header),
    {
        let h = &self.header;
        let mut out: Vec<u8> = Vec::new();
        write_be(&mut out, h.version as u64, 2);
        write_be(&mut out, h.block_number as u64, 4);
        write_be(&mut out, h.view_number as u64, 4);
        write_be(&mut out, h.parent_hash, 8);
        write_be(&mut out, h.extrinsics_root, 8);
        write_be(&mut out, h.state_root, 8);
        write_be(&mut out, h.seed, 8);
        write_be(&mut out, h.timestamp, 8);
        assert(out@ == header_bytes(self.header));
        out
    }

    /// Intrinsic checks: valid extrinsics, and a view change proof whenever
    /// the view number is at least one.
    pub fn verify(&self, network_id: u8) -> (r: bool)
        ensures
            r == micro_block_valid(*self, network_id),
    {
        match &self.extrinsics {
            Some(ext) => {
                if ext.verify(self.header.block_number, network_id).is_err() {
                    return false;
                }
            },
            None => {},
        }
        !(self.header.view_number >= 1 && self.justification.view_change_proof.is_none())
    }
}

} // verus!
