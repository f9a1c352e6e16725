use blockchain_albatross::block::{Block, MacroBlock, MacroHeader};
use blockchain_albatross::blockchain::{
    Blockchain, BlockchainEvent, ExternalChecks, ForkEvent, PushError, PushResult,
};
use blockchain_albatross::micro_block::{
    BlockError, MicroBlock, MicroExtrinsics, MicroHeader, MicroJustification, Receipt,
    ReceiptKind, Transaction, ViewChangeProof,
};

const NET: u8 = 1;
const GENESIS: u64 = 1_000_000;

fn main_hash(n: u32) -> u64 {
    if n == 0 {
        GENESIS
    } else {
        1_000_000 + n as u64
    }
}

fn tx(key: u64, start: u32) -> Transaction {
    Transaction { order_key: key, validity_start_height: start, network_id: NET }
}

fn micro_with(number: u32, view: u32, parent: u64, txs: Vec<Transaction>, receipts: Vec<Receipt>) -> MicroBlock {
    MicroBlock {
        header: MicroHeader {
            version: 1,
            block_number: number,
            view_number: view,
            parent_hash: parent,
            extrinsics_root: 0,
            state_root: 0,
            seed: 0,
            timestamp: number as u64,
        },
        justification: MicroJustification {
            signature: 7,
            view_change_proof: if view >= 1 { Some(ViewChangeProof { signature: 9 }) } else { None },
        },
        extrinsics: Some(MicroExtrinsics {
            slash_inherents: vec![],
            extra_data: vec![],
            transactions: txs,
            receipts,
        }),
    }
}

fn micro(number: u32, view: u32, parent: u64, txs: Vec<Transaction>) -> Block {
    Block::Micro(micro_with(number, view, parent, txs, vec![]))
}

fn macro_block(number: u32, parent: u64, justification: Option<u64>) -> Block {
    Block::Macro(MacroBlock {
        header: MacroHeader { block_number: number, view_number: 0, parent_hash: parent, body_root: 0, seed: 0 },
        justification,
    })
}

fn ok() -> ExternalChecks {
    ExternalChecks {
        signature_valid: true,
        fork_proofs_valid: true,
        body_valid: true,
        validators_valid: true,
        computed_body_valid: true,
        accounts_valid: true,
        branch_accounts_failure: None,
    }
}

fn genesis() -> Blockchain {
    Blockchain::new(
        NET,
        GENESIS,
        MacroBlock {
            header: MacroHeader { block_number: 0, view_number: 0, parent_hash: 0, body_root: 0, seed: 0 },
            justification: Some(1),
        },
    )
}

/// Extends the main chain from its head up to height `to`, with main chain hashes.
fn grow(chain: &mut Blockchain, to: u32) {
    let mut n = chain.block_number();
    while n < to {
        n += 1;
        let block = if n % 100 == 0 {
            macro_block(n, main_hash(n - 1), Some(1))
        } else {
            micro(n, 0, main_hash(n - 1), vec![])
        };
        assert_eq!(chain.push(main_hash(n), block, ok()), Ok(PushResult::Extended));
    }
}

fn chain_at(height: u32) -> Blockchain {
    let mut chain = genesis();
    grow(&mut chain, height);
    chain
}

#[test]
fn extend_from_head() {
    let mut chain = chain_at(100);
    let events_before = chain.events.len();
    let b = micro(101, 0, main_hash(100), vec![]);
    assert_eq!(chain.push(500, b, ok()), Ok(PushResult::Extended));
    assert_eq!(chain.head_hash(), 500);
    assert_eq!(chain.block_number(), 101);
    assert_eq!(chain.events.len(), events_before + 1);
    assert!(matches!(chain.events.last(), Some(BlockchainEvent::Finalized(500))));
}

#[test]
fn inferior_sibling_is_ignored() {
    let mut chain = chain_at(100);
    let b = micro(101, 1, main_hash(100), vec![]);
    assert_eq!(chain.push(501, b, ok()), Ok(PushResult::Extended));
    let events = chain.events.len();
    let c = micro(101, 0, main_hash(100), vec![]);
    assert_eq!(chain.push(502, c, ok()), Ok(PushResult::Ignored));
    assert_eq!(chain.head_hash(), 501);
    assert_eq!(chain.events.len(), events);
    assert!(!chain.contains(502));
}

#[test]
fn longer_fork_rebranches() {
    let mut chain = chain_at(101);
    let b2 = micro(102, 0, main_hash(101), vec![]);
    assert_eq!(chain.push(600, b2, ok()), Ok(PushResult::Extended));
    let c1 = micro(102, 0, main_hash(101), vec![]);
    assert_eq!(chain.push(601, c1, ok()), Ok(PushResult::Forked));
    assert_eq!(chain.head_hash(), 600);
    let c2 = micro(103, 0, 601, vec![]);
    assert_eq!(chain.push(602, c2, ok()), Ok(PushResult::Rebranched));
    assert_eq!(chain.head_hash(), 602);
    assert_eq!(chain.main_chain_hash_at(102), Some(601));
    match chain.events.last() {
        Some(BlockchainEvent::Rebranched(reverted, adopted)) => {
            assert_eq!(reverted, &vec![600]);
            assert_eq!(adopted, &vec![601, 602]);
        }
        _ => panic!("expected a rebranch event"),
    }
}

#[test]
fn higher_view_branch_rebranches_at_once() {
    let mut chain = chain_at(101);
    let b2 = micro(102, 0, main_hash(101), vec![]);
    assert_eq!(chain.push(610, b2, ok()), Ok(PushResult::Extended));
    let c1 = micro(102, 1, main_hash(101), vec![]);
    assert_eq!(chain.push(611, c1, ok()), Ok(PushResult::Rebranched));
    assert_eq!(chain.head_hash(), 611);
    let c2 = micro(103, 0, 611, vec![]);
    assert_eq!(chain.push(612, c2, ok()), Ok(PushResult::Extended));
    assert_eq!(chain.head_hash(), 612);
}

#[test]
fn same_slot_fork_is_reported() {
    let mut chain = chain_at(102);
    let d1 = micro(103, 0, main_hash(102), vec![]);
    assert_eq!(chain.push(700, d1, ok()), Ok(PushResult::Extended));
    let d2 = micro(103, 0, main_hash(102), vec![]);
    assert_eq!(chain.push(701, d2, ok()), Ok(PushResult::Forked));
    assert_eq!(chain.fork_events.len(), 1);
    let ForkEvent::Detected(proof) = chain.fork_events[0];
    assert_eq!(proof.header1_hash, 701);
    assert_eq!(proof.header2_hash, 700);
    assert_eq!(proof.justification1, 7);
    assert_eq!(proof.justification2, 7);
    assert_eq!(proof.block_number, 103);
    assert_eq!(proof.view_number, 0);
    assert_eq!(chain.head_hash(), 700);
}

#[test]
fn no_rebranch_across_macro_block() {
    let mut chain = chain_at(196);
    let f = micro(196, 0, main_hash(195), vec![]);
    assert_eq!(chain.push(800, f, ok()), Ok(PushResult::Forked));
    grow(&mut chain, 201);
    assert_eq!(chain.macro_number, 200);
    let head = chain.head_hash();
    let events = chain.events.len();
    let x = micro(197, 1, 800, vec![]);
    assert_eq!(chain.push(801, x, ok()), Err(PushError::InvalidFork));
    assert_eq!(chain.head_hash(), head);
    assert_eq!(chain.events.len(), events);
    assert!(chain.contains(800));
    assert!(!chain.contains(801));
}

#[test]
fn repeated_transaction_is_refused() {
    let mut chain = chain_at(10);
    let b = micro(11, 0, main_hash(10), vec![tx(42, 5)]);
    assert_eq!(chain.push(900, b, ok()), Ok(PushResult::Extended));
    let b2 = micro(12, 0, 900, vec![tx(42, 5)]);
    assert_eq!(chain.push(901, b2, ok()), Err(PushError::DuplicateTransaction));
    assert_eq!(chain.head_hash(), 900);
    let b3 = micro(12, 0, 900, vec![tx(43, 5)]);
    assert_eq!(chain.push(902, b3, ok()), Ok(PushResult::Extended));
}

#[test]
fn transaction_repeated_late_in_window() {
    let mut chain = chain_at(1);
    let b = micro(2, 0, main_hash(1), vec![tx(42, 2)]);
    assert_eq!(chain.push(main_hash(2), b, ok()), Ok(PushResult::Extended));
    grow(&mut chain, 120);
    let again = micro(121, 0, main_hash(120), vec![tx(42, 2)]);
    assert_eq!(chain.push(950, again, ok()), Err(PushError::DuplicateTransaction));
    assert_eq!(chain.head_hash(), main_hash(120));
}

#[test]
fn second_push_is_known() {
    let mut chain = chain_at(3);
    let b = micro(4, 0, main_hash(3), vec![]);
    assert_eq!(chain.push(40, b.clone(), ok()), Ok(PushResult::Extended));
    let events = chain.events.len();
    assert_eq!(chain.push(40, b, ok()), Ok(PushResult::Known));
    assert_eq!(chain.events.len(), events);
    assert_eq!(chain.head_hash(), 40);
}

#[test]
fn orphan_then_parent() {
    let mut chain = chain_at(3);
    let child = micro(5, 0, 41, vec![]);
    assert_eq!(chain.push(42, child.clone(), ok()), Err(PushError::Orphan));
    let parent = micro(4, 0, main_hash(3), vec![]);
    assert_eq!(chain.push(41, parent, ok()), Ok(PushResult::Extended));
    assert_eq!(chain.push(42, child, ok()), Ok(PushResult::Extended));
    assert_eq!(chain.head_hash(), 42);
}

#[test]
fn wrong_number_is_invalid_successor() {
    let mut chain = chain_at(3);
    let b = micro(6, 0, main_hash(3), vec![]);
    assert_eq!(chain.push(43, b, ok()), Err(PushError::InvalidSuccessor));
}

#[test]
fn intrinsic_errors_are_reported() {
    let mut chain = chain_at(3);
    let cases: Vec<(Vec<Transaction>, Vec<Receipt>, BlockError)> = vec![
        (vec![tx(1, 1), tx(1, 1)], vec![], BlockError::DuplicateTransaction),
        (vec![tx(2, 1), tx(1, 1)], vec![], BlockError::TransactionsNotOrdered),
        (vec![tx(1, 5)], vec![], BlockError::ExpiredTransaction),
        (
            vec![Transaction { order_key: 1, validity_start_height: 1, network_id: 2 }],
            vec![],
            BlockError::InvalidTransaction(blockchain_albatross::micro_block::TransactionError::ForeignNetwork),
        ),
        (
            vec![],
            vec![
                Receipt { order_key: 1, kind: ReceiptKind::PrunedAccount { to_be_pruned: true } },
                Receipt { order_key: 1, kind: ReceiptKind::PrunedAccount { to_be_pruned: true } },
            ],
            BlockError::DuplicateReceipt,
        ),
        (
            vec![],
            vec![
                Receipt { order_key: 2, kind: ReceiptKind::PrunedAccount { to_be_pruned: true } },
                Receipt { order_key: 1, kind: ReceiptKind::PrunedAccount { to_be_pruned: true } },
            ],
            BlockError::ReceiptsNotOrdered,
        ),
        (
            vec![],
            vec![Receipt { order_key: 1, kind: ReceiptKind::PrunedAccount { to_be_pruned: false } }],
            BlockError::InvalidReceipt,
        ),
        (
            vec![],
            vec![Receipt { order_key: 1, kind: ReceiptKind::Transaction }],
            BlockError::UnsupportedReceipt,
        ),
    ];
    for (i, (txs, receipts, err)) in cases.into_iter().enumerate() {
        let b = Block::Micro(micro_with(4, 0, main_hash(3), txs, receipts));
        assert_eq!(chain.push(60 + i as u64, b, ok()), Err(PushError::InvalidBlock(err)));
    }
    let mut m = micro_with(4, 1, main_hash(3), vec![], vec![]);
    m.justification.view_change_proof = None;
    assert_eq!(
        chain.push(70, Block::Micro(m), ok()),
        Err(PushError::InvalidBlock(BlockError::MissingViewChangeProof))
    );
    assert_eq!(chain.head_hash(), main_hash(3));
}

#[test]
fn header_errors_are_reported() {
    let mut chain = chain_at(99);
    let wrong_type = micro(100, 0, main_hash(99), vec![]);
    assert_eq!(
        chain.push(71, wrong_type, ok()),
        Err(PushError::InvalidBlock(BlockError::InvalidBlockType))
    );
    let unjustified = macro_block(100, main_hash(99), None);
    assert_eq!(
        chain.push(72, unjustified, ok()),
        Err(PushError::InvalidBlock(BlockError::NoJustification))
    );
    let bad_sig = ExternalChecks { signature_valid: false, ..ok() };
    assert_eq!(
        chain.push(73, macro_block(100, main_hash(99), Some(1)), bad_sig),
        Err(PushError::InvalidBlock(BlockError::InvalidJustification))
    );
    let bad_body = ExternalChecks { body_valid: false, ..ok() };
    assert_eq!(
        chain.push(74, macro_block(100, main_hash(99), Some(1)), bad_body),
        Err(PushError::InvalidBlock(BlockError::BodyHashMismatch))
    );
    let mut micro_chain = chain_at(3);
    let bad_proofs = ExternalChecks { fork_proofs_valid: false, ..ok() };
    assert_eq!(
        micro_chain.push(75, micro(4, 0, main_hash(3), vec![]), bad_proofs),
        Err(PushError::InvalidSuccessor)
    );
    let bad_accounts = ExternalChecks { accounts_valid: false, ..ok() };
    assert_eq!(
        micro_chain.push(76, micro(4, 0, main_hash(3), vec![]), bad_accounts),
        Err(PushError::AccountsError)
    );
    assert_eq!(micro_chain.head_hash(), main_hash(3));
}

#[test]
fn election_block_checks_validators() {
    let mut chain = chain_at(399);
    let bad = ExternalChecks { validators_valid: false, ..ok() };
    assert_eq!(
        chain.push(main_hash(400), macro_block(400, main_hash(399), Some(1)), bad),
        Err(PushError::InvalidBlock(BlockError::InvalidValidators))
    );
    assert_eq!(
        chain.push(main_hash(400), macro_block(400, main_hash(399), Some(1)), ok()),
        Ok(PushResult::Extended)
    );
    assert!(matches!(chain.events.last(), Some(BlockchainEvent::EpochFinalized(h)) if *h == main_hash(400)));
    assert_eq!(chain.macro_number, 400);
    assert_eq!(chain.election_head_hash, main_hash(400));
}

#[test]
fn failing_fork_block_is_pruned() {
    let mut chain = chain_at(10);
    let a = micro(11, 0, main_hash(10), vec![tx(5, 3)]);
    assert_eq!(chain.push(main_hash(11), a, ok()), Ok(PushResult::Extended));
    grow(&mut chain, 12);
    let f1 = micro(12, 0, main_hash(11), vec![tx(5, 3)]);
    assert_eq!(chain.push(1200, f1, ok()), Ok(PushResult::Forked));
    assert!(chain.contains(1200));
    let f2 = micro(13, 0, 1200, vec![]);
    assert_eq!(chain.push(1201, f2, ok()), Err(PushError::InvalidFork));
    assert!(!chain.contains(1200));
    assert!(!chain.contains(1201));
    assert_eq!(chain.head_hash(), main_hash(12));
}

#[test]
fn micro_block_verify_follows_extrinsics() {
    let good = micro_with(4, 0, 1, vec![tx(1, 1), tx(2, 1)], vec![]);
    assert!(good.verify(NET));
    let bad = micro_with(4, 0, 1, vec![tx(2, 1), tx(1, 1)], vec![]);
    assert!(!bad.verify(NET));
    let mut no_proof = micro_with(4, 2, 1, vec![], vec![]);
    assert!(no_proof.verify(NET));
    no_proof.justification.view_change_proof = None;
    assert!(!no_proof.verify(NET));
}

#[test]
fn extrinsics_check_validity_window() {
    let ext = MicroExtrinsics {
        slash_inherents: vec![],
        extra_data: vec![],
        transactions: vec![tx(1, 100)],
        receipts: vec![],
    };
    assert_eq!(ext.verify(100, NET), Ok(()));
    assert_eq!(ext.verify(219, NET), Ok(()));
    assert_eq!(ext.verify(220, NET), Err(BlockError::ExpiredTransaction));
    assert_eq!(ext.verify(99, NET), Err(BlockError::ExpiredTransaction));
}

fn run_script(chain: &mut Blockchain) -> Vec<Result<PushResult, PushError>> {
    let blocks = vec![
        (2000, micro(6, 0, main_hash(5), vec![tx(1, 1)])),
        (2001, micro(6, 0, main_hash(5), vec![])),
        (2002, micro(7, 0, 2001, vec![tx(1, 1)])),
        (2003, micro(7, 1, 2000, vec![])),
        (2002, micro(7, 0, 2001, vec![tx(1, 1)])),
    ];
    let mut results = Vec::new();
    for (hash, block) in blocks {
        results.push(chain.push(hash, block, ok()));
    }
    results
}

#[test]
fn same_pushes_same_chain() {
    let mut first = chain_at(5);
    let mut second = chain_at(5);
    let r1 = run_script(&mut first);
    let r2 = run_script(&mut second);
    assert_eq!(r1, r2);
    assert_eq!(
        r1,
        vec![
            Ok(PushResult::Extended),
            Ok(PushResult::Forked),
            Ok(PushResult::Rebranched),
            Ok(PushResult::Rebranched),
            Ok(PushResult::Known),
        ]
    );
    assert_eq!(first.head_hash(), second.head_hash());
    assert_eq!(first.head_hash(), 2003);
    assert_eq!(first.events.len(), second.events.len());
    assert_eq!(first.fork_events, second.fork_events);
    for h in 0..=7 {
        assert_eq!(first.main_chain_hash_at(h), second.main_chain_hash_at(h));
    }
}

#[test]
fn higher_view_sibling_also_wins() {
    for view in 1..4 {
        let mut chain = chain_at(101);
        let b2 = micro(102, 0, main_hash(101), vec![]);
        assert_eq!(chain.push(620, b2, ok()), Ok(PushResult::Extended));
        let sibling = micro(102, view, main_hash(101), vec![]);
        assert_eq!(chain.push(621, sibling, ok()), Ok(PushResult::Rebranched));
        assert_eq!(chain.head_hash(), 621);
    }
    let mut chain = chain_at(101);
    let b2 = micro(102, 2, main_hash(101), vec![]);
    assert_eq!(chain.push(630, b2, ok()), Ok(PushResult::Extended));
    let lower = micro(102, 1, main_hash(101), vec![]);
    assert_eq!(chain.push(631, lower, ok()), Ok(PushResult::Ignored));
}

#[test]
fn macro_block_is_never_adopted_by_rebranch() {
    let mut chain = chain_at(98);
    let main = micro(99, 0, main_hash(98), vec![]);
    assert_eq!(chain.push(main_hash(99), main, ok()), Ok(PushResult::Extended));
    let side = micro(99, 0, main_hash(98), vec![]);
    assert_eq!(chain.push(1300, side, ok()), Ok(PushResult::Forked));
    let macro_on_side = macro_block(100, 1300, Some(1));
    let events = chain.events.len();
    assert_eq!(chain.push(1301, macro_on_side, ok()), Err(PushError::InvalidFork));
    assert_eq!(chain.head_hash(), main_hash(99));
    assert_eq!(chain.macro_number, 0);
    assert_eq!(chain.events.len(), events);
    assert!(chain.contains(1300));
    assert!(!chain.contains(1301));
    let macro_on_main = macro_block(100, main_hash(99), Some(1));
    assert_eq!(chain.push(main_hash(100), macro_on_main, ok()), Ok(PushResult::Extended));
    assert_eq!(chain.macro_number, 100);
    assert_eq!(chain.macro_head_hash, main_hash(100));
}

#[test]
fn recomputed_macro_body_is_checked() {
    let mut chain = chain_at(99);
    let bad = ExternalChecks { computed_body_valid: false, ..ok() };
    assert_eq!(
        chain.push(main_hash(100), macro_block(100, main_hash(99), Some(1)), bad),
        Err(PushError::InvalidBlock(BlockError::BodyHashMismatch))
    );
    assert_eq!(chain.head_hash(), main_hash(99));
    assert_eq!(chain.macro_head_hash, GENESIS);
    let fine = micro(100 - 1, 0, main_hash(98), vec![]);
    assert_eq!(chain.push(1400, fine, bad), Ok(PushResult::Forked));
}

#[test]
fn accounts_failure_on_branch_prunes_from_failing_block() {
    let mut chain = chain_at(20);
    let f1 = micro(20, 0, main_hash(19), vec![]);
    assert_eq!(chain.push(1500, f1, ok()), Ok(PushResult::Forked));
    let f2 = micro(21, 0, 1500, vec![]);
    assert_eq!(chain.push(1501, f2, ok()), Ok(PushResult::Rebranched));
    assert_eq!(chain.head_hash(), 1501);
    let g1 = micro(20, 0, main_hash(19), vec![tx(8, 10)]);
    assert_eq!(chain.push(1600, g1, ok()), Ok(PushResult::Forked));
    let g2 = micro(21, 0, 1600, vec![]);
    assert_eq!(chain.push(1601, g2, ok()), Ok(PushResult::Forked));
    let refused = ExternalChecks { branch_accounts_failure: Some(1601), ..ok() };
    let events = chain.events.len();
    let g3 = micro(22, 0, 1601, vec![]);
    assert_eq!(chain.push(1602, g3, refused), Err(PushError::InvalidFork));
    assert!(chain.contains(1600));
    assert!(!chain.contains(1601));
    assert!(!chain.contains(1602));
    assert_eq!(chain.head_hash(), 1501);
    assert_eq!(chain.events.len(), events);
}
