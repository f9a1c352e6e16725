use vstd::prelude::*;
use crate::micro_block::{BlockError, MicroBlock, Transaction, extrinsics_result};

verus! {

/// Every block whose number is a multiple of this is a macro block.
pub const BATCH_LENGTH: u32 = 100;

/// Every block whose number is a multiple of this is an election macro block.
pub const EPOCH_LENGTH: u32 = 400;

#[derive(Clone, Copy, Debug, PartialEq, Eq, Structural)]
pub struct MacroHeader {
    pub block_number: u32,
    pub view_number: u32,
    pub parent_hash: u64,
    pub body_root: u64,
    pub seed: u64,
}

/// A macro block; its justification is the aggregate signature, if present.
#[derive(Clone, Copy, Debug, PartialEq, Eq, Structural)]
pub struct MacroBlock {
    pub header: MacroHeader,
    pub justification: Option<u64>,
}

#[derive(Clone, Debug)]
pub enum Block {
    Micro(MicroBlock),
    Macro(MacroBlock),
}

pub open spec fn is_macro_height(n: u32) -> bool {
    n % BATCH_LENGTH == 0
}

pub open spec fn is_election_height(n: u32) -> bool {
    n % EPOCH_LENGTH == 0
}

/// Intrinsic check of a block: a micro block's extrinsics, then its view
/// change proof, required from view one on.
pub open spec fn block_check(b: Block, network_id: u8) -> Result<(), BlockError> {
    match b {
        Block::Micro(m) => match m.extrinsics {
            Some(ext) => match extrinsics_result(ext, m.header.block_number, network_id) {
                Err(e) => Err(e),
                Ok(_) => if m.header.view_number >= 1 && m.justification.view_change_proof.is_none() {
                    Err(BlockError::MissingViewChangeProof)
                } else {
                    Ok(())
                },
            },
            None => if m.header.view_number >= 1 && m.justification.view_change_proof.is_none() {
                Err(BlockError::MissingViewChangeProof)
            } else {
                Ok(())
            },
        },
        Block::Macro(_) => Ok(()),
    }
}

impl Block {
    /// Checks the block's intrinsic invariants.
    pub fn verify(&self, network_id: u8) -> (r: Result<(), BlockError>)
        ensures
            r == block_check(*self, network_id),
    {
        match self {
            Block::Micro(m) => {
                match &m.extrinsics {
                    Some(ext) => {
                        let res = ext.verify(m.header.block_number, network_id);
                        if let Err(e) = res {
                            return Err(e);
                        }
                    },
                    None => {},
                }
                if m.header.view_number >= 1 && m.justification.view_change_proof.is_none() {
                    Err(BlockError::MissingViewChangeProof)
                } else {
                    Ok(())
                }
            },
            Block::Macro(_) => Ok(()),
        }
    }

    pub open spec fn number(&self) -> u32 {
        match self {
            Block::Micro(m) => m.header.block_number,
            Block::Macro(m) => m.header.block_number,
        }
    }

    pub open spec fn view(&self) -> u32 {
        match self {
            Block::Micro(m) => m.header.view_number,
            Block::Macro(m) => m.header.view_number,
        }
    }

    pub open spec fn parent(&self) -> u64 {
        match self {
            Block::Micro(m) => m.header.parent_hash,
            Block::Macro(m) => m.header.parent_hash,
        }
    }

    pub open spec fn is_macro_spec(&self) -> bool {
        self is Macro
    }

    /// The signature that justifies the block: the slot owner's for a micro
    /// block, the aggregate one (or zero when absent) for a macro block.
    pub open spec fn signature(&self) -> u64 {
        match self {
            Block::Micro(m) => m.justification.signature,
            Block::Macro(m) => match m.justification {
                Some(j) => j,
                None => 0,
            },
        }
    }

    pub fn justification_signature(&self) -> (r: u64)
        ensures
            r == self.signature(),
    {
        match self {
            Block::Micro(m) => m.justification.signature,
            Block::Macro(m) => match m.justification {
                Some(j) => j,
                None => 0,
            },
        }
    }

    /// The transactions a block includes; macro blocks include none.
    pub open spec fn txs(&self) -> Seq<Transaction> {
        match self {
            Block::Micro(m) => match m.extrinsics {
                Some(e) => e.transactions@,
                None => Seq::empty(),
            },
            Block::Macro(_) => Seq::empty(),
        }
    }

    pub fn block_number(&self) -> (r: u32)
        ensures
            r == self.number(),
    {
        match self {
            Block::Micro(m) => m.header.block_number,
            Block::Macro(m) => m.header.block_number,
        }
    }

    pub fn view_number(&self) -> (r: u32)
        ensures
            r == self.view(),
    {
        match self {
            Block::Micro(m) => m.header.view_number,
            Block::Macro(m) => m.header.view_number,
        }
    }

    pub fn parent_hash(&self) -> (r: u64)
        ensures
            r == self.parent(),
    {
        match self {
            Block::Micro(m) => m.header.parent_hash,
            Block::Macro(m) => m.header.parent_hash,
        }
    }

    pub fn is_macro(&self) -> (r: bool)
        ensures
            r == self.is_macro_spec(),
    {
        match self {
            Block::Micro(_) => false,
            Block::Macro(_) => true,
        }
    }

    pub fn tx_count(&self) -> (r: usize)
        ensures
            r == self.txs().len(),
    {
        match self {
            Block::Micro(m) => match &m.extrinsics {
                Some(e) => e.transactions.len(),
                None => 0,
            },
            Block::Macro(_) => 0,
        }
    }

    pub fn tx_at(&self, j: usize) -> (r: Transaction)
        requires
            j < self.txs().len(),
        ensures
            r == self.txs()[j as int],
    {
        let none = Transaction { order_key: 0, validity_start_height: 0, network_id: 0 };
        match self {
            Block::Micro(m) => match &m.extrinsics {
                Some(e) => e.transactions[j],
                None => none,
            },
            Block::Macro(_) => none,
        }
    }
}

} // verus!
