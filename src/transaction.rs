//! Transaction kinds and their one-byte codes.
use vstd::prelude::*;

verus! {

/// The kinds of transaction.
#[derive(Clone, Copy, Debug, PartialEq, Eq, Structural)]
pub enum TxKind {
    Normal,
    Stake,
    DoscMint,
    AuctionBid,
    AuctionBuyout,
    AuctionFill,
    Faucet,
}

/// The byte that stands for each kind.
pub open spec fn kind_byte(k: TxKind) -> u8 {
    match k {
        TxKind::Normal => 0x00,
        TxKind::Stake => 0x10,
        TxKind::DoscMint => 0x50,
        TxKind::AuctionBid => 0x51,
        TxKind::AuctionBuyout => 0x52,
        TxKind::AuctionFill => 0x53,
        TxKind::Faucet => 0xff,
    }
}

impl TxKind {
    /// The byte that stands for the kind.
    pub fn to_byte(&self) -> (r: u8)
        ensures
            r == kind_byte(*self),
    {
        match self {
            TxKind::Normal => 0x00,
            TxKind::Stake => 0x10,
            TxKind::DoscMint => 0x50,
            TxKind::AuctionBid => 0x51,
            TxKind::AuctionBuyout => 0x52,
            TxKind::AuctionFill => 0x53,
            TxKind::Faucet => 0xff,
        }
    }

    /// The kind a byte stands for, if any.
    pub fn from_byte(b: u8) -> (r: Option<TxKind>)
        ensures
            match r {
                Some(k) => kind_byte(k) == b,
                None => forall|k: TxKind| kind_byte(k) != b,
            },
    {
        match b {
            0x00 => Some(TxKind::Normal),
            0x10 => Some(TxKind::Stake),
            0x50 => Some(TxKind::DoscMint),
            0x51 => Some(TxKind::AuctionBid),
            0x52 => Some(TxKind::AuctionBuyout),
            0x53 => Some(TxKind::AuctionFill),
            0xff => Some(TxKind::Faucet),
            _ => None,
        }
    }
}

} // verus!
