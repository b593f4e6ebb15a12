use vstd::prelude::*;
use crate::config::{Hash256, Signature};
use crate::crypto::{address, address_spec, hash_eq, sha256, sha256_of};
use crate::encoding::{enc_i64, enc_u32, push_bytes, push_i64, push_u32};
use crate::wallet::{add_to_balance, shift_balance, WalletStatus, WalletValidationResult};

verus! {

/// The outcome of the self-contained checks of a transfer.
#[derive(Clone, Copy, Debug, PartialEq, Eq, Structural)]
pub enum TransactionValidationResult {
    Valid,
    Negative,
    Unbalanced,
    WrongHashCount,
    Wallet(WalletValidationResult),
}

/// The signed part of a transfer.
#[derive(Clone, Copy, Debug)]
pub struct TransactionHeader {
    pub id: u32,
    pub from: Signature,
    pub to: Hash256,
    pub amount: i64,
    pub transaction_fee: i64,
}

/// A transfer: a header, the sender's signature over the header's hash and
/// the public exponent of the sender's key.
#[derive(Clone, Copy, Debug)]
pub struct Transaction {
    pub header: TransactionHeader,
    pub signature: Signature,
    pub e: [u8; 3],
}

/// The canonical encoding of a transaction header.
pub open spec fn enc_header(h: TransactionHeader) -> Seq<u8> {
    enc_u32(h.id) + h.from@ + h.to@ + enc_i64(h.amount) + enc_i64(h.transaction_fee)
}

/// The canonical encoding of a transfer.
pub open spec fn enc_transaction(t: Transaction) -> Seq<u8> {
    enc_header(t.header) + t.signature@ + t.e@
}

/// The hash of a transfer: the digest of its whole encoding.
pub open spec fn transaction_hash_spec(t: Transaction) -> Seq<u8> {
    sha256_of(enc_transaction(t))
}

/// The address that sends a transfer.
pub open spec fn sender_spec(t: Transaction) -> Seq<u8> {
    address_spec(t.header.from)
}

/// What `validate_content` returns, given the outcome of the signature check.
pub open spec fn validate_content_spec(
    t: Transaction,
    signature_check: WalletValidationResult,
) -> TransactionValidationResult {
    if t.header.amount < 0 || t.header.transaction_fee < 0 {
        TransactionValidationResult::Negative
    } else if signature_check == WalletValidationResult::Valid {
        TransactionValidationResult::Valid
    } else {
        TransactionValidationResult::Wallet(signature_check)
    }
}

/// How one transfer moves the status of `addr`: the sender pays amount and
/// fee and must use a fresh id, the recipient gets the amount, the block's
/// winner gets the fee.
pub open spec fn transfer_update_spec(
    t: Transaction,
    addr: Seq<u8>,
    status: WalletStatus,
    is_block_winner: bool,
) -> Option<WalletStatus> {
    let is_sender = sender_spec(t) == addr;
    if is_sender && t.header.id <= status.max_id {
        None
    } else {
        let delta: int = (if is_sender { -(t.header.amount + t.header.transaction_fee) } else { 0int })
            + (if t.header.to@ == addr { t.header.amount as int } else { 0int })
            + (if is_block_winner { t.header.transaction_fee as int } else { 0int });
        let moved = WalletStatus {
            balance: status.balance,
            max_id: if is_sender { t.header.id } else { status.max_id },
        };
        shift_balance(moved, delta)
    }
}

/// Appends the encoding of a transaction header.
pub fn push_header(out: &mut Vec<u8>, h: &TransactionHeader)
    ensures
        final(out)@ == old(out)@ + enc_header(*h),
{
    push_u32(out, h.id);
    push_bytes(out, h.from.as_slice());
    push_bytes(out, h.to.as_slice());
    push_i64(out, h.amount);
    push_i64(out, h.transaction_fee);
    assert(final(out)@ =~= old(out)@ + enc_header(*h));
}

/// Appends the encoding of a transfer.
pub fn push_transaction(out: &mut Vec<u8>, t: &Transaction)
    ensures
        final(out)@ == old(out)@ + enc_transaction(*t),
{
    push_header(out, &t.header);
    push_bytes(out, t.signature.as_slice());
    push_bytes(out, t.e.as_slice());
    assert(final(out)@ =~= old(out)@ + enc_transaction(*t));
}

impl TransactionHeader {
    /// The encoded bytes of the header.
    pub fn as_bytes(&self) -> (r: Vec<u8>)
        ensures
            r@ == enc_header(*self),
    {
        let mut out: Vec<u8> = Vec::new();
        push_header(&mut out, self);
        assert(out@ =~= enc_header(*self));
        out
    }

    /// The hash that the sender signs: the digest of the header's encoding.
    pub fn hash(&self) -> (r: Hash256)
        ensures
            r@ == sha256_of(enc_header(*self)),
    {
        let bytes = self.as_bytes();
        sha256(bytes.as_slice())
    }
}

impl Transaction {
    /// Puts a signed header together with its signature and key exponent.
    pub fn new(header: TransactionHeader, signature: Signature, e: [u8; 3]) -> (r: Transaction)
        ensures
            r.header == header,
            r.signature == signature,
            r.e == e,
    {
        Transaction { header, signature, e }
    }

    /// The hash of the whole transfer, used for the Merkle root.
    pub fn hash(&self) -> (r: Hash256)
        ensures
            r@ == transaction_hash_spec(*self),
    {
        let mut out: Vec<u8> = Vec::new();
        push_transaction(&mut out, self);
        assert(out@ =~= enc_transaction(*self));
        sha256(out.as_slice())
    }

    /// Checks the amounts, then reports the outcome of the signature check
    /// made on `self.header.hash()` against the sender's key and exponent.
    pub fn validate_content(&self, signature_check: WalletValidationResult) -> (r:
        TransactionValidationResult)
        ensures
            r == validate_content_spec(*self, signature_check),
    {
        if self.header.amount < 0 {
            return TransactionValidationResult::Negative;
        }
        if self.header.transaction_fee < 0 {
            return TransactionValidationResult::Negative;
        }
        match signature_check {
            WalletValidationResult::Valid => TransactionValidationResult::Valid,
            other => TransactionValidationResult::Wallet(other),
        }
    }

    /// The sender's address: the hash of the sender's public key.
    pub fn get_from_address(&self) -> (r: Hash256)
        ensures
            r@ == sender_spec(*self),
    {
        address(&self.header.from)
    }

    /// Folds this transfer into the status of `addr`.
    pub fn update_wallet_status(&self, addr: &Hash256, status: WalletStatus, is_block_winner: bool)
        -> (r: Option<WalletStatus>)
        ensures
            r == transfer_update_spec(*self, addr@, status, is_block_winner),
    {
        let from = self.get_from_address();
        let is_sender = hash_eq(&from, addr);
        if is_sender && self.header.id <= status.max_id {
            return None;
        }
        let amount = self.header.amount as i128;
        let fee = self.header.transaction_fee as i128;
        let mut delta: i128 = 0;
        if is_sender {
            delta = delta - (amount + fee);
        }
        if hash_eq(&self.header.to, addr) {
            delta = delta + amount;
        }
        if is_block_winner {
            delta = delta + fee;
        }
        let moved = WalletStatus {
            balance: status.balance,
            max_id: if is_sender { self.header.id } else { status.max_id },
        };
        add_to_balance(moved, delta)
    }
}

} // verus!
