use vstd::prelude::*;
use crate::config::{Hash256, COIN, PAGE_CHUNK_SIZE};
use crate::crypto::hash_eq;
use crate::transaction::TransactionValidationResult;
use crate::wallet::{add_to_balance, shift_balance, WalletStatus};

verus! {

/// A content-hosting record: the site that pays for it, the hashes of its
/// content chunks, the content length in bytes and a fee.
#[derive(Clone, Debug)]
pub struct Page {
    pub id: u32,
    pub site: Hash256,
    pub data_hashes: Vec<Hash256>,
    pub data_length: u32,
    pub fee: i64,
}

/// The mathematical value of a page: its fields, with the list of hashes
/// as a sequence.
pub ghost struct PageV {
    pub id: u32,
    pub site: Hash256,
    pub data_hashes: Seq<Hash256>,
    pub data_length: u32,
    pub fee: i64,
}

impl View for Page {
    type V = PageV;

    open spec fn view(&self) -> PageV {
        PageV {
            id: self.id,
            site: self.site,
            data_hashes: self.data_hashes@,
            data_length: self.data_length,
            fee: self.fee,
        }
    }
}

/// What the data store reports of a stored unit of content.
#[derive(Clone, Debug)]
pub struct DataUnit {
    pub hashes: Vec<Hash256>,
    pub length: u32,
}

/// One input that pays for a page.
#[derive(Clone, Copy, Debug)]
pub struct Input {
    pub address: Hash256,
    pub amount: i64,
}

/// The price of hosting `data_length` bytes: one coin per full chunk,
/// pro rata for a partial one, rounded down to a unit.
pub open spec fn cost_spec(data_length: u32) -> int {
    (data_length as int * COIN as int) / PAGE_CHUNK_SIZE as int
}

/// The number of content chunks that `data_length` bytes take.
pub open spec fn chunk_count(data_length: u32) -> int {
    (data_length as int + PAGE_CHUNK_SIZE as int - 1) / PAGE_CHUNK_SIZE as int
}

/// The sum of the amounts of a list of inputs.
pub open spec fn input_total(s: Seq<Input>) -> int
    decreases s.len(),
{
    if s.len() == 0 {
        0
    } else {
        input_total(s.drop_last()) + s.last().amount
    }
}

/// The number of inputs that belong to `addr`.
pub open spec fn inputs_of(s: Seq<Input>, addr: Seq<u8>) -> nat
    decreases s.len(),
{
    if s.len() == 0 {
        0
    } else {
        inputs_of(s.drop_last(), addr) + if s.last().address@ == addr { 1nat } else { 0nat }
    }
}

/// What `validate` returns for a page paid from `inputs`.
pub open spec fn page_validate_spec(p: PageV, inputs: Seq<Input>) -> TransactionValidationResult {
    if p.fee < 0 {
        TransactionValidationResult::Negative
    } else if inputs_of(inputs, p.site@) != 1 {
        TransactionValidationResult::Unbalanced
    } else if input_total(inputs) != cost_spec(p.data_length) + p.fee {
        TransactionValidationResult::Unbalanced
    } else if p.data_hashes.len() != chunk_count(p.data_length) {
        TransactionValidationResult::WrongHashCount
    } else {
        TransactionValidationResult::Valid
    }
}

/// How one page moves the status of `addr`: the site pays cost and fee and
/// must use a fresh id, the block's winner gets the fee.
pub open spec fn page_update_spec(
    p: PageV,
    addr: Seq<u8>,
    status: WalletStatus,
    is_block_winner: bool,
) -> Option<WalletStatus> {
    let is_sender = p.site@ == addr;
    if is_sender && p.id <= status.max_id {
        None
    } else {
        let delta: int = (if is_sender { -(cost_spec(p.data_length) + p.fee) } else { 0int })
            + (if is_block_winner { p.fee as int } else { 0int });
        let moved = WalletStatus {
            balance: status.balance,
            max_id: if is_sender { p.id } else { status.max_id },
        };
        shift_balance(moved, delta)
    }
}

/// Equality of two lists of hashes, byte by byte.
pub fn hashes_eq(a: &Vec<Hash256>, b: &Vec<Hash256>) -> (r: bool)
    ensures
        r == (a@.len() == b@.len() && forall|i: int| 0 <= i < a@.len() ==> a@[i]@ == b@[i]@),
{
    if a.len() != b.len() {
        return false;
    }
    let mut i: usize = 0;
    while i < a.len()
        invariant
            0 <= i <= a@.len(),
            a@.len() == b@.len(),
            forall|j: int| 0 <= j < i ==> a@[j]@ == b@[j]@,
        decreases a@.len() - i,
    {
        if !hash_eq(&a[i], &b[i]) {
            return false;
        }
        i = i + 1;
    }
    true
}

/// A copy of a list of hashes.
pub fn copy_hashes(v: &Vec<Hash256>) -> (r: Vec<Hash256>)
    ensures
        r@ == v@,
{
    let mut out: Vec<Hash256> = Vec::new();
    let mut i: usize = 0;
    while i < v.len()
        invariant
            0 <= i <= v@.len(),
            out@ == v@.take(i as int),
        decreases v@.len() - i,
    {
        out.push(v[i]);
        i = i + 1;
        assert(out@ =~= v@.take(i as int));
    }
    assert(v@.take(v@.len() as int) =~= v@);
    out
}

impl Page {
    /// A copy of the page.
    pub fn duplicate(&self) -> (r: Page)
        ensures
            r@ == self@,
    {
        Page {
            id: self.id,
            site: self.site,
            data_hashes: copy_hashes(&self.data_hashes),
            data_length: self.data_length,
            fee: self.fee,
        }
    }

    pub fn new(id: u32, site: Hash256, data_hashes: Vec<Hash256>, data_length: u32, fee: i64) -> (r:
        Page)
        ensures
            r@ == (PageV { id, site, data_hashes: data_hashes@, data_length, fee }),
    {
        Page { id, site, data_hashes, data_length, fee }
    }

    /// A page that describes the content of `data`.
    pub fn new_from_data(id: u32, site: Hash256, data: &DataUnit, fee: i64) -> (r: Page)
        ensures
            r@ == (PageV { id, site, data_hashes: data.hashes@, data_length: data.length, fee }),
    {
        Page { id, site, data_hashes: copy_hashes(&data.hashes), data_length: data.length, fee }
    }

    /// The hosting price of the page's content, in units.
    pub fn cost(&self) -> (r: i64)
        ensures
            r == cost_spec(self.data_length),
    {
        let len = self.data_length as u64;
        assert(len * 1000000 <= 4294967295 * 1000000) by (nonlinear_arith)
            requires
                len <= 4294967295,
        ;
        let c: u64 = len * (COIN as u64) / (PAGE_CHUNK_SIZE as u64);
        c as i64
    }

    /// Whether `data` holds exactly the chunks that the page names.
    pub fn is_data_valid(&self, data: &DataUnit) -> (r: bool)
        ensures
            r == (data.hashes@.len() == self.data_hashes@.len() && forall|i: int|
                0 <= i < data.hashes@.len() ==> data.hashes@[i]@ == self.data_hashes@[i]@),
    {
        hashes_eq(&data.hashes, &self.data_hashes)
    }

    /// Checks that the page is paid in full by exactly one input of its site
    /// and that it names as many hashes as its content has chunks.
    pub fn validate(&self, inputs: &Vec<Input>) -> (r: TransactionValidationResult)
        ensures
            r == page_validate_spec(self@, inputs@),
    {
        if self.fee < 0 {
            return TransactionValidationResult::Negative;
        }
        let mut total: i128 = 0;
        let mut owned: usize = 0;
        let mut i: usize = 0;
        while i < inputs.len()
            invariant
                0 <= i <= inputs@.len(),
                total == input_total(inputs@.take(i as int)),
                owned == inputs_of(inputs@.take(i as int), self.site@),
                -(i as int) * 0x8000_0000_0000_0000 <= total <= (i as int) * 0x8000_0000_0000_0000,
                owned <= i,
            decreases inputs@.len() - i,
        {
            let x = inputs[i];
            assert(inputs@.take(i + 1).drop_last() =~= inputs@.take(i as int));
            total = total + x.amount as i128;
            if hash_eq(&x.address, &self.site) {
                owned = owned + 1;
            }
            i = i + 1;
        }
        assert(inputs@.take(inputs@.len() as int) =~= inputs@);
        if owned != 1 {
            return TransactionValidationResult::Unbalanced;
        }
        if total != self.cost() as i128 + self.fee as i128 {
            return TransactionValidationResult::Unbalanced;
        }
        let expected: u64 = ((self.data_length as u64) + (PAGE_CHUNK_SIZE as u64) - 1) / (
        PAGE_CHUNK_SIZE as u64);
        if self.data_hashes.len() as u64 != expected {
            return TransactionValidationResult::WrongHashCount;
        }
        TransactionValidationResult::Valid
    }

    /// Folds this page into the status of `addr`.
    pub fn update_wallet_status(&self, addr: &Hash256, status: WalletStatus, is_block_winner: bool)
        -> (r: Option<WalletStatus>)
        ensures
            r == page_update_spec(self@, addr@, status, is_block_winner),
    {
        let is_sender = hash_eq(&self.site, addr);
        if is_sender && self.id <= status.max_id {
            return None;
        }
        let mut delta: i128 = 0;
        if is_sender {
            delta = delta - (self.cost() as i128 + self.fee as i128);
        }
        if is_block_winner {
            delta = delta + self.fee as i128;
        }
        let moved = WalletStatus {
            balance: status.balance,
            max_id: if is_sender { self.id } else { status.max_id },
        };
        add_to_balance(moved, delta)
    }
}

} // verus!
