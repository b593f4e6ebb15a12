//! The chain store: branches that share a prefix, the longest of which is
//! the canonical chain.
use vstd::prelude::*;
use crate::block::{
    be_value, block_eq, current_timestamp, enc_block, enc_pages, enc_transactions, fits_block_size,
    zero_hash, Block, BlockV,
};
use crate::target::{calculate_target, genesis_target};
use crate::error::Error;
use crate::validate::{
    block_views, check_signatures, checked_result, signature_error, validate_rules_on, expected_target, first_error, prev_link_ok, sample_spec, sample_through, valid_chain, valid_next, validate_on,
    validation_result, wallet_status_spec, wallet_status_through,
};
use crate::config::{Hash256, PRUNE_DEPTH};
use crate::wallet::{WalletStatus, WalletValidationResult};

verus! {

/// The base-62 digit for `d`: `0`-`9`, then `A`-`Z`, then `a`-`z`.
pub open spec fn base62_char(d: nat) -> char {
    if d < 10 {
        (d + 48) as char
    } else if d < 36 {
        (d + 55) as char
    } else {
        (d + 61) as char
    }
}

/// The base-62 digits of `n`, least significant first; none for zero.
pub open spec fn base62_digits(n: nat) -> Seq<char>
    decreases n,
{
    if n == 0 {
        Seq::empty()
    } else {
        seq![base62_char(n % 62)] + base62_digits(n / 62)
    }
}

/// Bytes in base 62: the digits of the bytes read as a big-endian integer
/// behind a leading `1` byte; nothing for no bytes.
pub open spec fn base62_of(bytes: Seq<u8>) -> Seq<char> {
    if bytes.len() == 0 {
        Seq::empty()
    } else {
        base62_digits(be_value(seq![1u8] + bytes))
    }
}

/// Relies on base_62::encode: the base-62 digits, least significant first,
/// of the bytes behind a leading `1` byte.
#[verifier::external_body]
fn base62_encode(bytes: &[u8]) -> (r: String)
    ensures
        r@ == base62_of(bytes@),
{
    base_62::encode(bytes)
}

/// Relies on rand::thread_rng and rand::RngCore::fill_bytes: five random
/// bytes, of which nothing is known.
#[verifier::external_body]
fn random_branch_id() -> (r: [u8; 5]) {
    let mut id = [0u8; 5];
    rand::RngCore::fill_bytes(&mut rand::thread_rng(), &mut id);
    id
}

/// One linear chain of blocks, from the genesis block on.
pub struct BlockChainBranch {
    pub name: String,
    pub blocks: Vec<Block>,
}

impl BlockChainBranch {
    /// The values of the branch's blocks.
    pub open spec fn chain(&self) -> Seq<BlockV> {
        block_views(self.blocks@)
    }

    /// Every block follows the rules as the successor of those before it.
    pub open spec fn wf(&self) -> bool {
        valid_chain(self.chain())
    }

    /// An empty branch.
    pub fn new(name: String) -> (r: BlockChainBranch)
        ensures
            r.wf(),
            r.name == name,
            r.chain().len() == 0,
    {
        let r = BlockChainBranch { name, blocks: Vec::new() };
        assert(r.chain().len() == 0);
        reveal(valid_chain);
        r
    }

    /// The number of blocks in the branch.
    pub fn len(&self) -> (r: usize)
        ensures
            r == self.chain().len(),
    {
        self.blocks.len()
    }

    /// The id of the highest block, if any.
    pub fn top_index(&self) -> (r: Option<u64>)
        requires
            self.wf(),
        ensures
            r == (if self.chain().len() == 0 {
                None::<u64>
            } else {
                Some(self.chain().last().block_id)
            }),
    {
        if self.blocks.len() == 0 {
            None
        } else {
            Some(self.blocks[self.blocks.len() - 1].block_id)
        }
    }

    /// A copy of the highest block, if any.
    pub fn top(&self) -> (r: Option<Block>)
        ensures
            self.chain().len() == 0 ==> r is None,
            self.chain().len() > 0 ==> r is Some && r->0@ == self.chain().last(),
    {
        if self.blocks.len() == 0 {
            None
        } else {
            Some(self.blocks[self.blocks.len() - 1].duplicate())
        }
    }

    /// A copy of the block with the given id, if the branch holds it.
    pub fn block(&self, id: u64) -> (r: Option<Block>)
        ensures
            id >= self.chain().len() ==> r is None,
            id < self.chain().len() ==> r is Some && r->0@ == self.chain()[id as int],
    {
        if id >= self.blocks.len() as u64 {
            None
        } else {
            Some(self.blocks[id as usize].duplicate())
        }
    }

    /// The timestamps that bound the sampling window at the top.
    pub fn take_sample(&self) -> (r: (Option<u128>, Option<u128>))
        ensures
            r == sample_spec(self.chain()),
    {
        let r = sample_through(&self.blocks, self.blocks.len());
        assert(self.chain().take(self.blocks@.len() as int) =~= self.chain());
        r
    }

    /// The status of `addr` after every block of the branch.
    pub fn wallet_status(&self, addr: &Hash256) -> (r: Option<WalletStatus>)
        ensures
            r == wallet_status_spec(self.chain(), addr@),
    {
        let r = wallet_status_through(&self.blocks, self.blocks.len(), addr);
        assert(self.chain().take(self.blocks@.len() as int) =~= self.chain());
        r
    }

    /// Appends the block where it follows the rules; leaves the branch as
    /// it is otherwise.
    pub fn add(&mut self, block: &Block, checks: &Vec<WalletValidationResult>) -> (r: Result<
        (),
        Error,
    >)
        requires
            old(self).wf(),
        ensures
            final(self).wf(),
            final(self).name == old(self).name,
            r == checked_result(old(self).chain(), block@, checks@),
            r is Ok ==> final(self).chain() == old(self).chain().push(block@),
            r is Err ==> *final(self) == *old(self),
    {
        let r = validate_on(&self.blocks, self.blocks.len(), block, checks);
        assert(self.chain().take(self.blocks@.len() as int) =~= self.chain());
        if r.is_err() {
            return r;
        }
        let ghost before = self.chain();
        self.blocks.push(block.duplicate());
        assert(self.chain() =~= before.push(block@));
        proof {
            lemma_valid_chain_push(before, block@);
        }
        r
    }
}

/// A valid chain stays valid with a valid successor.
pub proof fn lemma_valid_chain_push(s: Seq<BlockV>, b: BlockV)
    requires
        valid_chain(s),
        valid_next(s, b),
    ensures
        valid_chain(s.push(b)),
{
    reveal(valid_chain);
    assert forall|i: int| 0 <= i < s.push(b).len() implies valid_next(
        #[trigger] s.push(b).take(i),
        s.push(b)[i],
    ) by {
        if i < s.len() {
            assert(s.push(b).take(i) =~= s.take(i));
        } else {
            assert(s.push(b).take(i) =~= s);
        }
    }
}

/// Every prefix of a valid chain is valid.
pub proof fn lemma_valid_chain_take(s: Seq<BlockV>, k: int)
    requires
        valid_chain(s),
        0 <= k <= s.len(),
    ensures
        valid_chain(s.take(k)),
{
    reveal(valid_chain);
    assert forall|i: int| 0 <= i < s.take(k).len() implies valid_next(
        #[trigger] s.take(k).take(i),
        s.take(k)[i],
    ) by {
        assert(s.take(k).take(i) =~= s.take(i));
    }
}

/// Whether branch `i` is the longest: none is longer, and every branch
/// before it is shorter (the first of equals wins).
pub open spec fn is_longest(s: Seq<BlockChainBranch>, i: int) -> bool {
    &&& 0 <= i < s.len()
    &&& forall|j: int| 0 <= j < s.len() ==> s[j].chain().len() <= s[i].chain().len()
    &&& forall|j: int| 0 <= j < i ==> s[j].chain().len() < s[i].chain().len()
}

/// The index of the longest branch.
pub open spec fn longest_spec(s: Seq<BlockChainBranch>) -> int {
    choose|i: int| is_longest(s, i)
}

/// Only one branch is the longest.
pub proof fn lemma_longest_unique(s: Seq<BlockChainBranch>, i: int)
    requires
        is_longest(s, i),
    ensures
        longest_spec(s) == i,
{
    let k = longest_spec(s);
    assert(is_longest(s, k));
    if k < i {
        assert(s[k].chain().len() < s[i].chain().len());
    } else if i < k {
        assert(s[i].chain().len() < s[k].chain().len());
    }
}

/// Whether the block can be appended to the branch.
pub open spec fn can_append(br: BlockChainBranch, b: BlockV) -> bool {
    br.chain().len() == b.block_id && valid_next(br.chain(), b)
}

/// Whether the branch already holds the block, or the block may replace
/// the branch's block at its height.
pub open spec fn forks_from(br: BlockChainBranch, b: BlockV) -> bool {
    b.block_id < br.chain().len() && (br.chain()[b.block_id as int] == b || valid_next(
        br.chain().take(b.block_id as int),
        b,
    ))
}

/// Whether `i` is the first branch that can take the block.
pub open spec fn first_appendable(s: Seq<BlockChainBranch>, b: BlockV, i: int) -> bool {
    0 <= i < s.len() && can_append(s[i], b) && forall|j: int| 0 <= j < i ==> !can_append(s[j], b)
}

/// Whether `i` is the first branch from which the block forks.
pub open spec fn first_fork(s: Seq<BlockChainBranch>, b: BlockV, i: int) -> bool {
    0 <= i < s.len() && forks_from(s[i], b) && forall|j: int| 0 <= j < i ==> !forks_from(s[j], b)
}

/// Every old branch is still there, under its name, with its blocks as a
/// prefix; and some branch ends with the block.
pub open spec fn kept_and_topped(
    before: Seq<BlockChainBranch>,
    after: Seq<BlockChainBranch>,
    b: BlockV,
) -> bool {
    &&& after.len() >= before.len()
    &&& forall|j: int|
        0 <= j < before.len() ==> (#[trigger] after[j]).name == before[j].name && after[j].chain().take(
            before[j].chain().len() as int,
        ) == before[j].chain()
    &&& exists|i: int| 0 <= i < after.len() && after[i].chain().len() > 0 && after[i].chain().last() == b
}

/// Whether a branch survives pruning when the longest has `longest` blocks.
pub open spec fn survives_prune(br: BlockChainBranch, longest: nat) -> bool {
    !(longest > PRUNE_DEPTH + 1 && br.chain().len() + PRUNE_DEPTH < longest)
}

/// The branches that survive pruning, in order.
pub open spec fn pruned(s: Seq<BlockChainBranch>, longest: nat) -> Seq<BlockChainBranch>
    decreases s.len(),
{
    if s.len() == 0 {
        s
    } else if survives_prune(s.last(), longest) {
        pruned(s.drop_last(), longest).push(s.last())
    } else {
        pruned(s.drop_last(), longest)
    }
}

/// The names of the branches that pruning removes, in order.
pub open spec fn pruned_names(s: Seq<BlockChainBranch>, longest: nat) -> Seq<Seq<char>>
    decreases s.len(),
{
    if s.len() == 0 {
        Seq::empty()
    } else if survives_prune(s.last(), longest) {
        pruned_names(s.drop_last(), longest)
    } else {
        pruned_names(s.drop_last(), longest).push(s.last().name@)
    }
}

proof fn lemma_pruned_members(s: Seq<BlockChainBranch>, longest: nat)
    ensures
        forall|k: int|
            0 <= k < pruned(s, longest).len() ==> exists|j: int|
                0 <= j < s.len() && s[j] == #[trigger] pruned(s, longest)[k],
        (exists|j: int| 0 <= j < s.len() && survives_prune(s[j], longest)) ==> pruned(
            s,
            longest,
        ).len() >= 1,
    decreases s.len(),
{
    if s.len() > 0 {
        lemma_pruned_members(s.drop_last(), longest);
        assert forall|k: int| 0 <= k < pruned(s, longest).len() implies exists|j: int|
            0 <= j < s.len() && s[j] == #[trigger] pruned(s, longest)[k] by {
            if k < pruned(s.drop_last(), longest).len() {
                let j = choose|j: int|
                    0 <= j < s.drop_last().len() && s.drop_last()[j] == pruned(
                        s.drop_last(),
                        longest,
                    )[k];
                assert(s[j] == pruned(s, longest)[k]);
            } else {
                assert(s[s.len() - 1] == pruned(s, longest)[k]);
            }
        }
        if exists|j: int| 0 <= j < s.len() && survives_prune(s[j], longest) {
            let j = choose|j: int| 0 <= j < s.len() && survives_prune(s[j], longest);
            if j < s.len() - 1 {
                assert(s.drop_last()[j] == s[j]);
            }
        }
    }
}

/// What adding a block does to the branches, for each outcome.
pub open spec fn add_outcome(
    before: Seq<BlockChainBranch>,
    after: Seq<BlockChainBranch>,
    b: BlockV,
    r: Result<(), Error>,
) -> bool {
    &&& (forall|i: int|
                first_appendable(before, b, i) ==> {
                    &&& r is Ok
                    &&& after.len() == before.len()
                    &&& after[i].chain() == before[i].chain().push(
                        b,
                    )
                    &&& after[i].name == before[i].name
                    &&& forall|j: int|
                        0 <= j < before.len() && j != i ==> after[j]
                            == before[j]
                })
    &&& ((forall|i: int|
                0 <= i < before.len() ==> !can_append(
                    #[trigger] before[i],
                    b,
                )) ==> forall|i: int|
                first_fork(before, b, i) ==> {
                    if before[i].chain()[b.block_id as int] == b {
                        &&& r == Err::<(), Error>(Error::DuplicateBlock)
                        &&& after == before
                    } else if r is Ok {
                        &&& after.len() == before.len() + 1
                        &&& forall|j: int|
                            0 <= j < before.len() ==> after[j]
                                == before[j]
                        &&& after.last().chain() == before[i].chain().take(b.block_id as int).push(b)
                        &&& forall|j: int| 0 <= j < before.len() ==> after.last().name@ != before[j].name@
                    } else {
                        &&& r == Err::<(), Error>(Error::BranchNameTaken)
                        &&& after == before
                    }
                })
    &&& ((forall|i: int|
                0 <= i < before.len() ==> !can_append(
                    #[trigger] before[i],
                    b,
                ) && !forks_from(before[i], b)) ==> r == Err::<(), Error>(Error::NoValidBranches)
        && after == before)
    &&& (r is Ok ==> kept_and_topped(before, after, b))
    &&& (r is Err ==> after == before)
}

/// What adding a block does, given the outcomes of checking its transfers'
/// signatures: a refused signature refuses the block and changes nothing.
pub open spec fn signed_add_outcome(
    before: Seq<BlockChainBranch>,
    after: Seq<BlockChainBranch>,
    b: BlockV,
    checks: Seq<WalletValidationResult>,
    r: Result<(), Error>,
) -> bool {
    match signature_error(b, checks) {
        Some(e) => r == Err::<(), Error>(e) && after == before,
        None => add_outcome(before, after, b, r),
    }
}

/// The store: one or more branches.
pub struct BlockChain {
    pub branches: Vec<BlockChainBranch>,
}

impl BlockChain {
    /// At least one branch, each of them valid.
    pub open spec fn wf(&self) -> bool {
        &&& self.branches@.len() >= 1
        &&& forall|i: int| 0 <= i < self.branches@.len() ==> (#[trigger] self.branches@[i]).wf()
    }

    /// The blocks of the longest branch.
    pub open spec fn longest_chain(&self) -> Seq<BlockV> {
        self.branches@[longest_spec(self.branches@)].chain()
    }

    /// A name for a new branch: five random bytes in base 62, drawn again
    /// while an existing branch has the name.
    pub fn generate_new_branch_name(&self) -> (r: Option<String>)
        ensures
            r matches Some(name) ==> (exists|id: Seq<u8>| id.len() == 5 && name@ == base62_of(id))
                && forall|i: int| 0 <= i < self.branches@.len() ==> self.branches@[i].name@ != name@,
            self.branches@.len() == 0 ==> r is Some,
    {
        let mut tries: usize = 0;
        while tries < 16
            invariant
                tries <= 16,
                self.branches@.len() == 0 ==> tries == 0,
            decreases 16 - tries,
        {
            let id = random_branch_id();
            let name = base62_encode(id.as_slice());
            tries = tries + 1;
            if !self.has_branch_named(&name) {
                assert(id@.len() == 5);
                return Some(name);
            }
        }
        None
    }

    /// Whether a branch has the given name.
    pub fn has_branch_named(&self, name: &String) -> (r: bool)
        ensures
            r == exists|i: int| 0 <= i < self.branches@.len() && self.branches@[i].name@ == name@,
    {
        let mut i: usize = 0;
        while i < self.branches.len()
            invariant
                0 <= i <= self.branches@.len(),
                forall|k: int| 0 <= k < i ==> self.branches@[k].name@ != name@,
            decreases self.branches@.len() - i,
        {
            if self.branches[i].name == *name {
                return true;
            }
            i = i + 1;
        }
        false
    }

    /// A store over the given branches; a store with one empty branch where
    /// none is given.
    pub fn new(branches: Vec<BlockChainBranch>) -> (r: BlockChain)
        requires
            forall|i: int| 0 <= i < branches@.len() ==> (#[trigger] branches@[i]).wf(),
        ensures
            r.wf(),
            branches@.len() > 0 ==> r.branches@ == branches@,
            branches@.len() == 0 ==> r.branches@.len() == 1 && r.branches@[0].chain().len() == 0,
    {
        let mut chain = BlockChain { branches };
        if chain.branches.len() == 0 {
            match chain.generate_new_branch_name() {
                Some(name) => chain.branches.push(BlockChainBranch::new(name)),
                None => {},
            }
        }
        chain
    }

    /// The index of the longest branch.
    pub fn longest_index(&self) -> (r: usize)
        requires
            self.wf(),
        ensures
            is_longest(self.branches@, r as int),
            r as int == longest_spec(self.branches@),
    {
        let mut best: usize = 0;
        let mut i: usize = 1;
        while i < self.branches.len()
            invariant
                1 <= i <= self.branches@.len(),
                0 <= best < i,
                forall|j: int| 0 <= j < i ==> self.branches@[j].chain().len()
                    <= self.branches@[best as int].chain().len(),
                forall|j: int| 0 <= j < best ==> self.branches@[j].chain().len()
                    < self.branches@[best as int].chain().len(),
            decreases self.branches@.len() - i,
        {
            if self.branches[i].len() > self.branches[best].len() {
                best = i;
            }
            i = i + 1;
        }
        proof {
            lemma_longest_unique(self.branches@, best as int);
        }
        best
    }

    /// The longest branch: the one with the most blocks, the first of equals.
    pub fn longest_branch(&self) -> (r: &BlockChainBranch)
        requires
            self.wf(),
        ensures
            *r == self.branches@[longest_spec(self.branches@)],
    {
        let i = self.longest_index();
        &self.branches[i]
    }

    /// A copy of the highest block of the longest branch.
    pub fn top(&self) -> (r: Option<Block>)
        requires
            self.wf(),
        ensures
            self.longest_chain().len() == 0 ==> r is None,
            self.longest_chain().len() > 0 ==> r is Some && r->0@ == self.longest_chain().last(),
    {
        self.longest_branch().top()
    }

    /// The id of the highest block of the longest branch; 0 where there is
    /// none.
    pub fn top_id(&self) -> (r: u64)
        requires
            self.wf(),
        ensures
            r == (if self.longest_chain().len() == 0 {
                0
            } else {
                self.longest_chain().last().block_id
            }),
    {
        match self.top() {
            Some(top) => top.block_id,
            None => 0,
        }
    }

    /// A copy of the block with the given id on the longest branch.
    pub fn block(&self, id: u64) -> (r: Option<Block>)
        requires
            self.wf(),
        ensures
            id >= self.longest_chain().len() ==> r is None,
            id < self.longest_chain().len() ==> r is Some && r->0@ == self.longest_chain()[id as int],
    {
        self.longest_branch().block(id)
    }

    /// The timestamps that bound the sampling window of the longest branch.
    pub fn take_sample(&self) -> (r: (Option<u128>, Option<u128>))
        requires
            self.wf(),
        ensures
            r == sample_spec(self.longest_chain()),
    {
        self.longest_branch().take_sample()
    }

    /// The status of `addr` after every block of the longest branch.
    pub fn wallet_status(&self, addr: &Hash256) -> (r: Option<WalletStatus>)
        requires
            self.wf(),
        ensures
            r == wallet_status_spec(self.longest_chain(), addr@),
    {
        self.longest_branch().wallet_status(addr)
    }

    /// A new branch that takes the first `id` blocks of branch `from` and
    /// then the block.
    fn branch(&mut self, from: usize, block: &Block, name: String)
        requires
            old(self).wf(),
            forall|i: int|
                0 <= i < old(self).branches@.len() ==> old(self).branches@[i].name@ != name@,
            from < old(self).branches@.len(),
            block@.block_id < old(self).branches@[from as int].chain().len(),
            valid_next(
                old(self).branches@[from as int].chain().take(block@.block_id as int),
                block@,
            ),
        ensures
            final(self).wf(),
            final(self).branches@.len() == old(self).branches@.len() + 1,
            forall|j: int|
                0 <= j < old(self).branches@.len() ==> final(self).branches@[j]
                    == old(self).branches@[j],
            final(self).branches@.last().chain() == old(self).branches@[from as int].chain().take(
                block@.block_id as int,
            ).push(block@),
            final(self).branches@.last().name == name,
    {
        assert(self.branches@[from as int].chain().len() == self.branches@[from as int].blocks@.len());
        let plen: usize = self.branches[from].blocks.len();
        assert(block.block_id < plen);
        let id = block.block_id as usize;
        let ghost parent = self.branches@[from as int].chain();
        let mut blocks: Vec<Block> = Vec::new();
        let mut k: usize = 0;
        while k < id
            invariant
                0 <= k <= id,
                id < parent.len(),
                from < self.branches@.len(),
                parent == self.branches@[from as int].chain(),
                block_views(blocks@) == parent.take(k as int),
            decreases id - k,
        {
            let b = self.branches[from].blocks[k].duplicate();
            assert(parent[k as int] == self.branches@[from as int].blocks@[k as int]@);
            let ghost old_blocks = blocks@;
            blocks.push(b);
            assert(block_views(blocks@) =~= block_views(old_blocks).push(b@));
            assert(parent.take(k + 1) =~= parent.take(k as int).push(parent[k as int]));
            k = k + 1;
        }
        let ghost prefix = block_views(blocks@);
        assert(id as int == block@.block_id as int);
        assert(prefix == parent.take(block@.block_id as int));
        blocks.push(block.duplicate());
        assert(block_views(blocks@) =~= prefix.push(block@));
        proof {
            assert(self.branches@[from as int].wf());
            lemma_valid_chain_take(parent, id as int);
            lemma_valid_chain_push(prefix, block@);
        }
        self.branches.push(BlockChainBranch { name, blocks });
    }

    /// Adds a block: to the first branch it extends; else, unless a branch
    /// already holds it, as a new branch forked from the first branch whose
    /// history it fits.
    pub fn add(&mut self, block: &Block, checks: &Vec<WalletValidationResult>) -> (r: Result<
        (),
        Error,
    >)
        requires
            old(self).wf(),
        ensures
            final(self).wf(),
            signed_add_outcome(old(self).branches@, final(self).branches@, block@, checks@, r),
    {
        match check_signatures(block, checks) {
            Some(e) => {
                return Err(e);
            },
            None => {},
        }
        let n = self.branches.len();
        let mut i: usize = 0;
        while i < n
            invariant
                n == self.branches@.len(),
                self.branches@ == old(self).branches@,
                self.wf(),
                signature_error(block@, checks@) is None,
                0 <= i <= n,
                forall|j: int| 0 <= j < i ==> !can_append(#[trigger] old(self).branches@[j], block@),
            decreases n - i,
        {
            if self.branches[i].len() as u64 == block.block_id {
                let ghost before = self.branches@;
                assert(self.branches@[i as int].wf());
                let res = self.branches[i].add(block, checks);
                if res.is_ok() {
                    assert forall|j: int|
                        0 <= j < self.branches@.len() implies (#[trigger] self.branches@[j]).wf() by {
                        if j != i {
                            assert(self.branches@[j] == before[j]);
                        }
                    }
                    assert(first_appendable(old(self).branches@, block@, i as int));
                    assert(old(self).branches@[i as int].chain().push(block@).take(
                        old(self).branches@[i as int].chain().len() as int,
                    ) =~= old(self).branches@[i as int].chain());
                    assert(self.branches@[i as int].chain().last() == block@);
                    assert forall|j: int| 0 <= j < old(self).branches@.len() implies (
                    #[trigger] self.branches@[j]).name == old(self).branches@[j].name
                        && self.branches@[j].chain().take(
                        old(self).branches@[j].chain().len() as int,
                    ) == old(self).branches@[j].chain() by {
                        if j != i {
                            assert(self.branches@[j] == before[j]);
                            assert(self.branches@[j].chain().take(
                                old(self).branches@[j].chain().len() as int,
                            ) =~= old(self).branches@[j].chain());
                        }
                    }
                    proof {
                        assert forall|k: int|
                            first_appendable(old(self).branches@, block@, k) implies k == i by {
                            if k < i {
                            } else if k > i {
                                assert(can_append(old(self).branches@[i as int], block@));
                            }
                        }
                    }
                    return res;
                }
            }
            i = i + 1;
        }
        let mut fork: Option<usize> = None;
        let mut k: usize = 0;
        while k < n
            invariant
                n == self.branches@.len(),
                self.branches@ == old(self).branches@,
                self.wf(),
                signature_error(block@, checks@) is None,
                0 <= k <= n,
                forall|j: int| 0 <= j < n ==> !can_append(#[trigger] old(self).branches@[j], block@),
                fork is None ==> forall|j: int|
                    0 <= j < k ==> !forks_from(#[trigger] old(self).branches@[j], block@),
                fork is Some ==> first_fork(old(self).branches@, block@, fork->0 as int)
                    && old(self).branches@[fork->0 as int].chain()[block@.block_id as int] != block@,
                fork is Some ==> k == n,
            decreases n - k,
        {
            let id = block.block_id;
            if id < self.branches[k].len() as u64 {
                let br = &self.branches[k];
                assert(br.chain()[id as int] == br.blocks@[id as int]@);
                if block_eq(&br.blocks[id as usize], block) {
                    assert(first_fork(old(self).branches@, block@, k as int));
                    proof {
                        assert forall|m: int| first_fork(old(self).branches@, block@, m) implies m
                            == k by {
                            if m > k {
                                assert(forks_from(old(self).branches@[k as int], block@));
                            }
                        }
                    }
                    return Err(Error::DuplicateBlock);
                }
                if validate_rules_on(&br.blocks, id as usize, block).is_ok() {
                    assert(forks_from(old(self).branches@[k as int], block@));
                    fork = Some(k);
                    k = n;
                } else {
                    k = k + 1;
                }
            } else {
                k = k + 1;
            }
        }
        match fork {
            None => Err(Error::NoValidBranches),
            Some(from) => {
                proof {
                    assert forall|m: int| first_fork(old(self).branches@, block@, m) implies m
                        == from by {
                        if m > from {
                            assert(forks_from(old(self).branches@[from as int], block@));
                        }
                    }
                }
                let name = match self.generate_new_branch_name() {
                    Some(name) => name,
                    None => {
                        return Err(Error::BranchNameTaken);
                    },
                };
                self.branch(from, block, name);
                proof {
                    assert forall|j: int| 0 <= j < old(self).branches@.len() implies (
                    #[trigger] self.branches@[j]).chain().take(
                        old(self).branches@[j].chain().len() as int,
                    ) == old(self).branches@[j].chain() by {
                        assert(self.branches@[j].chain().take(
                            old(self).branches@[j].chain().len() as int,
                        ) =~= old(self).branches@[j].chain());
                    }
                    let last = self.branches@.len() - 1;
                    assert(self.branches@[last].chain().last() == block@);
                }
                Ok(())
            },
        }
    }

    /// Appends the block to the longest branch where it follows that
    /// branch's rules; leaves the store as it is otherwise.
    pub fn append_to_longest(&mut self, block: &Block, checks: &Vec<WalletValidationResult>) -> (r:
        Result<(), Error>)
        requires
            old(self).wf(),
        ensures
            final(self).wf(),
            r == checked_result(old(self).longest_chain(), block@, checks@),
            r is Ok ==> final(self).longest_chain() == old(self).longest_chain().push(block@),
            r is Ok ==> final(self).branches@.len() == old(self).branches@.len() && forall|j: int|
                0 <= j < old(self).branches@.len() && j != longest_spec(old(self).branches@)
                    ==> final(self).branches@[j] == old(self).branches@[j],
            r is Err ==> final(self).branches@ == old(self).branches@,
    {
        let i = self.longest_index();
        let ghost before = self.branches@;
        assert(self.branches@[i as int].wf());
        let res = self.branches[i].add(block, checks);
        if res.is_ok() {
            proof {
                assert forall|j: int| 0 <= j < self.branches@.len() implies (
                #[trigger] self.branches@[j]).wf() by {
                    if j != i {
                        assert(self.branches@[j] == before[j]);
                    }
                }
                assert forall|j: int| 0 <= j < self.branches@.len() && j != i implies (
                #[trigger] self.branches@[j]) == before[j] by {}
                assert(is_longest(self.branches@, i as int)) by {
                    assert forall|j: int| 0 <= j < self.branches@.len() implies self.branches@[j].chain().len()
                        <= self.branches@[i as int].chain().len() by {
                        if j != i {
                            assert(self.branches@[j] == before[j]);
                        }
                    }
                    assert forall|j: int| 0 <= j < i implies self.branches@[j].chain().len()
                        < self.branches@[i as int].chain().len() by {
                        assert(self.branches@[j] == before[j]);
                    }
                }
                lemma_longest_unique(self.branches@, i as int);
            }
        } else {
            assert(self.branches@ =~= before);
        }
        res
    }

    /// Drops every branch more than the prune depth behind the longest and
    /// returns the names of the dropped branches.
    pub fn prune_branches(&mut self) -> (r: Vec<String>)
        requires
            old(self).wf(),
        ensures
            final(self).wf(),
            final(self).branches@ == pruned(old(self).branches@, old(self).longest_chain().len()),
            r@.map_values(|s: String| s@) == pruned_names(
                old(self).branches@,
                old(self).longest_chain().len(),
            ),
    {
        let longest = self.longest_index();
        let top = self.branches[longest].len();
        let ghost l = old(self).longest_chain().len();
        let ghost all = old(self).branches@;
        let n = self.branches.len();
        let mut removed: Vec<String> = Vec::new();
        let mut i: usize = 0;
        let mut c: usize = 0;
        assert(all.take(0) =~= Seq::<BlockChainBranch>::empty());
        assert(all.skip(0) =~= all);
        while i < n
            invariant
                n == all.len(),
                0 <= i <= n,
                top == l,
                l == all[longest as int].chain().len(),
                is_longest(all, longest as int),
                forall|j: int| 0 <= j < n ==> (#[trigger] all[j]).wf(),
                c == pruned(all.take(i as int), l).len(),
                c <= i,
                self.branches@ == pruned(all.take(i as int), l) + all.skip(i as int),
                removed@.map_values(|s: String| s@) == pruned_names(all.take(i as int), l),
            decreases n - i,
        {
            assert(all.take(i + 1).drop_last() =~= all.take(i as int));
            assert(self.branches@[c as int] == all[i as int]);
            let len = self.branches[c].len();
            let keep = !(top > (PRUNE_DEPTH as usize) + 1 && len < top - (PRUNE_DEPTH as usize));
            assert(keep == survives_prune(all[i as int], l));
            let ghost before = self.branches@;
            if keep {
                c = c + 1;
                assert(self.branches@ =~= pruned(all.take(i + 1), l) + all.skip(i + 1));
            } else {
                let gone = self.branches.remove(c);
                let ghost names = removed@;
                removed.push(gone.name);
                assert(removed@.map_values(|s: String| s@) =~= names.map_values(|s: String| s@).push(
                    all[i as int].name@,
                ));
                assert(self.branches@ =~= pruned(all.take(i + 1), l) + all.skip(i + 1));
            }
            i = i + 1;
        }
        proof {
            assert(all.take(n as int) =~= all);
            assert(all.skip(n as int) =~= Seq::<BlockChainBranch>::empty());
            assert(self.branches@ =~= pruned(all, l));
            lemma_pruned_members(all, l);
            assert(survives_prune(all[longest as int], l));
            assert forall|k: int| 0 <= k < self.branches@.len() implies (
            #[trigger] self.branches@[k]).wf() by {
                let j = choose|j: int| 0 <= j < all.len() && all[j] == pruned(all, l)[k];
            }
        }
        removed
    }
}

/// In a valid chain every block's id is its position.
pub proof fn lemma_valid_chain_ids(s: Seq<BlockV>)
    requires
        valid_chain(s),
    ensures
        forall|i: int| 0 <= i < s.len() ==> (#[trigger] s[i]).block_id == i,
{
    reveal(valid_chain);
    assert forall|i: int| 0 <= i < s.len() implies (#[trigger] s[i]).block_id == i by {
        assert(valid_next(s.take(i), s[i]));
        reveal(first_error);
    }
}

/// Every block of a valid chain fits the block-size cap.
pub proof fn lemma_valid_chain_fits(s: Seq<BlockV>, i: int)
    requires
        valid_chain(s),
        0 <= i < s.len(),
    ensures
        fits_block_size(s[i]),
{
    reveal(valid_chain);
    assert(valid_next(s.take(i), s[i]));
    reveal(first_error);
}

/// A block with no pages and no transfers fits the block-size cap.
pub proof fn lemma_empty_block_fits(b: BlockV)
    requires
        b.pages.len() == 0,
        b.transactions.len() == 0,
    ensures
        fits_block_size(b),
{
    assert(enc_pages(b.pages) =~= Seq::<u8>::empty());
    assert(enc_transactions(b.transactions) =~= Seq::<u8>::empty());
    assert(enc_block(b).len() == 144);
}

impl Block {
    /// A candidate that extends the longest branch: no transactions, the
    /// current time, the target that the branch asks for, nonce zero.
    pub fn new(chain: &BlockChain, reward_to: Hash256) -> (r: Result<Block, Error>)
        requires
            chain.wf(),
        ensures
            r is Ok,
            match r {
                Ok(b) => {
                    let l = chain.longest_chain();
                    &&& b@.block_id == l.len()
                    &&& prev_link_ok(l, b@)
                    &&& b@.reward_to == reward_to
                    &&& b@.pages.len() == 0
                    &&& b@.transactions.len() == 0
                    &&& be_value(b@.target@) == expected_target(l)
                    &&& b@.pow == 0
                    &&& fits_block_size(b@)
                },
                Err(_) => false,
            },
    {
        let i = chain.longest_index();
        let br = &chain.branches[i];
        proof {
            assert(chain.branches@[i as int].wf());
            lemma_valid_chain_ids(br.chain());
        }
        let (sample_start, sample_end) = br.take_sample();
        let n = br.blocks.len();
        let (prev_hash, prev_target) = if n == 0 {
            let z: Hash256 = [0u8; 32];
            assert(z@ =~= zero_hash());
            (z, genesis_target())
        } else {
            let top = &br.blocks[n - 1];
            assert(br.chain().last() == top@);
            proof {
                lemma_valid_chain_fits(br.chain(), n - 1);
            }
            let h = match top.hash() {
                Ok(h) => h,
                Err(e) => {
                    return Err(e);
                },
            };
            (h, top.target)
        };
        let target = calculate_target(&prev_target, sample_start, sample_end);
        let timestamp = current_timestamp();
        let mut b = Block::empty(n as u64, prev_hash, timestamp, target);
        b.reward_to = reward_to;
        assert(b@.pages.len() == 0);
        proof {
            lemma_empty_block_fits(b@);
        }
        Ok(b)
    }
}

} // verus!
