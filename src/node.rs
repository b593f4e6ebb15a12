//! The node: the chain and the pool of pending transactions, and what it
//! does with each packet a peer sends.
use vstd::prelude::*;
use crate::block::{
    be_value, current_timestamp, enc_block, enc_page, enc_pages, fits_block_size, Block, BlockV,
};
use crate::chain::{signed_add_outcome, BlockChain, BlockChainBranch};
use crate::config::{Hash256, MAX_CLOCK_SKEW_MS};
use crate::error::Error;
use crate::network::Packet;
use crate::page::{DataUnit, Page, PageV};
use crate::transaction::{
    sender_spec, validate_content_spec, Transaction, TransactionValidationResult,
};
use crate::validate::{
    expected_target, prev_link_ok, signature_error, valid_next, wallet_status_spec,
};
use crate::wallet::WalletValidationResult;

verus! {

/// A packet the node wants sent.
pub enum Outgoing {
    /// To the connection named.
    Reply(String, Packet),
    /// To every confirmed peer but the connection named.
    Forward(String, Packet),
    /// To every confirmed peer.
    Broadcast(Packet),
}

/// The node's state: its chain and the transactions waiting for a block.
pub struct Node {
    pub chain: BlockChain,
    pub pending: Vec<Transaction>,
    pub pending_pages: Vec<Page>,
}

/// Whether a pending transfer may still go into a block on `blocks`: its
/// sender's status folds and its id is above the sender's highest.
pub open spec fn still_pending(blocks: Seq<BlockV>, t: Transaction) -> bool {
    match wallet_status_spec(blocks, sender_spec(t)) {
        Some(st) => t.header.id > st.max_id,
        None => false,
    }
}

/// The transfers of a list that may still go into a block, in order.
pub open spec fn pending_after(blocks: Seq<BlockV>, s: Seq<Transaction>) -> Seq<Transaction>
    decreases s.len(),
{
    if s.len() == 0 {
        s
    } else if still_pending(blocks, s.last()) {
        pending_after(blocks, s.drop_last()).push(s.last())
    } else {
        pending_after(blocks, s.drop_last())
    }
}

/// Whether `r` sends block `b` back to connection `to`.
pub open spec fn is_block_reply(r: Option<Outgoing>, to: Seq<char>, b: BlockV) -> bool {
    match r {
        Some(Outgoing::Reply(dest, Packet::Block(x))) => dest@ == to && x@ == b,
        _ => false,
    }
}

/// Whether `r` sends block `b` to every peer.
pub open spec fn is_block_broadcast(r: Option<Outgoing>, b: BlockV) -> bool {
    match r {
        Some(Outgoing::Broadcast(Packet::Block(x))) => x@ == b,
        _ => false,
    }
}

/// Whether `r` passes block `b` on to every peer but `origin`.
pub open spec fn is_block_forward(r: Option<Outgoing>, origin: Seq<char>, b: BlockV) -> bool {
    match r {
        Some(Outgoing::Forward(o, Packet::Block(x))) => o@ == origin && x@ == b,
        _ => false,
    }
}

/// Whether `r` passes transfer `t` on to every peer but `origin`.
pub open spec fn is_transfer_forward(r: Option<Outgoing>, origin: Seq<char>, t: Transaction) -> bool {
    match r {
        Some(Outgoing::Forward(o, Packet::Transfer(x))) => o@ == origin && x == t,
        _ => false,
    }
}

/// Whether a timestamp lies no further ahead of `now` than the allowed skew.
pub fn timestamp_acceptable(timestamp: u128, now: u128) -> (r: bool)
    ensures
        r == (timestamp <= now + MAX_CLOCK_SKEW_MS),
{
    timestamp <= now || timestamp - now <= MAX_CLOCK_SKEW_MS
}

/// Adding a page to a block lengthens the block with a transfer added too.
pub proof fn lemma_page_grows(b: BlockV, p: PageV, t: Transaction)
    ensures
        enc_block(BlockV { transactions: b.transactions.push(t), ..b }).len() <= enc_block(
            BlockV { transactions: b.transactions.push(t), pages: b.pages.push(p), ..b },
        ).len(),
{
    assert(b.pages.push(p).drop_last() =~= b.pages);
    assert(enc_pages(b.pages.push(p)) == enc_pages(b.pages) + enc_page(p));
}

/// What receiving a block at time `now` does: a timestamp too far ahead
/// changes nothing; otherwise the branches become the result of adding the
/// block, and the block goes on exactly when the add succeeded and the block
/// tops the longest branch.
pub open spec fn block_taken(
    before: Seq<BlockChainBranch>,
    after: BlockChain,
    from: Seq<char>,
    b: BlockV,
    checks: Seq<WalletValidationResult>,
    now: u128,
    r: Option<Outgoing>,
) -> bool {
    if b.timestamp > now + MAX_CLOCK_SKEW_MS {
        r is None && after.branches@ == before
    } else {
        exists|res: Result<(), Error>|
            {
                &&& signed_add_outcome(before, after.branches@, b, checks, res)
                &&& (r is Some <==> (res is Ok && after.longest_chain().len() > 0
                    && after.longest_chain().last() == b))
                &&& (r is Some ==> is_block_forward(r, from, b))
            }
    }
}

/// What handling a packet does to the node and what it answers.
pub open spec fn handled(
    before: Node,
    after: Node,
    from: Seq<char>,
    packet: Packet,
    signature_check: WalletValidationResult,
    block_checks: Seq<WalletValidationResult>,
    r: Option<Outgoing>,
) -> bool {
    match packet {
        Packet::OnConnected(_) => {
            &&& after.chain.branches@ == before.chain.branches@
            &&& (before.chain.longest_chain().len() == 0 ==> r is None)
            &&& (before.chain.longest_chain().len() > 0 ==> is_block_reply(
                r,
                from,
                before.chain.longest_chain().last(),
            ))
        },
        Packet::Block(b) => exists|now: u128|
            block_taken(before.chain.branches@, after.chain, from, b@, block_checks, now, r),
        Packet::BlockRequest(id) => {
            &&& after.chain.branches@ == before.chain.branches@
            &&& (id >= before.chain.longest_chain().len() ==> r is None)
            &&& (id < before.chain.longest_chain().len() ==> is_block_reply(
                r,
                from,
                before.chain.longest_chain()[id as int],
            ))
        },
        Packet::Transfer(t) => {
            &&& after.chain.branches@ == before.chain.branches@
            &&& (validate_content_spec(t, signature_check) == TransactionValidationResult::Valid
                ==> after.pending@ == before.pending@.push(t) && is_transfer_forward(r, from, t))
            &&& (validate_content_spec(t, signature_check) != TransactionValidationResult::Valid
                ==> after.pending@ == before.pending@ && r is None)
        },
        Packet::Page(p, d) => {
            &&& after.chain.branches@ == before.chain.branches@
            &&& (r is Some <==> (p@.fee >= 0 && d.hashes@.len() == p@.data_hashes.len()
                && forall|i: int|
                0 <= i < d.hashes@.len() ==> d.hashes@[i]@ == p@.data_hashes[i]@))
            &&& (r is Some ==> after.pending_pages@.len() == before.pending_pages@.len() + 1
                && after.pending_pages@.last()@ == p@)
            &&& (r is None ==> after.pending_pages@ == before.pending_pages@)
        },
        Packet::KnownNode(_) => r is None && after.chain.branches@ == before.chain.branches@,
        Packet::Ping => r is None && after.chain.branches@ == before.chain.branches@,
    }
}

impl Node {
    /// A node over a chain, with nothing pending.
    pub fn new(chain: BlockChain) -> (r: Node)
        requires
            chain.wf(),
        ensures
            r.wf(),
            r.chain == chain,
            r.pending@.len() == 0,
            r.pending_pages@.len() == 0,
    {
        Node { chain, pending: Vec::new(), pending_pages: Vec::new() }
    }

    /// The chain is well formed.
    pub open spec fn wf(&self) -> bool {
        self.chain.wf()
    }

    /// Drops the pending transfers that the longest branch has made stale.
    pub fn prune_pending(&mut self)
        requires
            old(self).wf(),
        ensures
            final(self).wf(),
            final(self).chain == old(self).chain,
            final(self).pending@ == pending_after(
                old(self).chain.longest_chain(),
                old(self).pending@,
            ),
            final(self).pending_pages@ == old(self).pending_pages@,
    {
        let ghost blocks = self.chain.longest_chain();
        let mut kept: Vec<Transaction> = Vec::new();
        let mut i: usize = 0;
        while i < self.pending.len()
            invariant
                0 <= i <= self.pending@.len(),
                self.chain.wf(),
                blocks == self.chain.longest_chain(),
                self.pending@ == old(self).pending@,
                self.chain == old(self).chain,
                self.pending_pages@ == old(self).pending_pages@,
                kept@ == pending_after(blocks, self.pending@.take(i as int)),
            decreases self.pending@.len() - i,
        {
            let t = self.pending[i];
            assert(self.pending@.take(i + 1).drop_last() =~= self.pending@.take(i as int));
            let from = t.get_from_address();
            let keep = match self.chain.wallet_status(&from) {
                Some(st) => t.header.id > st.max_id,
                None => false,
            };
            if keep {
                kept.push(t);
            }
            i = i + 1;
        }
        assert(self.pending@.take(self.pending@.len() as int) =~= self.pending@);
        self.pending = kept;
    }

    /// A candidate on the longest branch, paying `reward_to`: the pending
    /// transfers in order while the block-size cap lets them in, then the
    /// pending pages in order while it lets them in.
    pub fn candidate(&self, reward_to: Hash256) -> (r: Result<Block, Error>)
        requires
            self.wf(),
        ensures
            r is Ok,
            match r {
                Ok(b) => {
                    let l = self.chain.longest_chain();
                    let nt = b@.transactions.len();
                    let np = b@.pages.len();
                    &&& b@.block_id == l.len()
                    &&& prev_link_ok(l, b@)
                    &&& b@.reward_to == reward_to
                    &&& be_value(b@.target@) == expected_target(l)
                    &&& b@.pow == 0
                    &&& fits_block_size(b@)
                    &&& nt <= self.pending@.len()
                    &&& forall|k: int| 0 <= k < nt ==> b@.transactions[k] == self.pending@[k]
                    &&& np <= self.pending_pages@.len()
                    &&& forall|k: int| 0 <= k < np ==> b@.pages[k] == self.pending_pages@[k]@
                    &&& nt < self.pending@.len() ==> !fits_block_size(
                        BlockV { transactions: b@.transactions.push(self.pending@[nt as int]), ..b@ },
                    )
                    &&& np < self.pending_pages@.len() ==> !fits_block_size(
                        BlockV { pages: b@.pages.push(self.pending_pages@[np as int]@), ..b@ },
                    )
                },
                Err(_) => false,
            },
    {
        let mut block = match Block::new(&self.chain, reward_to) {
            Ok(b) => b,
            Err(e) => {
                return Err(e);
            },
        };
        let ghost start = block@;
        let mut i: usize = 0;
        let mut full = false;
        while i < self.pending.len() && !full
            invariant
                0 <= i <= self.pending@.len(),
                block@ == (BlockV { transactions: block@.transactions, ..start }),
                start.pages.len() == 0,
                start.transactions.len() == 0,
                fits_block_size(block@),
                block@.transactions.len() == i,
                forall|k: int| 0 <= k < i ==> block@.transactions[k] == self.pending@[k],
                full ==> i < self.pending@.len() && !fits_block_size(
                    BlockV { transactions: block@.transactions.push(self.pending@[i as int]), ..block@ },
                ),
            decreases self.pending@.len() - i, if full { 0int } else { 1int },
        {
            let mut trial = block.duplicate();
            trial.add_transaction(self.pending[i]);
            if trial.as_bytes().is_ok() {
                block = trial;
                i = i + 1;
            } else {
                full = true;
            }
        }
        let ghost mid = block@;
        let mut j: usize = 0;
        let mut page_full = false;
        while j < self.pending_pages.len() && !page_full
            invariant
                0 <= j <= self.pending_pages@.len(),
                block@ == (BlockV { pages: block@.pages, ..mid }),
                mid.pages.len() == 0,
                fits_block_size(block@),
                block@.pages.len() == j,
                forall|k: int| 0 <= k < j ==> block@.pages[k] == self.pending_pages@[k]@,
                mid.transactions.len() < self.pending@.len() ==> !fits_block_size(
                    BlockV {
                        transactions: block@.transactions.push(self.pending@[mid.transactions.len() as int]),
                        ..block@
                    },
                ),
                page_full ==> j < self.pending_pages@.len() && !fits_block_size(
                    BlockV { pages: block@.pages.push(self.pending_pages@[j as int]@), ..block@ },
                ),
            decreases self.pending_pages@.len() - j, if page_full { 0int } else { 1int },
        {
            let mut trial = block.duplicate();
            let page = self.pending_pages[j].duplicate();
            let ghost pv = page@;
            trial.add_page(page);
            if trial.as_bytes().is_ok() {
                proof {
                    if mid.transactions.len() < self.pending@.len() {
                        let t = self.pending@[mid.transactions.len() as int];
                        lemma_page_grows(block@, pv, t);
                    }
                }
                block = trial;
                j = j + 1;
            } else {
                page_full = true;
            }
        }
        Ok(block)
    }

    /// Appends a block this node mined to the longest branch, where the
    /// branch's top has not moved past the block's parent and the block
    /// follows the branch's rules; the block then goes to every peer.
    pub fn accept_mined(&mut self, block: &Block, checks: &Vec<WalletValidationResult>) -> (r:
        Option<Outgoing>)
        requires
            old(self).wf(),
        ensures
            final(self).wf(),
            final(self).pending@ == old(self).pending@,
            final(self).pending_pages@ == old(self).pending_pages@,
            block@.block_id != old(self).chain.longest_chain().len() ==> r is None,
            block@.block_id == old(self).chain.longest_chain().len() ==> (r is Some <==> (
            signature_error(block@, checks@) is None && valid_next(
                old(self).chain.longest_chain(),
                block@,
            ))),
            r is Some ==> final(self).chain.longest_chain() == old(
                self,
            ).chain.longest_chain().push(block@) && is_block_broadcast(r, block@),
            r is None ==> final(self).chain.branches@ == old(self).chain.branches@,
    {
        let longest = self.chain.longest_index();
        if self.chain.branches[longest].len() as u64 != block.block_id {
            return None;
        }
        match self.chain.append_to_longest(block, checks) {
            Ok(()) => Some(Outgoing::Broadcast(Packet::Block(block.duplicate()))),
            Err(_) => None,
        }
    }

    /// A peer connected: it is sent the top of the longest branch.
    pub fn handle_connected(&self, from: &String) -> (r: Option<Outgoing>)
        requires
            self.wf(),
        ensures
            self.chain.longest_chain().len() == 0 ==> r is None,
            self.chain.longest_chain().len() > 0 ==> is_block_reply(
                r,
                from@,
                self.chain.longest_chain().last(),
            ),
    {
        match self.chain.top() {
            Some(top) => Some(Outgoing::Reply(from.clone(), Packet::Block(top))),
            None => None,
        }
    }

    /// A peer sent a block, received at local time `now`: unless its
    /// timestamp lies too far ahead of `now`, it is added; where it then
    /// tops the longest branch, it goes on to the other peers.
    pub fn handle_block_at(
        &mut self,
        from: &String,
        block: Block,
        checks: &Vec<WalletValidationResult>,
        now: u128,
    ) -> (r: Option<Outgoing>)
        requires
            old(self).wf(),
        ensures
            final(self).wf(),
            block_taken(old(self).chain.branches@, final(self).chain, from@, block@, checks@, now, r),
    {
        if !timestamp_acceptable(block.timestamp, now) {
            return None;
        }
        let ghost before = self.chain.branches@;
        let res = self.chain.add(&block, checks);
        let ghost after = self.chain.branches@;
        assert(signed_add_outcome(before, after, block@, checks@, res));
        if res.is_err() {
            return None;
        }
        self.prune_pending();
        assert(self.chain.branches@ == after);
        match self.chain.top() {
            Some(top) => {
                if crate::block::block_eq(&top, &block) {
                    Some(Outgoing::Forward(from.clone(), Packet::Block(block)))
                } else {
                    None
                }
            },
            None => None,
        }
    }

    /// A peer sent a block: as `handle_block_at`, at the local clock's time.
    pub fn handle_block(&mut self, from: &String, block: Block, checks: &Vec<WalletValidationResult>)
        -> (r: Option<Outgoing>)
        requires
            old(self).wf(),
        ensures
            final(self).wf(),
            exists|now: u128|
                block_taken(old(self).chain.branches@, final(self).chain, from@, block@, checks@, now, r),
    {
        let now = current_timestamp();
        self.handle_block_at(from, block, checks, now)
    }

    /// A peer asked for the block with the given id on the longest branch.
    pub fn handle_block_request(&self, from: &String, id: u64) -> (r: Option<Outgoing>)
        requires
            self.wf(),
        ensures
            id >= self.chain.longest_chain().len() ==> r is None,
            id < self.chain.longest_chain().len() ==> is_block_reply(
                r,
                from@,
                self.chain.longest_chain()[id as int],
            ),
    {
        match self.chain.block(id) {
            Some(b) => Some(Outgoing::Reply(from.clone(), Packet::Block(b))),
            None => None,
        }
    }

    /// A peer sent a transfer, whose signature was checked with the given
    /// outcome: a valid one joins the pool and goes on to the other peers.
    pub fn handle_transfer(
        &mut self,
        from: &String,
        transfer: Transaction,
        signature_check: WalletValidationResult,
    ) -> (r: Option<Outgoing>)
        requires
            old(self).wf(),
        ensures
            final(self).wf(),
            final(self).chain == old(self).chain,
            validate_content_spec(transfer, signature_check) == TransactionValidationResult::Valid
                ==> final(self).pending@ == old(self).pending@.push(transfer) && is_transfer_forward(
                r,
                from@,
                transfer,
            ),
            validate_content_spec(transfer, signature_check) != TransactionValidationResult::Valid
                ==> final(self).pending@ == old(self).pending@ && r is None,
    {
        match transfer.validate_content(signature_check) {
            TransactionValidationResult::Valid => {
                self.pending.push(transfer);
                Some(Outgoing::Forward(from.clone(), Packet::Transfer(transfer)))
            },
            _ => None,
        }
    }

    /// A peer sent a page with its content: where the content matches the
    /// page and the fee is not negative, the page joins the pool and goes
    /// on to the other peers.
    pub fn handle_page(&mut self, from: &String, page: Page, data: DataUnit) -> (r: Option<
        Outgoing,
    >)
        requires
            old(self).wf(),
        ensures
            final(self).wf(),
            final(self).chain == old(self).chain,
            r is Some <==> (page@.fee >= 0 && data.hashes@.len() == page@.data_hashes.len()
                && forall|i: int|
                0 <= i < data.hashes@.len() ==> data.hashes@[i]@ == page@.data_hashes[i]@),
            r is Some ==> final(self).pending_pages@.len() == old(self).pending_pages@.len() + 1
                && final(self).pending_pages@.last()@ == page@,
            r is None ==> final(self).pending_pages@ == old(self).pending_pages@,
    {
        if page.fee < 0 || !page.is_data_valid(&data) {
            return None;
        }
        let copy = page.duplicate();
        self.pending_pages.push(copy);
        Some(Outgoing::Forward(from.clone(), Packet::Page(page, data)))
    }

    /// Routes a packet from a peer. Announcements of addresses stay with
    /// the peer registry and get no answer here.
    pub fn handle(
        &mut self,
        from: &String,
        packet: Packet,
        signature_check: WalletValidationResult,
        block_checks: &Vec<WalletValidationResult>,
    ) -> (r: Option<Outgoing>)
        requires
            old(self).wf(),
        ensures
            final(self).wf(),
            handled(*old(self), *final(self), from@, packet, signature_check, block_checks@, r),
    {
        match packet {
            Packet::OnConnected(_) => self.handle_connected(from),
            Packet::Block(block) => self.handle_block(from, block, block_checks),
            Packet::BlockRequest(id) => self.handle_block_request(from, id),
            Packet::Transfer(t) => self.handle_transfer(from, t, signature_check),
            Packet::Page(p, d) => self.handle_page(from, p, d),
            Packet::KnownNode(_) => None,
            Packet::Ping => None,
        }
    }
}

/// Hands packets to the node.
pub struct NodePacketHandler {
    node: Node,
}

impl NodePacketHandler {
    /// A handler over a node.
    pub fn new(node: Node) -> (r: NodePacketHandler)
        ensures
            r.node_spec() == node,
    {
        NodePacketHandler { node }
    }

    /// The node that the handler serves.
    pub closed spec fn node_spec(&self) -> Node {
        self.node
    }

    /// The node that the handler serves.
    pub fn node(&self) -> (r: &Node)
        ensures
            *r == self.node_spec(),
    {
        &self.node
    }

    /// Adds a block that this node mined; see `Node::accept_mined`.
    pub fn accept_mined(&mut self, block: &Block, checks: &Vec<WalletValidationResult>) -> (r:
        Option<Outgoing>)
        requires
            old(self).node_spec().wf(),
        ensures
            final(self).node_spec().wf(),
            block@.block_id != old(self).node_spec().chain.longest_chain().len() ==> r is None,
            block@.block_id == old(self).node_spec().chain.longest_chain().len() ==> (r is Some
                <==> (signature_error(block@, checks@) is None && valid_next(
                old(self).node_spec().chain.longest_chain(),
                block@,
            ))),
            r is Some ==> final(self).node_spec().chain.longest_chain() == old(
                self,
            ).node_spec().chain.longest_chain().push(block@) && is_block_broadcast(r, block@),
            r is None ==> final(self).node_spec().chain.branches@ == old(
                self,
            ).node_spec().chain.branches@,
    {
        self.node.accept_mined(block, checks)
    }

    /// Drops the branches too far behind the longest; returns their names.
    pub fn prune(&mut self) -> (r: Vec<String>)
        requires
            old(self).node_spec().wf(),
        ensures
            final(self).node_spec().wf(),
            final(self).node_spec().chain.branches@ == crate::chain::pruned(
                old(self).node_spec().chain.branches@,
                old(self).node_spec().chain.longest_chain().len(),
            ),
            r@.map_values(|s: String| s@) == crate::chain::pruned_names(
                old(self).node_spec().chain.branches@,
                old(self).node_spec().chain.longest_chain().len(),
            ),
    {
        self.node.chain.prune_branches()
    }

    /// Routes a packet from a peer to the node.
    pub fn on_packet(
        &mut self,
        from: &String,
        packet: Packet,
        signature_check: WalletValidationResult,
        block_checks: &Vec<WalletValidationResult>,
    ) -> (r: Option<Outgoing>)
        requires
            old(self).node_spec().wf(),
        ensures
            final(self).node_spec().wf(),
            handled(
                old(self).node_spec(),
                final(self).node_spec(),
                from@,
                packet,
                signature_check,
                block_checks@,
                r,
            ),
    {
        self.node.handle(from, packet, signature_check, block_checks)
    }
}

} // verus!
