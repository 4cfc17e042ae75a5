//! The server side of the wire protocol: per-connection state, the
//! subscription pool with its fan-out guarantee, the minter's mempool and
//! block production, and request dispatch.
use vstd::prelude::*;
use crate::asset::Asset;
use crate::block::Block;
use crate::chain::BlockErr;
use crate::chain::Blockchain;
use crate::chain::wf_chain;
use crate::chain::apply_txs_spec;
use crate::chain::bytes_eq;
use crate::chain::clone_bytes;
use crate::chain::lookup_bal;
use crate::chain::sha256;
use crate::codec::Balance;
use crate::codec::MAX_PAYLOAD_LEN;
use crate::codec::BalanceIo;
use crate::codec::BlockIo;
use crate::codec::PropsIo;
use crate::codec::Properties;
use crate::codec::RpcEvent;
use crate::codec::RpcMsg;
use crate::codec::RpcPayload;
use crate::codec::decode_payload;
use crate::codec::encode_payload;
use crate::codec::wf_msg;
use crate::tx::MAX_SIGNATURES;
use crate::tx::PublicKey;
use crate::tx::RewardTx;
use crate::tx::Tx;
use crate::tx::TxVariant;
use crate::tx::enc_tx;
use crate::tx::wf_tx;

verus! {

/// A block filter may hold at most this many addresses.
pub const MAX_BLOCK_FILTER: usize = 16;

/// Outbound queue depth per subscriber; a full queue drops the event.
pub const CHANNEL_CAP: usize = 32;

/// Admitted transactions must carry a timestamp within this many
/// milliseconds of the producer clock.
pub const MAX_TX_TIME_DIFF: u64 = 3_600_000;

/// Upper bound on pending transactions.
pub const MAX_MEMPOOL: usize = 10_000;

/// One WebSocket message, as the connection layer hands it over.
pub enum WsMessage {
    Binary(Vec<u8>),
    Text(Vec<u8>),
    Ping,
    Pong,
    Close(Vec<u8>),
}

/// Per-connection state: the peer's id, its block filter, and whether a
/// heartbeat answer is still owed.
pub struct WsState {
    pub addr: u64,
    pub filter: Option<Vec<PublicKey>>,
    pub needs_pong: bool,
}

impl WsState {
    pub fn new(addr: u64) -> (r: WsState)
        ensures
            r.addr == addr,
            r.filter is None,
            r.needs_pong == false,
    {
        WsState { addr, filter: None, needs_pong: false }
    }

    pub fn needs_pong(&self) -> (r: bool)
        ensures
            r == self.needs_pong,
    {
        self.needs_pong
    }

    pub fn set_needs_pong(&mut self, flag: bool)
        ensures
            final(self).needs_pong == flag,
            final(self).addr == old(self).addr,
            final(self).filter == old(self).filter,
    {
        self.needs_pong = flag;
    }

    pub fn addr(&self) -> (r: u64)
        ensures
            r == self.addr,
    {
        self.addr
    }

    pub fn filter(&self) -> (r: &Option<Vec<PublicKey>>)
        ensures
            r == &self.filter,
    {
        &self.filter
    }
}

/// One subscriber: a peer and the events queued toward it.
pub struct Subscriber {
    pub addr: u64,
    pub queue: Vec<Vec<u8>>,
}

/// True when some subscriber entry carries this peer id.
pub open spec fn pool_has(s: Seq<Subscriber>, addr: u64) -> bool {
    exists|i: int| 0 <= i < s.len() && s[i].addr == addr
}


/// The fan-out rule: every subscriber keeps its place, and each queue with
/// room gains exactly the event while full queues drop it.
pub closed spec fn fanned_out(before: Seq<Subscriber>, after: Seq<Subscriber>, ev: Seq<u8>) -> bool {
    &&& after.len() == before.len()
    &&& forall|i: int| 0 <= i < before.len() ==> (#[trigger] after[i]).addr == before[i].addr
    &&& forall|i: int|
        0 <= i < before.len() ==> (#[trigger] after[i]).queue@.map_values(|q: Vec<u8>| q@) == (
        if before[i].queue@.len() < CHANNEL_CAP {
            before[i].queue@.map_values(|q: Vec<u8>| q@).push(ev)
        } else {
            before[i].queue@.map_values(|q: Vec<u8>| q@)
        })
}

/// Opens the fan-out rule up: each subscriber kept its place; a queue that
/// had room holds exactly one new entry, the event, and a full queue is
/// unchanged.
pub proof fn lemma_fanned_out(before: Seq<Subscriber>, after: Seq<Subscriber>, ev: Seq<u8>)
    requires
        fanned_out(before, after, ev),
    ensures
        after.len() == before.len(),
        forall|i: int| 0 <= i < before.len() ==> (#[trigger] after[i]).addr == before[i].addr,
        forall|i: int|
            0 <= i < before.len() && before[i].queue@.len() < CHANNEL_CAP ==> (
            #[trigger] after[i]).queue@.map_values(|q: Vec<u8>| q@) == before[i].queue@.map_values(
                |q: Vec<u8>| q@,
            ).push(ev),
        forall|i: int|
            0 <= i < before.len() && before[i].queue@.len() >= CHANNEL_CAP ==> (
            #[trigger] after[i]).queue@.map_values(|q: Vec<u8>| q@) == before[i].queue@.map_values(
                |q: Vec<u8>| q@,
            ),
{
}

/// Who receives block events, and what is queued for each.
pub struct SubscriptionPool {
    pub subs: Vec<Subscriber>,
}

impl SubscriptionPool {
    pub fn new() -> (r: SubscriptionPool)
        ensures
            r.subs@.len() == 0,
    {
        SubscriptionPool { subs: Vec::new() }
    }

    /// Registers a peer; registering twice changes nothing.
    pub fn insert(&mut self, addr: u64)
        ensures
            pool_has(old(self).subs@, addr) ==> final(self).subs@ == old(self).subs@,
            !pool_has(old(self).subs@, addr) ==> ({
                &&& final(self).subs@.len() == old(self).subs@.len() + 1
                &&& forall|j: int|
                    0 <= j < old(self).subs@.len() ==> #[trigger] final(self).subs@[j] == old(
                        self,
                    ).subs@[j]
                &&& final(self).subs@.last().addr == addr
                &&& final(self).subs@.last().queue@.len() == 0
            }),
            pool_has(final(self).subs@, addr),
    {
        let mut i: usize = 0;
        while i < self.subs.len()
            invariant
                i <= self.subs@.len(),
                self.subs@ == old(self).subs@,
                forall|j: int| 0 <= j < i ==> #[trigger] self.subs@[j].addr != addr,
            decreases self.subs@.len() - i,
        {
            if self.subs[i].addr == addr {
                return ;
            }
            i += 1;
        }
        self.subs.push(Subscriber { addr, queue: Vec::new() });
        proof {
            assert(final(self).subs@.last().addr == addr);
        }
    }

    /// Drops a peer: what remains is exactly the old entries whose id
    /// differs, in order, queues untouched.
    pub fn remove(&mut self, addr: u64)
        ensures
            final(self).subs@ == old(self).subs@.filter(|s: Subscriber| s.addr != addr),
            forall|i: int|
                0 <= i < final(self).subs@.len() ==> #[trigger] final(self).subs@[i].addr != addr,
    {
        let ghost all = self.subs@;
        let mut out: Vec<Subscriber> = Vec::new();
        while self.subs.len() > 0
            invariant
                all == old(self).subs@,
                self.subs@.len() <= all.len(),
                self.subs@ == all.skip(all.len() - self.subs@.len()),
                out@ == all.take(all.len() - self.subs@.len()).filter(
                    |s: Subscriber| s.addr != addr,
                ),
                forall|i: int| 0 <= i < out@.len() ==> #[trigger] out@[i].addr != addr,
            decreases self.subs@.len(),
        {
            let ghost done = all.len() - self.subs@.len();
            let e = self.subs.remove(0);
            proof {
                assert(e == all[done]);
                assert(self.subs@ =~= all.skip(done + 1));
                assert(all.take(done + 1).drop_last() =~= all.take(done));
                assert(all.take(done + 1).last() == all[done]);
                reveal(Seq::filter);
            }
            if e.addr != addr {
                out.push(e);
            }
            proof {
                assert(out@ =~= all.take(done + 1).filter(|s: Subscriber| s.addr != addr));
            }
        }
        proof {
            assert(all.take(all.len() as int) =~= all);
        }
        self.subs = out;
    }

    /// Hands one encoded event to every subscriber: queued when there is
    /// room, silently dropped for a subscriber whose queue is full.
    pub fn broadcast(&mut self, event: &[u8])
        ensures
            fanned_out(old(self).subs@, final(self).subs@, event@),
    {
        let mut i: usize = 0;
        while i < self.subs.len()
            invariant
                i <= self.subs@.len(),
                self.subs@.len() == old(self).subs@.len(),
                forall|j: int|
                    0 <= j < self.subs@.len() ==> (#[trigger] self.subs@[j]).addr == old(
                        self,
                    ).subs@[j].addr,
                forall|j: int|
                    i <= j < self.subs@.len() ==> (#[trigger] self.subs@[j]).queue == old(
                        self,
                    ).subs@[j].queue,
                forall|j: int|
                    0 <= j < i ==> (#[trigger] self.subs@[j]).queue@.map_values(|q: Vec<u8>| q@)
                        == (if old(self).subs@[j].queue@.len() < CHANNEL_CAP {
                        old(self).subs@[j].queue@.map_values(|q: Vec<u8>| q@).push(event@)
                    } else {
                        old(self).subs@[j].queue@.map_values(|q: Vec<u8>| q@)
                    }),
            decreases self.subs@.len() - i,
        {
            let qlen = self.subs[i].queue.len();
            if qlen < CHANNEL_CAP {
                let ev = vstd::slice::slice_to_vec(event);
                push_event_at(&mut self.subs, i, ev);
                proof {
                    assert(self.subs@[i as int].queue@.map_values(|q: Vec<u8>| q@) =~= old(
                        self,
                    ).subs@[i as int].queue@.map_values(|q: Vec<u8>| q@).push(event@));
                }
            }
            i += 1;
        }
    }

    /// Takes everything queued for one peer, emptying its queue; every
    /// other entry is untouched, and an unknown peer yields nothing.
    pub fn take_queued(&mut self, addr: u64) -> (r: Vec<Vec<u8>>)
        ensures
            final(self).subs@.len() == old(self).subs@.len(),
            forall|j: int|
                0 <= j < old(self).subs@.len() ==> (#[trigger] final(self).subs@[j]).addr == old(
                    self,
                ).subs@[j].addr,
            forall|i: int|
                0 <= i < old(self).subs@.len() && #[trigger] old(self).subs@[i].addr == addr && (
                forall|j: int| 0 <= j < i ==> #[trigger] old(self).subs@[j].addr != addr) ==> (r
                    == old(self).subs@[i].queue && final(self).subs@[i].queue@.len() == 0
                    && forall|j: int|
                    0 <= j < old(self).subs@.len() && j != i ==> #[trigger] final(self).subs@[j]
                        == old(self).subs@[j]),
            !pool_has(old(self).subs@, addr) ==> final(self).subs@ == old(self).subs@
                && r@.len() == 0,
    {
        let mut i: usize = 0;
        while i < self.subs.len()
            invariant
                i <= self.subs@.len(),
                self.subs@ == old(self).subs@,
                forall|j: int| 0 <= j < i ==> #[trigger] self.subs@[j].addr != addr,
            decreases self.subs@.len() - i,
        {
            if self.subs[i].addr == addr {
                let q = take_queue_at(&mut self.subs, i);
                return q;
            }
            i += 1;
        }
        proof {
            assert(!pool_has(self.subs@, addr));
        }
        Vec::new()
    }
}

/// Appends one event to the queue of the subscriber at `i`.
fn push_event_at(subs: &mut Vec<Subscriber>, i: usize, ev: Vec<u8>)
    requires
        i < old(subs)@.len(),
    ensures
        final(subs)@.len() == old(subs)@.len(),
        forall|j: int|
            0 <= j < old(subs)@.len() && j != i ==> #[trigger] final(subs)@[j] == old(subs)@[j],
        final(subs)@[i as int].addr == old(subs)@[i as int].addr,
        final(subs)@[i as int].queue@ == old(subs)@[i as int].queue@.push(ev),
{
    let mut e = subs.remove(i);
    e.queue.push(ev);
    subs.insert(i, e);
}

/// Removes and returns the queue of the subscriber at `i`.
fn take_queue_at(subs: &mut Vec<Subscriber>, i: usize) -> (r: Vec<Vec<u8>>)
    requires
        i < old(subs)@.len(),
    ensures
        final(subs)@.len() == old(subs)@.len(),
        forall|j: int|
            0 <= j < old(subs)@.len() && j != i ==> #[trigger] final(subs)@[j] == old(subs)@[j],
        final(subs)@[i as int].addr == old(subs)@[i as int].addr,
        final(subs)@[i as int].queue@.len() == 0,
        r == old(subs)@[i as int].queue,
{
    let e = subs.remove(i);
    subs.insert(i, Subscriber { addr: e.addr, queue: Vec::new() });
    e.queue
}


/// Why a transaction was refused admission.
#[derive(Clone, Copy, Debug, PartialEq, Eq, Structural)]
pub enum TxErr {
    Malformed,
    TooManySignatures,
    InvalidTimestamp,
    InvalidFee,
    DuplicateTx,
    MempoolFull,
}

/// The header fields of any transaction variant.
pub open spec fn tx_base_of(t: crate::tx::TxView) -> crate::tx::TxBaseView {
    match t {
        crate::tx::TxView::Owner { base, .. } => base,
        crate::tx::TxView::Mint { base, .. } => base,
        crate::tx::TxView::Reward { base, .. } => base,
        crate::tx::TxView::Transfer { base, .. } => base,
    }
}

/// Sum of the fees a transaction list carries.
pub open spec fn sum_fees(ts: Seq<crate::tx::TxView>) -> int
    decreases ts.len(),
{
    if ts.len() == 0 {
        0
    } else {
        sum_fees(ts.drop_last()) + tx_base_of(ts.last()).fee
    }
}



/// Priority between pending transactions: higher fee first, then the
/// earlier timestamp.
pub open spec fn outbids(a_fee: int, a_ts: u64, b_fee: int, b_ts: u64) -> bool {
    a_fee > b_fee || (a_fee == b_fee && a_ts < b_ts)
}

/// `w` points at a worst entry: no other entry has strictly lower priority.
pub open spec fn is_worst(pending: Seq<TxVariant>, w: int) -> bool {
    &&& 0 <= w < pending.len()
    &&& forall|j: int|
        0 <= j < pending.len() ==> !outbids(
            tx_base_of(pending[w]@).fee as int,
            tx_base_of(pending[w]@).timestamp,
            tx_base_of((#[trigger] pending[j])@).fee as int,
            tx_base_of(pending[j]@).timestamp,
        )
}

/// First worst entry of a non-empty pool.
fn find_worst(pending: &Vec<TxVariant>) -> (r: usize)
    requires
        pending@.len() > 0,
    ensures
        is_worst(pending@, r as int),
{
    let mut w: usize = 0;
    let mut i: usize = 1;
    let (mut wfee, mut wts) = match &pending[0] {
        TxVariant::Owner(t) => (t.base.fee.amount, t.base.timestamp),
        TxVariant::Mint(t) => (t.base.fee.amount, t.base.timestamp),
        TxVariant::Reward(t) => (t.base.fee.amount, t.base.timestamp),
        TxVariant::Transfer(t) => (t.base.fee.amount, t.base.timestamp),
    };
    while i < pending.len()
        invariant
            0 < i <= pending@.len(),
            w < i,
            wfee == tx_base_of(pending@[w as int]@).fee,
            wts == tx_base_of(pending@[w as int]@).timestamp,
            forall|j: int|
                0 <= j < i ==> !outbids(
                    wfee as int,
                    wts,
                    tx_base_of((#[trigger] pending@[j])@).fee as int,
                    tx_base_of(pending@[j]@).timestamp,
                ),
        decreases pending@.len() - i,
    {
        let (fee, ts) = match &pending[i] {
            TxVariant::Owner(t) => (t.base.fee.amount, t.base.timestamp),
            TxVariant::Mint(t) => (t.base.fee.amount, t.base.timestamp),
            TxVariant::Reward(t) => (t.base.fee.amount, t.base.timestamp),
            TxVariant::Transfer(t) => (t.base.fee.amount, t.base.timestamp),
        };
        if wfee > fee || (wfee == fee && wts < ts) {
            w = i;
            wfee = fee;
            wts = ts;
        }
        i += 1;
    }
    w
}

/// Scans the mempool for a transaction with the same canonical encoding.
fn scan_duplicate(pending: &Vec<TxVariant>, txb: &[u8], target: Ghost<crate::tx::TxView>) -> (r:
    bool)
    requires
        forall|i: int| 0 <= i < pending@.len() ==> wf_tx((#[trigger] pending@[i])@),
        txb@ == enc_tx(target@),
    ensures
        r == exists|i: int|
            0 <= i < pending@.len() && enc_tx((#[trigger] pending@[i])@) == enc_tx(target@),
{
    let mut i: usize = 0;
    while i < pending.len()
        invariant
            i <= pending@.len(),
            forall|j: int| 0 <= j < pending@.len() ==> wf_tx((#[trigger] pending@[j])@),
            txb@ == enc_tx(target@),
            forall|j: int| 0 <= j < i ==> enc_tx((#[trigger] pending@[j])@) != enc_tx(target@),
        decreases pending@.len() - i,
    {
        let mut pb: Vec<u8> = Vec::new();
        pending[i].encode_with_sigs(&mut pb);
        if bytes_eq(pb.as_slice(), txb) {
            return true;
        }
        i += 1;
    }
    false
}

/// The block producer: it owns the mempool and the key its rewards go to.
pub struct Minter {
    pub minter_key: PublicKey,
    pub pending: Vec<TxVariant>,
    pub enable_stale_production: bool,
}

pub open spec fn wf_minter(m: Minter) -> bool {
    &&& m.minter_key@.len() == 32
    &&& m.pending@.len() <= MAX_MEMPOOL
    &&& forall|i: int| 0 <= i < m.pending@.len() ==> wf_tx((#[trigger] m.pending@[i])@)
}

impl Minter {
    pub fn new(minter_key: PublicKey, enable_stale_production: bool) -> (r: Minter)
        requires
            minter_key@.len() == 32,
        ensures
            wf_minter(r),
            r.pending@.len() == 0,
            r.minter_key@ == minter_key@,
            r.enable_stale_production == enable_stale_production,
    {
        Minter { minter_key, pending: Vec::new(), enable_stale_production }
    }

    /// Admits a transaction to the mempool: its signature count, timestamp
    /// and fee are checked, duplicates are refused, and a full pool rejects
    /// the newcomer.
    #[verifier::rlimit(100)]
    #[verifier::spinoff_prover]
    pub fn push_tx(&mut self, tx: TxVariant, now_ms: u64) -> (r: Result<(), TxErr>)
        requires
            wf_minter(*old(self)),
        ensures
            wf_minter(*final(self)),
            final(self).minter_key == old(self).minter_key,
            final(self).enable_stale_production == old(self).enable_stale_production,
            ({
                let base = tx_base_of(tx@);
                let dup = exists|i: int|
                    0 <= i < old(self).pending@.len() && enc_tx(
                        (#[trigger] old(self).pending@[i])@,
                    ) == enc_tx(tx@);
                if !wf_tx(tx@) {
                    r == Err::<(), TxErr>(TxErr::Malformed) && final(self).pending == old(
                        self,
                    ).pending
                } else if base.sig_pairs.len() > MAX_SIGNATURES {
                    r == Err::<(), TxErr>(TxErr::TooManySignatures) && final(self).pending == old(
                        self,
                    ).pending
                } else if !(now_ms - MAX_TX_TIME_DIFF <= base.timestamp <= now_ms
                    + MAX_TX_TIME_DIFF) {
                    r == Err::<(), TxErr>(TxErr::InvalidTimestamp) && final(self).pending == old(
                        self,
                    ).pending
                } else if base.fee < 0 {
                    r == Err::<(), TxErr>(TxErr::InvalidFee) && final(self).pending == old(
                        self,
                    ).pending
                } else if dup {
                    r == Err::<(), TxErr>(TxErr::DuplicateTx) && final(self).pending == old(
                        self,
                    ).pending
                } else if old(self).pending@.len() >= MAX_MEMPOOL {
                    // a full pool admits the newcomer only over a worst
                    // entry it outbids, which is evicted
                    exists|w: int|
                        #[trigger] is_worst(old(self).pending@, w) && (if outbids(
                            base.fee as int,
                            base.timestamp,
                            tx_base_of(old(self).pending@[w]@).fee as int,
                            tx_base_of(old(self).pending@[w]@).timestamp,
                        ) {
                            r == Ok::<(), TxErr>(()) && final(self).pending@ == old(
                                self,
                            ).pending@.remove(w).push(tx)
                        } else {
                            r == Err::<(), TxErr>(TxErr::MempoolFull) && final(self).pending
                                == old(self).pending
                        })
                } else {
                    r == Ok::<(), TxErr>(()) && final(self).pending@ == old(self).pending@.push(tx)
                }
            }),
    {
        if !tx.check_wf() {
            return Err(TxErr::Malformed);
        }
        let (sig_count, ts, fee) = match &tx {
            TxVariant::Owner(t) => (t.base.signature_pairs.len(), t.base.timestamp, t.base.fee),
            TxVariant::Mint(t) => (t.base.signature_pairs.len(), t.base.timestamp, t.base.fee),
            TxVariant::Reward(t) => (t.base.signature_pairs.len(), t.base.timestamp, t.base.fee),
            TxVariant::Transfer(t) => (
                t.base.signature_pairs.len(),
                t.base.timestamp,
                t.base.fee,
            ),
        };
        if sig_count > MAX_SIGNATURES {
            return Err(TxErr::TooManySignatures);
        }
        let lo_ok = (ts as u128) + (MAX_TX_TIME_DIFF as u128) >= (now_ms as u128);
        let hi_ok = (ts as u128) <= (now_ms as u128) + (MAX_TX_TIME_DIFF as u128);
        if !(lo_ok && hi_ok) {
            return Err(TxErr::InvalidTimestamp);
        }
        if fee.amount < 0 {
            return Err(TxErr::InvalidFee);
        }
        let mut txb: Vec<u8> = Vec::new();
        tx.encode_with_sigs(&mut txb);
        if scan_duplicate(&self.pending, txb.as_slice(), Ghost(tx@)) {
            return Err(TxErr::DuplicateTx);
        }
        if self.pending.len() >= MAX_MEMPOOL {
            let w = find_worst(&self.pending);
            let (wfee, wts) = match &self.pending[w] {
                TxVariant::Owner(t) => (t.base.fee.amount, t.base.timestamp),
                TxVariant::Mint(t) => (t.base.fee.amount, t.base.timestamp),
                TxVariant::Reward(t) => (t.base.fee.amount, t.base.timestamp),
                TxVariant::Transfer(t) => (t.base.fee.amount, t.base.timestamp),
            };
            if fee.amount > wfee || (fee.amount == wfee && ts < wts) {
                self.pending.remove(w);
                self.pending.push(tx);
                return Ok(());
            }
            return Err(TxErr::MempoolFull);
        }
        self.pending.push(tx);
        Ok(())
    }
}




/// The summed fees of a transaction list, when they fit a reward.
fn total_fees(txs: &Vec<TxVariant>) -> (r: Option<i64>)
    requires
        txs@.len() <= MAX_MEMPOOL,
    ensures
        ({
            let total = sum_fees(Seq::new(txs@.len(), |i: int| txs@[i]@));
            if 0 <= total <= i64::MAX {
                r == Some((total as i64))
            } else {
                r is None
            }
        }),
{
    let ghost tv0 = Seq::new(txs@.len(), |i: int| txs@[i]@);
    let mut acc: i128 = 0;
    let mut i: usize = 0;
    while i < txs.len()
        invariant
            i <= txs@.len(),
            txs@.len() <= MAX_MEMPOOL,
            tv0 == Seq::new(txs@.len(), |k: int| txs@[k]@),
            acc == sum_fees(tv0.take(i as int)),
            -0x8000_0000_0000_0000i128 * (i as i128) <= acc <= 0x8000_0000_0000_0000i128 * (
            i as i128),
        decreases txs@.len() - i,
    {
        let fee: i64 = match &txs[i] {
            TxVariant::Owner(t) => t.base.fee.amount,
            TxVariant::Mint(t) => t.base.fee.amount,
            TxVariant::Reward(t) => t.base.fee.amount,
            TxVariant::Transfer(t) => t.base.fee.amount,
        };
        proof {
            assert(tv0.take(i + 1) =~= tv0.take(i as int).push(tv0[i as int]));
            lemma_sum_fees_push(tv0.take(i as int), tv0[i as int]);
            assert(tx_base_of(tv0[i as int]).fee == fee);
        }
        acc = acc + (fee as i128);
        i += 1;
    }
    proof {
        assert(tv0.take(txs@.len() as int) =~= tv0);
    }
    if acc < 0 || acc > (i64::MAX as i128) {
        None
    } else {
        Some(acc as i64)
    }
}

/// The body of a new-block event: a payload with the reserved server id
/// holding `Event(Block(bv))`.
pub closed spec fn block_event_payload(bv: crate::block::BlockView) -> Seq<u8> {
    crate::codec::enc_payload(
        crate::codec::RpcPayloadView {
            id: u32::MAX,
            msg: Some(crate::codec::RpcMsgView::Event(crate::codec::RpcEventView::Block(bv))),
        },
    )
}

/// Whether the event body fits one wire frame.
pub open spec fn event_fits(bv: crate::block::BlockView) -> bool {
    4 + block_event_payload(bv).len() <= MAX_PAYLOAD_LEN as int
}

/// The framed bytes a new-block event carries on the wire: the total
/// length, then the event body.
pub closed spec fn block_event_bytes(bv: crate::block::BlockView) -> Seq<u8> {
    crate::serializer::enc_u32((4 + block_event_payload(bv).len()) as u32) + block_event_payload(
        bv,
    )
}

/// What the event bytes are, for callers that need to open them up.
pub proof fn lemma_block_event_bytes(bv: crate::block::BlockView)
    ensures
        block_event_payload(bv) == crate::codec::enc_payload(
            crate::codec::RpcPayloadView {
                id: u32::MAX,
                msg: Some(
                    crate::codec::RpcMsgView::Event(crate::codec::RpcEventView::Block(bv)),
                ),
            },
        ),
        block_event_bytes(bv) == crate::serializer::enc_u32(
            (4 + block_event_payload(bv).len()) as u32,
        ) + block_event_payload(bv),
{
}

/// Inserts a freshly produced block and, on success, fans the encoded block
/// event out to every subscriber.
#[verifier::rlimit(100)]
#[verifier::spinoff_prover]
fn publish_block(chain: &mut Blockchain, pool: &mut SubscriptionPool, b: Block) -> (r: Result<
    (),
    BlockErr,
>)
    requires
        crate::block::wf_block(b@),
        old(chain)@.blocks.len() > 0,
        wf_chain(old(chain)@),
        b@.height == old(chain)@.blocks.len(),
        b@.previous_hash == crate::chain::sha256_of(
            crate::block::enc_header(old(chain)@.blocks.last()),
        ),
        b@.tx_merkle_root == crate::chain::sha256_of(crate::block::enc_txs(b@.transactions)),
    ensures
        wf_chain(final(chain)@),
        r is Ok <==> crate::chain::apply_txs_spec(
            old(chain)@.supply,
            old(chain)@.balances,
            b@.transactions,
        ) is Some,
        r is Err ==> final(chain)@ == old(chain)@ && final(pool).subs@ == old(pool).subs@ && r
            == Err::<(), BlockErr>(BlockErr::InvalidTx),
        r is Ok ==> ({
            &&& final(chain)@.blocks == old(chain)@.blocks.push(b@)
            &&& (if event_fits(b@) {
                fanned_out(old(pool).subs@, final(pool).subs@, block_event_bytes(b@))
            } else {
                final(pool).subs@ == old(pool).subs@
            })
        }),
{
    let mut body: Vec<u8> = Vec::new();
    crate::serializer::push_u32(&mut body, u32::MAX);
    body.push(1u8);
    body.push(1u8);
    b.encode_with_tx(&mut body);
    proof {
        assert(body@ =~= block_event_payload(b@));
    }
    proof {
        crate::chain::lemma_wf_chain_heights(old(chain)@);
        assert(old(chain)@.blocks.last().height == old(chain)@.blocks.len() - 1);
    }
    match chain.insert_block(b) {
        Ok(_) => {
            if body.len() <= (MAX_PAYLOAD_LEN - 4) as usize {
                let mut ev: Vec<u8> = Vec::new();
                crate::serializer::push_u32(&mut ev, 4 + body.len() as u32);
                crate::serializer::push_slice(&mut ev, body.as_slice());
                proof {
                    assert(ev@ =~= block_event_bytes(b@));
                }
                pool.broadcast(ev.as_slice());
            }
            Ok(())
        },
        Err(e) => Err(e),
    }
}


/// Builds the child of the current head over the given transactions.
#[verifier::rlimit(100)]
#[verifier::spinoff_prover]
fn build_child(chain: &Blockchain, txs: Vec<TxVariant>, now_ms: u64) -> (b: Block)
    requires
        chain@.blocks.len() > 0,
        chain@.blocks.len() <= u64::MAX,
        forall|i: int| 0 <= i < txs@.len() ==> wf_tx((#[trigger] txs@[i])@),
        txs@.len() <= u32::MAX,
    ensures
        b@ == (crate::block::BlockView {
            height: (chain@.blocks.len()) as u64,
            timestamp: now_ms,
            previous_hash: crate::chain::sha256_of(
                crate::block::enc_header(chain@.blocks.last()),
            ),
            tx_merkle_root: crate::chain::sha256_of(
                crate::block::enc_txs(Seq::new(txs@.len(), |i: int| txs@[i]@)),
            ),
            sig_pairs: Seq::empty(),
            transactions: Seq::new(txs@.len(), |i: int| txs@[i]@),
        }),
        crate::block::wf_block(b@),
{
    let height = chain.get_chain_height() + 1;
    let mut hb: Vec<u8> = Vec::new();
    chain.get_chain_head().encode_header(&mut hb);
    let prev = sha256(hb.as_slice());
    let tb = crate::block::encode_tx_list(&txs);
    let root = sha256(tb.as_slice());
    let b = Block {
        height,
        timestamp: now_ms,
        previous_hash: prev,
        tx_merkle_root: root,
        signature_pairs: Vec::new(),
        transactions: txs,
    };
    proof {
        assert(b@.sig_pairs =~= Seq::<crate::tx::SigPairView>::empty());
        assert(b@.transactions =~= Seq::new(txs@.len(), |i: int| txs@[i]@));
    }
    b
}


/// At most this many transactions enter one block.
pub const MAX_TXS_PER_BLOCK: usize = 1_000;

/// The index of the first highest-priority entry, scanning from `i` with
/// `b` the best seen so far.
pub open spec fn best_from(p: Seq<TxVariant>, i: int, b: int) -> int
    decreases p.len() - i,
{
    if i < 0 || b < 0 || i > p.len() {
        b
    } else if i == p.len() {
        b
    } else if outbids(
        tx_base_of(p[i]@).fee as int,
        tx_base_of(p[i]@).timestamp,
        tx_base_of(p[b]@).fee as int,
        tx_base_of(p[b]@).timestamp,
    ) {
        best_from(p, i + 1, i)
    } else {
        best_from(p, i + 1, b)
    }
}

/// What a block drain takes and what stays: the best entry is pulled first,
/// `k` times over, and everything else keeps its order.
pub open spec fn select_k(p: Seq<TxVariant>, k: nat) -> (Seq<TxVariant>, Seq<TxVariant>)
    decreases k,
{
    if k == 0 || p.len() == 0 {
        (Seq::empty(), p)
    } else {
        let b = best_from(p, 1, 0);
        let (sel, rem) = select_k(p.remove(b), (k - 1) as nat);
        (seq![p[b]] + sel, rem)
    }
}

/// First highest-priority entry of a non-empty pool.
fn find_best(pending: &Vec<TxVariant>) -> (r: usize)
    requires
        pending@.len() > 0,
    ensures
        r < pending@.len(),
        r == best_from(pending@, 1, 0),
{
    let mut b: usize = 0;
    let mut i: usize = 1;
    while i < pending.len()
        invariant
            0 < i <= pending@.len(),
            b < i,
            best_from(pending@, 1, 0) == best_from(pending@, i as int, b as int),
        decreases pending@.len() - i,
    {
        let (bfee, bts) = match &pending[b] {
            TxVariant::Owner(t) => (t.base.fee.amount, t.base.timestamp),
            TxVariant::Mint(t) => (t.base.fee.amount, t.base.timestamp),
            TxVariant::Reward(t) => (t.base.fee.amount, t.base.timestamp),
            TxVariant::Transfer(t) => (t.base.fee.amount, t.base.timestamp),
        };
        let (fee, ts) = match &pending[i] {
            TxVariant::Owner(t) => (t.base.fee.amount, t.base.timestamp),
            TxVariant::Mint(t) => (t.base.fee.amount, t.base.timestamp),
            TxVariant::Reward(t) => (t.base.fee.amount, t.base.timestamp),
            TxVariant::Transfer(t) => (t.base.fee.amount, t.base.timestamp),
        };
        if fee > bfee || (fee == bfee && ts < bts) {
            b = i;
        }
        i += 1;
    }
    b
}

impl Minter {
    /// Pulls up to `k` transactions for a block, highest fee first and the
    /// earlier timestamp on ties; what is not taken stays, in order.
    pub fn drain_for_block(&mut self, k: usize) -> (r: Vec<TxVariant>)
        requires
            wf_minter(*old(self)),
        ensures
            wf_minter(*final(self)),
            final(self).minter_key == old(self).minter_key,
            final(self).enable_stale_production == old(self).enable_stale_production,
            (r@, final(self).pending@) == select_k(old(self).pending@, k as nat),
            r@.len() <= k,
            forall|i: int| 0 <= i < r@.len() ==> wf_tx((#[trigger] r@[i])@),
    {
        let mut txs: Vec<TxVariant> = Vec::new();
        let mut done: usize = 0;
        while done < k && self.pending.len() > 0
            invariant
                done <= k,
                txs@.len() == done,
                forall|i: int| 0 <= i < txs@.len() ==> wf_tx((#[trigger] txs@[i])@),
                wf_minter(*self),
                self.minter_key == old(self).minter_key,
                self.enable_stale_production == old(self).enable_stale_production,
                select_k(old(self).pending@, k as nat) == (match select_k(
                    self.pending@,
                    (k - done) as nat,
                ) {
                    (sel, rem) => (txs@ + sel, rem),
                }),
            decreases k - done,
        {
            let ghost pre = self.pending@;
            let b = find_best(&self.pending);
            let t = self.pending.remove(b);
            proof {
                assert(t == pre[b as int]);
                assert(self.pending@ =~= pre.remove(b as int));
                assert forall|j: int| 0 <= j < self.pending@.len() implies wf_tx(
                    (#[trigger] self.pending@[j])@,
                ) by {
                    if j < b {
                        assert(self.pending@[j] == pre[j]);
                    } else {
                        assert(self.pending@[j] == pre[j + 1]);
                    }
                }
            }
            let ghost txs0 = txs@;
            txs.push(t);
            proof {
                let (sel2, rem2) = select_k(self.pending@, (k - done - 1) as nat);
                assert(select_k(pre, (k - done) as nat) == (seq![pre[b as int]] + sel2, rem2));
                assert(txs0 + (seq![pre[b as int]] + sel2) =~= txs@ + sel2);
            }
            done += 1;
        }
        proof {
            if done < k {
                assert(self.pending@.len() == 0);
                assert(select_k(self.pending@, (k - done) as nat) == (
                    Seq::<TxVariant>::empty(),
                    self.pending@,
                ));
            } else {
                assert(select_k(self.pending@, 0) == (Seq::<TxVariant>::empty(), self.pending@));
            }
            assert(txs@ + Seq::<TxVariant>::empty() =~= txs@);
        }
        txs
    }
}

/// Appending one more transaction adds its fee.
pub proof fn lemma_sum_fees_push(q: Seq<crate::tx::TxView>, x: crate::tx::TxView)
    ensures
        sum_fees(q.push(x)) == sum_fees(q) + tx_base_of(x).fee,
{
    assert(q.push(x).drop_last() =~= q);
    assert(q.push(x).last() == x);
}

impl Minter {
    /// Produces one block now: the pending transactions are drained, a
    /// reward carrying their summed fees is appended, the child of the
    /// current head is built and inserted, and on success the encoded block
    /// event goes out to every subscriber. The mempool is empty afterwards.
    #[verifier::rlimit(100)]
    #[verifier::spinoff_prover]
    pub fn force_produce_block(
        &mut self,
        chain: &mut Blockchain,
        pool: &mut SubscriptionPool,
        now_ms: u64,
    ) -> (r: Result<(), BlockErr>)
        requires
            wf_minter(*old(self)),
            old(chain)@.blocks.len() > 0,
            old(chain)@.blocks.len() <= u64::MAX,
            wf_chain(old(chain)@),
        ensures
            wf_minter(*final(self)),
            final(self).pending@ == select_k(old(self).pending@, MAX_TXS_PER_BLOCK as nat).1,
            final(self).minter_key == old(self).minter_key,
            wf_chain(final(chain)@),
            ({
                let sel = select_k(old(self).pending@, MAX_TXS_PER_BLOCK as nat).0;
                let pviews = Seq::new(sel.len(), |i: int| sel[i]@);
                let tviews = pviews.push(
                    crate::tx::TxView::Reward {
                        base: crate::tx::TxBaseView {
                            fee: 0,
                            timestamp: now_ms,
                            sig_pairs: Seq::empty(),
                        },
                        to: old(self).minter_key@,
                        rewards: sum_fees(pviews) as i64,
                    },
                );
                r is Ok <==> (0 <= sum_fees(pviews) <= i64::MAX
                    && crate::chain::apply_txs_spec(
                    old(chain)@.supply,
                    old(chain)@.balances,
                    tviews,
                ) is Some)
            }),
            r is Err ==> final(chain)@ == old(chain)@ && final(pool).subs@ == old(pool).subs@
                && r == Err::<(), BlockErr>(BlockErr::InvalidTx),
            r is Ok ==> ({
                let sel = select_k(old(self).pending@, MAX_TXS_PER_BLOCK as nat).0;
                let tviews = Seq::new(sel.len(), |i: int| sel[i]@).push(
                    crate::tx::TxView::Reward {
                        base: crate::tx::TxBaseView {
                            fee: 0,
                            timestamp: now_ms,
                            sig_pairs: Seq::empty(),
                        },
                        to: old(self).minter_key@,
                        rewards: sum_fees(Seq::new(sel.len(), |i: int| sel[i]@)) as i64,
                    },
                );
                let head = old(chain)@.blocks.last();
                let bv = crate::block::BlockView {
                    height: (old(chain)@.blocks.len()) as u64,
                    timestamp: now_ms,
                    previous_hash: crate::chain::sha256_of(crate::block::enc_header(head)),
                    tx_merkle_root: crate::chain::sha256_of(crate::block::enc_txs(tviews)),
                    sig_pairs: Seq::empty(),
                    transactions: tviews,
                };
                &&& final(chain)@.blocks == old(chain)@.blocks.push(bv)
                &&& (if event_fits(bv) {
                    fanned_out(old(pool).subs@, final(pool).subs@, block_event_bytes(bv))
                } else {
                    final(pool).subs@ == old(pool).subs@
                })
            }),
    {
        let mut txs = self.drain_for_block(MAX_TXS_PER_BLOCK);
        let ghost sel = select_k(old(self).pending@, MAX_TXS_PER_BLOCK as nat).0;
        let ghost pviews = Seq::new(sel.len(), |i: int| sel[i]@);
        let ghost tv0 = Seq::new(txs@.len(), |i: int| txs@[i]@);
        proof {
            assert(txs@ == sel);
            assert(tv0 =~= pviews);
        }
        let rewards: i64 = match total_fees(&txs) {
            Some(v) => v,
            None => {
                // the fee total cannot be carried by a reward
                return Err(BlockErr::InvalidTx);
            },
        };
        let reward_tx = TxVariant::Reward(
            crate::tx::RewardTx {
                base: Tx {
                    fee: Asset { amount: 0 },
                    timestamp: now_ms,
                    signature_pairs: Vec::new(),
                },
                to: PublicKey { bytes: clone_bytes(&self.minter_key.bytes) },
                rewards: Asset { amount: rewards },
            },
        );
        txs.push(reward_tx);
        let ghost tviews = Seq::new(txs@.len(), |i: int| txs@[i]@);
        proof {
            assert(tviews =~~= pviews.push(
                crate::tx::TxView::Reward {
                    base: crate::tx::TxBaseView {
                        fee: 0,
                        timestamp: now_ms,
                        sig_pairs: Seq::empty(),
                    },
                    to: old(self).minter_key@,
                    rewards: sum_fees(pviews) as i64,
                },
            ));
        }
        let b = build_child(chain, txs, now_ms);
        publish_block(chain, pool, b)
    }
}


/// Error codes carried in `Error` replies, one stable byte each.
pub const ERR_IO: u8 = 0;

pub const ERR_BYTES_REMAINING: u8 = 1;

pub const ERR_INVALID_REQUEST: u8 = 2;

pub const ERR_INVALID_HEIGHT: u8 = 3;

pub const ERR_TX_VALIDATION: u8 = 4;

/// Everything one node holds: the chain, the producer, the subscribers.
pub struct ServerData {
    pub chain: Blockchain,
    pub minter: Minter,
    pub sub_pool: SubscriptionPool,
}

/// An error reply carrying one code byte under the given id.
fn error_reply(id: u32, code: u8) -> (r: RpcPayload)
    ensures
        r@ == (crate::codec::RpcPayloadView {
            id,
            msg: Some(crate::codec::RpcMsgView::Error(seq![code])),
        }),
        crate::codec::wf_payload(r@),
{
    let mut v: Vec<u8> = Vec::new();
    v.push(code);
    let r = RpcPayload { id, msg: Some(RpcMsg::Error(v)) };
    proof {
        assert(r@.msg->0 is Error);
        assert(r@.msg->0->Error_0 =~= seq![code]);
        assert(r@ =~~= (crate::codec::RpcPayloadView {
            id,
            msg: Some(crate::codec::RpcMsgView::Error(seq![code])),
        }));
    }
    r
}

/// Whether the mempool admits this transaction now: it must be carriable,
/// within the signature bound, timely, non-negative in fee and new, and
/// there must be room or a worst entry it outbids.
pub open spec fn admissible(pending: Seq<TxVariant>, t: crate::tx::TxView, now_ms: u64) -> bool {
    &&& wf_tx(t)
    &&& tx_base_of(t).sig_pairs.len() <= MAX_SIGNATURES
    &&& now_ms - MAX_TX_TIME_DIFF <= tx_base_of(t).timestamp <= now_ms + MAX_TX_TIME_DIFF
    &&& tx_base_of(t).fee >= 0
    &&& !(exists|i: int|
        0 <= i < pending.len() && enc_tx((#[trigger] pending[i])@) == enc_tx(t))
    &&& (pending.len() < MAX_MEMPOOL || exists|w: int|
        #[trigger] is_worst(pending, w) && outbids(
            tx_base_of(t).fee as int,
            tx_base_of(t).timestamp,
            tx_base_of(pending[w]@).fee as int,
            tx_base_of(pending[w]@).timestamp,
        ))
}

/// A refused transaction's stable reason byte, in the order the admission
/// checks run: malformed, too many signatures, timestamp out of window,
/// negative fee, duplicate, pool full.
pub open spec fn admission_error(
    pending: Seq<TxVariant>,
    t: crate::tx::TxView,
    now_ms: u64,
) -> u8 {
    if !wf_tx(t) {
        0
    } else if tx_base_of(t).sig_pairs.len() > MAX_SIGNATURES {
        1
    } else if !(now_ms - MAX_TX_TIME_DIFF <= tx_base_of(t).timestamp <= now_ms
        + MAX_TX_TIME_DIFF) {
        2
    } else if tx_base_of(t).fee < 0 {
        3
    } else if exists|i: int|
        0 <= i < pending.len() && enc_tx((#[trigger] pending[i])@) == enc_tx(t) {
        4
    } else {
        5
    }
}

/// The connection's block filter, as raw addresses.
pub open spec fn ws_filter_view(s: WsState) -> Option<Seq<Seq<u8>>> {
    match s.filter {
        Some(f) => Some(crate::chain::filter_view(f@)),
        None => None,
    }
}

/// The reply every request gets: the reserved id is refused with an Io
/// error, a bare id is echoed as a keep-alive, and each operation's answer
/// is fixed by the chain, the mempool, the connection's filter and the
/// clock. Subscribe, Unsubscribe and an admitted Broadcast acknowledge
/// under their own tags (the broadcast echoes the admitted transaction);
/// a refused broadcast carries its validation reason as a second byte.
#[verifier::opaque]
pub open spec fn answer_reply_spec(
    chain: crate::chain::ChainView,
    pending: Seq<TxVariant>,
    filter: Option<Seq<Seq<u8>>>,
    pv: crate::codec::RpcPayloadView,
    now_ms: u64,
) -> crate::codec::RpcPayloadView {
    if pv.id == u32::MAX {
        crate::codec::RpcPayloadView {
            id: u32::MAX,
            msg: Some(crate::codec::RpcMsgView::Error(seq![ERR_IO])),
        }
    } else {
        match pv.msg {
            None => crate::codec::RpcPayloadView { id: pv.id, msg: None },
            Some(m) => match m {
                crate::codec::RpcMsgView::Broadcast(t) => if admissible(pending, t, now_ms) {
                    crate::codec::RpcPayloadView {
                        id: pv.id,
                        msg: Some(crate::codec::RpcMsgView::Broadcast(t)),
                    }
                } else {
                    crate::codec::RpcPayloadView {
                        id: pv.id,
                        msg: Some(
                            crate::codec::RpcMsgView::Error(
                                seq![ERR_TX_VALIDATION, admission_error(pending, t, now_ms)],
                            ),
                        ),
                    }
                },
                crate::codec::RpcMsgView::Handshake(p) => crate::codec::RpcPayloadView {
                    id: pv.id,
                    msg: Some(crate::codec::RpcMsgView::Handshake(p)),
                },
                crate::codec::RpcMsgView::Properties(None) => crate::codec::RpcPayloadView {
                    id: pv.id,
                    msg: Some(
                        crate::codec::RpcMsgView::Properties(
                            Some((chain.blocks.len() - 1) as u64),
                        ),
                    ),
                },
                crate::codec::RpcMsgView::BlockIn(h) => if h < chain.blocks.len() {
                    crate::codec::RpcPayloadView {
                        id: pv.id,
                        msg: Some(
                            crate::codec::RpcMsgView::BlockOut(
                                match filter {
                                    Some(f) => crate::chain::filtered_view(
                                        chain.blocks[h as int],
                                        f,
                                    ),
                                    None => chain.blocks[h as int],
                                },
                            ),
                        ),
                    }
                } else {
                    crate::codec::RpcPayloadView {
                        id: pv.id,
                        msg: Some(crate::codec::RpcMsgView::Error(seq![ERR_INVALID_HEIGHT])),
                    }
                },
                crate::codec::RpcMsgView::BalanceIn(k) => crate::codec::RpcPayloadView {
                    id: pv.id,
                    msg: Some(
                        crate::codec::RpcMsgView::BalanceOut(
                            lookup_bal(chain.balances, k) as i64,
                            0,
                        ),
                    ),
                },
                crate::codec::RpcMsgView::TotalFeeIn(k) => crate::codec::RpcPayloadView {
                    id: pv.id,
                    msg: Some(
                        crate::codec::RpcMsgView::TotalFeeOut(
                            lookup_bal(chain.balances, k) as i64,
                            0,
                        ),
                    ),
                },
                crate::codec::RpcMsgView::FullBlockIn(h) => if h < chain.blocks.len() {
                    crate::codec::RpcPayloadView {
                        id: pv.id,
                        msg: Some(
                            crate::codec::RpcMsgView::FullBlockOut(chain.blocks[h as int]),
                        ),
                    }
                } else {
                    crate::codec::RpcPayloadView {
                        id: pv.id,
                        msg: Some(crate::codec::RpcMsgView::Error(seq![ERR_INVALID_HEIGHT])),
                    }
                },
                crate::codec::RpcMsgView::AddressInfoIn(k) => crate::codec::RpcPayloadView {
                    id: pv.id,
                    msg: Some(
                        crate::codec::RpcMsgView::AddressInfoOut(
                            lookup_bal(chain.balances, k) as i64,
                            0,
                        ),
                    ),
                },
                crate::codec::RpcMsgView::Subscribe => crate::codec::RpcPayloadView {
                    id: pv.id,
                    msg: Some(crate::codec::RpcMsgView::Subscribe),
                },
                crate::codec::RpcMsgView::Unsubscribe => crate::codec::RpcPayloadView {
                    id: pv.id,
                    msg: Some(crate::codec::RpcMsgView::Unsubscribe),
                },
                _ => crate::codec::RpcPayloadView {
                    id: pv.id,
                    msg: Some(crate::codec::RpcMsgView::Error(seq![ERR_INVALID_REQUEST])),
                },
            },
        }
    }
}

/// An error reply carrying two bytes: the kind and a reason.
fn error_reply2(id: u32, code: u8, sub: u8) -> (r: RpcPayload)
    ensures
        r@ == (crate::codec::RpcPayloadView {
            id,
            msg: Some(crate::codec::RpcMsgView::Error(seq![code, sub])),
        }),
        crate::codec::wf_payload(r@),
{
    let mut v: Vec<u8> = Vec::new();
    v.push(code);
    v.push(sub);
    let r = RpcPayload { id, msg: Some(RpcMsg::Error(v)) };
    proof {
        assert(r@.msg->0->Error_0 =~= seq![code, sub]);
        assert(r@ =~~= (crate::codec::RpcPayloadView {
            id,
            msg: Some(crate::codec::RpcMsgView::Error(seq![code, sub])),
        }));
    }
    r
}

/// Answers one decoded request, exactly as `answer_reply_spec` fixes the
/// reply. Broadcast changes only the mempool, Subscribe and Unsubscribe
/// only the pool; no request changes the chain.
#[verifier::rlimit(100)]
#[verifier::spinoff_prover]
pub fn answer(
    data: &mut ServerData,
    state: &WsState,
    peer: u64,
    pl: RpcPayload,
    now_ms: u64,
) -> (r: Option<RpcPayload>)
    requires
        wf_minter(old(data).minter),
        old(data).chain@.blocks.len() > 0,
        wf_chain(old(data).chain@),
    ensures
        wf_minter(final(data).minter),
        final(data).chain@ == old(data).chain@,
        match r {
            Some(p) => crate::codec::wf_payload(p@) && p@ == answer_reply_spec(
                old(data).chain@,
                old(data).minter.pending@,
                ws_filter_view(*state),
                pl@,
                now_ms,
            ),
            None => false,
        },
        final(data).minter.minter_key == old(data).minter.minter_key,
        final(data).minter.enable_stale_production == old(
            data,
        ).minter.enable_stale_production,
        (match pl.msg {
            Some(RpcMsg::Broadcast(_)) => true,
            _ => final(data).minter.pending == old(data).minter.pending,
        }),
        (match pl.msg {
            Some(RpcMsg::Subscribe) => (pl.id != u32::MAX ==> pool_has(
                final(data).sub_pool.subs@,
                peer,
            )),
            Some(RpcMsg::Unsubscribe) => (pl.id != u32::MAX ==> (forall|i: int|
                0 <= i < final(data).sub_pool.subs@.len()
                    ==> (#[trigger] final(data).sub_pool.subs@[i]).addr != peer)),
            _ => final(data).sub_pool.subs@ == old(data).sub_pool.subs@,
        }),
        pl.id == u32::MAX ==> (final(data).minter.pending == old(data).minter.pending
            && final(data).sub_pool.subs@ == old(data).sub_pool.subs@),
        (match pl.msg {
            Some(RpcMsg::Broadcast(tx)) => (pl.id != u32::MAX ==> (if admissible(
                old(data).minter.pending@,
                tx@,
                now_ms,
            ) {
                old(data).minter.pending@.len() < MAX_MEMPOOL ==> final(data).minter.pending@
                    == old(data).minter.pending@.push(tx)
            } else {
                final(data).minter.pending == old(data).minter.pending
            })),
            _ => true,
        }),
{
    proof {
        reveal(answer_reply_spec);
    }
    if pl.id == u32::MAX {
        // the reserved correlator may not be used by a client
        return Some(error_reply(u32::MAX, ERR_IO));
    }
    let id = pl.id;
    let msg = match pl.msg {
        None => {
            // a bare id is a keep-alive: echo it
            return Some(RpcPayload { id, msg: None });
        },
        Some(m) => m,
    };
    match msg {
        RpcMsg::Broadcast(tx) => {
            let ghost tv = tx@;
            let copy = tx.duplicate();
            match data.minter.push_tx(tx, now_ms) {
                Ok(_) => {
                    proof {
                        assert(admissible(old(data).minter.pending@, tv, now_ms));
                    }
                    Some(RpcPayload { id, msg: Some(RpcMsg::Broadcast(copy)) })
                },
                Err(e) => {
                    let sub: u8 = match e {
                        TxErr::Malformed => 0,
                        TxErr::TooManySignatures => 1,
                        TxErr::InvalidTimestamp => 2,
                        TxErr::InvalidFee => 3,
                        TxErr::DuplicateTx => 4,
                        TxErr::MempoolFull => 5,
                    };
                    proof {
                        assert(sub == admission_error(
                            old(data).minter.pending@,
                            tv,
                            now_ms,
                        ));
                    }
                    Some(error_reply2(id, ERR_TX_VALIDATION, sub))
                },
            }
        },
        RpcMsg::Properties(PropsIo::In) => {
            let props = data.chain.get_properties();
            Some(
                RpcPayload {
                    id,
                    msg: Some(RpcMsg::Properties(PropsIo::Out(Properties { height: props.height }))),
                },
            )
        },
        RpcMsg::Balance(BalanceIo::In(k)) => {
            let bal = data.chain.get_balance(k.bytes.as_slice());
            Some(
                RpcPayload {
                    id,
                    msg: Some(
                        RpcMsg::Balance(
                            BalanceIo::Out(Balance { gold: bal, silver: Asset { amount: 0 } }),
                        ),
                    ),
                },
            )
        },
        RpcMsg::TotalFee(BalanceIo::In(k)) => {
            // without the external script engine the flat fee floor is zero
            let bal = data.chain.get_balance(k.bytes.as_slice());
            Some(
                RpcPayload {
                    id,
                    msg: Some(
                        RpcMsg::TotalFee(
                            BalanceIo::Out(Balance { gold: bal, silver: Asset { amount: 0 } }),
                        ),
                    ),
                },
            )
        },
        RpcMsg::Block(BlockIo::In(h)) => {
            match &state.filter {
                Some(f) => match data.chain.get_filtered_block(h, f) {
                    Some(b) => {
                        proof {
                            crate::chain::lemma_wf_chain_books(old(data).chain@);
                            crate::chain::lemma_wf_chain_wf_blocks(old(data).chain@);
                            crate::chain::lemma_filtered_wf(
                                old(data).chain@.blocks[h as int],
                                crate::chain::filter_view(f@),
                            );
                            assert(b@ =~~= crate::chain::filtered_view(
                                old(data).chain@.blocks[h as int],
                                crate::chain::filter_view(f@),
                            ));
                        }
                        Some(RpcPayload { id, msg: Some(RpcMsg::Block(BlockIo::Out(b))) })
                    },
                    None => Some(error_reply(id, ERR_INVALID_HEIGHT)),
                },
                None => match data.chain.get_block(h) {
                    Some(b) => {
                        proof {
                            crate::chain::lemma_wf_chain_wf_blocks(old(data).chain@);
                        }
                        let copy = b.duplicate();
                        Some(RpcPayload { id, msg: Some(RpcMsg::Block(BlockIo::Out(copy))) })
                    },
                    None => Some(error_reply(id, ERR_INVALID_HEIGHT)),
                },
            }
        },
        RpcMsg::GetFullBlock(BlockIo::In(h)) => match data.chain.get_block(h) {
            Some(b) => {
                proof {
                    crate::chain::lemma_wf_chain_wf_blocks(old(data).chain@);
                }
                let copy = b.duplicate();
                Some(RpcPayload { id, msg: Some(RpcMsg::GetFullBlock(BlockIo::Out(copy))) })
            },
            None => Some(error_reply(id, ERR_INVALID_HEIGHT)),
        },
        RpcMsg::GetAddressInfo(BalanceIo::In(k)) => {
            // the balance, with a zero flat fee: the fee schedule belongs to
            // the external script engine
            let bal = data.chain.get_balance(k.bytes.as_slice());
            Some(
                RpcPayload {
                    id,
                    msg: Some(
                        RpcMsg::GetAddressInfo(
                            BalanceIo::Out(Balance { gold: bal, silver: Asset { amount: 0 } }),
                        ),
                    ),
                },
            )
        },
        RpcMsg::Handshake(p) => Some(RpcPayload { id, msg: Some(RpcMsg::Handshake(p)) }),
        RpcMsg::Subscribe => {
            data.sub_pool.insert(peer);
            Some(RpcPayload { id, msg: Some(RpcMsg::Subscribe) })
        },
        RpcMsg::Unsubscribe => {
            data.sub_pool.remove(peer);
            Some(RpcPayload { id, msg: Some(RpcMsg::Unsubscribe) })
        },
        _ => Some(error_reply(id, ERR_INVALID_REQUEST)),
    }
}

/// What the heartbeat decides on each tick.
#[derive(Clone, Copy, Debug, PartialEq, Eq, Structural)]
pub enum HeartbeatAction {
    Ping,
    Close,
}

impl WsState {
    /// One heartbeat tick: a connection still owing a pong is closed;
    /// otherwise a ping goes out and the debt is recorded. Two silent ticks
    /// (40 s at the 20 s cadence) therefore close the connection.
    pub fn heartbeat_tick(&mut self) -> (r: HeartbeatAction)
        ensures
            old(self).needs_pong ==> r == HeartbeatAction::Close && *final(self) == *old(self),
            !old(self).needs_pong ==> r == HeartbeatAction::Ping && final(self).needs_pong
                && final(self).addr == old(self).addr && final(self).filter == old(self).filter,
    {
        if self.needs_pong {
            HeartbeatAction::Close
        } else {
            self.needs_pong = true;
            HeartbeatAction::Ping
        }
    }

    /// Installs a block filter; one over the size cap is refused unchanged.
    pub fn set_block_filter(&mut self, filter: Vec<PublicKey>) -> (r: bool)
        ensures
            filter@.len() > MAX_BLOCK_FILTER ==> !r && *final(self) == *old(self),
            filter@.len() <= MAX_BLOCK_FILTER ==> r && final(self).filter == Some(filter)
                && final(self).addr == old(self).addr && final(self).needs_pong == old(
                self,
            ).needs_pong,
    {
        if filter.len() > MAX_BLOCK_FILTER {
            return false;
        }
        self.filter = Some(filter);
        true
    }
}

/// The close reason sent for a text frame.
pub open spec fn text_close_reason() -> Seq<u8> {
    seq![
        116u8, 101u8, 120u8, 116u8, 32u8, 105u8, 115u8, 32u8, 110u8, 111u8, 116u8, 32u8, 115u8,
        117u8, 112u8, 112u8, 111u8, 114u8, 116u8, 101u8, 100u8,
    ]
}

/// Handles one transport message. Binary frames are decoded and answered
/// exactly as `answer_reply_spec` fixes (a short body gets the Io error
/// under the reserved id; trailing bytes after a complete request get the
/// bytes-remaining error and touch nothing); a text frame closes the
/// connection with its reason; any inbound traffic clears the heartbeat
/// debt, and a close frame changes nothing.
#[verifier::rlimit(100)]
#[verifier::spinoff_prover]
pub fn process_message(
    data: &mut ServerData,
    state: &mut WsState,
    msg: WsMessage,
    now_ms: u64,
) -> (r: Option<WsMessage>)
    requires
        wf_minter(old(data).minter),
        old(data).chain@.blocks.len() > 0,
        wf_chain(old(data).chain@),
    ensures
        wf_minter(final(data).minter),
        final(data).chain@ == old(data).chain@,
        final(state).addr == old(state).addr,
        final(state).filter == old(state).filter,
        msg is Ping || msg is Pong || msg is Binary ==> !final(state).needs_pong,
        msg is Ping || msg is Pong || msg is Close ==> r is None,
        msg is Text || msg is Ping || msg is Pong || msg is Close ==> final(data).minter == old(
            data,
        ).minter && final(data).sub_pool.subs@ == old(data).sub_pool.subs@,
        msg is Text || msg is Close ==> *final(state) == *old(state),
        msg is Text ==> (match r {
            Some(m) => m matches WsMessage::Close(reason) && reason@ == text_close_reason(),
            None => false,
        }),
        msg matches WsMessage::Binary(buf) ==> match crate::codec::dec_payload(buf@) {
            None => (match r {
                Some(m) => m matches WsMessage::Binary(out) && out@ == crate::codec::enc_payload(
                    crate::codec::RpcPayloadView {
                        id: u32::MAX,
                        msg: Some(crate::codec::RpcMsgView::Error(seq![ERR_IO])),
                    },
                ),
                None => false,
            }) && final(data).minter == old(data).minter && final(data).sub_pool.subs@ == old(
                data,
            ).sub_pool.subs@,
            Some((pv, n)) => if pv.id != u32::MAX && n != buf@.len() {
                (match r {
                    Some(m) => m matches WsMessage::Binary(out) && out@
                        == crate::codec::enc_payload(
                        crate::codec::RpcPayloadView {
                            id: pv.id,
                            msg: Some(
                                crate::codec::RpcMsgView::Error(seq![ERR_BYTES_REMAINING]),
                            ),
                        },
                    ),
                    None => false,
                }) && final(data).minter == old(data).minter && final(data).sub_pool.subs@
                    == old(data).sub_pool.subs@
            } else {
                match r {
                    Some(m) => m matches WsMessage::Binary(out) && out@
                        == crate::codec::enc_payload(
                        answer_reply_spec(
                            old(data).chain@,
                            old(data).minter.pending@,
                            ws_filter_view(*old(state)),
                            pv,
                            now_ms,
                        ),
                    ),
                    None => false,
                }
            },
        },
{
    match msg {
        WsMessage::Binary(buf) => {
            state.set_needs_pong(false);
            let (pl, used) = match crate::codec::decode_payload(buf.as_slice()) {
                Some(x) => x,
                None => {
                    let rep = error_reply(u32::MAX, ERR_IO);
                    let mut out: Vec<u8> = Vec::new();
                    encode_payload(&rep, &mut out);
                    return Some(WsMessage::Binary(out));
                },
            };
            if pl.id != u32::MAX && used != buf.len() {
                let rep = error_reply(pl.id, ERR_BYTES_REMAINING);
                let mut out: Vec<u8> = Vec::new();
                encode_payload(&rep, &mut out);
                return Some(WsMessage::Binary(out));
            }
            match answer(data, &*state, state.addr, pl, now_ms) {
                Some(rep) => {
                    let mut out: Vec<u8> = Vec::new();
                    encode_payload(&rep, &mut out);
                    Some(WsMessage::Binary(out))
                },
                None => None,
            }
        },
        WsMessage::Text(_) => {
            let mut reason: Vec<u8> = Vec::new();
            reason.push(116);
            reason.push(101);
            reason.push(120);
            reason.push(116);
            reason.push(32);
            reason.push(105);
            reason.push(115);
            reason.push(32);
            reason.push(110);
            reason.push(111);
            reason.push(116);
            reason.push(32);
            reason.push(115);
            reason.push(117);
            reason.push(112);
            reason.push(112);
            reason.push(111);
            reason.push(114);
            reason.push(116);
            reason.push(101);
            reason.push(100);
            proof {
                assert(reason@ =~= text_close_reason());
            }
            Some(WsMessage::Close(reason))
        },
        WsMessage::Ping => {
            state.set_needs_pong(false);
            None
        },
        WsMessage::Pong => {
            state.set_needs_pong(false);
            None
        },
        WsMessage::Close(_) => None,
    }
}

} // verus!
