//! The blockchain facade: an append-only list of blocks, the balance and
//! supply bookkeeping derived from applied transactions, genesis creation,
//! and reopening a chain from a frame log.
use vstd::prelude::*;
use crate::asset::Asset;
use crate::block::Block;
use crate::block::BlockView;
use crate::block::enc_block;
use crate::block::enc_header;
use crate::block::enc_txs;
use crate::block::wf_block;
use crate::serializer::enc_u32;
use crate::tx::OwnerTx;
use crate::tx::PublicKey;
use crate::tx::TxBaseView;
use crate::tx::enc_tx;
use crate::tx::wf_tx;
use crate::tx::Tx;
use crate::tx::TxVariant;
use crate::tx::TxView;
use sha2::Digest;

verus! {

/// The content a SHA-256 digest commits to.
pub uninterp spec fn sha256_of(b: Seq<u8>) -> Seq<u8>;

/// Relies on sha2's Sha256: the digest is 32 bytes and depends on the input
/// bytes alone.
#[verifier::external_body]
pub fn sha256(b: &[u8]) -> (r: Vec<u8>)
    ensures
        r@ == sha256_of(b@),
        r@.len() == 32,
{
    sha2::Sha256::digest(b).to_vec()
}

/// How much of the secondary index is known to be good.
#[derive(Clone, Copy, Debug, PartialEq, Eq, Structural)]
pub enum IndexStatus {
    Missing,
    Partial,
    Complete,
}

/// Why a block was rejected.
#[derive(Clone, Copy, Debug, PartialEq, Eq, Structural)]
pub enum BlockErr {
    NoGenesis,
    InvalidHeight,
    InvalidPrevHash,
    InvalidTx,
    InvalidMerkleRoot,
    CorruptLog,
    OversizeBlock,
}

/// One address and what it holds.
pub struct BalEntry {
    pub addr: Vec<u8>,
    pub amount: i64,
}

/// First index holding balance state for `a`, if any.
pub open spec fn find_bal(es: Seq<(Seq<u8>, i64)>, a: Seq<u8>) -> Option<int>
    decreases es.len(),
{
    if es.len() == 0 {
        None
    } else if es[0].0 == a {
        Some(0)
    } else {
        match find_bal(es.drop_first(), a) {
            Some(i) => Some(i + 1),
            None => None,
        }
    }
}

pub proof fn lemma_find_bal(es: Seq<(Seq<u8>, i64)>, a: Seq<u8>)
    ensures
        match find_bal(es, a) {
            Some(i) => 0 <= i < es.len() && es[i].0 == a && forall|j: int|
                0 <= j < i ==> es[j].0 != a,
            None => forall|j: int| 0 <= j < es.len() ==> es[j].0 != a,
        },
    decreases es.len(),
{
    if es.len() > 0 && es[0].0 != a {
        let t = es.drop_first();
        lemma_find_bal(t, a);
        match find_bal(t, a) {
            Some(i) => {
                assert(es[i + 1] == t[i]);
                assert forall|j: int| 0 <= j < i + 1 implies es[j].0 != a by {
                    if j > 0 {
                        assert(es[j] == t[j - 1]);
                    }
                }
            },
            None => {
                assert forall|j: int| 0 <= j < es.len() implies es[j].0 != a by {
                    if j > 0 {
                        assert(es[j] == t[j - 1]);
                    }
                }
            },
        }
    }
}

/// The balance an address holds; zero when it was never touched.
pub open spec fn lookup_bal(es: Seq<(Seq<u8>, i64)>, a: Seq<u8>) -> int {
    match find_bal(es, a) {
        Some(i) => es[i].1 as int,
        None => 0,
    }
}

/// Adds `delta` (possibly negative) to an address. Fails when the result
/// would be negative or overflow; an untouched address starts from zero.
pub open spec fn adjust_bal(es: Seq<(Seq<u8>, i64)>, a: Seq<u8>, delta: int) -> Option<
    Seq<(Seq<u8>, i64)>,
> {
    let nv = lookup_bal(es, a) + delta;
    if !(0 <= nv <= i64::MAX) {
        None
    } else {
        match find_bal(es, a) {
            Some(i) => Some(es.update(i, (a, nv as i64))),
            None => Some(es.push((a, nv as i64))),
        }
    }
}

/// One transaction applied to the supply and the balance map.
pub open spec fn apply_tx_spec(supply: int, es: Seq<(Seq<u8>, i64)>, t: TxView) -> Option<
    (int, Seq<(Seq<u8>, i64)>),
> {
    match t {
        TxView::Mint { base, to, amount, .. } => {
            if amount < 0 || supply + amount > i64::MAX {
                None
            } else {
                match adjust_bal(es, to, amount as int) {
                    Some(es2) => Some((supply + amount, es2)),
                    None => None,
                }
            }
        },
        TxView::Reward { base, to, rewards } => {
            if rewards < 0 {
                None
            } else {
                match adjust_bal(es, to, rewards as int) {
                    Some(es2) => Some((supply, es2)),
                    None => None,
                }
            }
        },
        TxView::Transfer { base, from, to, amount, memo } => {
            if amount < 0 || base.fee < 0 || amount + base.fee > i64::MAX {
                None
            } else {
                match adjust_bal(es, sha256_of(from), -(amount + base.fee)) {
                    Some(es1) => match adjust_bal(es1, to, amount as int) {
                        Some(es2) => Some((supply, es2)),
                        None => None,
                    },
                    None => None,
                }
            }
        },
        TxView::Owner { .. } => Some((supply, es)),
    }
}


/// What an adjustment does to the books: the touched address moves by
/// exactly the delta, every other address is unchanged.
pub proof fn lemma_adjust_lookup(es: Seq<(Seq<u8>, i64)>, a: Seq<u8>, delta: int)
    requires
        adjust_bal(es, a, delta) is Some,
    ensures
        lookup_bal(adjust_bal(es, a, delta)->0, a) == lookup_bal(es, a) + delta,
        forall|b: Seq<u8>|
            b != a ==> lookup_bal(#[trigger] adjust_bal(es, a, delta)->0, b) == lookup_bal(es, b),
{
    let es2 = adjust_bal(es, a, delta)->0;
    let nv = lookup_bal(es, a) + delta;
    lemma_find_bal(es, a);
    match find_bal(es, a) {
        Some(i) => {
            assert(es2 == es.update(i, (a, nv as i64)));
            lemma_find_bal(es2, a);
            match find_bal(es2, a) {
                Some(k) => {
                    assert(!(k < i)) by {
                        if k < i {
                            assert(es2[k] == es[k]);
                        }
                    }
                    assert(!(k > i)) by {
                        if k > i {
                            assert(es2[i].0 == a);
                        }
                    }
                    assert(es2[i].1 == nv as i64);
                },
                None => {
                    assert(es2[i].0 == a);
                    assert(false);
                },
            }
            assert forall|b: Seq<u8>| b != a implies lookup_bal(es2, b) == lookup_bal(es, b) by {
                lemma_find_bal(es, b);
                lemma_find_bal(es2, b);
                match find_bal(es, b) {
                    Some(k) => {
                        assert(k != i);
                        assert(es2[k] == es[k]);
                        match find_bal(es2, b) {
                            Some(k2) => {
                                assert(k2 != i);
                                assert(es2[k2] == es[k2]);
                                assert(!(k2 < k)) by {
                                    if k2 < k {
                                        assert(es[k2].0 == b);
                                    }
                                }
                                assert(!(k < k2)) by {
                                    if k < k2 {
                                        assert(es2[k].0 == b);
                                    }
                                }
                            },
                            None => {
                                assert(es2[k].0 == b);
                                assert(false);
                            },
                        }
                    },
                    None => {
                        match find_bal(es2, b) {
                            Some(k2) => {
                                assert(k2 != i);
                                assert(es[k2] == es2[k2]);
                                assert(es[k2].0 != b);
                                assert(false);
                            },
                            None => {},
                        }
                    },
                }
            }
        },
        None => {
            assert(es2 == es.push((a, nv as i64)));
            lemma_find_bal(es2, a);
            match find_bal(es2, a) {
                Some(k) => {
                    assert(!(k < es.len())) by {
                        if k < es.len() {
                            assert(es2[k] == es[k]);
                        }
                    }
                    assert(es2[k].1 == nv as i64);
                    assert(lookup_bal(es, a) == 0);
                },
                None => {
                    assert(es2[es.len() as int].0 == a);
                    assert(false);
                },
            }
            assert forall|b: Seq<u8>| b != a implies lookup_bal(es2, b) == lookup_bal(es, b) by {
                lemma_find_bal(es, b);
                lemma_find_bal(es2, b);
                match find_bal(es, b) {
                    Some(k) => {
                        assert(es2[k] == es[k]);
                        match find_bal(es2, b) {
                            Some(k2) => {
                                if k2 < es.len() {
                                    assert(es2[k2] == es[k2]);
                                    assert(!(k2 < k)) by {
                                        if k2 < k {
                                            assert(es[k2].0 == b);
                                        }
                                    }
                                    assert(!(k < k2)) by {
                                        if k < k2 {
                                            assert(es2[k].0 == b);
                                        }
                                    }
                                } else {
                                    assert(es2[k2].0 == a);
                                    assert(false);
                                }
                            },
                            None => {
                                assert(es2[k].0 == b);
                                assert(false);
                            },
                        }
                    },
                    None => {
                        match find_bal(es2, b) {
                            Some(k2) => {
                                if k2 < es.len() {
                                    assert(es[k2] == es2[k2]);
                                    assert(false);
                                } else {
                                    assert(es2[k2].0 == a);
                                    assert(false);
                                }
                            },
                            None => {},
                        }
                    },
                }
            }
        },
    }
}

/// The mint flow, one transaction at a time: an applied mint raises the
/// supply by its amount and credits exactly the target address.
pub proof fn lemma_mint_effect(
    supply: int,
    es: Seq<(Seq<u8>, i64)>,
    t: TxView,
    to: Seq<u8>,
    amount: i64,
)
    requires
        (match t {
            TxView::Mint { to: t_to, amount: t_amount, .. } => t_to == to && t_amount == amount,
            _ => false,
        }),
        apply_tx_spec(supply, es, t) is Some,
    ensures
        ({
            let out = apply_tx_spec(supply, es, t)->0;
            &&& out.0 == supply + amount
            &&& lookup_bal(out.1, to) == lookup_bal(es, to) + amount
            &&& forall|b: Seq<u8>| b != to ==> lookup_bal(out.1, b) == lookup_bal(es, b)
        }),
{
    lemma_adjust_lookup(es, to, amount as int);
}

/// A whole transaction list applied in order.
pub open spec fn apply_txs_spec(supply: int, es: Seq<(Seq<u8>, i64)>, txs: Seq<TxView>) -> Option<
    (int, Seq<(Seq<u8>, i64)>),
>
    decreases txs.len(),
{
    if txs.len() == 0 {
        Some((supply, es))
    } else {
        match apply_tx_spec(supply, es, txs[0]) {
            Some((s2, es2)) => apply_txs_spec(s2, es2, txs.drop_first()),
            None => None,
        }
    }
}

/// The owner script after a transaction list: the last rotation wins.
pub open spec fn owner_after(script: Seq<u8>, txs: Seq<TxView>) -> Seq<u8>
    decreases txs.len(),
{
    if txs.len() == 0 {
        script
    } else {
        match txs[0] {
            TxView::Owner { base, minter, script: ns } => owner_after(ns, txs.drop_first()),
            _ => owner_after(script, txs.drop_first()),
        }
    }
}

/// The on-disk block log: one `u32 length || block` frame per block, in
/// height order.
pub open spec fn log_of(bs: Seq<BlockView>) -> Seq<u8>
    decreases bs.len(),
{
    if bs.len() == 0 {
        Seq::empty()
    } else {
        log_of(bs.drop_last()) + enc_u32(enc_block(bs.last()).len() as u32) + enc_block(bs.last())
    }
}



/// Blocks applied one after another, oldest first.
pub open spec fn apply_blocks_spec(
    supply: int,
    es: Seq<(Seq<u8>, i64)>,
    bs: Seq<BlockView>,
) -> Option<(int, Seq<(Seq<u8>, i64)>)>
    decreases bs.len(),
{
    if bs.len() == 0 {
        Some((supply, es))
    } else {
        match apply_txs_spec(supply, es, bs[0].transactions) {
            Some((s2, es2)) => apply_blocks_spec(s2, es2, bs.drop_first()),
            None => None,
        }
    }
}

/// The owner script after a run of blocks.
pub open spec fn owner_blocks_after(script: Seq<u8>, bs: Seq<BlockView>) -> Seq<u8>
    decreases bs.len(),
{
    if bs.len() == 0 {
        script
    } else {
        owner_blocks_after(owner_after(script, bs[0].transactions), bs.drop_first())
    }
}

/// Appending one more block continues the fold.
pub proof fn lemma_apply_blocks_push(
    supply: int,
    es: Seq<(Seq<u8>, i64)>,
    q: Seq<BlockView>,
    x: BlockView,
)
    ensures
        apply_blocks_spec(supply, es, q.push(x)) == (match apply_blocks_spec(supply, es, q) {
            Some((s2, es2)) => apply_txs_spec(s2, es2, x.transactions),
            None => None,
        }),
    decreases q.len(),
{
    if q.len() == 0 {
        assert(q.push(x).drop_first() =~= Seq::<BlockView>::empty());
        assert(q.push(x)[0] == x);
        match apply_txs_spec(supply, es, x.transactions) {
            Some((s2, es2)) => {
                assert(apply_blocks_spec(s2, es2, Seq::<BlockView>::empty()) == Some((s2, es2)));
            },
            None => {},
        }
        assert(apply_blocks_spec(supply, es, q) == Some((supply, es)));
    } else {
        assert(q.push(x).drop_first() =~= q.drop_first().push(x));
        assert(q.push(x)[0] == q[0]);
        match apply_txs_spec(supply, es, q[0].transactions) {
            Some((s2, es2)) => {
                lemma_apply_blocks_push(s2, es2, q.drop_first(), x);
            },
            None => {},
        }
    }
}

/// The owner fold continues the same way.
pub proof fn lemma_owner_blocks_push(script: Seq<u8>, q: Seq<BlockView>, x: BlockView)
    ensures
        owner_blocks_after(script, q.push(x)) == owner_after(
            owner_blocks_after(script, q),
            x.transactions,
        ),
    decreases q.len(),
{
    if q.len() == 0 {
        assert(q.push(x).drop_first() =~= Seq::<BlockView>::empty());
        assert(q.push(x)[0] == x);
        assert(owner_blocks_after(owner_after(script, x.transactions), Seq::<BlockView>::empty())
            == owner_after(script, x.transactions));
        assert(owner_blocks_after(script, q) == script);
    } else {
        assert(q.push(x).drop_first() =~= q.drop_first().push(x));
        assert(q.push(x)[0] == q[0]);
        lemma_owner_blocks_push(owner_after(script, q[0].transactions), q.drop_first(), x);
        assert(owner_blocks_after(script, q.push(x)) == owner_blocks_after(
            owner_after(script, q[0].transactions),
            q.drop_first().push(x),
        ));
        assert(owner_blocks_after(script, q) == owner_blocks_after(
            owner_after(script, q[0].transactions),
            q.drop_first(),
        ));
    }
}

/// A valid chain: heights are the positions, every later block commits to
/// its parent's header digest, and the supply, balances and owner script
/// are exactly the fold of every applied transaction since an empty start.
#[verifier::opaque]
pub open spec fn wf_chain(c: ChainView) -> bool {
    &&& forall|i: int| 0 <= i < c.blocks.len() ==> (#[trigger] c.blocks[i]).height == i
    &&& forall|i: int| 0 <= i < c.blocks.len() ==> wf_block(#[trigger] c.blocks[i])
    &&& forall|i: int|
        1 <= i < c.blocks.len() ==> (#[trigger] c.blocks[i]).previous_hash == sha256_of(
            enc_header(c.blocks[i - 1]),
        )
    &&& apply_blocks_spec(0, Seq::empty(), c.blocks) == Some((c.supply, c.balances))
    &&& c.owner_script == owner_blocks_after(Seq::empty(), c.blocks)
}

/// Appending a checked block keeps the chain valid.
pub proof fn lemma_wf_chain_extend(pre: ChainView, post: ChainView, bv: BlockView)
    requires
        wf_chain(pre),
        wf_block(bv),
        bv.height == pre.blocks.len(),
        pre.blocks.len() > 0 ==> bv.previous_hash == sha256_of(enc_header(pre.blocks.last())),
        post.blocks == pre.blocks.push(bv),
        apply_txs_spec(pre.supply, pre.balances, bv.transactions) == Some(
            (post.supply, post.balances),
        ),
        post.owner_script == owner_after(pre.owner_script, bv.transactions),
    ensures
        wf_chain(post),
{
    reveal(wf_chain);
    lemma_apply_blocks_push(0, Seq::empty(), pre.blocks, bv);
    lemma_owner_blocks_push(Seq::empty(), pre.blocks, bv);
    assert forall|i: int| 0 <= i < post.blocks.len() implies (#[trigger] post.blocks[i]).height
        == i by {
        if i < pre.blocks.len() {
            assert(post.blocks[i] == pre.blocks[i]);
        } else {
            assert(post.blocks[i] == bv);
        }
    }
    assert forall|i: int| 0 <= i < post.blocks.len() implies wf_block(
        #[trigger] post.blocks[i],
    ) by {
        if i < pre.blocks.len() {
            assert(post.blocks[i] == pre.blocks[i]);
        } else {
            assert(post.blocks[i] == bv);
        }
    }
    assert forall|i: int| 1 <= i < post.blocks.len() implies (
    #[trigger] post.blocks[i]).previous_hash == sha256_of(enc_header(post.blocks[i - 1])) by {
        if i < pre.blocks.len() {
            assert(post.blocks[i] == pre.blocks[i]);
            assert(post.blocks[i - 1] == pre.blocks[i - 1]);
        } else {
            assert(post.blocks[i] == bv);
            assert(post.blocks[i - 1] == pre.blocks.last());
        }
    }
}

/// An empty chain is valid.
pub proof fn lemma_wf_chain_empty(c: ChainView)
    requires
        c.blocks.len() == 0,
        c.supply == 0,
        c.balances.len() == 0,
        c.owner_script.len() == 0,
    ensures
        wf_chain(c),
{
    reveal(wf_chain);
    assert(c.blocks =~= Seq::<BlockView>::empty());
    assert(c.balances =~= Seq::<(Seq<u8>, i64)>::empty());
    assert(c.owner_script =~= Seq::<u8>::empty());
    assert(apply_blocks_spec(0, Seq::empty(), c.blocks) == Some((0int, Seq::<(
        Seq<u8>,
        i64,
    )>::empty())));
    assert(owner_blocks_after(Seq::empty(), c.blocks) == Seq::<u8>::empty());
}


/// A valid chain numbers its blocks by position.
pub proof fn lemma_wf_chain_heights(c: ChainView)
    requires
        wf_chain(c),
    ensures
        forall|i: int| 0 <= i < c.blocks.len() ==> (#[trigger] c.blocks[i]).height == i,
{
    reveal(wf_chain);
}

/// A valid chain holds only carriable blocks.
pub proof fn lemma_wf_chain_wf_blocks(c: ChainView)
    requires
        wf_chain(c),
    ensures
        forall|i: int| 0 <= i < c.blocks.len() ==> wf_block(#[trigger] c.blocks[i]),
{
    reveal(wf_chain);
}

/// A valid chain's books are the fold of its whole history.
pub proof fn lemma_wf_chain_books(c: ChainView)
    requires
        wf_chain(c),
    ensures
        apply_blocks_spec(0, Seq::empty(), c.blocks) == Some((c.supply, c.balances)),
        c.owner_script == owner_blocks_after(Seq::empty(), c.blocks),
        forall|i: int|
            1 <= i < c.blocks.len() ==> (#[trigger] c.blocks[i]).previous_hash == sha256_of(
                enc_header(c.blocks[i - 1]),
            ),
{
    reveal(wf_chain);
}

/// The chain state a log scan builds up.
#[verifier::ext_equal]
pub struct LogState {
    pub blocks: Seq<BlockView>,
    pub supply: int,
    pub balances: Seq<(Seq<u8>, i64)>,
    pub owner_script: Seq<u8>,
}


/// The block one log frame carries: the frame body must decode to a block
/// and be consumed exactly.
#[verifier::opaque]
pub open spec fn frame_block(log: Seq<u8>, pos: int, flen: int) -> Option<BlockView> {
    match crate::block::dec_block(log.subrange(pos + 4, pos + 4 + flen), 0) {
        Some((b, used)) => if used == flen {
            Some(b)
        } else {
            None
        },
        None => None,
    }
}

/// Decodes one frame body, accepting it only when the block fills the
/// frame exactly.
#[verifier::rlimit(100)]
#[verifier::spinoff_prover]
fn decode_frame(log: &[u8], pos: usize, flen: usize) -> (r: Option<Block>)
    requires
        pos + 4 + flen <= log@.len(),
    ensures
        match r {
            Some(b) => frame_block(log@, pos as int, flen as int) == Some(b@),
            None => frame_block(log@, pos as int, flen as int) is None,
        },
{
    proof {
        reveal(frame_block);
    }
    let log_len = log.len();
    let frame = vstd::slice::slice_subrange(log, pos + 4, pos + 4 + flen);
    match Block::decode_with_tx(frame, 0) {
        Some((b, used)) => {
            if used == flen {
                Some(b)
            } else {
                None
            }
        },
        None => None,
    }
}

/// What scanning a block log from `pos` onward yields: each frame is a
/// 32-bit length and a block that must decode exactly, link to the previous
/// one, be carriable, state the right transaction root, and apply cleanly.
/// A torn or undecodable tail ends the scan when `auto_trim` is set and
/// refuses the log otherwise.
#[verifier::opaque]
pub open spec fn spec_open_log(log: Seq<u8>, pos: int, st: LogState, auto_trim: bool) -> Result<
    LogState,
    BlockErr,
>
    decreases log.len() - pos,
{
    if pos < 0 || pos > log.len() {
        Err(BlockErr::CorruptLog)
    } else if pos == log.len() {
        Ok(st)
    } else if pos + 4 > log.len() {
        if auto_trim {
            Ok(st)
        } else {
            Err(BlockErr::CorruptLog)
        }
    } else {
        let flen = crate::serializer::be_u32_at(log, pos) as int;
        if pos + 4 + flen > log.len() {
            if auto_trim {
                Ok(st)
            } else {
                Err(BlockErr::CorruptLog)
            }
        } else {
            match frame_block(log, pos, flen) {
                None => if auto_trim {
                    Ok(st)
                } else {
                    Err(BlockErr::CorruptLog)
                },
                Some(b) => if st.blocks.len() == 0 && b.height != 0 {
                    Err(BlockErr::InvalidHeight)
                } else if st.blocks.len() > 0 && b.height != st.blocks.last().height + 1 {
                    Err(BlockErr::InvalidHeight)
                } else if st.blocks.len() > 0 && b.previous_hash != sha256_of(
                    enc_header(st.blocks.last()),
                ) {
                    Err(BlockErr::InvalidPrevHash)
                } else if !wf_block(b) {
                    Err(BlockErr::InvalidTx)
                } else if b.tx_merkle_root != sha256_of(enc_txs(b.transactions)) {
                    Err(BlockErr::InvalidMerkleRoot)
                } else {
                    match apply_txs_spec(st.supply, st.balances, b.transactions) {
                        None => Err(BlockErr::InvalidTx),
                        Some((s2, es2)) => spec_open_log(
                            log,
                            pos + 4 + flen,
                            LogState {
                                blocks: st.blocks.push(b),
                                supply: s2,
                                balances: es2,
                                owner_script: owner_after(st.owner_script, b.transactions),
                            },
                            auto_trim,
                        ),
                    }
                },
            }
        }
    }
}


/// The scan state a fresh chain starts from.
pub open spec fn empty_state() -> LogState {
    LogState {
        blocks: Seq::empty(),
        supply: 0,
        balances: Seq::empty(),
        owner_script: Seq::empty(),
    }
}

/// The scan state a chain holds.
pub open spec fn state_of(c: ChainView) -> LogState {
    LogState {
        blocks: c.blocks,
        supply: c.supply,
        balances: c.balances,
        owner_script: c.owner_script,
    }
}

/// The transaction block zero carries: the initial owner rotation under
/// the minter's key, with the unspendable owner script.
pub open spec fn genesis_tx_view(minter_key: Seq<u8>) -> TxView {
    TxView::Owner {
        base: TxBaseView { fee: 0, timestamp: 0, sig_pairs: Seq::empty() },
        minter: minter_key,
        script: seq![0u8],
    }
}

/// Block zero, determined by the minter key alone.
pub open spec fn genesis_view(minter_key: Seq<u8>) -> BlockView {
    BlockView {
        height: 0,
        timestamp: 0,
        previous_hash: Seq::new(32, |i: int| 0u8),
        tx_merkle_root: sha256_of(enc_txs(seq![genesis_tx_view(minter_key)])),
        sig_pairs: Seq::empty(),
        transactions: seq![genesis_tx_view(minter_key)],
    }
}

/// What opening a fresh genesis hands back.
pub struct GenesisBlockInfo {
    pub script: Vec<u8>,
}

/// Chain-wide figures: the head height and the minted token supply.
pub struct ChainProperties {
    pub height: u64,
    pub token_supply: Asset,
}

/// The chain: blocks in height order, plus the derived index state.
pub struct Blockchain {
    pub blocks: Vec<Block>,
    pub token_supply: Asset,
    pub balances: Vec<BalEntry>,
    pub owner_script: Vec<u8>,
    pub index_status: IndexStatus,
}

#[verifier::ext_equal]
pub struct ChainView {
    pub blocks: Seq<BlockView>,
    pub supply: int,
    pub balances: Seq<(Seq<u8>, i64)>,
    pub owner_script: Seq<u8>,
    pub status: IndexStatus,
}

impl View for Blockchain {
    type V = ChainView;

    open spec fn view(&self) -> ChainView {
        ChainView {
            blocks: Seq::new(self.blocks@.len(), |i: int| self.blocks@[i]@),
            supply: self.token_supply.amount as int,
            balances: Seq::new(
                self.balances@.len(),
                |i: int| (self.balances@[i].addr@, self.balances@[i].amount),
            ),
            owner_script: self.owner_script@,
            status: self.index_status,
        }
    }
}

/// Compares two byte strings.
pub fn bytes_eq(a: &[u8], b: &[u8]) -> (r: bool)
    ensures
        r == (a@ == b@),
{
    if a.len() != b.len() {
        proof {
            assert(a@ != b@);
        }
        return false;
    }
    let mut i: usize = 0;
    while i < a.len()
        invariant
            i <= a@.len(),
            a@.len() == b@.len(),
            forall|j: int| 0 <= j < i ==> a@[j] == b@[j],
        decreases a@.len() - i,
    {
        if a[i] != b[i] {
            return false;
        }
        i += 1;
    }
    proof {
        assert(a@ =~= b@);
    }
    true
}

/// Copies a byte vector.
pub fn clone_bytes(v: &Vec<u8>) -> (r: Vec<u8>)
    ensures
        r@ == v@,
{
    vstd::slice::slice_to_vec(v.as_slice())
}

impl Blockchain {
    /// A chain with nothing in it yet.
    pub fn new() -> (r: Blockchain)
        ensures
            r@.blocks.len() == 0,
            r@.supply == 0,
            r@.balances.len() == 0,
            r@.owner_script.len() == 0,
            r@.status == IndexStatus::Missing,
            wf_chain(r@),
    {
        let r = Blockchain {
            blocks: Vec::new(),
            token_supply: Asset { amount: 0 },
            balances: Vec::new(),
            owner_script: Vec::new(),
            index_status: IndexStatus::Missing,
        };
        proof {
            lemma_wf_chain_empty(r@);
        }
        r
    }

    /// True until the genesis block exists.
    pub fn is_empty(&self) -> (r: bool)
        ensures
            r == (self@.blocks.len() == 0),
    {
        self.blocks.len() == 0
    }

    pub fn index_status(&self) -> (r: IndexStatus)
        ensures
            r == self@.status,
    {
        self.index_status
    }

    /// The height of the chain head; a chain holding only the genesis block
    /// has height zero.
    pub fn get_chain_height(&self) -> (r: u64)
        requires
            self@.blocks.len() > 0,
        ensures
            r == self@.blocks.len() - 1,
    {
        (self.blocks.len() - 1) as u64
    }

    /// The most recently accepted block.
    pub fn get_chain_head(&self) -> (r: &Block)
        requires
            self@.blocks.len() > 0,
        ensures
            r@ == self@.blocks[self@.blocks.len() - 1],
    {
        &self.blocks[self.blocks.len() - 1]
    }

    /// The block at a height, if the chain reaches it.
    pub fn get_block(&self, height: u64) -> (r: Option<&Block>)
        ensures
            height < self@.blocks.len() ==> match r {
                Some(b) => b@ == self@.blocks[height as int],
                None => false,
            },
            height >= self@.blocks.len() ==> r is None,
    {
        if height < self.blocks.len() as u64 {
            Some(&self.blocks[height as usize])
        } else {
            None
        }
    }


    /// The block at a height with every transaction that touches no
    /// filtered address stripped; the header, signatures and merkle root
    /// are kept as they were.
    pub fn get_filtered_block(&self, height: u64, filter: &Vec<PublicKey>) -> (r: Option<Block>)
        ensures
            height >= self@.blocks.len() ==> r is None,
            height < self@.blocks.len() ==> match r {
                Some(b) => {
                    let orig = self@.blocks[height as int];
                    &&& b@.height == orig.height
                    &&& b@.timestamp == orig.timestamp
                    &&& b@.previous_hash == orig.previous_hash
                    &&& b@.tx_merkle_root == orig.tx_merkle_root
                    &&& b@.sig_pairs == orig.sig_pairs
                    &&& b@.transactions == orig.transactions.filter(
                        |t: TxView| tx_matches(t, filter_view(filter@)),
                    )
                },
                None => false,
            },
    {
        if height >= self.blocks.len() as u64 {
            return None;
        }
        let src = &self.blocks[height as usize];
        let ghost orig = self@.blocks[height as int];
        let ghost fv = filter_view(filter@);
        let mut txs: Vec<TxVariant> = Vec::new();
        let mut i: usize = 0;
        while i < src.transactions.len()
            invariant
                i <= src.transactions@.len(),
                orig == self@.blocks[height as int],
                fv == filter_view(filter@),
                orig.transactions == Seq::new(
                    src.transactions@.len(),
                    |k: int| src.transactions@[k]@,
                ),
                Seq::new(txs@.len(), |k: int| txs@[k]@) == orig.transactions.take(i as int).filter(
                    |t: TxView| tx_matches(t, fv),
                ),
            decreases src.transactions@.len() - i,
        {
            proof {
                assert(orig.transactions.take(i + 1).drop_last() =~= orig.transactions.take(
                    i as int,
                ));
                assert(orig.transactions.take(i + 1).last() == orig.transactions[i as int]);
                assert(orig.transactions[i as int] == src.transactions@[i as int]@);
                reveal(Seq::filter);
            }
            if tx_matches_filter(&src.transactions[i], filter) {
                txs.push(src.transactions[i].duplicate());
            }
            proof {
                assert(Seq::new(txs@.len(), |k: int| txs@[k]@) =~= orig.transactions.take(i + 1)
                    .filter(|t: TxView| tx_matches(t, fv)));
            }
            i += 1;
        }
        proof {
            assert(orig.transactions.take(orig.transactions.len() as int) =~= orig.transactions);
        }
        let b = Block {
            height: src.height,
            timestamp: src.timestamp,
            previous_hash: clone_bytes(&src.previous_hash),
            tx_merkle_root: clone_bytes(&src.tx_merkle_root),
            signature_pairs: crate::tx::clone_sig_pairs(&src.signature_pairs),
            transactions: txs,
        };
        proof {
            assert(b@.sig_pairs =~= orig.sig_pairs);
        }
        Some(b)
    }

    /// Height and token supply, as served to clients.
    pub fn get_properties(&self) -> (r: ChainProperties)
        requires
            self@.blocks.len() > 0,
        ensures
            r.height == self@.blocks.len() - 1,
            r.token_supply.amount == self@.supply,
    {
        ChainProperties {
            height: self.get_chain_height(),
            token_supply: Asset { amount: self.token_supply.amount },
        }
    }

    /// The balance an address holds.
    pub fn get_balance(&self, addr: &[u8]) -> (r: Asset)
        ensures
            r.amount == lookup_bal(self@.balances, addr@),
    {
        let mut i: usize = 0;
        proof {
            lemma_find_bal(self@.balances, addr@);
        }
        while i < self.balances.len()
            invariant
                i <= self.balances@.len(),
                forall|j: int| 0 <= j < i ==> self@.balances[j].0 != addr@,
            decreases self.balances@.len() - i,
        {
            if bytes_eq(self.balances[i].addr.as_slice(), addr) {
                proof {
                    assert(self@.balances[i as int].0 == self.balances@[i as int].addr@);
                    lemma_find_bal(self@.balances, addr@);
                    match find_bal(self@.balances, addr@) {
                        Some(k) => {
                            assert(!(k < i));
                            assert(!(k > i)) by {
                                if k > i {
                                    assert(self@.balances[i as int].0 != addr@);
                                }
                            }
                            assert(self@.balances[k].1 == self.balances@[i as int].amount);
                        },
                        None => {
                            assert(self@.balances[i as int].0 != addr@);
                            assert(false);
                        },
                    }
                }
                return Asset { amount: self.balances[i].amount };
            }
            proof {
                assert(self@.balances[i as int].0 == self.balances@[i as int].addr@);
            }
            i += 1;
        }
        proof {
            lemma_find_bal(self@.balances, addr@);
            match find_bal(self@.balances, addr@) {
                Some(k) => {
                    assert(0 <= k < self@.balances.len());
                    assert(self@.balances[k].0 != addr@);
                    assert(false);
                },
                None => {},
            }
        }
        Asset { amount: 0 }
    }
}


/// The balance entries a vector holds, as pairs of address and amount.
pub open spec fn bal_view(s: Seq<BalEntry>) -> Seq<(Seq<u8>, i64)> {
    Seq::new(s.len(), |i: int| (s[i].addr@, s[i].amount))
}

/// Applying one more transaction continues the fold.
pub proof fn lemma_apply_txs_push(supply: int, es: Seq<(Seq<u8>, i64)>, q: Seq<TxView>, x: TxView)
    ensures
        apply_txs_spec(supply, es, q.push(x)) == (match apply_txs_spec(supply, es, q) {
            Some((s2, es2)) => apply_tx_spec(s2, es2, x),
            None => None,
        }),
    decreases q.len(),
{
    if q.len() == 0 {
        assert(q.push(x).drop_first() =~= Seq::<TxView>::empty());
        assert(q.push(x)[0] == x);
        match apply_tx_spec(supply, es, x) {
            Some((s2, es2)) => {
                assert(apply_txs_spec(s2, es2, Seq::<TxView>::empty()) == Some((s2, es2)));
            },
            None => {},
        }
        assert(apply_txs_spec(supply, es, q) == Some((supply, es)));
    } else {
        assert(q.push(x).drop_first() =~= q.drop_first().push(x));
        assert(q.push(x)[0] == q[0]);
        match apply_tx_spec(supply, es, q[0]) {
            Some((s2, es2)) => {
                lemma_apply_txs_push(s2, es2, q.drop_first(), x);
                assert(apply_txs_spec(supply, es, q.push(x)) == apply_txs_spec(
                    s2,
                    es2,
                    q.drop_first().push(x),
                ));
                assert(apply_txs_spec(supply, es, q) == apply_txs_spec(s2, es2, q.drop_first()));
            },
            None => {},
        }
    }
}

/// Once a prefix fails to apply, the whole list fails.
pub proof fn lemma_apply_txs_none(supply: int, es: Seq<(Seq<u8>, i64)>, txs: Seq<TxView>, j: int)
    requires
        0 <= j <= txs.len(),
        apply_txs_spec(supply, es, txs.take(j)) is None,
    ensures
        apply_txs_spec(supply, es, txs) is None,
    decreases txs.len(),
{
    if txs.len() == 0 {
        assert(txs.take(j) =~= Seq::<TxView>::empty());
        assert(false);
    } else if j == 0 {
        assert(txs.take(0) =~= Seq::<TxView>::empty());
        assert(false);
    } else {
        assert(txs.take(j)[0] == txs[0]);
        match apply_tx_spec(supply, es, txs[0]) {
            None => {},
            Some((s2, es2)) => {
                assert(txs.take(j).drop_first() =~= txs.drop_first().take(j - 1));
                lemma_apply_txs_none(s2, es2, txs.drop_first(), j - 1);
            },
        }
    }
}

/// The owner rotation folds the same way.
pub proof fn lemma_owner_after_push(script: Seq<u8>, q: Seq<TxView>, x: TxView)
    ensures
        owner_after(script, q.push(x)) == (match x {
            TxView::Owner { base, minter, script: ns } => ns,
            _ => owner_after(script, q),
        }),
    decreases q.len(),
{
    if q.len() == 0 {
        assert(q.push(x).drop_first() =~= Seq::<TxView>::empty());
        assert(q.push(x)[0] == x);
        match x {
            TxView::Owner { base, minter, script: ns } => {
                assert(owner_after(ns, Seq::<TxView>::empty()) == ns);
            },
            _ => {
                assert(owner_after(script, Seq::<TxView>::empty()) == script);
                assert(owner_after(script, q) == script);
            },
        }
    } else {
        assert(q.push(x).drop_first() =~= q.drop_first().push(x));
        assert(q.push(x)[0] == q[0]);
        match q[0] {
            TxView::Owner { base, minter, script: ns } => {
                lemma_owner_after_push(ns, q.drop_first(), x);
            },
            _ => {
                lemma_owner_after_push(script, q.drop_first(), x);
            },
        }
    }
}

/// First entry for an address, mirroring `find_bal`.
fn find_entry(es: &Vec<BalEntry>, addr: &[u8]) -> (r: Option<usize>)
    ensures
        match r {
            Some(i) => find_bal(bal_view(es@), addr@) == Some(i as int) && i < es@.len(),
            None => find_bal(bal_view(es@), addr@) is None,
        },
{
    let mut i: usize = 0;
    while i < es.len()
        invariant
            i <= es@.len(),
            forall|j: int| 0 <= j < i ==> bal_view(es@)[j].0 != addr@,
        decreases es@.len() - i,
    {
        if bytes_eq(es[i].addr.as_slice(), addr) {
            proof {
                assert(bal_view(es@)[i as int].0 == addr@);
                lemma_find_bal(bal_view(es@), addr@);
                match find_bal(bal_view(es@), addr@) {
                    Some(k) => {
                        assert(!(k < i));
                        assert(!(k > i)) by {
                            if k > i {
                                assert(bal_view(es@)[i as int].0 != addr@);
                            }
                        }
                    },
                    None => {
                        assert(false);
                    },
                }
            }
            return Some(i);
        }
        proof {
            assert(bal_view(es@)[i as int].0 == es@[i as int].addr@);
        }
        i += 1;
    }
    proof {
        lemma_find_bal(bal_view(es@), addr@);
        match find_bal(bal_view(es@), addr@) {
            Some(k) => {
                assert(0 <= k < bal_view(es@).len());
                assert(bal_view(es@)[k].0 != addr@);
                assert(false);
            },
            None => {},
        }
    }
    None
}

/// Adds `delta` to an address, failing on a negative result or overflow.
/// On failure the entries are not meaningful and must be discarded.
fn adjust_balance(es: &mut Vec<BalEntry>, addr: &[u8], delta: i64) -> (r: bool)
    ensures
        match adjust_bal(bal_view(old(es)@), addr@, delta as int) {
            Some(es2) => r && bal_view(final(es)@) == es2,
            None => !r,
        },
{
    proof {
        lemma_find_bal(bal_view(es@), addr@);
    }
    match find_entry(es, addr) {
        Some(i) => {
            let cur = es[i].amount;
            let nv = match cur.checked_add(delta) {
                Some(v) => v,
                None => {
                    return false;
                },
            };
            if nv < 0 {
                return false;
            }
            let old_e = es.remove(i);
            es.insert(i, BalEntry { addr: old_e.addr, amount: nv });
            proof {
                assert(bal_view(es@) =~= bal_view(old(es)@).update(
                    i as int,
                    (addr@, nv),
                ));
            }
            true
        },
        None => {
            if delta < 0 {
                return false;
            }
            es.push(BalEntry { addr: vstd::slice::slice_to_vec(addr), amount: delta });
            proof {
                assert(bal_view(es@) =~= bal_view(old(es)@).push((addr@, delta)));
            }
            true
        },
    }
}

/// Applies one transaction to the supply and balance books. On failure the
/// books are not meaningful and must be discarded.
fn apply_tx(supply: &mut Asset, es: &mut Vec<BalEntry>, t: &TxVariant) -> (r: bool)
    ensures
        match apply_tx_spec(old(supply).amount as int, bal_view(old(es)@), t@) {
            Some((s2, es2)) => r && final(supply).amount == s2 && bal_view(final(es)@) == es2,
            None => !r,
        },
{
    match t {
        TxVariant::Mint(m) => {
            if m.amount.amount < 0 {
                return false;
            }
            let ns = match supply.amount.checked_add(m.amount.amount) {
                Some(v) => v,
                None => {
                    return false;
                },
            };
            if !adjust_balance(es, m.to.bytes.as_slice(), m.amount.amount) {
                return false;
            }
            supply.amount = ns;
            true
        },
        TxVariant::Reward(w) => {
            if w.rewards.amount < 0 {
                return false;
            }
            adjust_balance(es, w.to.bytes.as_slice(), w.rewards.amount)
        },
        TxVariant::Transfer(tr) => {
            if tr.amount.amount < 0 || tr.base.fee.amount < 0 {
                return false;
            }
            let total = match tr.amount.amount.checked_add(tr.base.fee.amount) {
                Some(v) => v,
                None => {
                    return false;
                },
            };
            let src = sha256(tr.from.as_slice());
            if !adjust_balance(es, src.as_slice(), -total) {
                return false;
            }
            adjust_balance(es, tr.to.bytes.as_slice(), tr.amount.amount)
        },
        TxVariant::Owner(_) => true,
    }
}


/// Shape and merkle checks on a block body: the wire format must carry it,
/// and its stated transaction root must be the digest of the encoded
/// transactions.
fn check_block_content(b: &Block) -> (r: Option<BlockErr>)
    ensures
        !wf_block(b@) ==> r == Some(BlockErr::InvalidTx),
        wf_block(b@) && b@.tx_merkle_root != sha256_of(enc_txs(b@.transactions)) ==> r == Some(
            BlockErr::InvalidMerkleRoot,
        ),
        wf_block(b@) && b@.tx_merkle_root == sha256_of(enc_txs(b@.transactions)) ==> r is None,
{
    if !b.check_wf() {
        return Some(BlockErr::InvalidTx);
    }
    proof {
        assert forall|i: int| 0 <= i < b.transactions@.len() implies wf_tx(
            (#[trigger] b.transactions@[i])@,
        ) by {
            assert(b@.transactions[i] == b.transactions@[i]@);
        }
    }
    let tb = crate::block::encode_tx_list(&b.transactions);
    let root = sha256(tb.as_slice());
    proof {
        assert(Seq::new(b.transactions@.len(), |i: int| b.transactions@[i]@) =~= b@.transactions);
    }
    if !bytes_eq(root.as_slice(), b.tx_merkle_root.as_slice()) {
        return Some(BlockErr::InvalidMerkleRoot);
    }
    None
}


/// Membership of an address in a filter.
pub open spec fn addr_in(f: Seq<Seq<u8>>, a: Seq<u8>) -> bool {
    exists|i: int| 0 <= i < f.len() && f[i] == a
}

/// Whether a transaction touches any filtered address: the credited
/// address, the rotated minter key, or a transfer's source script hash.
pub open spec fn tx_matches(t: TxView, f: Seq<Seq<u8>>) -> bool {
    match t {
        TxView::Owner { minter, .. } => addr_in(f, minter),
        TxView::Mint { to, .. } => addr_in(f, to),
        TxView::Reward { to, .. } => addr_in(f, to),
        TxView::Transfer { from, to, .. } => addr_in(f, to) || addr_in(f, sha256_of(from)),
    }
}

/// The view of a filter's keys.
pub open spec fn filter_view(f: Seq<PublicKey>) -> Seq<Seq<u8>> {
    Seq::new(f.len(), |i: int| f[i]@)
}

/// Tests one address against the filter.
fn addr_in_filter(filter: &Vec<PublicKey>, a: &[u8]) -> (r: bool)
    ensures
        r == addr_in(filter_view(filter@), a@),
{
    let mut i: usize = 0;
    while i < filter.len()
        invariant
            i <= filter@.len(),
            forall|j: int| 0 <= j < i ==> filter_view(filter@)[j] != a@,
        decreases filter@.len() - i,
    {
        if bytes_eq(filter[i].bytes.as_slice(), a) {
            proof {
                assert(filter_view(filter@)[i as int] == a@);
            }
            return true;
        }
        proof {
            assert(filter_view(filter@)[i as int] == filter@[i as int]@);
        }
        i += 1;
    }
    false
}

/// Tests one transaction against the filter.
fn tx_matches_filter(t: &TxVariant, filter: &Vec<PublicKey>) -> (r: bool)
    ensures
        r == tx_matches(t@, filter_view(filter@)),
{
    match t {
        TxVariant::Owner(x) => addr_in_filter(filter, x.minter.bytes.as_slice()),
        TxVariant::Mint(x) => addr_in_filter(filter, x.to.bytes.as_slice()),
        TxVariant::Reward(x) => addr_in_filter(filter, x.to.bytes.as_slice()),
        TxVariant::Transfer(x) => {
            if addr_in_filter(filter, x.to.bytes.as_slice()) {
                return true;
            }
            let src = sha256(x.from.as_slice());
            addr_in_filter(filter, src.as_slice())
        },
    }
}


/// Filtering keeps only carriable transactions of a carriable list, and no
/// more of them.
pub proof fn lemma_filter_wf_txs(ts: Seq<TxView>, pred: spec_fn(TxView) -> bool)
    requires
        forall|i: int| 0 <= i < ts.len() ==> wf_tx(#[trigger] ts[i]),
    ensures
        ts.filter(pred).len() <= ts.len(),
        forall|k: int| 0 <= k < ts.filter(pred).len() ==> wf_tx(#[trigger] ts.filter(pred)[k]),
    decreases ts.len(),
{
    reveal(Seq::filter);
    if ts.len() > 0 {
        assert(forall|i: int| 0 <= i < ts.drop_last().len() ==> wf_tx(
            #[trigger] ts.drop_last()[i],
        ));
        lemma_filter_wf_txs(ts.drop_last(), pred);
        let sub = ts.drop_last().filter(pred);
        if pred(ts.last()) {
            assert(wf_tx(ts.last()));
            assert forall|k: int| 0 <= k < ts.filter(pred).len() implies wf_tx(
                #[trigger] ts.filter(pred)[k],
            ) by {
                if k < sub.len() {
                    assert(ts.filter(pred)[k] == sub[k]);
                } else {
                    assert(ts.filter(pred)[k] == ts.last());
                }
            }
        }
    }
}

/// The block at `h` with the filter applied, as served to a filtered
/// connection.
pub open spec fn filtered_view(bv: BlockView, f: Seq<Seq<u8>>) -> BlockView {
    BlockView {
        height: bv.height,
        timestamp: bv.timestamp,
        previous_hash: bv.previous_hash,
        tx_merkle_root: bv.tx_merkle_root,
        sig_pairs: bv.sig_pairs,
        transactions: bv.transactions.filter(|t: TxView| tx_matches(t, f)),
    }
}

/// A carriable block stays carriable after filtering.
pub proof fn lemma_filtered_wf(bv: BlockView, f: Seq<Seq<u8>>)
    requires
        wf_block(bv),
    ensures
        wf_block(filtered_view(bv, f)),
{
    lemma_filter_wf_txs(bv.transactions, |t: TxView| tx_matches(t, f));
}

impl Blockchain {
    /// Applies and appends a block without linkage checks; used for the
    /// genesis block and internally after validation.
    fn commit_block(&mut self, b: Block) -> (r: Result<(), BlockErr>)
        ensures
            match apply_txs_spec(old(self)@.supply, old(self)@.balances, b@.transactions) {
                Some((s2, es2)) => r == Ok::<(), BlockErr>(()) && final(self)@ == (ChainView {
                    blocks: old(self)@.blocks.push(b@),
                    supply: s2,
                    balances: es2,
                    owner_script: owner_after(old(self)@.owner_script, b@.transactions),
                    status: old(self)@.status,
                }),
                None => r == Err::<(), BlockErr>(BlockErr::InvalidTx) && final(self)@ == old(
                    self,
                )@,
            },
    {
        let ghost txs = b@.transactions;
        let mut s2 = Asset { amount: self.token_supply.amount };
        let mut es2: Vec<BalEntry> = Vec::new();
        let mut ci: usize = 0;
        while ci < self.balances.len()
            invariant
                ci <= self.balances@.len(),
                bal_view(es2@) == bal_view(self.balances@).take(ci as int),
            decreases self.balances@.len() - ci,
        {
            proof {
                assert(bal_view(es2@).len() == es2@.len());
                assert(es2@.len() == ci);
            }
            es2.push(
                BalEntry {
                    addr: clone_bytes(&self.balances[ci].addr),
                    amount: self.balances[ci].amount,
                },
            );
            proof {
                assert forall|k: int| 0 <= k < ci + 1 implies bal_view(es2@)[k] == bal_view(
                    self.balances@,
                ).take(ci + 1)[k] by {
                    assert(bal_view(es2@)[k] == (es2@[k].addr@, es2@[k].amount));
                    assert(bal_view(self.balances@)[k] == (
                        self.balances@[k].addr@,
                        self.balances@[k].amount,
                    ));
                }
                assert(bal_view(es2@) =~= bal_view(self.balances@).take(ci + 1));
            }
            ci += 1;
        }
        proof {
            assert(bal_view(self.balances@).take(self.balances@.len() as int) =~= bal_view(
                self.balances@,
            ));
            assert(bal_view(es2@) == self@.balances);
        }
        let mut owner2 = clone_bytes(&self.owner_script);
        let mut i: usize = 0;
        while i < b.transactions.len()
            invariant
                i <= b.transactions@.len(),
                txs == b@.transactions,
                apply_txs_spec(old(self)@.supply, old(self)@.balances, txs.take(i as int))
                    == Some((s2.amount as int, bal_view(es2@))),
                owner2@ == owner_after(old(self)@.owner_script, txs.take(i as int)),
            decreases b.transactions@.len() - i,
        {
            proof {
                assert(txs.take(i + 1) =~= txs.take(i as int).push(txs[i as int]));
                lemma_apply_txs_push(
                    old(self)@.supply,
                    old(self)@.balances,
                    txs.take(i as int),
                    txs[i as int],
                );
                lemma_owner_after_push(
                    old(self)@.owner_script,
                    txs.take(i as int),
                    txs[i as int],
                );
            }
            if !apply_tx(&mut s2, &mut es2, &b.transactions[i]) {
                proof {
                    lemma_apply_txs_none(
                        old(self)@.supply,
                        old(self)@.balances,
                        txs,
                        i + 1,
                    );
                }
                return Err(BlockErr::InvalidTx);
            }
            if let TxVariant::Owner(o) = &b.transactions[i] {
                owner2 = clone_bytes(&o.script);
            }
            i += 1;
        }
        proof {
            assert(txs.take(txs.len() as int) =~= txs);
        }
        self.token_supply = s2;
        self.balances = es2;
        self.owner_script = owner2;
        self.blocks.push(b);
        proof {
            assert(final(self)@.blocks =~= old(self)@.blocks.push(b@));
            assert(final(self)@ == (ChainView {
                blocks: old(self)@.blocks.push(b@),
                supply: s2.amount as int,
                balances: bal_view(es2@),
                owner_script: owner2@,
                status: old(self)@.status,
            }));
        }
        Ok(())
    }

    /// Accepts the next block: its height must be one above the head, its
    /// parent hash must match the head's header digest, and every
    /// transaction must apply cleanly; only then is anything committed.
    #[verifier::rlimit(100)]
    #[verifier::spinoff_prover]
    pub fn insert_block(&mut self, b: Block) -> (r: Result<(), BlockErr>)
        ensures
            wf_chain(old(self)@) ==> wf_chain(final(self)@),
            old(self)@.blocks.len() == 0 ==> r == Err::<(), BlockErr>(BlockErr::NoGenesis)
                && final(self)@ == old(self)@,
            old(self)@.blocks.len() > 0 ==> ({
                let head = old(self)@.blocks.last();
                if b@.height != head.height + 1 {
                    r == Err::<(), BlockErr>(BlockErr::InvalidHeight) && final(self)@ == old(
                        self,
                    )@
                } else if b@.previous_hash != sha256_of(enc_header(head)) {
                    r == Err::<(), BlockErr>(BlockErr::InvalidPrevHash) && final(self)@ == old(
                        self,
                    )@
                } else if !wf_block(b@) {
                    r == Err::<(), BlockErr>(BlockErr::InvalidTx) && final(self)@ == old(self)@
                } else if b@.tx_merkle_root != sha256_of(enc_txs(b@.transactions)) {
                    r == Err::<(), BlockErr>(BlockErr::InvalidMerkleRoot) && final(self)@ == old(
                        self,
                    )@
                } else {
                    match apply_txs_spec(old(self)@.supply, old(self)@.balances, b@.transactions) {
                        Some((s2, es2)) => r == Ok::<(), BlockErr>(()) && final(self)@
                            == (ChainView {
                            blocks: old(self)@.blocks.push(b@),
                            supply: s2,
                            balances: es2,
                            owner_script: owner_after(
                                old(self)@.owner_script,
                                b@.transactions,
                            ),
                            status: old(self)@.status,
                        }),
                        None => r == Err::<(), BlockErr>(BlockErr::InvalidTx) && final(self)@
                            == old(self)@,
                    }
                }
            }),
    {
        if self.blocks.len() == 0 {
            return Err(BlockErr::NoGenesis);
        }
        let expected = match self.get_chain_head().height.checked_add(1) {
            Some(h) => h,
            None => {
                return Err(BlockErr::InvalidHeight);
            },
        };
        if b.height != expected {
            return Err(BlockErr::InvalidHeight);
        }
        let mut hb: Vec<u8> = Vec::new();
        self.get_chain_head().encode_header(&mut hb);
        let hash = sha256(hb.as_slice());
        if !bytes_eq(hash.as_slice(), b.previous_hash.as_slice()) {
            return Err(BlockErr::InvalidPrevHash);
        }
        match check_block_content(&b) {
            Some(e) => {
                return Err(e);
            },
            None => {},
        }
        let ghost bv = b@;
        let result = self.commit_block(b);
        proof {
            if wf_chain(old(self)@) && result is Ok {
                lemma_wf_chain_heights(old(self)@);
                assert(bv.height == old(self)@.blocks.len());
                lemma_wf_chain_extend(old(self)@, final(self)@, bv);
            }
        }
        result
    }

    /// Builds block zero: a fixed owner script that can never spend, carried
    /// by an owner transaction under the minter's key.
    pub fn create_genesis_block(&mut self, minter_key: PublicKey) -> (r: GenesisBlockInfo)
        requires
            old(self)@.blocks.len() == 0,
            old(self)@.balances.len() == 0,
            old(self)@.supply == 0,
            minter_key@.len() == 32,
        ensures
            wf_chain(final(self)@),
            final(self)@.blocks.len() == 1,
            final(self)@.blocks[0] == genesis_view(minter_key@),
            final(self)@.owner_script == seq![0u8],
            final(self)@.status == IndexStatus::Complete,
            final(self)@.supply == old(self)@.supply,
            final(self)@.balances == old(self)@.balances,
            r.script@ == seq![0u8],
    {
        let mut script: Vec<u8> = Vec::new();
        script.push(0u8);
        let owner_tx = TxVariant::Owner(
            OwnerTx {
                base: Tx {
                    fee: Asset { amount: 0 },
                    timestamp: 0,
                    signature_pairs: Vec::new(),
                },
                minter: minter_key,
                script: clone_bytes(&script),
            },
        );
        let mut txb: Vec<u8> = Vec::new();
        owner_tx.encode_with_sigs(&mut txb);
        let root = sha256(txb.as_slice());
        let mut prev: Vec<u8> = Vec::new();
        let mut i: usize = 0;
        while i < 32
            invariant
                prev@.len() == i,
                i <= 32,
                forall|j: int| 0 <= j < i ==> prev@[j] == 0u8,
            decreases 32 - i,
        {
            prev.push(0u8);
            i += 1;
        }
        let mut txs: Vec<TxVariant> = Vec::new();
        txs.push(owner_tx);
        let genesis = Block {
            height: 0,
            timestamp: 0,
            previous_hash: prev,
            tx_merkle_root: root,
            signature_pairs: Vec::new(),
            transactions: txs,
        };
        self.blocks.push(genesis);
        self.owner_script = clone_bytes(&script);
        self.index_status = IndexStatus::Complete;
        proof {
            assert(final(self)@.blocks.len() == 1);
            assert(final(self)@.balances =~= old(self)@.balances);
            assert(final(self)@.owner_script =~= seq![0u8]);
            assert(script@ =~= seq![0u8]);
            let gtx = genesis_tx_view(minter_key@);
            assert(final(self)@.blocks[0].transactions[0] =~~= gtx);
            assert(final(self)@.blocks[0].transactions =~~= seq![gtx]);
            assert(seq![gtx].drop_first() =~= Seq::<TxView>::empty());
            assert(seq![gtx][0] == gtx);
            assert(enc_txs(Seq::<TxView>::empty()) == Seq::<u8>::empty());
            assert(enc_txs(seq![gtx]) == enc_tx(gtx) + enc_txs(seq![gtx].drop_first()));
            assert(enc_txs(seq![gtx]) =~= enc_tx(gtx));
            assert(txb@ == enc_txs(seq![gtx]));
            assert(final(self)@.blocks[0].previous_hash =~= Seq::new(32, |i: int| 0u8));
            assert(final(self)@.blocks[0].sig_pairs =~= Seq::<crate::tx::SigPairView>::empty());
            assert(final(self)@.blocks[0] =~~= genesis_view(minter_key@));
            let bs = final(self)@.blocks;
            assert(bs =~= Seq::<BlockView>::empty().push(bs[0]));
            let es0: Seq<(Seq<u8>, i64)> = Seq::empty();
            let gtx = bs[0].transactions[0];
            assert(gtx is Owner);
            assert(apply_tx_spec(0, es0, gtx) == Some((0int, es0)));
            assert(bs[0].transactions.drop_first() =~= Seq::<TxView>::empty());
            assert(apply_txs_spec(0, es0, Seq::<TxView>::empty()) == Some((0int, es0)));
            assert(bs[0].transactions[0] == gtx);
            assert(apply_txs_spec(0, es0, bs[0].transactions) == Some((0int, es0)));
            assert(owner_after(seq![0u8], Seq::<TxView>::empty()) == seq![0u8]);
            assert(owner_after(Seq::empty(), bs[0].transactions) =~= seq![0u8]);
            assert(final(self)@.balances =~= Seq::<(Seq<u8>, i64)>::empty());
            let pre = ChainView {
                blocks: Seq::empty(),
                supply: 0,
                balances: Seq::empty(),
                owner_script: Seq::empty(),
                status: old(self)@.status,
            };
            lemma_wf_chain_empty(pre);
            assert(bs[0].previous_hash.len() == 32);
            assert(bs[0].tx_merkle_root.len() == 32);
            assert(bs[0].sig_pairs.len() == 0);
            assert(crate::tx::wf_base_pairs(bs[0].sig_pairs));
            assert(wf_tx(gtx));
            assert forall|i: int| 0 <= i < bs[0].transactions.len() implies wf_tx(
                #[trigger] bs[0].transactions[i],
            ) by {
                assert(bs[0].transactions[i] == gtx);
            }
            assert(wf_block(bs[0]));
            lemma_wf_chain_extend(
                pre,
                ChainView {
                    blocks: bs,
                    supply: 0,
                    balances: es0,
                    owner_script: seq![0u8],
                    status: final(self)@.status,
                },
                bs[0],
            );
            reveal(wf_chain);
            assert(wf_chain(final(self)@));
        }
        GenesisBlockInfo { script }
    }

    /// Scans one frame of the log: either the scan is over (end of log or a
    /// trimmed tail), or one more block was committed, or the log is
    /// refused.
    #[verifier::rlimit(100)]
    #[verifier::spinoff_prover]
    fn open_step(&mut self, log: &[u8], pos: usize, auto_trim: bool) -> (r: Result<
        Option<usize>,
        BlockErr,
    >)
        requires
            pos < log@.len(),
            wf_chain(old(self)@),
        ensures
            final(self)@.status == old(self)@.status,
            wf_chain(final(self)@),
            match r {
                Ok(Some(p2)) => pos < p2 <= log@.len() && spec_open_log(
                    log@,
                    pos as int,
                    state_of(old(self)@),
                    auto_trim,
                ) == spec_open_log(log@, p2 as int, state_of(final(self)@), auto_trim),
                Ok(None) => final(self)@ == old(self)@ && spec_open_log(
                    log@,
                    pos as int,
                    state_of(old(self)@),
                    auto_trim,
                ) == Ok::<LogState, BlockErr>(state_of(old(self)@)),
                Err(e) => spec_open_log(log@, pos as int, state_of(old(self)@), auto_trim)
                    == Err::<LogState, BlockErr>(e),
            },
    {
        proof {
            reveal(spec_open_log);
        }
        let ghost cur = state_of(self@);
        let (flen, body_start) = match crate::serializer::read_u32(log, pos) {
            Some(x) => x,
            None => {
                // torn length field
                if auto_trim {
                    return Ok(None);
                }
                return Err(BlockErr::CorruptLog);
            },
        };
        if flen as usize > log.len() - body_start {
            // torn frame body
            if auto_trim {
                return Ok(None);
            }
            return Err(BlockErr::CorruptLog);
        }
        let b = match decode_frame(log, pos, flen as usize) {
            Some(x) => x,
            None => {
                if auto_trim {
                    return Ok(None);
                }
                return Err(BlockErr::CorruptLog);
            },
        };
        if self.is_empty() {
            if b.height != 0 {
                return Err(BlockErr::InvalidHeight);
            }
        } else {
            let expected = match self.get_chain_head().height.checked_add(1) {
                Some(h) => h,
                None => {
                    return Err(BlockErr::InvalidHeight);
                },
            };
            if b.height != expected {
                return Err(BlockErr::InvalidHeight);
            }
            let mut hb: Vec<u8> = Vec::new();
            self.get_chain_head().encode_header(&mut hb);
            let hash = sha256(hb.as_slice());
            if !bytes_eq(hash.as_slice(), b.previous_hash.as_slice()) {
                return Err(BlockErr::InvalidPrevHash);
            }
        }
        match check_block_content(&b) {
            Some(e) => {
                return Err(e);
            },
            None => {},
        }
        let ghost bv = b@;
        let ghost pre_chain = self@;
        match self.commit_block(b) {
            Ok(_) => {},
            Err(e) => {
                return Err(e);
            },
        }
        proof {
            lemma_wf_chain_heights(pre_chain);
            assert(bv.height == pre_chain.blocks.len());
            lemma_wf_chain_extend(pre_chain, self@, bv);
            assert(state_of(self@) =~~= (LogState {
                blocks: cur.blocks.push(bv),
                supply: self@.supply,
                balances: self@.balances,
                owner_script: owner_after(cur.owner_script, bv.transactions),
            }));
        }
        Ok(Some(body_start + flen as usize))
    }

    /// Reopens a chain from an on-disk frame log, exactly as
    /// `spec_open_log` describes the scan: the recovered chain holds the
    /// logged blocks with the balances, supply and owner script they imply,
    /// and the index status is complete.
    #[verifier::rlimit(100)]
    #[verifier::spinoff_prover]
    pub fn open_from_log(log: &[u8], auto_trim: bool) -> (r: Result<Blockchain, BlockErr>)
        ensures
            match spec_open_log(log@, 0, empty_state(), auto_trim) {
                Ok(st) => match r {
                    Ok(c) => c@.blocks == st.blocks && c@.supply == st.supply && c@.balances
                        == st.balances && c@.owner_script == st.owner_script && c@.status
                        == IndexStatus::Complete,
                    Err(_) => false,
                },
                Err(e) => r == Err::<Blockchain, BlockErr>(e),
            },
    {
        let ghost init = empty_state();
        let mut chain = Blockchain::new();
        proof {
            assert(state_of(chain@) =~~= init);
        }
        let mut pos: usize = 0;
        loop
            invariant_except_break
                pos <= log@.len(),
                init == empty_state(),
                wf_chain(chain@),
                chain@.status == IndexStatus::Missing,
                spec_open_log(log@, 0, init, auto_trim) == spec_open_log(
                    log@,
                    pos as int,
                    state_of(chain@),
                    auto_trim,
                ),
            ensures
                chain@.status == IndexStatus::Missing,
                wf_chain(chain@),
                spec_open_log(log@, 0, init, auto_trim) == Ok::<LogState, BlockErr>(
                    state_of(chain@),
                ),
            decreases log@.len() - pos,
        {
            if pos == log.len() {
                proof {
                    reveal(spec_open_log);
                }
                break ;
            }
            let ghost pre = state_of(chain@);
            match chain.open_step(log, pos, auto_trim) {
                Ok(Some(p2)) => {
                    pos = p2;
                },
                Ok(None) => {
                    break ;
                },
                Err(e) => {
                    proof {
                        assert(spec_open_log(log@, pos as int, pre, auto_trim)
                            == Err::<LogState, BlockErr>(e));
                        assert(spec_open_log(log@, 0, init, auto_trim) == Err::<
                            LogState,
                            BlockErr,
                        >(e));
                    }
                    return Err(e);
                },
            }
        }
        proof {
            reveal(wf_chain);
        }
        chain.index_status = IndexStatus::Complete;
        Ok(chain)
    }

    /// Writes the whole chain as its on-disk log: one `u32 length || block`
    /// frame per block, in height order. Succeeds exactly when every block
    /// can be carried by the wire format and its encoding fits the length
    /// field; on failure nothing is appended.
    #[verifier::rlimit(100)]
    pub fn write_log(&self, out: &mut Vec<u8>) -> (r: Result<(), BlockErr>)
        ensures
            (forall|i: int|
                0 <= i < self@.blocks.len() ==> wf_block(#[trigger] self@.blocks[i]) && enc_block(
                    self@.blocks[i],
                ).len() <= u32::MAX) <==> r is Ok,
            r is Ok ==> final(out)@ == old(out)@ + log_of(self@.blocks),
            r is Err ==> final(out)@ == old(out)@ && r == Err::<(), BlockErr>(
                BlockErr::OversizeBlock,
            ),
    {
        let ghost bviews = self@.blocks;
        let mut tmp: Vec<u8> = Vec::new();
        let mut i: usize = 0;
        while i < self.blocks.len()
            invariant
                i <= self.blocks@.len(),
                bviews == self@.blocks,
                forall|k: int|
                    0 <= k < i ==> wf_block(#[trigger] bviews[k]) && enc_block(bviews[k]).len()
                        <= u32::MAX,
                tmp@ == log_of(bviews.take(i as int)),
            decreases self.blocks@.len() - i,
        {
            proof {
                assert(bviews[i as int] == self.blocks@[i as int]@);
            }
            if !self.blocks[i].check_wf() {
                return Err(BlockErr::OversizeBlock);
            }
            let mut bb: Vec<u8> = Vec::new();
            self.blocks[i].encode_with_tx(&mut bb);
            if bb.len() > u32::MAX as usize {
                return Err(BlockErr::OversizeBlock);
            }
            crate::serializer::push_u32(&mut tmp, bb.len() as u32);
            crate::serializer::push_slice(&mut tmp, bb.as_slice());
            proof {
                assert(bviews.take(i + 1).drop_last() =~= bviews.take(i as int));
                assert(bviews.take(i + 1).last() == bviews[i as int]);
                assert(tmp@ =~= log_of(bviews.take(i + 1)));
            }
            i += 1;
        }
        proof {
            assert(bviews.take(bviews.len() as int) =~= bviews);
        }
        crate::serializer::push_slice(out, tmp.as_slice());
        Ok(())
    }
}

} // verus!
