//! Blocks: a signed header over a list of transactions, their canonical
//! binary encoding, and the proof that decoding inverts encoding.
use vstd::prelude::*;
use crate::serializer::enc_u32;
use crate::serializer::enc_u64;
use crate::serializer::lemma_dec_u64;
use crate::tx::MAX_SIGNATURES;
use crate::tx::SigPair;
use crate::tx::SigPairView;
use crate::tx::TxVariant;
use crate::tx::TxView;
use crate::tx::dec_fixed;
use crate::tx::dec_sig_block;
use crate::tx::dec_tx;
use crate::tx::dec_u32_at;
use crate::tx::dec_u64_at;
use crate::tx::enc_sig_block;
use crate::tx::enc_tx;
use crate::tx::lemma_dec_sig_block;
use crate::tx::lemma_dec_tx;
use crate::tx::lemma_enc_pairs_len;
use crate::tx::lemma_split;
use crate::tx::wf_base_pairs;
use crate::tx::wf_tx;

verus! {

/// A block: header fields, the producer's signatures, and the transactions.
pub struct Block {
    pub height: u64,
    pub timestamp: u64,
    pub previous_hash: Vec<u8>,
    pub tx_merkle_root: Vec<u8>,
    pub signature_pairs: Vec<SigPair>,
    pub transactions: Vec<TxVariant>,
}

#[verifier::ext_equal]
pub struct BlockView {
    pub height: u64,
    pub timestamp: u64,
    pub previous_hash: Seq<u8>,
    pub tx_merkle_root: Seq<u8>,
    pub sig_pairs: Seq<SigPairView>,
    pub transactions: Seq<TxView>,
}

impl View for Block {
    type V = BlockView;

    open spec fn view(&self) -> BlockView {
        BlockView {
            height: self.height,
            timestamp: self.timestamp,
            previous_hash: self.previous_hash@,
            tx_merkle_root: self.tx_merkle_root@,
            sig_pairs: Seq::new(self.signature_pairs@.len(), |i: int| self.signature_pairs@[i]@),
            transactions: Seq::new(self.transactions@.len(), |i: int| self.transactions@[i]@),
        }
    }
}

pub open spec fn wf_block(b: BlockView) -> bool {
    &&& b.previous_hash.len() == 32
    &&& b.tx_merkle_root.len() == 32
    &&& b.sig_pairs.len() <= MAX_SIGNATURES
    &&& wf_base_pairs(b.sig_pairs)
    &&& b.transactions.len() <= u32::MAX
    &&& forall|i: int| 0 <= i < b.transactions.len() ==> wf_tx(#[trigger] b.transactions[i])
}

// ---------------------------------------------------------------------------
// Specification of the encoding
// ---------------------------------------------------------------------------
/// The header: height, timestamp, parent hash, transaction merkle root.
pub open spec fn enc_header(b: BlockView) -> Seq<u8> {
    enc_u64(b.height) + enc_u64(b.timestamp) + b.previous_hash + b.tx_merkle_root
}

/// The transactions one after another.
pub open spec fn enc_txs(ts: Seq<TxView>) -> Seq<u8>
    decreases ts.len(),
{
    if ts.len() == 0 {
        Seq::empty()
    } else {
        enc_tx(ts[0]) + enc_txs(ts.drop_first())
    }
}

/// The full block: header, signature block, transaction count, transactions.
pub open spec fn enc_block(b: BlockView) -> Seq<u8> {
    enc_header(b) + enc_sig_block(b.sig_pairs) + enc_u32(b.transactions.len() as u32) + enc_txs(
        b.transactions,
    )
}

// ---------------------------------------------------------------------------
// Specification of the decoder
// ---------------------------------------------------------------------------
/// Reads `k` transactions.
pub open spec fn dec_txs(s: Seq<u8>, i: int, k: nat) -> Option<(Seq<TxView>, int)>
    decreases k,
{
    if k == 0 {
        if 0 <= i <= s.len() {
            Some((Seq::empty(), i))
        } else {
            None
        }
    } else {
        match dec_tx(s, i) {
            Some((t, j)) => match dec_txs(s, j, (k - 1) as nat) {
                Some((rest, e)) => Some((seq![t] + rest, e)),
                None => None,
            },
            None => None,
        }
    }
}

/// Reads a full block.
pub open spec fn dec_block(s: Seq<u8>, i: int) -> Option<(BlockView, int)> {
    match dec_u64_at(s, i) {
        None => None,
        Some((height, j1)) => match dec_u64_at(s, j1) {
            None => None,
            Some((timestamp, j2)) => match dec_fixed(s, j2, 32) {
                None => None,
                Some((previous_hash, j3)) => match dec_fixed(s, j3, 32) {
                    None => None,
                    Some((tx_merkle_root, j4)) => match dec_sig_block(s, j4) {
                        None => None,
                        Some((sig_pairs, j5)) => match dec_u32_at(s, j5) {
                            None => None,
                            Some((n, j6)) => match dec_txs(s, j6, n as nat) {
                                None => None,
                                Some((transactions, j7)) => Some(
                                    (
                                        BlockView {
                                            height,
                                            timestamp,
                                            previous_hash,
                                            tx_merkle_root,
                                            sig_pairs,
                                            transactions,
                                        },
                                        j7,
                                    ),
                                ),
                            },
                        },
                    },
                },
            },
        },
    }
}

// ---------------------------------------------------------------------------
// Round trip
// ---------------------------------------------------------------------------
pub proof fn lemma_dec_txs(s: Seq<u8>, i: int, ts: Seq<TxView>)
    requires
        0 <= i,
        forall|k: int| 0 <= k < ts.len() ==> wf_tx(#[trigger] ts[k]),
        i + enc_txs(ts).len() <= s.len(),
        s.subrange(i, i + enc_txs(ts).len()) == enc_txs(ts),
    ensures
        dec_txs(s, i, ts.len()) == Some((ts, i + enc_txs(ts).len())),
    decreases ts.len(),
{
    if ts.len() == 0 {
        assert(ts =~= Seq::<TxView>::empty());
    } else {
        let rest = ts.drop_first();
        assert(wf_tx(ts[0]));
        assert(forall|k: int| 0 <= k < rest.len() ==> wf_tx(#[trigger] rest[k]));
        lemma_split(s, i, enc_tx(ts[0]), enc_txs(rest));
        lemma_dec_tx(s, i, ts[0]);
        let j = i + enc_tx(ts[0]).len();
        lemma_dec_txs(s, j, rest);
        assert(seq![ts[0]] + rest =~= ts);
    }
}

/// Decoding a well-formed encoded block yields it back, consuming exactly
/// its encoding.
#[verifier::rlimit(100)]
#[verifier::spinoff_prover]
pub proof fn lemma_dec_block(s: Seq<u8>, i: int, b: BlockView)
    requires
        0 <= i,
        wf_block(b),
        i + enc_block(b).len() <= s.len(),
        s.subrange(i, i + enc_block(b).len()) == enc_block(b),
    ensures
        dec_block(s, i) == Some((b, i + enc_block(b).len())),
{
    lemma_enc_pairs_len(b.sig_pairs);
    lemma_split(
        s,
        i,
        enc_header(b) + enc_sig_block(b.sig_pairs) + enc_u32(b.transactions.len() as u32),
        enc_txs(b.transactions),
    );
    lemma_split(
        s,
        i,
        enc_header(b) + enc_sig_block(b.sig_pairs),
        enc_u32(b.transactions.len() as u32),
    );
    lemma_split(s, i, enc_header(b), enc_sig_block(b.sig_pairs));
    lemma_split(s, i, enc_u64(b.height) + enc_u64(b.timestamp) + b.previous_hash, b.tx_merkle_root);
    lemma_split(s, i, enc_u64(b.height) + enc_u64(b.timestamp), b.previous_hash);
    lemma_split(s, i, enc_u64(b.height), enc_u64(b.timestamp));
    lemma_dec_u64(s, i, b.height);
    lemma_dec_u64(s, i + 8, b.timestamp);
    assert(dec_fixed(s, i + 16, 32) == Some((b.previous_hash, i + 48)));
    assert(dec_fixed(s, i + 48, 32) == Some((b.tx_merkle_root, i + 80)));
    let o1 = i + 80;
    lemma_dec_sig_block(s, o1, b.sig_pairs);
    let o2 = o1 + 1 + 96 * b.sig_pairs.len();
    crate::serializer::lemma_dec_u32(s, o2, b.transactions.len() as u32);
    let o3 = o2 + 4;
    lemma_dec_txs(s, o3, b.transactions);
    assert(dec_u64_at(s, i) == Some((b.height, i + 8)));
    assert(dec_u64_at(s, i + 8) == Some((b.timestamp, i + 16)));
    assert(dec_sig_block(s, o1) == Some((b.sig_pairs, o2)));
    assert(dec_u32_at(s, o2) == Some((b.transactions.len() as u32, o3)));
    assert(dec_txs(s, o3, b.transactions.len()) == Some(
        (b.transactions, i + enc_block(b).len()),
    ));
    assert(dec_block(s, i) == Some((b, i + enc_block(b).len())));
}

/// Round trip: decoding an encoded block gives the block back.
pub proof fn lemma_block_round_trip(b: BlockView)
    requires
        wf_block(b),
    ensures
        dec_block(enc_block(b), 0) == Some((b, enc_block(b).len() as int)),
{
    let s = enc_block(b);
    assert(s.subrange(0, s.len() as int) =~= s);
    lemma_dec_block(s, 0, b);
}


/// Appending one more transaction extends the encoding on the right.
pub proof fn lemma_enc_txs_push(q: Seq<TxView>, x: TxView)
    ensures
        enc_txs(q.push(x)) == enc_txs(q) + enc_tx(x),
    decreases q.len(),
{
    if q.len() == 0 {
        assert(q.push(x).drop_first() =~= Seq::<TxView>::empty());
        assert(q.push(x)[0] == x);
        assert(enc_txs(q.push(x)) == enc_tx(x) + enc_txs(Seq::<TxView>::empty()));
        assert(enc_txs(Seq::<TxView>::empty()) == Seq::<u8>::empty());
        assert(enc_txs(q) == Seq::<u8>::empty());
        assert(enc_txs(q.push(x)) =~= enc_txs(q) + enc_tx(x));
    } else {
        assert(q.push(x).drop_first() =~= q.drop_first().push(x));
        assert(q.push(x)[0] == q[0]);
        assert(enc_txs(q.push(x)) == enc_tx(q[0]) + enc_txs(q.drop_first().push(x)));
        lemma_enc_txs_push(q.drop_first(), x);
        assert(enc_txs(q.push(x)) == enc_tx(q[0]) + (enc_txs(q.drop_first()) + enc_tx(x)));
        assert(enc_txs(q) == enc_tx(q[0]) + enc_txs(q.drop_first()));
        assert(enc_txs(q.push(x)) =~= enc_txs(q) + enc_tx(x));
    }
}

impl Block {
    /// Appends the header bytes: what the parent hash of a child commits to.
    pub fn encode_header(&self, buf: &mut Vec<u8>)
        ensures
            final(buf)@ == old(buf)@ + enc_header(self@),
    {
        crate::serializer::push_u64(buf, self.height);
        crate::serializer::push_u64(buf, self.timestamp);
        crate::serializer::push_slice(buf, self.previous_hash.as_slice());
        crate::serializer::push_slice(buf, self.tx_merkle_root.as_slice());
        proof {
            assert(buf@ =~= old(buf)@ + enc_header(self@));
        }
    }

    /// Appends the canonical encoding of the block, transactions included.
    pub fn encode_with_tx(&self, buf: &mut Vec<u8>)
        requires
            wf_block(self@),
        ensures
            final(buf)@ == old(buf)@ + enc_block(self@),
    {
        let ghost ts = self@.transactions;
        self.encode_header(buf);
        crate::tx::encode_sig_block_of(&self.signature_pairs, buf);
        crate::serializer::push_u32(buf, self.transactions.len() as u32);
        let ghost mid = buf@;
        let mut i: usize = 0;
        while i < self.transactions.len()
            invariant
                i <= self.transactions@.len(),
                ts == self@.transactions,
                wf_block(self@),
                buf@ == mid + enc_txs(ts.take(i as int)),
            decreases self.transactions@.len() - i,
        {
            proof {
                assert(ts.take(i + 1) =~= ts.take(i as int).push(ts[i as int]));
                lemma_enc_txs_push(ts.take(i as int), ts[i as int]);
                assert(wf_tx(ts[i as int]));
            }
            self.transactions[i].encode_with_sigs(buf);
            proof {
                assert(buf@ =~= mid + enc_txs(ts.take(i + 1)));
            }
            i += 1;
        }
        proof {
            assert(ts.take(ts.len() as int) =~= ts);
            assert(buf@ =~= old(buf)@ + enc_block(self@));
        }
    }

    /// Decodes one block starting at `pos`; fails closed on a short read.
    pub fn decode_with_tx(buf: &[u8], pos: usize) -> (r: Option<(Block, usize)>)
        ensures
            match r {
                Some((b, n)) => n <= buf@.len() && dec_block(buf@, pos as int) == Some(
                    (b@, n as int),
                ),
                None => dec_block(buf@, pos as int) is None,
            },
    {
        let (height, j1) = match crate::serializer::read_u64(buf, pos) {
            Some(x) => x,
            None => {
                return None;
            },
        };
        let (timestamp, j2) = match crate::serializer::read_u64(buf, j1) {
            Some(x) => x,
            None => {
                return None;
            },
        };
        let (previous_hash, j3) = match crate::serializer::read_exact(buf, j2, 32) {
            Some(x) => x,
            None => {
                return None;
            },
        };
        let (tx_merkle_root, j4) = match crate::serializer::read_exact(buf, j3, 32) {
            Some(x) => x,
            None => {
                return None;
            },
        };
        let (signature_pairs, j5) = match crate::tx::decode_sig_block_of(buf, j4) {
            Some(x) => x,
            None => {
                return None;
            },
        };
        let (n, j6) = match crate::serializer::read_u32(buf, j5) {
            Some(x) => x,
            None => {
                return None;
            },
        };
        let mut transactions: Vec<TxVariant> = Vec::new();
        let mut cur: usize = j6;
        let mut done: u32 = 0;
        while done < n
            invariant
                done <= n,
                transactions@.len() == done,
                cur <= buf@.len(),
                dec_block(buf@, pos as int) == (match dec_txs(buf@, j6 as int, n as nat) {
                    Some((txs, e)) => Some(
                        (
                            BlockView {
                                height,
                                timestamp,
                                previous_hash: previous_hash@,
                                tx_merkle_root: tx_merkle_root@,
                                sig_pairs: Seq::new(
                                    signature_pairs@.len(),
                                    |i: int| signature_pairs@[i]@,
                                ),
                                transactions: txs,
                            },
                            e,
                        ),
                    ),
                    None => None,
                }),
                dec_txs(buf@, j6 as int, n as nat) == (match dec_txs(
                    buf@,
                    cur as int,
                    (n - done) as nat,
                ) {
                    Some((rest, e)) => Some(
                        (Seq::new(transactions@.len(), |i: int| transactions@[i]@) + rest, e),
                    ),
                    None => None,
                }),
            decreases n - done,
        {
            let ghost out0 = Seq::new(transactions@.len(), |i: int| transactions@[i]@);
            let (t, c1) = match TxVariant::decode_with_sigs(buf, cur) {
                Some(x) => x,
                None => {
                    return None;
                },
            };
            let ghost tv = t@;
            transactions.push(t);
            proof {
                assert(dec_txs(buf@, cur as int, (n - done) as nat) == (match dec_txs(
                    buf@,
                    c1 as int,
                    (n - done - 1) as nat,
                ) {
                    Some((rest, e)) => Some((seq![tv] + rest, e)),
                    None => None,
                }));
                assert(Seq::new(transactions@.len(), |i: int| transactions@[i]@) =~= out0.push(tv));
                match dec_txs(buf@, c1 as int, (n - done - 1) as nat) {
                    Some((rest, e)) => {
                        assert(out0 + (seq![tv] + rest) =~= out0.push(tv) + rest);
                    },
                    None => {},
                }
            }
            cur = c1;
            done += 1;
        }
        proof {
            assert(dec_txs(buf@, cur as int, 0) == Some((Seq::<TxView>::empty(), cur as int)));
            assert(Seq::new(transactions@.len(), |i: int| transactions@[i]@)
                + Seq::<TxView>::empty() =~= Seq::new(
                transactions@.len(),
                |i: int| transactions@[i]@,
            ));
        }
        let b = Block {
            height,
            timestamp,
            previous_hash,
            tx_merkle_root,
            signature_pairs,
            transactions,
        };
        Some((b, cur))
    }
}


impl Block {
    /// Copies the block, transactions included.
    pub fn duplicate(&self) -> (r: Block)
        ensures
            r@ == self@,
    {
        let mut txs: Vec<TxVariant> = Vec::new();
        let mut i: usize = 0;
        while i < self.transactions.len()
            invariant
                i <= self.transactions@.len(),
                txs@.len() == i,
                forall|j: int| 0 <= j < i ==> (#[trigger] txs@[j])@ == self.transactions@[j]@,
            decreases self.transactions@.len() - i,
        {
            txs.push(self.transactions[i].duplicate());
            i += 1;
        }
        let r = Block {
            height: self.height,
            timestamp: self.timestamp,
            previous_hash: vstd::slice::slice_to_vec(self.previous_hash.as_slice()),
            tx_merkle_root: vstd::slice::slice_to_vec(self.tx_merkle_root.as_slice()),
            signature_pairs: crate::tx::clone_sig_pairs(&self.signature_pairs),
            transactions: txs,
        };
        proof {
            assert(r@.sig_pairs =~= self@.sig_pairs);
            assert(r@.transactions =~= self@.transactions);
            assert(r@ =~~= self@);
        }
        r
    }
}


impl Block {
    /// Checks that the wire format can carry the block.
    pub fn check_wf(&self) -> (r: bool)
        ensures
            r == wf_block(self@),
    {
        if self.previous_hash.len() != 32 || self.tx_merkle_root.len() != 32 {
            return false;
        }
        if !crate::tx::check_wf_pairs(&self.signature_pairs) {
            return false;
        }
        if self.transactions.len() > u32::MAX as usize {
            return false;
        }
        let ghost tviews = Seq::new(self.transactions@.len(), |i: int| self.transactions@[i]@);
        let mut i: usize = 0;
        while i < self.transactions.len()
            invariant
                i <= self.transactions@.len(),
                tviews == Seq::new(self.transactions@.len(), |k: int| self.transactions@[k]@),
                forall|j: int| 0 <= j < i ==> wf_tx(#[trigger] tviews[j]),
            decreases self.transactions@.len() - i,
        {
            if !self.transactions[i].check_wf() {
                proof {
                    assert(tviews[i as int] == self.transactions@[i as int]@);
                    assert(!wf_tx(tviews[i as int]));
                }
                return false;
            }
            proof {
                assert(tviews[i as int] == self.transactions@[i as int]@);
            }
            i += 1;
        }
        true
    }
}


/// Encodes a transaction list back to back.
pub fn encode_tx_list(txs: &Vec<TxVariant>) -> (r: Vec<u8>)
    requires
        forall|i: int| 0 <= i < txs@.len() ==> wf_tx((#[trigger] txs@[i])@),
    ensures
        r@ == enc_txs(Seq::new(txs@.len(), |i: int| txs@[i]@)),
{
    let ghost tviews = Seq::new(txs@.len(), |i: int| txs@[i]@);
    let mut tb: Vec<u8> = Vec::new();
    let mut k: usize = 0;
    while k < txs.len()
        invariant
            k <= txs@.len(),
            tviews == Seq::new(txs@.len(), |i: int| txs@[i]@),
            forall|i: int| 0 <= i < txs@.len() ==> wf_tx((#[trigger] txs@[i])@),
            tb@ == enc_txs(tviews.take(k as int)),
        decreases txs@.len() - k,
    {
        proof {
            assert(tviews.take(k + 1) =~= tviews.take(k as int).push(tviews[k as int]));
            lemma_enc_txs_push(tviews.take(k as int), tviews[k as int]);
            assert(wf_tx(txs@[k as int]@));
        }
        txs[k].encode_with_sigs(&mut tb);
        k += 1;
    }
    proof {
        assert(tviews.take(tviews.len() as int) =~= tviews);
    }
    tb
}

} // verus!
