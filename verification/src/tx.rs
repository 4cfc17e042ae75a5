//! Transactions: the tagged union of transfer, mint, reward and owner
//! operations, their canonical binary encoding, and the proof that decoding
//! inverts encoding.
use vstd::prelude::*;
use crate::asset::Asset;
use crate::serializer::be_u32_at;
use crate::serializer::be_u64_at;
use crate::serializer::enc_i64;
use crate::serializer::enc_u32;
use crate::serializer::enc_u64;
use crate::serializer::enc_var_bytes;
use crate::serializer::lemma_dec_u32;
use crate::serializer::lemma_dec_u64;
use crate::serializer::lemma_i64_u64_round_trip;

verus! {

/// At most this many signature pairs may accompany a transaction.
pub const MAX_SIGNATURES: usize = 8;

// ---------------------------------------------------------------------------
// Data model
// ---------------------------------------------------------------------------
/// A 32-byte public key; addresses on the wire are carried in the same form.
pub struct PublicKey {
    pub bytes: Vec<u8>,
}

/// A public key together with a 64-byte signature made with it.
pub struct SigPair {
    pub pub_key: PublicKey,
    pub signature: Vec<u8>,
}

/// Fields common to every transaction variant.
pub struct Tx {
    pub fee: Asset,
    pub timestamp: u64,
    pub signature_pairs: Vec<SigPair>,
}

/// Moves an amount from a script to an address.
pub struct TransferTx {
    pub base: Tx,
    pub from: Vec<u8>,
    pub to: PublicKey,
    pub amount: Asset,
    pub memo: Vec<u8>,
}

/// Creates new supply and credits it to an address.
pub struct MintTx {
    pub base: Tx,
    pub to: PublicKey,
    pub amount: Asset,
    pub attachment: Vec<u8>,
    pub attachment_name: Vec<u8>,
    pub script: Vec<u8>,
}

/// Credits the block producer; carries no signatures.
pub struct RewardTx {
    pub base: Tx,
    pub to: PublicKey,
    pub rewards: Asset,
}

/// Rotates the chain owner's minter key and wallet script.
pub struct OwnerTx {
    pub base: Tx,
    pub minter: PublicKey,
    pub script: Vec<u8>,
}

/// The tagged union carried on the wire.
pub enum TxVariant {
    Owner(OwnerTx),
    Mint(MintTx),
    Reward(RewardTx),
    Transfer(TransferTx),
}

// ---------------------------------------------------------------------------
// Mathematical views
// ---------------------------------------------------------------------------
#[verifier::ext_equal]
pub struct SigPairView {
    pub pub_key: Seq<u8>,
    pub signature: Seq<u8>,
}

#[verifier::ext_equal]
pub struct TxBaseView {
    pub fee: i64,
    pub timestamp: u64,
    pub sig_pairs: Seq<SigPairView>,
}

#[verifier::ext_equal]
pub enum TxView {
    Owner { base: TxBaseView, minter: Seq<u8>, script: Seq<u8> },
    Mint {
        base: TxBaseView,
        to: Seq<u8>,
        amount: i64,
        attachment: Seq<u8>,
        attachment_name: Seq<u8>,
        script: Seq<u8>,
    },
    Reward { base: TxBaseView, to: Seq<u8>, rewards: i64 },
    Transfer { base: TxBaseView, from: Seq<u8>, to: Seq<u8>, amount: i64, memo: Seq<u8> },
}

impl View for PublicKey {
    type V = Seq<u8>;

    open spec fn view(&self) -> Seq<u8> {
        self.bytes@
    }
}

impl View for SigPair {
    type V = SigPairView;

    open spec fn view(&self) -> SigPairView {
        SigPairView { pub_key: self.pub_key@, signature: self.signature@ }
    }
}

impl View for Tx {
    type V = TxBaseView;

    open spec fn view(&self) -> TxBaseView {
        TxBaseView {
            fee: self.fee.amount,
            timestamp: self.timestamp,
            sig_pairs: Seq::new(self.signature_pairs@.len(), |i: int| self.signature_pairs@[i]@),
        }
    }
}

impl View for TxVariant {
    type V = TxView;

    open spec fn view(&self) -> TxView {
        match self {
            TxVariant::Owner(t) => TxView::Owner {
                base: t.base@,
                minter: t.minter@,
                script: t.script@,
            },
            TxVariant::Mint(t) => TxView::Mint {
                base: t.base@,
                to: t.to@,
                amount: t.amount.amount,
                attachment: t.attachment@,
                attachment_name: t.attachment_name@,
                script: t.script@,
            },
            TxVariant::Reward(t) => TxView::Reward {
                base: t.base@,
                to: t.to@,
                rewards: t.rewards.amount,
            },
            TxVariant::Transfer(t) => TxView::Transfer {
                base: t.base@,
                from: t.from@,
                to: t.to@,
                amount: t.amount.amount,
                memo: t.memo@,
            },
        }
    }
}

// ---------------------------------------------------------------------------
// Well-formedness: what the wire format can carry
// ---------------------------------------------------------------------------
pub open spec fn wf_pair(p: SigPairView) -> bool {
    p.pub_key.len() == 32 && p.signature.len() == 64
}

/// Every pair in the run is well formed.
pub open spec fn wf_base_pairs(ps: Seq<SigPairView>) -> bool {
    forall|i: int| 0 <= i < ps.len() ==> wf_pair(#[trigger] ps[i])
}

pub open spec fn wf_base(b: TxBaseView) -> bool {
    b.sig_pairs.len() <= MAX_SIGNATURES && wf_base_pairs(b.sig_pairs)
}

pub open spec fn wf_tx(t: TxView) -> bool {
    match t {
        TxView::Owner { base, minter, script } => wf_base(base) && minter.len() == 32
            && script.len() <= u32::MAX,
        TxView::Mint { base, to, amount, attachment, attachment_name, script } => wf_base(base)
            && to.len() == 32 && attachment.len() <= u32::MAX && attachment_name.len() <= u32::MAX
            && script.len() <= u32::MAX,
        TxView::Reward { base, to, rewards } => wf_base(base) && to.len() == 32,
        TxView::Transfer { base, from, to, amount, memo } => wf_base(base) && from.len()
            <= u32::MAX && to.len() == 32 && memo.len() <= u32::MAX,
    }
}

// ---------------------------------------------------------------------------
// Specification of the encoding
// ---------------------------------------------------------------------------
/// One signature pair: the raw key, then the raw signature.
pub open spec fn enc_pair(p: SigPairView) -> Seq<u8> {
    p.pub_key + p.signature
}

/// The pairs one after another.
pub open spec fn enc_pairs(ps: Seq<SigPairView>) -> Seq<u8>
    decreases ps.len(),
{
    if ps.len() == 0 {
        Seq::empty()
    } else {
        enc_pair(ps[0]) + enc_pairs(ps.drop_first())
    }
}

/// The signature block: a one-byte count, then the pairs.
pub open spec fn enc_sig_block(ps: Seq<SigPairView>) -> Seq<u8> {
    seq![ps.len() as u8] + enc_pairs(ps)
}

/// The common header: fee, then timestamp.
pub open spec fn enc_base(b: TxBaseView) -> Seq<u8> {
    enc_i64(b.fee) + enc_u64(b.timestamp)
}

pub open spec fn tx_tag(t: TxView) -> u8 {
    match t {
        TxView::Owner { .. } => 0,
        TxView::Mint { .. } => 1,
        TxView::Reward { .. } => 2,
        TxView::Transfer { .. } => 3,
    }
}

/// The full transaction: tag, header, variant fields, signature block.
pub open spec fn enc_tx(t: TxView) -> Seq<u8> {
    match t {
        TxView::Owner { base, minter, script } => seq![0u8] + enc_base(base) + minter
            + enc_var_bytes(script) + enc_sig_block(base.sig_pairs),
        TxView::Mint { base, to, amount, attachment, attachment_name, script } => seq![1u8]
            + enc_base(base) + to + enc_i64(amount) + enc_var_bytes(attachment) + enc_var_bytes(
            attachment_name,
        ) + enc_var_bytes(script) + enc_sig_block(base.sig_pairs),
        TxView::Reward { base, to, rewards } => seq![2u8] + enc_base(base) + to + enc_i64(rewards)
            + enc_sig_block(base.sig_pairs),
        TxView::Transfer { base, from, to, amount, memo } => seq![3u8] + enc_base(base)
            + enc_var_bytes(from) + to + enc_i64(amount) + enc_var_bytes(memo) + enc_sig_block(
            base.sig_pairs,
        ),
    }
}

// ---------------------------------------------------------------------------
// Specification of the decoder
// ---------------------------------------------------------------------------
/// Reads `k` raw bytes.
pub open spec fn dec_fixed(s: Seq<u8>, i: int, k: int) -> Option<(Seq<u8>, int)> {
    if 0 <= i && i + k <= s.len() {
        Some((s.subrange(i, i + k), i + k))
    } else {
        None
    }
}

pub open spec fn dec_u8_at(s: Seq<u8>, i: int) -> Option<(u8, int)> {
    if 0 <= i && i + 1 <= s.len() {
        Some((s[i], i + 1))
    } else {
        None
    }
}

pub open spec fn dec_u32_at(s: Seq<u8>, i: int) -> Option<(u32, int)> {
    if 0 <= i && i + 4 <= s.len() {
        Some((be_u32_at(s, i), i + 4))
    } else {
        None
    }
}

pub open spec fn dec_u64_at(s: Seq<u8>, i: int) -> Option<(u64, int)> {
    if 0 <= i && i + 8 <= s.len() {
        Some((be_u64_at(s, i), i + 8))
    } else {
        None
    }
}

pub open spec fn dec_i64_at(s: Seq<u8>, i: int) -> Option<(i64, int)> {
    match dec_u64_at(s, i) {
        Some((v, n)) => Some((v as i64, n)),
        None => None,
    }
}

/// Reads length-prefixed bytes.
pub open spec fn dec_var(s: Seq<u8>, i: int) -> Option<(Seq<u8>, int)> {
    match dec_u32_at(s, i) {
        Some((l, j)) => dec_fixed(s, j, l as int),
        None => None,
    }
}

/// Reads `k` signature pairs.
pub open spec fn dec_pairs(s: Seq<u8>, i: int, k: nat) -> Option<(Seq<SigPairView>, int)>
    decreases k,
{
    if k == 0 {
        if 0 <= i <= s.len() {
            Some((Seq::empty(), i))
        } else {
            None
        }
    } else {
        match dec_fixed(s, i, 32) {
            Some((pk, j1)) => match dec_fixed(s, j1, 64) {
                Some((sg, j2)) => match dec_pairs(s, j2, (k - 1) as nat) {
                    Some((rest, j3)) => Some(
                        (seq![SigPairView { pub_key: pk, signature: sg }] + rest, j3),
                    ),
                    None => None,
                },
                None => None,
            },
            None => None,
        }
    }
}

/// Reads the signature block.
pub open spec fn dec_sig_block(s: Seq<u8>, i: int) -> Option<(Seq<SigPairView>, int)> {
    match dec_u8_at(s, i) {
        Some((k, j)) => dec_pairs(s, j, k as nat),
        None => None,
    }
}

/// Reads the common header.
pub open spec fn dec_base(s: Seq<u8>, i: int) -> Option<((i64, u64), int)> {
    match dec_i64_at(s, i) {
        Some((fee, j)) => match dec_u64_at(s, j) {
            Some((ts, j2)) => Some(((fee, ts), j2)),
            None => None,
        },
        None => None,
    }
}

/// Reads a full transaction; fails closed on an unknown tag.
pub open spec fn dec_tx(s: Seq<u8>, i: int) -> Option<(TxView, int)> {
    match dec_u8_at(s, i) {
        None => None,
        Some((tag, j0)) => match dec_base(s, j0) {
            None => None,
            Some(((fee, ts), j1)) => if tag == 0 {
                match dec_fixed(s, j1, 32) {
                    Some((minter, j2)) => match dec_var(s, j2) {
                        Some((script, j3)) => match dec_sig_block(s, j3) {
                            Some((ps, j4)) => Some(
                                (
                                    TxView::Owner {
                                        base: TxBaseView { fee, timestamp: ts, sig_pairs: ps },
                                        minter,
                                        script,
                                    },
                                    j4,
                                ),
                            ),
                            None => None,
                        },
                        None => None,
                    },
                    None => None,
                }
            } else if tag == 1 {
                match dec_fixed(s, j1, 32) {
                    Some((to, j2)) => match dec_i64_at(s, j2) {
                        Some((amount, j3)) => match dec_var(s, j3) {
                            Some((attachment, j4)) => match dec_var(s, j4) {
                                Some((attachment_name, j5)) => match dec_var(s, j5) {
                                    Some((script, j6)) => match dec_sig_block(s, j6) {
                                        Some((ps, j7)) => Some(
                                            (
                                                TxView::Mint {
                                                    base: TxBaseView {
                                                        fee,
                                                        timestamp: ts,
                                                        sig_pairs: ps,
                                                    },
                                                    to,
                                                    amount,
                                                    attachment,
                                                    attachment_name,
                                                    script,
                                                },
                                                j7,
                                            ),
                                        ),
                                        None => None,
                                    },
                                    None => None,
                                },
                                None => None,
                            },
                            None => None,
                        },
                        None => None,
                    },
                    None => None,
                }
            } else if tag == 2 {
                match dec_fixed(s, j1, 32) {
                    Some((to, j2)) => match dec_i64_at(s, j2) {
                        Some((rewards, j3)) => match dec_sig_block(s, j3) {
                            Some((ps, j4)) => Some(
                                (
                                    TxView::Reward {
                                        base: TxBaseView { fee, timestamp: ts, sig_pairs: ps },
                                        to,
                                        rewards,
                                    },
                                    j4,
                                ),
                            ),
                            None => None,
                        },
                        None => None,
                    },
                    None => None,
                }
            } else if tag == 3 {
                match dec_var(s, j1) {
                    Some((from, j2)) => match dec_fixed(s, j2, 32) {
                        Some((to, j3)) => match dec_i64_at(s, j3) {
                            Some((amount, j4)) => match dec_var(s, j4) {
                                Some((memo, j5)) => match dec_sig_block(s, j5) {
                                    Some((ps, j6)) => Some(
                                        (
                                            TxView::Transfer {
                                                base: TxBaseView {
                                                    fee,
                                                    timestamp: ts,
                                                    sig_pairs: ps,
                                                },
                                                from,
                                                to,
                                                amount,
                                                memo,
                                            },
                                            j6,
                                        ),
                                    ),
                                    None => None,
                                },
                                None => None,
                            },
                            None => None,
                        },
                        None => None,
                    },
                    None => None,
                }
            } else {
                None
            },
        },
    }
}


// ---------------------------------------------------------------------------
// Round trip: decoding inverts encoding
// ---------------------------------------------------------------------------
/// A subrange equal to a concatenation splits into the two parts.
pub proof fn lemma_split(s: Seq<u8>, i: int, a: Seq<u8>, b: Seq<u8>)
    requires
        0 <= i,
        i + a.len() + b.len() <= s.len(),
        s.subrange(i, i + a.len() + b.len()) == a + b,
    ensures
        s.subrange(i, i + a.len()) == a,
        s.subrange(i + a.len(), i + a.len() + b.len()) == b,
{
    assert(s.subrange(i, i + a.len()) =~= a) by {
        assert forall|j: int| 0 <= j < a.len() implies s.subrange(i, i + a.len())[j] == a[j] by {
            assert(s.subrange(i, i + a.len() + b.len())[j] == (a + b)[j]);
        }
    }
    assert(s.subrange(i + a.len(), i + a.len() + b.len()) =~= b) by {
        assert forall|j: int| 0 <= j < b.len() implies s.subrange(
            i + a.len(),
            i + a.len() + b.len(),
        )[j] == b[j] by {
            assert(s.subrange(i + a.len(), i + a.len() + b.len())[j] == s[i + a.len() + j]);
            assert(s.subrange(i, i + a.len() + b.len())[a.len() + j] == s[i + a.len() + j]);
            assert((a + b)[a.len() + j] == b[j]);
        }
    }
}

pub proof fn lemma_dec_var_at(s: Seq<u8>, i: int, b: Seq<u8>)
    requires
        0 <= i,
        b.len() <= u32::MAX,
        i + 4 + b.len() <= s.len(),
        s.subrange(i, i + 4 + b.len()) == enc_var_bytes(b),
    ensures
        dec_var(s, i) == Some((b, i + 4 + b.len())),
{
    lemma_split(s, i, enc_u32(b.len() as u32), b);
    lemma_dec_u32(s, i, b.len() as u32);
}

/// Length of an encoded run of signature pairs.
pub proof fn lemma_enc_pairs_len(ps: Seq<SigPairView>)
    requires
        forall|i: int| 0 <= i < ps.len() ==> wf_pair(#[trigger] ps[i]),
    ensures
        enc_pairs(ps).len() == 96 * ps.len(),
    decreases ps.len(),
{
    if ps.len() > 0 {
        assert(wf_pair(ps[0]));
        assert(forall|i: int|
            0 <= i < ps.drop_first().len() ==> wf_pair(#[trigger] ps.drop_first()[i]));
        lemma_enc_pairs_len(ps.drop_first());
    }
}

pub proof fn lemma_dec_pairs(s: Seq<u8>, i: int, ps: Seq<SigPairView>)
    requires
        0 <= i,
        forall|k: int| 0 <= k < ps.len() ==> wf_pair(#[trigger] ps[k]),
        i + 96 * ps.len() <= s.len(),
        s.subrange(i, i + 96 * ps.len()) == enc_pairs(ps),
    ensures
        dec_pairs(s, i, ps.len()) == Some((ps, i + 96 * ps.len())),
    decreases ps.len(),
{
    if ps.len() == 0 {
        assert(dec_pairs(s, i, 0) == Some((Seq::<SigPairView>::empty(), i)));
        assert(ps =~= Seq::<SigPairView>::empty());
    } else {
        let rest = ps.drop_first();
        assert(wf_pair(ps[0]));
        assert(forall|k: int| 0 <= k < rest.len() ==> wf_pair(#[trigger] rest[k]));
        lemma_enc_pairs_len(rest);
        lemma_enc_pairs_len(ps);
        assert(enc_pairs(ps) == enc_pair(ps[0]) + enc_pairs(rest));
        lemma_split(s, i, enc_pair(ps[0]), enc_pairs(rest));
        lemma_split(s, i, ps[0].pub_key, ps[0].signature);
        assert(dec_fixed(s, i, 32) == Some((ps[0].pub_key, i + 32)));
        assert(dec_fixed(s, i + 32, 64) == Some((ps[0].signature, i + 96)));
        lemma_dec_pairs(s, i + 96, rest);
        assert(seq![
            SigPairView { pub_key: ps[0].pub_key, signature: ps[0].signature },
        ] + rest =~= ps);
    }
}

pub proof fn lemma_dec_sig_block(s: Seq<u8>, i: int, ps: Seq<SigPairView>)
    requires
        0 <= i,
        ps.len() <= MAX_SIGNATURES,
        forall|k: int| 0 <= k < ps.len() ==> wf_pair(#[trigger] ps[k]),
        i + enc_sig_block(ps).len() <= s.len(),
        s.subrange(i, i + enc_sig_block(ps).len()) == enc_sig_block(ps),
    ensures
        dec_sig_block(s, i) == Some((ps, i + enc_sig_block(ps).len())),
        enc_sig_block(ps).len() == 1 + 96 * ps.len(),
{
    lemma_enc_pairs_len(ps);
    lemma_split(s, i, seq![ps.len() as u8], enc_pairs(ps));
    assert(s.subrange(i, i + 1)[0] == ps.len() as u8);
    assert(s[i] == ps.len() as u8);
    assert((ps.len() as u8) as nat == ps.len());
    lemma_dec_pairs(s, i + 1, ps);
}

pub proof fn lemma_dec_base(s: Seq<u8>, i: int, b: TxBaseView)
    requires
        0 <= i,
        i + 16 <= s.len(),
        s.subrange(i, i + 16) == enc_base(b),
    ensures
        dec_base(s, i) == Some(((b.fee, b.timestamp), i + 16)),
{
    lemma_split(s, i, enc_i64(b.fee), enc_u64(b.timestamp));
    lemma_dec_u64(s, i, b.fee as u64);
    lemma_i64_u64_round_trip(b.fee);
    lemma_dec_u64(s, i + 8, b.timestamp);
}

#[verifier::rlimit(100)]
#[verifier::spinoff_prover]
proof fn lemma_dec_tx_owner(s: Seq<u8>, i: int, v: TxView)
    requires
        0 <= i,
        wf_tx(v),
        v is Owner,
        i + enc_tx(v).len() <= s.len(),
        s.subrange(i, i + enc_tx(v).len()) == enc_tx(v),
    ensures
        dec_tx(s, i) == Some((v, i + enc_tx(v).len())),
{
    match v {
        TxView::Owner { base, minter, script } => {
        let e1 = seq![0u8] + enc_base(base) + minter + enc_var_bytes(script);
        let sb = enc_sig_block(base.sig_pairs);
        lemma_enc_pairs_len(base.sig_pairs);
        lemma_split(s, i, e1, sb);
        lemma_split(s, i, seq![0u8] + enc_base(base) + minter, enc_var_bytes(script));
        lemma_split(s, i, seq![0u8] + enc_base(base), minter);
        lemma_split(s, i, seq![0u8], enc_base(base));
        assert(s[i] == s.subrange(i, i + 1)[0]);
        assert(s[i] == 0u8);
        lemma_dec_base(s, i + 1, base);
        assert(dec_fixed(s, i + 17, 32) == Some((minter, i + 49)));
        lemma_dec_var_at(s, i + 49, script);
        lemma_dec_sig_block(s, i + 53 + script.len(), base.sig_pairs);
        assert(dec_u8_at(s, i) == Some((0u8, i + 1)));
        assert(dec_base(s, i + 1) == Some(((base.fee, base.timestamp), i + 17)));
        assert(dec_var(s, i + 49) == Some((script, i + 53 + script.len())));
        assert(dec_sig_block(s, i + 53 + script.len()) == Some(
            (base.sig_pairs, i + enc_tx(v).len()),
        ));
        assert(dec_tx(s, i) == Some((v, i + enc_tx(v).len())));
        },
        _ => {
            assert(false);
        },
    }
}

#[verifier::rlimit(100)]
#[verifier::spinoff_prover]
proof fn lemma_dec_tx_mint(s: Seq<u8>, i: int, v: TxView)
    requires
        0 <= i,
        wf_tx(v),
        v is Mint,
        i + enc_tx(v).len() <= s.len(),
        s.subrange(i, i + enc_tx(v).len()) == enc_tx(v),
    ensures
        dec_tx(s, i) == Some((v, i + enc_tx(v).len())),
{
    match v {
        TxView::Mint { base, to, amount, attachment, attachment_name, script } => {
        let sb = enc_sig_block(base.sig_pairs);
        lemma_enc_pairs_len(base.sig_pairs);
        lemma_split(
            s,
            i,
            seq![1u8] + enc_base(base) + to + enc_i64(amount) + enc_var_bytes(attachment)
                + enc_var_bytes(attachment_name) + enc_var_bytes(script),
            sb,
        );
        lemma_split(
            s,
            i,
            seq![1u8] + enc_base(base) + to + enc_i64(amount) + enc_var_bytes(attachment)
                + enc_var_bytes(attachment_name),
            enc_var_bytes(script),
        );
        lemma_split(
            s,
            i,
            seq![1u8] + enc_base(base) + to + enc_i64(amount) + enc_var_bytes(attachment),
            enc_var_bytes(attachment_name),
        );
        lemma_split(s, i, seq![1u8] + enc_base(base) + to + enc_i64(amount), enc_var_bytes(attachment));
        lemma_split(s, i, seq![1u8] + enc_base(base) + to, enc_i64(amount));
        lemma_split(s, i, seq![1u8] + enc_base(base), to);
        lemma_split(s, i, seq![1u8], enc_base(base));
        assert(s[i] == s.subrange(i, i + 1)[0]);
        assert(s[i] == 1u8);
        lemma_dec_base(s, i + 1, base);
        assert(dec_fixed(s, i + 17, 32) == Some((to, i + 49)));
        lemma_dec_u64(s, i + 49, amount as u64);
        lemma_i64_u64_round_trip(amount);
        let o1 = i + 57;
        lemma_dec_var_at(s, o1, attachment);
        let o2 = o1 + 4 + attachment.len();
        lemma_dec_var_at(s, o2, attachment_name);
        let o3 = o2 + 4 + attachment_name.len();
        lemma_dec_var_at(s, o3, script);
        let o4 = o3 + 4 + script.len();
        lemma_dec_sig_block(s, o4, base.sig_pairs);
        assert(dec_u8_at(s, i) == Some((1u8, i + 1)));
        assert(dec_base(s, i + 1) == Some(((base.fee, base.timestamp), i + 17)));
        assert(dec_fixed(s, i + 17, 32) == Some((to, i + 49)));
        assert(dec_i64_at(s, i + 49) == Some((amount, o1)));
        assert(dec_var(s, o1) == Some((attachment, o2)));
        assert(dec_var(s, o2) == Some((attachment_name, o3)));
        assert(dec_var(s, o3) == Some((script, o4)));
        assert(dec_sig_block(s, o4) == Some((base.sig_pairs, i + enc_tx(v).len())));
        assert(dec_tx(s, i) == Some((v, i + enc_tx(v).len())));
        },
        _ => {
            assert(false);
        },
    }
}

#[verifier::rlimit(100)]
#[verifier::spinoff_prover]
proof fn lemma_dec_tx_reward(s: Seq<u8>, i: int, v: TxView)
    requires
        0 <= i,
        wf_tx(v),
        v is Reward,
        i + enc_tx(v).len() <= s.len(),
        s.subrange(i, i + enc_tx(v).len()) == enc_tx(v),
    ensures
        dec_tx(s, i) == Some((v, i + enc_tx(v).len())),
{
    match v {
        TxView::Reward { base, to, rewards } => {
        let sb = enc_sig_block(base.sig_pairs);
        lemma_enc_pairs_len(base.sig_pairs);
        lemma_split(s, i, seq![2u8] + enc_base(base) + to + enc_i64(rewards), sb);
        lemma_split(s, i, seq![2u8] + enc_base(base) + to, enc_i64(rewards));
        lemma_split(s, i, seq![2u8] + enc_base(base), to);
        lemma_split(s, i, seq![2u8], enc_base(base));
        assert(s[i] == s.subrange(i, i + 1)[0]);
        assert(s[i] == 2u8);
        lemma_dec_base(s, i + 1, base);
        assert(dec_fixed(s, i + 17, 32) == Some((to, i + 49)));
        lemma_dec_u64(s, i + 49, rewards as u64);
        lemma_i64_u64_round_trip(rewards);
        lemma_dec_sig_block(s, i + 57, base.sig_pairs);
        assert(dec_u8_at(s, i) == Some((2u8, i + 1)));
        assert(dec_base(s, i + 1) == Some(((base.fee, base.timestamp), i + 17)));
        assert(dec_fixed(s, i + 17, 32) == Some((to, i + 49)));
        assert(dec_i64_at(s, i + 49) == Some((rewards, i + 57)));
        assert(dec_sig_block(s, i + 57) == Some((base.sig_pairs, i + enc_tx(v).len())));
        assert(dec_tx(s, i) == Some((v, i + enc_tx(v).len())));
        },
        _ => {
            assert(false);
        },
    }
}

#[verifier::rlimit(100)]
#[verifier::spinoff_prover]
proof fn lemma_dec_tx_transfer(s: Seq<u8>, i: int, v: TxView)
    requires
        0 <= i,
        wf_tx(v),
        v is Transfer,
        i + enc_tx(v).len() <= s.len(),
        s.subrange(i, i + enc_tx(v).len()) == enc_tx(v),
    ensures
        dec_tx(s, i) == Some((v, i + enc_tx(v).len())),
{
    match v {
        TxView::Transfer { base, from, to, amount, memo } => {
        let sb = enc_sig_block(base.sig_pairs);
        lemma_enc_pairs_len(base.sig_pairs);
        lemma_split(
            s,
            i,
            seq![3u8] + enc_base(base) + enc_var_bytes(from) + to + enc_i64(amount) + enc_var_bytes(
                memo,
            ),
            sb,
        );
        lemma_split(
            s,
            i,
            seq![3u8] + enc_base(base) + enc_var_bytes(from) + to + enc_i64(amount),
            enc_var_bytes(memo),
        );
        lemma_split(s, i, seq![3u8] + enc_base(base) + enc_var_bytes(from) + to, enc_i64(amount));
        lemma_split(s, i, seq![3u8] + enc_base(base) + enc_var_bytes(from), to);
        lemma_split(s, i, seq![3u8] + enc_base(base), enc_var_bytes(from));
        lemma_split(s, i, seq![3u8], enc_base(base));
        assert(s[i] == s.subrange(i, i + 1)[0]);
        assert(s[i] == 3u8);
        lemma_dec_base(s, i + 1, base);
        let o1 = i + 17;
        lemma_dec_var_at(s, o1, from);
        let o2 = o1 + 4 + from.len();
        assert(dec_fixed(s, o2, 32) == Some((to, o2 + 32)));
        lemma_dec_u64(s, o2 + 32, amount as u64);
        lemma_i64_u64_round_trip(amount);
        lemma_dec_var_at(s, o2 + 40, memo);
        lemma_dec_sig_block(s, o2 + 44 + memo.len(), base.sig_pairs);
        assert(dec_u8_at(s, i) == Some((3u8, i + 1)));
        assert(dec_base(s, i + 1) == Some(((base.fee, base.timestamp), i + 17)));
        assert(dec_var(s, o1) == Some((from, o2)));
        assert(dec_fixed(s, o2, 32) == Some((to, o2 + 32)));
        assert(dec_i64_at(s, o2 + 32) == Some((amount, o2 + 40)));
        assert(dec_var(s, o2 + 40) == Some((memo, o2 + 44 + memo.len())));
        assert(dec_sig_block(s, o2 + 44 + memo.len()) == Some(
            (base.sig_pairs, i + enc_tx(v).len()),
        ));
        assert(dec_tx(s, i) == Some((v, i + enc_tx(v).len())));
        },
        _ => {
            assert(false);
        },
    }
}

/// Decoding a well-formed encoded transaction yields it back, consuming
/// exactly its encoding.
pub proof fn lemma_dec_tx(s: Seq<u8>, i: int, v: TxView)
    requires
        0 <= i,
        wf_tx(v),
        i + enc_tx(v).len() <= s.len(),
        s.subrange(i, i + enc_tx(v).len()) == enc_tx(v),
    ensures
        dec_tx(s, i) == Some((v, i + enc_tx(v).len())),
{
    match v {
        TxView::Owner { .. } => lemma_dec_tx_owner(s, i, v),
        TxView::Mint { .. } => lemma_dec_tx_mint(s, i, v),
        TxView::Reward { .. } => lemma_dec_tx_reward(s, i, v),
        TxView::Transfer { .. } => lemma_dec_tx_transfer(s, i, v),
    }
}

/// Round trip: decoding an encoded transaction gives the transaction back.
pub proof fn lemma_tx_round_trip(v: TxView)
    requires
        wf_tx(v),
    ensures
        dec_tx(enc_tx(v), 0) == Some((v, enc_tx(v).len() as int)),
{
    let s = enc_tx(v);
    assert(s.subrange(0, s.len() as int) =~= s);
    lemma_dec_tx(s, 0, v);
}


/// Appending one more pair extends the encoding on the right.
pub proof fn lemma_enc_pairs_push(q: Seq<SigPairView>, x: SigPairView)
    ensures
        enc_pairs(q.push(x)) == enc_pairs(q) + enc_pair(x),
    decreases q.len(),
{
    if q.len() == 0 {
        assert(q.push(x).drop_first() =~= Seq::<SigPairView>::empty());
        assert(q.push(x)[0] == x);
        assert(enc_pairs(q.push(x)) == enc_pair(x) + enc_pairs(Seq::<SigPairView>::empty()));
        assert(enc_pairs(Seq::<SigPairView>::empty()) == Seq::<u8>::empty());
        assert(enc_pairs(q) == Seq::<u8>::empty());
        assert(enc_pairs(q.push(x)) =~= enc_pairs(q) + enc_pair(x));
    } else {
        assert(q.push(x).drop_first() =~= q.drop_first().push(x));
        assert(q.push(x)[0] == q[0]);
        assert(enc_pairs(q.push(x)) == enc_pair(q[0]) + enc_pairs(q.drop_first().push(x)));
        lemma_enc_pairs_push(q.drop_first(), x);
        assert(enc_pairs(q.push(x)) == enc_pair(q[0]) + (enc_pairs(q.drop_first()) + enc_pair(x)));
        assert(enc_pairs(q) == enc_pair(q[0]) + enc_pairs(q.drop_first()));
        assert(enc_pairs(q.push(x)) =~= enc_pairs(q) + enc_pair(x));
    }
}

// ---------------------------------------------------------------------------
// Executable encoder
// ---------------------------------------------------------------------------
/// Appends the common header.
fn encode_base(t: &Tx, buf: &mut Vec<u8>)
    ensures
        final(buf)@ == old(buf)@ + enc_base(t@),
{
    crate::serializer::push_i64(buf, t.fee.amount);
    crate::serializer::push_u64(buf, t.timestamp);
    proof {
        assert(buf@ =~= old(buf)@ + enc_base(t@));
    }
}

/// Appends the signature block: a count byte, then each key and signature.
pub fn encode_sig_block_of(pairs: &Vec<SigPair>, buf: &mut Vec<u8>)
    requires
        pairs@.len() <= MAX_SIGNATURES,
    ensures
        final(buf)@ == old(buf)@ + enc_sig_block(
            Seq::new(pairs@.len(), |i: int| pairs@[i]@),
        ),
{
    let ghost ps = Seq::new(pairs@.len(), |i: int| pairs@[i]@);
    buf.push(pairs.len() as u8);
    let mut i: usize = 0;
    while i < pairs.len()
        invariant
            i <= pairs@.len(),
            pairs@.len() <= MAX_SIGNATURES,
            ps == Seq::new(pairs@.len(), |k: int| pairs@[k]@),
            buf@ == old(buf)@ + seq![ps.len() as u8] + enc_pairs(ps.take(i as int)),
        decreases pairs@.len() - i,
    {
        proof {
            assert(ps.take(i + 1) =~= ps.take(i as int).push(ps[i as int]));
            lemma_enc_pairs_push(ps.take(i as int), ps[i as int]);
        }
        crate::serializer::push_slice(buf, pairs[i].pub_key.bytes.as_slice());
        crate::serializer::push_slice(buf, pairs[i].signature.as_slice());
        proof {
            assert(buf@ =~= old(buf)@ + seq![ps.len() as u8] + enc_pairs(ps.take(i + 1)));
        }
        i += 1;
    }
    proof {
        assert(ps.take(ps.len() as int) =~= ps);
        assert(buf@ =~= old(buf)@ + enc_sig_block(ps));
    }
}

impl TxVariant {
    /// Appends the canonical encoding of the transaction, signatures
    /// included.
    #[verifier::rlimit(100)]
    #[verifier::spinoff_prover]
    pub fn encode_with_sigs(&self, buf: &mut Vec<u8>)
        requires
            wf_tx(self@),
        ensures
            final(buf)@ == old(buf)@ + enc_tx(self@),
    {
        match self {
            TxVariant::Owner(t) => {
                buf.push(0u8);
                encode_base(&t.base, buf);
                crate::serializer::push_slice(buf, t.minter.bytes.as_slice());
                crate::serializer::push_var_bytes(buf, t.script.as_slice());
                encode_sig_block_of(&t.base.signature_pairs, buf);
                proof {
                    assert(buf@ =~= old(buf)@ + enc_tx(self@));
                }
            },
            TxVariant::Mint(t) => {
                buf.push(1u8);
                encode_base(&t.base, buf);
                crate::serializer::push_slice(buf, t.to.bytes.as_slice());
                crate::serializer::push_i64(buf, t.amount.amount);
                crate::serializer::push_var_bytes(buf, t.attachment.as_slice());
                crate::serializer::push_var_bytes(buf, t.attachment_name.as_slice());
                crate::serializer::push_var_bytes(buf, t.script.as_slice());
                encode_sig_block_of(&t.base.signature_pairs, buf);
                proof {
                    assert(buf@ =~= old(buf)@ + enc_tx(self@));
                }
            },
            TxVariant::Reward(t) => {
                buf.push(2u8);
                encode_base(&t.base, buf);
                crate::serializer::push_slice(buf, t.to.bytes.as_slice());
                crate::serializer::push_i64(buf, t.rewards.amount);
                encode_sig_block_of(&t.base.signature_pairs, buf);
                proof {
                    assert(buf@ =~= old(buf)@ + enc_tx(self@));
                }
            },
            TxVariant::Transfer(t) => {
                buf.push(3u8);
                encode_base(&t.base, buf);
                crate::serializer::push_var_bytes(buf, t.from.as_slice());
                crate::serializer::push_slice(buf, t.to.bytes.as_slice());
                crate::serializer::push_i64(buf, t.amount.amount);
                crate::serializer::push_var_bytes(buf, t.memo.as_slice());
                encode_sig_block_of(&t.base.signature_pairs, buf);
                proof {
                    assert(buf@ =~= old(buf)@ + enc_tx(self@));
                }
            },
        }
    }
}


// ---------------------------------------------------------------------------
// Executable decoder
// ---------------------------------------------------------------------------
/// Reads the signature block.
pub fn decode_sig_block_of(buf: &[u8], pos: usize) -> (r: Option<(Vec<SigPair>, usize)>)
    ensures
        match r {
            Some((ps, n)) => n <= buf@.len() && dec_sig_block(buf@, pos as int) == Some(
                (Seq::new(ps@.len(), |i: int| ps@[i]@), n as int),
            ),
            None => dec_sig_block(buf@, pos as int) is None,
        },
{
    let (count, start) = match crate::serializer::read_u8(buf, pos) {
        Some(x) => x,
        None => {
            return None;
        },
    };
    let mut out: Vec<SigPair> = Vec::new();
    let mut cur: usize = start;
    let mut done: u8 = 0;
    while done < count
        invariant
            done <= count,
            out@.len() == done,
            start == pos + 1 <= buf@.len(),
            count == buf@[pos as int],
            cur <= buf@.len(),
            dec_pairs(buf@, start as int, count as nat) == (match dec_pairs(
                buf@,
                cur as int,
                (count - done) as nat,
            ) {
                Some((rest, e)) => Some(
                    (Seq::new(out@.len(), |i: int| out@[i]@) + rest, e),
                ),
                None => None,
            }),
        decreases count - done,
    {
        let ghost out0 = Seq::new(out@.len(), |i: int| out@[i]@);
        let (pk, c1) = match crate::serializer::read_exact(buf, cur, 32) {
            Some(x) => x,
            None => {
                return None;
            },
        };
        let (sg, c2) = match crate::serializer::read_exact(buf, c1, 64) {
            Some(x) => x,
            None => {
                return None;
            },
        };
        let pair = SigPair { pub_key: PublicKey { bytes: pk }, signature: sg };
        let ghost pv = pair@;
        out.push(pair);
        proof {
            assert(dec_fixed(buf@, cur as int, 32) == Some((pv.pub_key, cur + 32)));
            assert(dec_fixed(buf@, cur + 32, 64) == Some((pv.signature, cur + 96)));
            assert(dec_pairs(buf@, cur as int, (count - done) as nat) == (match dec_pairs(
                buf@,
                cur + 96,
                (count - done - 1) as nat,
            ) {
                Some((rest, e)) => Some((seq![pv] + rest, e)),
                None => None,
            }));
            assert(Seq::new(out@.len(), |i: int| out@[i]@) =~= out0.push(pv));
            match dec_pairs(buf@, cur + 96, (count - done - 1) as nat) {
                Some((rest, e)) => {
                    assert(out0 + (seq![pv] + rest) =~= out0.push(pv) + rest);
                },
                None => {},
            }
        }
        cur = c2;
        done += 1;
    }
    proof {
        assert(dec_pairs(buf@, cur as int, 0) == Some((Seq::<SigPairView>::empty(), cur as int)));
        assert(Seq::new(out@.len(), |i: int| out@[i]@) + Seq::<SigPairView>::empty() =~= Seq::new(
            out@.len(),
            |i: int| out@[i]@,
        ));
    }
    Some((out, cur))
}

impl TxVariant {
    /// Decodes one transaction starting at `pos`; fails closed on a short
    /// read or an unknown tag, consuming nothing on failure.
    #[verifier::rlimit(100)]
    #[verifier::spinoff_prover]
    pub fn decode_with_sigs(buf: &[u8], pos: usize) -> (r: Option<(TxVariant, usize)>)
        ensures
            match r {
                Some((t, n)) => n <= buf@.len() && dec_tx(buf@, pos as int) == Some(
                    (t@, n as int),
                ),
                None => dec_tx(buf@, pos as int) is None,
            },
    {
        let (tag, j0) = match crate::serializer::read_u8(buf, pos) {
            Some(x) => x,
            None => {
                return None;
            },
        };
        let (fee, jf) = match crate::serializer::read_i64(buf, j0) {
            Some(x) => x,
            None => {
                return None;
            },
        };
        let (ts, j1) = match crate::serializer::read_u64(buf, jf) {
            Some(x) => x,
            None => {
                return None;
            },
        };
        if tag == 0 {
            let (minter, j2) = match crate::serializer::read_exact(buf, j1, 32) {
                Some(x) => x,
                None => {
                    return None;
                },
            };
            let (script, j3) = match read_var_bytes(buf, j2) {
                Some(x) => x,
                None => {
                    return None;
                },
            };
            let (sigs, j4) = match decode_sig_block_of(buf, j3) {
                Some(x) => x,
                None => {
                    return None;
                },
            };
            let t = TxVariant::Owner(
                OwnerTx {
                    base: Tx { fee: Asset { amount: fee }, timestamp: ts, signature_pairs: sigs },
                    minter: PublicKey { bytes: minter },
                    script,
                },
            );
            Some((t, j4))
        } else if tag == 1 {
            let (to, j2) = match crate::serializer::read_exact(buf, j1, 32) {
                Some(x) => x,
                None => {
                    return None;
                },
            };
            let (amount, j3) = match crate::serializer::read_i64(buf, j2) {
                Some(x) => x,
                None => {
                    return None;
                },
            };
            let (attachment, j4) = match read_var_bytes(buf, j3) {
                Some(x) => x,
                None => {
                    return None;
                },
            };
            let (attachment_name, j5) = match read_var_bytes(buf, j4) {
                Some(x) => x,
                None => {
                    return None;
                },
            };
            let (script, j6) = match read_var_bytes(buf, j5) {
                Some(x) => x,
                None => {
                    return None;
                },
            };
            let (sigs, j7) = match decode_sig_block_of(buf, j6) {
                Some(x) => x,
                None => {
                    return None;
                },
            };
            let t = TxVariant::Mint(
                MintTx {
                    base: Tx { fee: Asset { amount: fee }, timestamp: ts, signature_pairs: sigs },
                    to: PublicKey { bytes: to },
                    amount: Asset { amount },
                    attachment,
                    attachment_name,
                    script,
                },
            );
            Some((t, j7))
        } else if tag == 2 {
            let (to, j2) = match crate::serializer::read_exact(buf, j1, 32) {
                Some(x) => x,
                None => {
                    return None;
                },
            };
            let (rewards, j3) = match crate::serializer::read_i64(buf, j2) {
                Some(x) => x,
                None => {
                    return None;
                },
            };
            let (sigs, j4) = match decode_sig_block_of(buf, j3) {
                Some(x) => x,
                None => {
                    return None;
                },
            };
            let t = TxVariant::Reward(
                RewardTx {
                    base: Tx { fee: Asset { amount: fee }, timestamp: ts, signature_pairs: sigs },
                    to: PublicKey { bytes: to },
                    rewards: Asset { amount: rewards },
                },
            );
            Some((t, j4))
        } else if tag == 3 {
            let (from, j2) = match read_var_bytes(buf, j1) {
                Some(x) => x,
                None => {
                    return None;
                },
            };
            let (to, j3) = match crate::serializer::read_exact(buf, j2, 32) {
                Some(x) => x,
                None => {
                    return None;
                },
            };
            let (amount, j4) = match crate::serializer::read_i64(buf, j3) {
                Some(x) => x,
                None => {
                    return None;
                },
            };
            let (memo, j5) = match read_var_bytes(buf, j4) {
                Some(x) => x,
                None => {
                    return None;
                },
            };
            let (sigs, j6) = match decode_sig_block_of(buf, j5) {
                Some(x) => x,
                None => {
                    return None;
                },
            };
            let t = TxVariant::Transfer(
                TransferTx {
                    base: Tx { fee: Asset { amount: fee }, timestamp: ts, signature_pairs: sigs },
                    from,
                    to: PublicKey { bytes: to },
                    amount: Asset { amount },
                    memo,
                },
            );
            Some((t, j6))
        } else {
            None
        }
    }
}

/// Reads length-prefixed bytes.
pub fn read_var_bytes(buf: &[u8], pos: usize) -> (r: Option<(Vec<u8>, usize)>)
    ensures
        match r {
            Some((b, n)) => n <= buf@.len() && dec_var(buf@, pos as int) == Some((b@, n as int)),
            None => dec_var(buf@, pos as int) is None,
        },
{
    let (l, j) = match crate::serializer::read_u32(buf, pos) {
        Some(x) => x,
        None => {
            return None;
        },
    };
    crate::serializer::read_exact(buf, j, l as usize)
}


/// Copies a public key, byte for byte.
pub fn clone_pub_key(k: &PublicKey) -> (r: PublicKey)
    ensures
        r@ == k@,
{
    PublicKey { bytes: vstd::slice::slice_to_vec(k.bytes.as_slice()) }
}

/// Copies a signature run, pair for pair.
pub fn clone_sig_pairs(ps: &Vec<SigPair>) -> (r: Vec<SigPair>)
    ensures
        r@.len() == ps@.len(),
        forall|i: int| 0 <= i < ps@.len() ==> (#[trigger] r@[i])@ == ps@[i]@,
{
    let mut out: Vec<SigPair> = Vec::new();
    let mut i: usize = 0;
    while i < ps.len()
        invariant
            i <= ps@.len(),
            out@.len() == i,
            forall|j: int| 0 <= j < i ==> (#[trigger] out@[j])@ == ps@[j]@,
        decreases ps@.len() - i,
    {
        out.push(
            SigPair {
                pub_key: clone_pub_key(&ps[i].pub_key),
                signature: vstd::slice::slice_to_vec(ps[i].signature.as_slice()),
            },
        );
        i += 1;
    }
    out
}

/// Copies a transaction header.
pub fn clone_tx_base(t: &Tx) -> (r: Tx)
    ensures
        r@ == t@,
{
    let r = Tx {
        fee: t.fee,
        timestamp: t.timestamp,
        signature_pairs: clone_sig_pairs(&t.signature_pairs),
    };
    proof {
        assert(r@.sig_pairs =~= t@.sig_pairs);
        assert(r@ =~~= t@);
    }
    r
}

impl TxVariant {
    /// Copies the transaction, field for field.
    pub fn duplicate(&self) -> (r: TxVariant)
        ensures
            r@ == self@,
    {
        match self {
            TxVariant::Owner(t) => {
                let r = TxVariant::Owner(
                    OwnerTx {
                        base: clone_tx_base(&t.base),
                        minter: clone_pub_key(&t.minter),
                        script: vstd::slice::slice_to_vec(t.script.as_slice()),
                    },
                );
                proof {
                    assert(r@ =~~= self@);
                }
                r
            },
            TxVariant::Mint(t) => {
                let r = TxVariant::Mint(
                    MintTx {
                        base: clone_tx_base(&t.base),
                        to: clone_pub_key(&t.to),
                        amount: t.amount,
                        attachment: vstd::slice::slice_to_vec(t.attachment.as_slice()),
                        attachment_name: vstd::slice::slice_to_vec(t.attachment_name.as_slice()),
                        script: vstd::slice::slice_to_vec(t.script.as_slice()),
                    },
                );
                proof {
                    assert(r@ =~~= self@);
                }
                r
            },
            TxVariant::Reward(t) => {
                let r = TxVariant::Reward(
                    RewardTx {
                        base: clone_tx_base(&t.base),
                        to: clone_pub_key(&t.to),
                        rewards: t.rewards,
                    },
                );
                proof {
                    assert(r@ =~~= self@);
                }
                r
            },
            TxVariant::Transfer(t) => {
                let r = TxVariant::Transfer(
                    TransferTx {
                        base: clone_tx_base(&t.base),
                        from: vstd::slice::slice_to_vec(t.from.as_slice()),
                        to: clone_pub_key(&t.to),
                        amount: t.amount,
                        memo: vstd::slice::slice_to_vec(t.memo.as_slice()),
                    },
                );
                proof {
                    assert(r@ =~~= self@);
                }
                r
            },
        }
    }
}


/// Checks the signature run: at most eight pairs, 32-byte keys, 64-byte
/// signatures.
pub fn check_wf_pairs(ps: &Vec<SigPair>) -> (r: bool)
    ensures
        r == (ps@.len() <= MAX_SIGNATURES && wf_base_pairs(
            Seq::new(ps@.len(), |i: int| ps@[i]@),
        )),
{
    let ghost view = Seq::new(ps@.len(), |i: int| ps@[i]@);
    if ps.len() > MAX_SIGNATURES {
        return false;
    }
    let mut i: usize = 0;
    while i < ps.len()
        invariant
            i <= ps@.len(),
            view == Seq::new(ps@.len(), |k: int| ps@[k]@),
            forall|j: int| 0 <= j < i ==> wf_pair(#[trigger] view[j]),
        decreases ps@.len() - i,
    {
        if ps[i].pub_key.bytes.len() != 32 || ps[i].signature.len() != 64 {
            proof {
                assert(view[i as int] == ps@[i as int]@);
                assert(!wf_pair(view[i as int]));
            }
            return false;
        }
        proof {
            assert(view[i as int] == ps@[i as int]@);
        }
        i += 1;
    }
    true
}

impl TxVariant {
    /// Checks that the wire format can carry the transaction.
    pub fn check_wf(&self) -> (r: bool)
        ensures
            r == wf_tx(self@),
    {
        match self {
            TxVariant::Owner(t) => check_wf_pairs(&t.base.signature_pairs) && t.minter.bytes.len()
                == 32 && t.script.len() <= u32::MAX as usize,
            TxVariant::Mint(t) => check_wf_pairs(&t.base.signature_pairs) && t.to.bytes.len() == 32
                && t.attachment.len() <= u32::MAX as usize && t.attachment_name.len()
                <= u32::MAX as usize && t.script.len() <= u32::MAX as usize,
            TxVariant::Reward(t) => check_wf_pairs(&t.base.signature_pairs) && t.to.bytes.len()
                == 32,
            TxVariant::Transfer(t) => check_wf_pairs(&t.base.signature_pairs) && t.from.len()
                <= u32::MAX as usize && t.to.bytes.len() == 32 && t.memo.len()
                <= u32::MAX as usize,
        }
    }
}

} // verus!
