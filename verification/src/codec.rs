//! The framed wire codec: request/response payloads, their binary form, the
//! stateful frame decoder, and the proof that decoding a payload inverts
//! encoding it.
use vstd::prelude::*;
use crate::asset::Asset;
use crate::block::Block;
use crate::block::BlockView;
use crate::block::dec_block;
use crate::block::enc_block;
use crate::block::lemma_dec_block;
use crate::block::wf_block;
use crate::serializer::be_u32_at;
use crate::serializer::enc_i64;
use crate::serializer::enc_u32;
use crate::serializer::enc_u64;
use crate::serializer::enc_var_bytes;
use crate::serializer::lemma_dec_u32;
use crate::serializer::lemma_dec_u64;
use crate::serializer::lemma_i64_u64_round_trip;
use crate::tx::PublicKey;
use crate::tx::TxVariant;
use crate::tx::TxView;
use crate::tx::dec_fixed;
use crate::tx::dec_i64_at;
use crate::tx::dec_tx;
use crate::tx::dec_u64_at;
use crate::tx::dec_u8_at;
use crate::tx::dec_var;
use crate::tx::enc_tx;
use crate::tx::lemma_dec_tx;
use crate::tx::lemma_dec_var_at;
use crate::tx::lemma_split;
use crate::tx::wf_tx;

verus! {

/// Frames longer than this close the connection (5 MiB).
pub const MAX_PAYLOAD_LEN: u32 = 5_242_880;

/// Who is on the far end of a connection.
#[derive(Clone, Copy, Debug, PartialEq, Eq, Structural)]
pub enum PeerType {
    Node,
    Wallet,
}

/// Chain properties carried on the wire.
#[derive(Clone, Copy, Debug, PartialEq, Eq, Structural)]
pub struct Properties {
    pub height: u64,
}

/// A pair of balances, as the legacy wire format carries them.
#[derive(Clone, Copy, Debug, PartialEq, Eq, Structural)]
pub struct Balance {
    pub gold: Asset,
    pub silver: Asset,
}

/// A pushed notification.
pub enum RpcEvent {
    Tx(TxVariant),
    Block(Block),
}

/// Properties request or response.
pub enum PropsIo {
    In,
    Out(Properties),
}

/// Block request (a height) or response (the block).
pub enum BlockIo {
    In(u64),
    Out(Block),
}

/// Balance request (an address) or response (the balances).
pub enum BalanceIo {
    In(PublicKey),
    Out(Balance),
}

/// One message; requests and responses share the namespace.
pub enum RpcMsg {
    Error(Vec<u8>),
    Event(RpcEvent),
    Handshake(PeerType),
    Broadcast(TxVariant),
    Properties(PropsIo),
    Block(BlockIo),
    Balance(BalanceIo),
    TotalFee(BalanceIo),
    GetAddressInfo(BalanceIo),
    GetFullBlock(BlockIo),
    Subscribe,
    Unsubscribe,
}

/// A request id with an optional message; an id alone is a keep-alive.
pub struct RpcPayload {
    pub id: u32,
    pub msg: Option<RpcMsg>,
}

// ---------------------------------------------------------------------------
// Views
// ---------------------------------------------------------------------------
#[verifier::ext_equal]
pub enum RpcEventView {
    Tx(TxView),
    Block(BlockView),
}

#[verifier::ext_equal]
pub enum RpcMsgView {
    Error(Seq<u8>),
    Event(RpcEventView),
    Handshake(PeerType),
    Broadcast(TxView),
    Properties(Option<u64>),
    BlockIn(u64),
    BlockOut(BlockView),
    BalanceIn(Seq<u8>),
    BalanceOut(i64, i64),
    TotalFeeIn(Seq<u8>),
    TotalFeeOut(i64, i64),
    AddressInfoIn(Seq<u8>),
    AddressInfoOut(i64, i64),
    FullBlockIn(u64),
    FullBlockOut(BlockView),
    Subscribe,
    Unsubscribe,
}

#[verifier::ext_equal]
pub struct RpcPayloadView {
    pub id: u32,
    pub msg: Option<RpcMsgView>,
}

impl View for RpcMsg {
    type V = RpcMsgView;

    open spec fn view(&self) -> RpcMsgView {
        match self {
            RpcMsg::Error(e) => RpcMsgView::Error(e@),
            RpcMsg::Event(RpcEvent::Tx(t)) => RpcMsgView::Event(RpcEventView::Tx(t@)),
            RpcMsg::Event(RpcEvent::Block(b)) => RpcMsgView::Event(RpcEventView::Block(b@)),
            RpcMsg::Handshake(p) => RpcMsgView::Handshake(*p),
            RpcMsg::Broadcast(t) => RpcMsgView::Broadcast(t@),
            RpcMsg::Properties(PropsIo::In) => RpcMsgView::Properties(None),
            RpcMsg::Properties(PropsIo::Out(p)) => RpcMsgView::Properties(Some(p.height)),
            RpcMsg::Block(BlockIo::In(h)) => RpcMsgView::BlockIn(*h),
            RpcMsg::Block(BlockIo::Out(b)) => RpcMsgView::BlockOut(b@),
            RpcMsg::Balance(BalanceIo::In(k)) => RpcMsgView::BalanceIn(k@),
            RpcMsg::Balance(BalanceIo::Out(b)) => RpcMsgView::BalanceOut(
                b.gold.amount,
                b.silver.amount,
            ),
            RpcMsg::TotalFee(BalanceIo::In(k)) => RpcMsgView::TotalFeeIn(k@),
            RpcMsg::TotalFee(BalanceIo::Out(b)) => RpcMsgView::TotalFeeOut(
                b.gold.amount,
                b.silver.amount,
            ),
            RpcMsg::GetFullBlock(BlockIo::In(h)) => RpcMsgView::FullBlockIn(*h),
            RpcMsg::GetFullBlock(BlockIo::Out(b)) => RpcMsgView::FullBlockOut(b@),
            RpcMsg::GetAddressInfo(BalanceIo::In(k)) => RpcMsgView::AddressInfoIn(k@),
            RpcMsg::GetAddressInfo(BalanceIo::Out(b)) => RpcMsgView::AddressInfoOut(
                b.gold.amount,
                b.silver.amount,
            ),
            RpcMsg::Subscribe => RpcMsgView::Subscribe,
            RpcMsg::Unsubscribe => RpcMsgView::Unsubscribe,
        }
    }
}

impl View for RpcPayload {
    type V = RpcPayloadView;

    open spec fn view(&self) -> RpcPayloadView {
        RpcPayloadView {
            id: self.id,
            msg: match &self.msg {
                Some(m) => Some(m@),
                None => None,
            },
        }
    }
}

pub open spec fn wf_msg(m: RpcMsgView) -> bool {
    match m {
        RpcMsgView::Error(e) => e.len() <= u32::MAX,
        RpcMsgView::Event(RpcEventView::Tx(t)) => wf_tx(t),
        RpcMsgView::Event(RpcEventView::Block(b)) => wf_block(b),
        RpcMsgView::Handshake(_) => true,
        RpcMsgView::Broadcast(t) => wf_tx(t),
        RpcMsgView::Properties(_) => true,
        RpcMsgView::BlockIn(_) => true,
        RpcMsgView::BlockOut(b) => wf_block(b),
        RpcMsgView::BalanceIn(k) => k.len() == 32,
        RpcMsgView::BalanceOut(_, _) => true,
        RpcMsgView::TotalFeeIn(k) => k.len() == 32,
        RpcMsgView::TotalFeeOut(_, _) => true,
        RpcMsgView::AddressInfoIn(k) => k.len() == 32,
        RpcMsgView::AddressInfoOut(_, _) => true,
        RpcMsgView::FullBlockIn(_) => true,
        RpcMsgView::FullBlockOut(b) => wf_block(b),
        RpcMsgView::Subscribe => true,
        RpcMsgView::Unsubscribe => true,
    }
}

pub open spec fn wf_payload(p: RpcPayloadView) -> bool {
    match p.msg {
        Some(m) => wf_msg(m),
        None => true,
    }
}

// ---------------------------------------------------------------------------
// Specification of the encoding
// ---------------------------------------------------------------------------
pub open spec fn enc_msg(m: RpcMsgView) -> Seq<u8> {
    match m {
        RpcMsgView::Error(e) => seq![0u8] + enc_var_bytes(e),
        RpcMsgView::Event(RpcEventView::Tx(t)) => seq![1u8, 0u8] + enc_tx(t),
        RpcMsgView::Event(RpcEventView::Block(b)) => seq![1u8, 1u8] + enc_block(b),
        RpcMsgView::Handshake(p) => seq![
            2u8,
            match p {
                PeerType::Node => 0u8,
                PeerType::Wallet => 1u8,
            },
        ],
        RpcMsgView::Broadcast(t) => seq![3u8] + enc_tx(t),
        RpcMsgView::Properties(None) => seq![4u8, 0u8],
        RpcMsgView::Properties(Some(h)) => seq![4u8, 1u8] + enc_u64(h),
        RpcMsgView::BlockIn(h) => seq![5u8, 0u8] + enc_u64(h),
        RpcMsgView::BlockOut(b) => seq![5u8, 1u8] + enc_block(b),
        RpcMsgView::BalanceIn(k) => seq![6u8, 0u8] + k,
        RpcMsgView::BalanceOut(g, s) => seq![6u8, 1u8] + enc_i64(g) + enc_i64(s),
        RpcMsgView::TotalFeeIn(k) => seq![7u8, 0u8] + k,
        RpcMsgView::TotalFeeOut(g, s) => seq![7u8, 1u8] + enc_i64(g) + enc_i64(s),
        RpcMsgView::AddressInfoIn(k) => seq![10u8, 0u8] + k,
        RpcMsgView::AddressInfoOut(b, f) => seq![10u8, 1u8] + enc_i64(b) + enc_i64(f),
        RpcMsgView::FullBlockIn(h) => seq![11u8, 0u8] + enc_u64(h),
        RpcMsgView::FullBlockOut(b) => seq![11u8, 1u8] + enc_block(b),
        RpcMsgView::Subscribe => seq![8u8],
        RpcMsgView::Unsubscribe => seq![9u8],
    }
}

/// The payload: the request id, then the message if there is one.
pub open spec fn enc_payload(p: RpcPayloadView) -> Seq<u8> {
    match p.msg {
        Some(m) => enc_u32(p.id) + enc_msg(m),
        None => enc_u32(p.id),
    }
}

// ---------------------------------------------------------------------------
// Specification of the decoder
// ---------------------------------------------------------------------------
pub open spec fn dec_msg(s: Seq<u8>, i: int) -> Option<(RpcMsgView, int)> {
    match dec_u8_at(s, i) {
        None => None,
        Some((tag, j)) => if tag == 0 {
            match dec_var(s, j) {
                Some((e, j2)) => Some((RpcMsgView::Error(e), j2)),
                None => None,
            }
        } else if tag == 1 {
            match dec_u8_at(s, j) {
                Some((et, j2)) => if et == 0 {
                    match dec_tx(s, j2) {
                        Some((t, j3)) => Some((RpcMsgView::Event(RpcEventView::Tx(t)), j3)),
                        None => None,
                    }
                } else if et == 1 {
                    match dec_block(s, j2) {
                        Some((b, j3)) => Some((RpcMsgView::Event(RpcEventView::Block(b)), j3)),
                        None => None,
                    }
                } else {
                    None
                },
                None => None,
            }
        } else if tag == 2 {
            match dec_u8_at(s, j) {
                Some((pt, j2)) => if pt == 0 {
                    Some((RpcMsgView::Handshake(PeerType::Node), j2))
                } else if pt == 1 {
                    Some((RpcMsgView::Handshake(PeerType::Wallet), j2))
                } else {
                    None
                },
                None => None,
            }
        } else if tag == 3 {
            match dec_tx(s, j) {
                Some((t, j2)) => Some((RpcMsgView::Broadcast(t), j2)),
                None => None,
            }
        } else if tag == 4 {
            match dec_u8_at(s, j) {
                Some((io, j2)) => if io == 0 {
                    Some((RpcMsgView::Properties(None), j2))
                } else if io == 1 {
                    match dec_u64_at(s, j2) {
                        Some((h, j3)) => Some((RpcMsgView::Properties(Some(h)), j3)),
                        None => None,
                    }
                } else {
                    None
                },
                None => None,
            }
        } else if tag == 5 {
            match dec_u8_at(s, j) {
                Some((io, j2)) => if io == 0 {
                    match dec_u64_at(s, j2) {
                        Some((h, j3)) => Some((RpcMsgView::BlockIn(h), j3)),
                        None => None,
                    }
                } else if io == 1 {
                    match dec_block(s, j2) {
                        Some((b, j3)) => Some((RpcMsgView::BlockOut(b), j3)),
                        None => None,
                    }
                } else {
                    None
                },
                None => None,
            }
        } else if tag == 6 {
            match dec_u8_at(s, j) {
                Some((io, j2)) => if io == 0 {
                    match dec_fixed(s, j2, 32) {
                        Some((k, j3)) => Some((RpcMsgView::BalanceIn(k), j3)),
                        None => None,
                    }
                } else if io == 1 {
                    match dec_i64_at(s, j2) {
                        Some((g, j3)) => match dec_i64_at(s, j3) {
                            Some((sv, j4)) => Some((RpcMsgView::BalanceOut(g, sv), j4)),
                            None => None,
                        },
                        None => None,
                    }
                } else {
                    None
                },
                None => None,
            }
        } else if tag == 7 {
            match dec_u8_at(s, j) {
                Some((io, j2)) => if io == 0 {
                    match dec_fixed(s, j2, 32) {
                        Some((k, j3)) => Some((RpcMsgView::TotalFeeIn(k), j3)),
                        None => None,
                    }
                } else if io == 1 {
                    match dec_i64_at(s, j2) {
                        Some((g, j3)) => match dec_i64_at(s, j3) {
                            Some((sv, j4)) => Some((RpcMsgView::TotalFeeOut(g, sv), j4)),
                            None => None,
                        },
                        None => None,
                    }
                } else {
                    None
                },
                None => None,
            }
        } else if tag == 8 {
            Some((RpcMsgView::Subscribe, j))
        } else if tag == 9 {
            Some((RpcMsgView::Unsubscribe, j))
        } else if tag == 10 {
            match dec_u8_at(s, j) {
                Some((io, j2)) => if io == 0 {
                    match dec_fixed(s, j2, 32) {
                        Some((k, j3)) => Some((RpcMsgView::AddressInfoIn(k), j3)),
                        None => None,
                    }
                } else if io == 1 {
                    match dec_i64_at(s, j2) {
                        Some((bb, j3)) => match dec_i64_at(s, j3) {
                            Some((f, j4)) => Some((RpcMsgView::AddressInfoOut(bb, f), j4)),
                            None => None,
                        },
                        None => None,
                    }
                } else {
                    None
                },
                None => None,
            }
        } else if tag == 11 {
            match dec_u8_at(s, j) {
                Some((io, j2)) => if io == 0 {
                    match dec_u64_at(s, j2) {
                        Some((h, j3)) => Some((RpcMsgView::FullBlockIn(h), j3)),
                        None => None,
                    }
                } else if io == 1 {
                    match dec_block(s, j2) {
                        Some((b, j3)) => Some((RpcMsgView::FullBlockOut(b), j3)),
                        None => None,
                    }
                } else {
                    None
                },
                None => None,
            }
        } else {
            None
        },
    }
}

/// Decodes one payload from exactly the frame body: the id, then the
/// message unless the body holds the id alone.
pub open spec fn dec_payload(s: Seq<u8>) -> Option<(RpcPayloadView, int)> {
    if s.len() < 4 {
        None
    } else {
        let id = be_u32_at(s, 0);
        if s.len() == 4 {
            Some((RpcPayloadView { id, msg: None }, 4))
        } else {
            match dec_msg(s, 4) {
                Some((m, n)) => Some((RpcPayloadView { id, msg: Some(m) }, n)),
                None => None,
            }
        }
    }
}

// ---------------------------------------------------------------------------
// Round trip
// ---------------------------------------------------------------------------

#[verifier::rlimit(100)]
#[verifier::spinoff_prover]
proof fn lemma_dec_msg_event(s: Seq<u8>, i: int, m: RpcMsgView)
    requires
        0 <= i,
        wf_msg(m),
        m is Event,
        i + enc_msg(m).len() <= s.len(),
        s.subrange(i, i + enc_msg(m).len()) == enc_msg(m),
    ensures
        dec_msg(s, i) == Some((m, i + enc_msg(m).len())),
{
    match m {
        RpcMsgView::Event(RpcEventView::Tx(t)) => {
            lemma_split(s, i, seq![1u8, 0u8], enc_tx(t));
            assert(s[i] == s.subrange(i, i + 2)[0]);
            assert(s[i + 1] == s.subrange(i, i + 2)[1]);
            lemma_dec_tx(s, i + 2, t);
        },
        RpcMsgView::Event(RpcEventView::Block(b)) => {
            lemma_split(s, i, seq![1u8, 1u8], enc_block(b));
            assert(s[i] == s.subrange(i, i + 2)[0]);
            assert(s[i + 1] == s.subrange(i, i + 2)[1]);
            lemma_dec_block(s, i + 2, b);
        },
        _ => {
            assert(false);
        },
    }
}

#[verifier::rlimit(100)]
#[verifier::spinoff_prover]
proof fn lemma_dec_msg_broadcast(s: Seq<u8>, i: int, m: RpcMsgView)
    requires
        0 <= i,
        wf_msg(m),
        m is Broadcast,
        i + enc_msg(m).len() <= s.len(),
        s.subrange(i, i + enc_msg(m).len()) == enc_msg(m),
    ensures
        dec_msg(s, i) == Some((m, i + enc_msg(m).len())),
{
    match m {
        RpcMsgView::Broadcast(t) => {
            lemma_split(s, i, seq![3u8], enc_tx(t));
            assert(s[i] == s.subrange(i, i + 1)[0]);
            lemma_dec_tx(s, i + 1, t);
        },
        _ => {
            assert(false);
        },
    }
}

#[verifier::rlimit(100)]
#[verifier::spinoff_prover]
proof fn lemma_dec_msg_block_out(s: Seq<u8>, i: int, m: RpcMsgView)
    requires
        0 <= i,
        wf_msg(m),
        m is BlockOut,
        i + enc_msg(m).len() <= s.len(),
        s.subrange(i, i + enc_msg(m).len()) == enc_msg(m),
    ensures
        dec_msg(s, i) == Some((m, i + enc_msg(m).len())),
{
    match m {
        RpcMsgView::BlockOut(b) => {
            lemma_split(s, i, seq![5u8, 1u8], enc_block(b));
            assert(s[i] == s.subrange(i, i + 2)[0]);
            assert(s[i + 1] == s.subrange(i, i + 2)[1]);
            lemma_dec_block(s, i + 2, b);
        },
        _ => {
            assert(false);
        },
    }
}

#[verifier::rlimit(100)]
#[verifier::spinoff_prover]
proof fn lemma_dec_msg_full_block(s: Seq<u8>, i: int, m: RpcMsgView)
    requires
        0 <= i,
        wf_msg(m),
        m is FullBlockIn || m is FullBlockOut,
        i + enc_msg(m).len() <= s.len(),
        s.subrange(i, i + enc_msg(m).len()) == enc_msg(m),
    ensures
        dec_msg(s, i) == Some((m, i + enc_msg(m).len())),
{
    match m {
        RpcMsgView::FullBlockIn(h) => {
            lemma_split(s, i, seq![11u8, 0u8], enc_u64(h));
            assert(s[i] == s.subrange(i, i + 2)[0]);
            assert(s[i + 1] == s.subrange(i, i + 2)[1]);
            lemma_dec_u64(s, i + 2, h);
        },
        RpcMsgView::FullBlockOut(b) => {
            lemma_split(s, i, seq![11u8, 1u8], enc_block(b));
            assert(s[i] == s.subrange(i, i + 2)[0]);
            assert(s[i + 1] == s.subrange(i, i + 2)[1]);
            lemma_dec_block(s, i + 2, b);
        },
        _ => {
            assert(false);
        },
    }
}


#[verifier::rlimit(100)]
#[verifier::spinoff_prover]
proof fn lemma_dec_msg_addr_info(s: Seq<u8>, i: int, m: RpcMsgView)
    requires
        0 <= i,
        wf_msg(m),
        m is AddressInfoIn || m is AddressInfoOut,
        i + enc_msg(m).len() <= s.len(),
        s.subrange(i, i + enc_msg(m).len()) == enc_msg(m),
    ensures
        dec_msg(s, i) == Some((m, i + enc_msg(m).len())),
{
    match m {
        RpcMsgView::AddressInfoIn(k) => {
            lemma_split(s, i, seq![10u8, 0u8], k);
            assert(s[i] == s.subrange(i, i + 2)[0]);
            assert(s[i + 1] == s.subrange(i, i + 2)[1]);
            assert(dec_fixed(s, i + 2, 32) == Some((k, i + 34)));
        },
        RpcMsgView::AddressInfoOut(bb, f) => {
            lemma_split(s, i, seq![10u8, 1u8] + enc_i64(bb), enc_i64(f));
            lemma_split(s, i, seq![10u8, 1u8], enc_i64(bb));
            assert(s[i] == s.subrange(i, i + 2)[0]);
            assert(s[i + 1] == s.subrange(i, i + 2)[1]);
            lemma_dec_u64(s, i + 2, bb as u64);
            lemma_dec_u64(s, i + 10, f as u64);
            lemma_i64_u64_round_trip(bb);
            lemma_i64_u64_round_trip(f);
        },
        _ => {
            assert(false);
        },
    }
}

#[verifier::rlimit(100)]
#[verifier::spinoff_prover]
proof fn lemma_dec_msg_light(s: Seq<u8>, i: int, m: RpcMsgView)
    requires
        0 <= i,
        wf_msg(m),
        !(m is Event) && !(m is Broadcast) && !(m is BlockOut) && !(m is AddressInfoIn) && !(
        m is AddressInfoOut) && !(m is FullBlockIn) && !(m is FullBlockOut),
        i + enc_msg(m).len() <= s.len(),
        s.subrange(i, i + enc_msg(m).len()) == enc_msg(m),
    ensures
        dec_msg(s, i) == Some((m, i + enc_msg(m).len())),
{
    match m {
        RpcMsgView::Error(e) => {
            lemma_split(s, i, seq![0u8], enc_var_bytes(e));
            assert(s[i] == s.subrange(i, i + 1)[0]);
            lemma_dec_var_at(s, i + 1, e);
        },
        RpcMsgView::Handshake(p) => {
            assert(s[i] == s.subrange(i, i + 2)[0]);
            assert(s[i + 1] == s.subrange(i, i + 2)[1]);
        },
        RpcMsgView::Properties(h_opt) => {
            match h_opt {
                None => {
                    assert(s[i] == s.subrange(i, i + 2)[0]);
                    assert(s[i + 1] == s.subrange(i, i + 2)[1]);
                },
                Some(h) => {
                    lemma_split(s, i, seq![4u8, 1u8], enc_u64(h));
                    assert(s[i] == s.subrange(i, i + 2)[0]);
                    assert(s[i + 1] == s.subrange(i, i + 2)[1]);
                    lemma_dec_u64(s, i + 2, h);
                },
            }
        },
        RpcMsgView::BlockIn(h) => {
            lemma_split(s, i, seq![5u8, 0u8], enc_u64(h));
            assert(s[i] == s.subrange(i, i + 2)[0]);
            assert(s[i + 1] == s.subrange(i, i + 2)[1]);
            lemma_dec_u64(s, i + 2, h);
        },
        RpcMsgView::BalanceIn(k) => {
            lemma_split(s, i, seq![6u8, 0u8], k);
            assert(s[i] == s.subrange(i, i + 2)[0]);
            assert(s[i + 1] == s.subrange(i, i + 2)[1]);
            assert(dec_fixed(s, i + 2, 32) == Some((k, i + 34)));
        },
        RpcMsgView::BalanceOut(g, sv) => {
            lemma_split(s, i, seq![6u8, 1u8] + enc_i64(g), enc_i64(sv));
            lemma_split(s, i, seq![6u8, 1u8], enc_i64(g));
            assert(s[i] == s.subrange(i, i + 2)[0]);
            assert(s[i + 1] == s.subrange(i, i + 2)[1]);
            lemma_dec_u64(s, i + 2, g as u64);
            lemma_dec_u64(s, i + 10, sv as u64);
            lemma_i64_u64_round_trip(g);
            lemma_i64_u64_round_trip(sv);
        },
        RpcMsgView::TotalFeeIn(k) => {
            lemma_split(s, i, seq![7u8, 0u8], k);
            assert(s[i] == s.subrange(i, i + 2)[0]);
            assert(s[i + 1] == s.subrange(i, i + 2)[1]);
            assert(dec_fixed(s, i + 2, 32) == Some((k, i + 34)));
        },
        RpcMsgView::TotalFeeOut(g, sv) => {
            lemma_split(s, i, seq![7u8, 1u8] + enc_i64(g), enc_i64(sv));
            lemma_split(s, i, seq![7u8, 1u8], enc_i64(g));
            assert(s[i] == s.subrange(i, i + 2)[0]);
            assert(s[i + 1] == s.subrange(i, i + 2)[1]);
            lemma_dec_u64(s, i + 2, g as u64);
            lemma_dec_u64(s, i + 10, sv as u64);
            lemma_i64_u64_round_trip(g);
            lemma_i64_u64_round_trip(sv);
        },
        RpcMsgView::Subscribe => {
            assert(s[i] == s.subrange(i, i + 1)[0]);
        },
        RpcMsgView::Unsubscribe => {
            assert(s[i] == s.subrange(i, i + 1)[0]);
        },
        _ => {
            assert(false);
        },
    }
}

/// Decoding a well-formed encoded message yields it back.
pub proof fn lemma_dec_msg(s: Seq<u8>, i: int, m: RpcMsgView)
    requires
        0 <= i,
        wf_msg(m),
        i + enc_msg(m).len() <= s.len(),
        s.subrange(i, i + enc_msg(m).len()) == enc_msg(m),
    ensures
        dec_msg(s, i) == Some((m, i + enc_msg(m).len())),
{
    if m is Event {
        lemma_dec_msg_event(s, i, m);
    } else if m is Broadcast {
        lemma_dec_msg_broadcast(s, i, m);
    } else if m is BlockOut {
        lemma_dec_msg_block_out(s, i, m);
    } else if m is FullBlockIn || m is FullBlockOut {
        lemma_dec_msg_full_block(s, i, m);
    } else if m is AddressInfoIn || m is AddressInfoOut {
        lemma_dec_msg_addr_info(s, i, m);
    } else {
        lemma_dec_msg_light(s, i, m);
    }
}

/// Round trip: decoding an encoded payload gives the payload back and
/// consumes the whole body.
pub proof fn lemma_payload_round_trip(p: RpcPayloadView)
    requires
        wf_payload(p),
    ensures
        dec_payload(enc_payload(p)) == Some((p, enc_payload(p).len() as int)),
{
    let s = enc_payload(p);
    match p.msg {
        None => {
            assert(s.subrange(0, 4) =~= enc_u32(p.id));
            lemma_dec_u32(s, 0, p.id);
        },
        Some(m) => {
            assert(enc_msg(m).len() >= 1);
            assert(s.subrange(0, s.len() as int) =~= s);
            lemma_split(s, 0, enc_u32(p.id), enc_msg(m));
            lemma_dec_u32(s, 0, p.id);
            lemma_dec_msg(s, 4, m);
        },
    }
}


// ---------------------------------------------------------------------------
// Executable encoder and decoder
// ---------------------------------------------------------------------------
/// Errors the frame decoder reports; each closes the connection.
#[derive(Clone, Copy, Debug, PartialEq, Eq, Structural)]
pub enum CodecError {
    FrameTooSmall,
    FrameTooLarge,
    Malformed,
}

/// Appends the body of one message.
#[verifier::rlimit(100)]
#[verifier::spinoff_prover]
pub fn encode_msg(m: &RpcMsg, buf: &mut Vec<u8>)
    requires
        wf_msg(m@),
    ensures
        final(buf)@ == old(buf)@ + enc_msg(m@),
{
    match m {
        RpcMsg::Error(e) => {
            buf.push(0u8);
            crate::serializer::push_var_bytes(buf, e.as_slice());
            proof {
                assert(buf@ =~= old(buf)@ + enc_msg(m@));
            }
        },
        RpcMsg::Event(RpcEvent::Tx(t)) => {
            buf.push(1u8);
            buf.push(0u8);
            t.encode_with_sigs(buf);
            proof {
                assert(buf@ =~= old(buf)@ + enc_msg(m@));
            }
        },
        RpcMsg::Event(RpcEvent::Block(b)) => {
            buf.push(1u8);
            buf.push(1u8);
            b.encode_with_tx(buf);
            proof {
                assert(buf@ =~= old(buf)@ + enc_msg(m@));
            }
        },
        RpcMsg::Handshake(p) => {
            buf.push(2u8);
            match p {
                PeerType::Node => buf.push(0u8),
                PeerType::Wallet => buf.push(1u8),
            }
            proof {
                assert(buf@ =~= old(buf)@ + enc_msg(m@));
            }
        },
        RpcMsg::Broadcast(t) => {
            buf.push(3u8);
            t.encode_with_sigs(buf);
            proof {
                assert(buf@ =~= old(buf)@ + enc_msg(m@));
            }
        },
        RpcMsg::Properties(PropsIo::In) => {
            buf.push(4u8);
            buf.push(0u8);
            proof {
                assert(buf@ =~= old(buf)@ + enc_msg(m@));
            }
        },
        RpcMsg::Properties(PropsIo::Out(pr)) => {
            buf.push(4u8);
            buf.push(1u8);
            crate::serializer::push_u64(buf, pr.height);
            proof {
                assert(buf@ =~= old(buf)@ + enc_msg(m@));
            }
        },
        RpcMsg::Block(BlockIo::In(h)) => {
            buf.push(5u8);
            buf.push(0u8);
            crate::serializer::push_u64(buf, *h);
            proof {
                assert(buf@ =~= old(buf)@ + enc_msg(m@));
            }
        },
        RpcMsg::Block(BlockIo::Out(b)) => {
            buf.push(5u8);
            buf.push(1u8);
            b.encode_with_tx(buf);
            proof {
                assert(buf@ =~= old(buf)@ + enc_msg(m@));
            }
        },
        RpcMsg::Balance(BalanceIo::In(k)) => {
            buf.push(6u8);
            buf.push(0u8);
            crate::serializer::push_slice(buf, k.bytes.as_slice());
            proof {
                assert(buf@ =~= old(buf)@ + enc_msg(m@));
            }
        },
        RpcMsg::Balance(BalanceIo::Out(b)) => {
            buf.push(6u8);
            buf.push(1u8);
            crate::serializer::push_i64(buf, b.gold.amount);
            crate::serializer::push_i64(buf, b.silver.amount);
            proof {
                assert(buf@ =~= old(buf)@ + enc_msg(m@));
            }
        },
        RpcMsg::TotalFee(BalanceIo::In(k)) => {
            buf.push(7u8);
            buf.push(0u8);
            crate::serializer::push_slice(buf, k.bytes.as_slice());
            proof {
                assert(buf@ =~= old(buf)@ + enc_msg(m@));
            }
        },
        RpcMsg::TotalFee(BalanceIo::Out(b)) => {
            buf.push(7u8);
            buf.push(1u8);
            crate::serializer::push_i64(buf, b.gold.amount);
            crate::serializer::push_i64(buf, b.silver.amount);
            proof {
                assert(buf@ =~= old(buf)@ + enc_msg(m@));
            }
        },
        RpcMsg::GetFullBlock(BlockIo::In(h)) => {
            buf.push(11u8);
            buf.push(0u8);
            crate::serializer::push_u64(buf, *h);
            proof {
                assert(buf@ =~= old(buf)@ + enc_msg(m@));
            }
        },
        RpcMsg::GetFullBlock(BlockIo::Out(b)) => {
            buf.push(11u8);
            buf.push(1u8);
            b.encode_with_tx(buf);
            proof {
                assert(buf@ =~= old(buf)@ + enc_msg(m@));
            }
        },
        RpcMsg::GetAddressInfo(BalanceIo::In(k)) => {
            buf.push(10u8);
            buf.push(0u8);
            crate::serializer::push_slice(buf, k.bytes.as_slice());
            proof {
                assert(buf@ =~= old(buf)@ + enc_msg(m@));
            }
        },
        RpcMsg::GetAddressInfo(BalanceIo::Out(b)) => {
            buf.push(10u8);
            buf.push(1u8);
            crate::serializer::push_i64(buf, b.gold.amount);
            crate::serializer::push_i64(buf, b.silver.amount);
            proof {
                assert(buf@ =~= old(buf)@ + enc_msg(m@));
            }
        },
        RpcMsg::Subscribe => {
            buf.push(8u8);
            proof {
                assert(buf@ =~= old(buf)@ + enc_msg(m@));
            }
        },
        RpcMsg::Unsubscribe => {
            buf.push(9u8);
            proof {
                assert(buf@ =~= old(buf)@ + enc_msg(m@));
            }
        },
    }
}

/// Appends the body of one payload: the id, then the message if any.
pub fn encode_payload(p: &RpcPayload, buf: &mut Vec<u8>)
    requires
        wf_payload(p@),
    ensures
        final(buf)@ == old(buf)@ + enc_payload(p@),
{
    crate::serializer::push_u32(buf, p.id);
    match &p.msg {
        Some(m) => {
            encode_msg(m, buf);
            proof {
                assert(buf@ =~= old(buf)@ + enc_payload(p@));
            }
        },
        None => {
            proof {
                assert(buf@ =~= old(buf)@ + enc_payload(p@));
            }
        },
    }
}

/// Decodes the body of one message starting at `pos`.
#[verifier::rlimit(100)]
#[verifier::spinoff_prover]
pub fn decode_msg(buf: &[u8], pos: usize) -> (r: Option<(RpcMsg, usize)>)
    ensures
        match r {
            Some((m, n)) => n <= buf@.len() && dec_msg(buf@, pos as int) == Some((m@, n as int)),
            None => dec_msg(buf@, pos as int) is None,
        },
{
    let (tag, j) = match crate::serializer::read_u8(buf, pos) {
        Some(x) => x,
        None => {
            return None;
        },
    };
    if tag == 0 {
        let (e, j2) = match crate::tx::read_var_bytes(buf, j) {
            Some(x) => x,
            None => {
                return None;
            },
        };
        Some((RpcMsg::Error(e), j2))
    } else if tag == 1 {
        let (et, j2) = match crate::serializer::read_u8(buf, j) {
            Some(x) => x,
            None => {
                return None;
            },
        };
        if et == 0 {
            let (t, j3) = match TxVariant::decode_with_sigs(buf, j2) {
                Some(x) => x,
                None => {
                    return None;
                },
            };
            Some((RpcMsg::Event(RpcEvent::Tx(t)), j3))
        } else if et == 1 {
            let (b, j3) = match Block::decode_with_tx(buf, j2) {
                Some(x) => x,
                None => {
                    return None;
                },
            };
            Some((RpcMsg::Event(RpcEvent::Block(b)), j3))
        } else {
            None
        }
    } else if tag == 2 {
        let (pt, j2) = match crate::serializer::read_u8(buf, j) {
            Some(x) => x,
            None => {
                return None;
            },
        };
        if pt == 0 {
            Some((RpcMsg::Handshake(PeerType::Node), j2))
        } else if pt == 1 {
            Some((RpcMsg::Handshake(PeerType::Wallet), j2))
        } else {
            None
        }
    } else if tag == 3 {
        let (t, j2) = match TxVariant::decode_with_sigs(buf, j) {
            Some(x) => x,
            None => {
                return None;
            },
        };
        Some((RpcMsg::Broadcast(t), j2))
    } else if tag == 4 {
        let (io, j2) = match crate::serializer::read_u8(buf, j) {
            Some(x) => x,
            None => {
                return None;
            },
        };
        if io == 0 {
            Some((RpcMsg::Properties(PropsIo::In), j2))
        } else if io == 1 {
            let (h, j3) = match crate::serializer::read_u64(buf, j2) {
                Some(x) => x,
                None => {
                    return None;
                },
            };
            Some((RpcMsg::Properties(PropsIo::Out(Properties { height: h })), j3))
        } else {
            None
        }
    } else if tag == 5 {
        let (io, j2) = match crate::serializer::read_u8(buf, j) {
            Some(x) => x,
            None => {
                return None;
            },
        };
        if io == 0 {
            let (h, j3) = match crate::serializer::read_u64(buf, j2) {
                Some(x) => x,
                None => {
                    return None;
                },
            };
            Some((RpcMsg::Block(BlockIo::In(h)), j3))
        } else if io == 1 {
            let (b, j3) = match Block::decode_with_tx(buf, j2) {
                Some(x) => x,
                None => {
                    return None;
                },
            };
            Some((RpcMsg::Block(BlockIo::Out(b)), j3))
        } else {
            None
        }
    } else if tag == 6 {
        let (io, j2) = match crate::serializer::read_u8(buf, j) {
            Some(x) => x,
            None => {
                return None;
            },
        };
        if io == 0 {
            let (k, j3) = match crate::serializer::read_exact(buf, j2, 32) {
                Some(x) => x,
                None => {
                    return None;
                },
            };
            Some((RpcMsg::Balance(BalanceIo::In(PublicKey { bytes: k })), j3))
        } else if io == 1 {
            let (g, j3) = match crate::serializer::read_i64(buf, j2) {
                Some(x) => x,
                None => {
                    return None;
                },
            };
            let (sv, j4) = match crate::serializer::read_i64(buf, j3) {
                Some(x) => x,
                None => {
                    return None;
                },
            };
            Some(
                (
                    RpcMsg::Balance(
                        BalanceIo::Out(
                            Balance { gold: Asset { amount: g }, silver: Asset { amount: sv } },
                        ),
                    ),
                    j4,
                ),
            )
        } else {
            None
        }
    } else if tag == 7 {
        let (io, j2) = match crate::serializer::read_u8(buf, j) {
            Some(x) => x,
            None => {
                return None;
            },
        };
        if io == 0 {
            let (k, j3) = match crate::serializer::read_exact(buf, j2, 32) {
                Some(x) => x,
                None => {
                    return None;
                },
            };
            Some((RpcMsg::TotalFee(BalanceIo::In(PublicKey { bytes: k })), j3))
        } else if io == 1 {
            let (g, j3) = match crate::serializer::read_i64(buf, j2) {
                Some(x) => x,
                None => {
                    return None;
                },
            };
            let (sv, j4) = match crate::serializer::read_i64(buf, j3) {
                Some(x) => x,
                None => {
                    return None;
                },
            };
            Some(
                (
                    RpcMsg::TotalFee(
                        BalanceIo::Out(
                            Balance { gold: Asset { amount: g }, silver: Asset { amount: sv } },
                        ),
                    ),
                    j4,
                ),
            )
        } else {
            None
        }
    } else if tag == 8 {
        Some((RpcMsg::Subscribe, j))
    } else if tag == 9 {
        Some((RpcMsg::Unsubscribe, j))
    } else if tag == 11 {
        let (io, j2) = match crate::serializer::read_u8(buf, j) {
            Some(x) => x,
            None => {
                return None;
            },
        };
        if io == 0 {
            let (h, j3) = match crate::serializer::read_u64(buf, j2) {
                Some(x) => x,
                None => {
                    return None;
                },
            };
            Some((RpcMsg::GetFullBlock(BlockIo::In(h)), j3))
        } else if io == 1 {
            let (b, j3) = match Block::decode_with_tx(buf, j2) {
                Some(x) => x,
                None => {
                    return None;
                },
            };
            Some((RpcMsg::GetFullBlock(BlockIo::Out(b)), j3))
        } else {
            None
        }
    } else if tag == 10 {
        let (io, j2) = match crate::serializer::read_u8(buf, j) {
            Some(x) => x,
            None => {
                return None;
            },
        };
        if io == 0 {
            let (k, j3) = match crate::serializer::read_exact(buf, j2, 32) {
                Some(x) => x,
                None => {
                    return None;
                },
            };
            Some((RpcMsg::GetAddressInfo(BalanceIo::In(PublicKey { bytes: k })), j3))
        } else if io == 1 {
            let (bb, j3) = match crate::serializer::read_i64(buf, j2) {
                Some(x) => x,
                None => {
                    return None;
                },
            };
            let (f, j4) = match crate::serializer::read_i64(buf, j3) {
                Some(x) => x,
                None => {
                    return None;
                },
            };
            Some(
                (
                    RpcMsg::GetAddressInfo(
                        BalanceIo::Out(
                            Balance { gold: Asset { amount: bb }, silver: Asset { amount: f } },
                        ),
                    ),
                    j4,
                ),
            )
        } else {
            None
        }
    } else {
        None
    }
}

/// Decodes one payload from exactly the body bytes in `buf`.
pub fn decode_payload(buf: &[u8]) -> (r: Option<(RpcPayload, usize)>)
    ensures
        match r {
            Some((p, n)) => n <= buf@.len() && dec_payload(buf@) == Some((p@, n as int)),
            None => dec_payload(buf@) is None,
        },
{
    let (id, _) = match crate::serializer::read_u32(buf, 0) {
        Some(x) => x,
        None => {
            return None;
        },
    };
    if buf.len() == 4 {
        return Some((RpcPayload { id, msg: None }, 4));
    }
    let (m, n) = match decode_msg(buf, 4) {
        Some(x) => x,
        None => {
            return None;
        },
    };
    Some((RpcPayload { id, msg: Some(m) }, n))
}


/// Removes and returns the first `k` bytes of the buffer.
fn split_off_front(buf: &mut Vec<u8>, k: usize) -> (r: Vec<u8>)
    requires
        k <= old(buf)@.len(),
    ensures
        r@ == old(buf)@.take(k as int),
        final(buf)@ == old(buf)@.skip(k as int),
{
    let head = vstd::slice::slice_to_vec(vstd::slice::slice_subrange(buf.as_slice(), 0, k));
    let tail = vstd::slice::slice_to_vec(
        vstd::slice::slice_subrange(buf.as_slice(), k, buf.len()),
    );
    *buf = tail;
    head
}

/// The stateful frame decoder: it first buffers the four length bytes, then
/// the body, and hands complete payloads out one at a time. `msg_len` holds
/// how many body bytes the started frame still expects, or zero between
/// frames.
pub struct RpcCodec {
    pub msg_len: u32,
}

impl RpcCodec {
    pub fn new() -> (r: RpcCodec)
        ensures
            r.msg_len == 0,
    {
        RpcCodec { msg_len: 0 }
    }

    /// Frames one payload: the total length (body plus the length field
    /// itself), then the body.
    pub fn encode(&self, pl: &RpcPayload, buf: &mut Vec<u8>)
        requires
            wf_payload(pl@),
            4 + enc_payload(pl@).len() <= MAX_PAYLOAD_LEN,
        ensures
            final(buf)@ == old(buf)@ + enc_u32((4 + enc_payload(pl@).len()) as u32) + enc_payload(
                pl@,
            ),
    {
        let mut payload: Vec<u8> = Vec::new();
        encode_payload(pl, &mut payload);
        crate::serializer::push_u32(buf, 4 + payload.len() as u32);
        crate::serializer::push_slice(buf, payload.as_slice());
        proof {
            assert(buf@ =~= old(buf)@ + enc_u32((4 + enc_payload(pl@).len()) as u32) + enc_payload(
                pl@,
            ));
        }
    }

    /// Frames one payload after checking that it fits a frame; an oversize
    /// payload is refused and nothing is written.
    pub fn try_encode(&self, pl: &RpcPayload, buf: &mut Vec<u8>) -> (r: Result<(), CodecError>)
        requires
            wf_payload(pl@),
        ensures
            (4 + enc_payload(pl@).len() <= MAX_PAYLOAD_LEN) <==> r is Ok,
            r is Ok ==> final(buf)@ == old(buf)@ + enc_u32((4 + enc_payload(pl@).len()) as u32)
                + enc_payload(pl@),
            r is Err ==> final(buf)@ == old(buf)@ && r == Err::<(), CodecError>(
                CodecError::FrameTooLarge,
            ),
    {
        let mut payload: Vec<u8> = Vec::new();
        encode_payload(pl, &mut payload);
        if payload.len() > (MAX_PAYLOAD_LEN - 4) as usize {
            return Err(CodecError::FrameTooLarge);
        }
        crate::serializer::push_u32(buf, 4 + payload.len() as u32);
        crate::serializer::push_slice(buf, payload.as_slice());
        proof {
            assert(buf@ =~= old(buf)@ + enc_u32((4 + enc_payload(pl@).len()) as u32) + enc_payload(
                pl@,
            ));
        }
        Ok(())
    }

    /// Feeds buffered connection bytes through the frame state machine.
    /// Consumes the length field and the body as they become complete;
    /// returns a decoded payload, "need more data", or the error that closes
    /// the connection.
    pub fn decode(&mut self, buf: &mut Vec<u8>) -> (r: Result<Option<RpcPayload>, CodecError>)
        ensures
            ({
                let pending = old(self).msg_len as int;
                let input = old(buf)@;
                if pending == 0 && input.len() < 4 {
                    &&& r == Ok::<Option<RpcPayload>, CodecError>(None)
                    &&& final(buf)@ == input
                    &&& final(self).msg_len == 0
                } else {
                    let ml = if pending == 0 {
                        be_u32_at(input, 0) as int
                    } else {
                        pending + 4
                    };
                    let rest = if pending == 0 {
                        input.skip(4)
                    } else {
                        input
                    };
                    if pending == 0 && ml <= 4 {
                        &&& r == Err::<Option<RpcPayload>, CodecError>(CodecError::FrameTooSmall)
                        &&& final(buf)@ == rest
                        &&& final(self).msg_len == 0
                    } else if pending == 0 && ml > MAX_PAYLOAD_LEN {
                        &&& r == Err::<Option<RpcPayload>, CodecError>(CodecError::FrameTooLarge)
                        &&& final(buf)@ == rest
                        &&& final(self).msg_len == 0
                    } else if rest.len() < ml - 4 {
                        &&& r == Ok::<Option<RpcPayload>, CodecError>(None)
                        &&& final(buf)@ == rest
                        &&& final(self).msg_len == ml - 4
                    } else {
                        &&& final(buf)@ == rest.skip(ml - 4)
                        &&& final(self).msg_len == 0
                        &&& match dec_payload(rest.take(ml - 4)) {
                            Some((pv, n)) => match r {
                                Ok(Some(pl)) => pl@ == pv,
                                _ => false,
                            },
                            None => r == Err::<Option<RpcPayload>, CodecError>(
                                CodecError::Malformed,
                            ),
                        }
                    }
                }
            }),
    {
        if self.msg_len == 0 {
            if buf.len() < 4 {
                return Ok(None);
            }
            let ml: u32 = match crate::serializer::read_u32(buf.as_slice(), 0) {
                Some((v, _)) => v,
                None => {
                    proof {
                        assert(false);
                    }
                    return Err(CodecError::Malformed);
                },
            };
            let _ = split_off_front(buf, 4);
            if ml <= 4 {
                return Err(CodecError::FrameTooSmall);
            }
            if ml > MAX_PAYLOAD_LEN {
                return Err(CodecError::FrameTooLarge);
            }
            self.msg_len = ml - 4;
        }
        let bl = self.msg_len as usize;
        if buf.len() < bl {
            return Ok(None);
        }
        let body = split_off_front(buf, bl);
        self.msg_len = 0;
        match decode_payload(body.as_slice()) {
            Some((p, _n)) => Ok(Some(p)),
            None => Err(CodecError::Malformed),
        }
    }
}

} // verus!
