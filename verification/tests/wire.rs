use regiusmark::asset::Asset;
use regiusmark::block::Block;
use regiusmark::chain::Blockchain;
use regiusmark::codec::{BalanceIo, BlockIo, CodecError, PropsIo, RpcCodec, RpcMsg, RpcPayload};
use regiusmark::server::{
    HeartbeatAction, Minter, ServerData, SubscriptionPool, WsState, answer, process_message,
    ERR_IO,
};
use regiusmark::server::WsMessage;
use regiusmark::tx::{MintTx, PublicKey, Tx, TxVariant};

fn key(b: u8) -> PublicKey {
    PublicKey { bytes: vec![b; 32] }
}

fn mint_tx(amount: i64, to: u8) -> TxVariant {
    TxVariant::Mint(MintTx {
        base: Tx {
            fee: Asset::new(0),
            timestamp: 1_000,
            signature_pairs: Vec::new(),
        },
        to: key(to),
        amount: Asset::new(amount),
        attachment: vec![1, 2, 3],
        attachment_name: Vec::new(),
        script: vec![0],
    })
}

#[test]
fn tx_round_trip() {
    let tx = mint_tx(123_456, 7);
    let mut buf = Vec::new();
    tx.encode_with_sigs(&mut buf);
    let (back, used) = TxVariant::decode_with_sigs(&buf, 0).unwrap();
    assert_eq!(used, buf.len());
    let mut again = Vec::new();
    back.encode_with_sigs(&mut again);
    assert_eq!(buf, again);
}

#[test]
fn block_round_trip() {
    let mut chain = Blockchain::new();
    chain.create_genesis_block(key(9));
    let genesis = chain.get_block(0).unwrap();
    let mut buf = Vec::new();
    genesis.encode_with_tx(&mut buf);
    let (back, used) = Block::decode_with_tx(&buf, 0).unwrap();
    assert_eq!(used, buf.len());
    let mut again = Vec::new();
    back.encode_with_tx(&mut again);
    assert_eq!(buf, again);
}

#[test]
fn fresh_blockchain() {
    let mut chain = Blockchain::new();
    let info = chain.create_genesis_block(key(1));
    assert!(chain.get_block(0).is_some());
    assert_eq!(chain.get_chain_height(), 0);
    assert_eq!(info.script, vec![0u8]);
    assert_eq!(chain.owner_script, vec![0u8]);
    assert!(chain.get_block(1).is_none());
}

#[test]
fn frame_boundary() {
    // a frame whose total length is 3 closes the connection
    let mut codec = RpcCodec::new();
    let mut buf = vec![0u8, 0, 0, 3, 0xAA];
    assert!(matches!(codec.decode(&mut buf), Err(CodecError::FrameTooSmall)));

    // one byte over the cap closes the connection
    let mut codec = RpcCodec::new();
    let mut buf = vec![0u8, 0x50, 0x00, 0x01];
    assert!(matches!(codec.decode(&mut buf), Err(CodecError::FrameTooLarge)));

    // a body holding only the request id is a keep-alive
    let mut codec = RpcCodec::new();
    let mut buf = vec![0u8, 0, 0, 8, 0, 0, 0, 42];
    let got = codec.decode(&mut buf).unwrap().unwrap();
    assert_eq!(got.id, 42);
    assert!(got.msg.is_none());
    assert!(buf.is_empty());

    // partial reads return "need more data" without losing bytes
    let mut codec = RpcCodec::new();
    let mut buf = vec![0u8, 0, 0, 10, 0, 0];
    assert!(codec.decode(&mut buf).unwrap().is_none());
    buf.extend_from_slice(&[0, 7, 4, 0]);
    let got = codec.decode(&mut buf).unwrap().unwrap();
    assert_eq!(got.id, 7);
    assert!(matches!(got.msg, Some(RpcMsg::Properties(PropsIo::In))));
}

#[test]
fn payload_round_trip() {
    let codec = RpcCodec::new();
    let pl = RpcPayload {
        id: 5,
        msg: Some(RpcMsg::Block(BlockIo::In(77))),
    };
    let mut framed = Vec::new();
    codec.encode(&pl, &mut framed);
    let mut decoder = RpcCodec::new();
    let got = decoder.decode(&mut framed).unwrap().unwrap();
    assert_eq!(got.id, 5);
    assert!(matches!(got.msg, Some(RpcMsg::Block(BlockIo::In(77)))));
}

#[test]
fn mint_flow() {
    let mut chain = Blockchain::new();
    let _info = chain.create_genesis_block(key(1));
    let mut minter = Minter::new(key(1), false);
    let mut pool = SubscriptionPool::new();

    // 1000.00000 GRAEL to the genesis wallet
    let tx = mint_tx(100_000_000, 2);
    minter.push_tx(tx, 1_000).unwrap();
    minter
        .force_produce_block(&mut chain, &mut pool, 2_000)
        .unwrap();

    assert_eq!(chain.get_chain_height(), 1);
    assert_eq!(chain.token_supply, Asset::new(100_000_000));
    assert_eq!(chain.get_balance(&[2u8; 32]), Asset::new(100_000_000));
}

#[test]
fn subscription_fan_out() {
    let mut chain = Blockchain::new();
    chain.create_genesis_block(key(1));
    let mut minter = Minter::new(key(1), false);
    let mut pool = SubscriptionPool::new();

    let a = WsState::new(10);
    let b = WsState::new(20);
    pool.insert(a.addr());
    pool.insert(b.addr());

    minter
        .force_produce_block(&mut chain, &mut pool, 2_000)
        .unwrap();
    let qa = pool.take_queued(10);
    let qb = pool.take_queued(20);
    assert_eq!(qa.len(), 1);
    assert_eq!(qa, qb);

    // after one unsubscribes, only the other receives the next event
    pool.remove(20);
    minter
        .force_produce_block(&mut chain, &mut pool, 3_000)
        .unwrap();
    assert_eq!(pool.take_queued(10).len(), 1);
    assert_eq!(pool.take_queued(20).len(), 0);
}

#[test]
fn reindex_log() {
    let mut chain = Blockchain::new();
    chain.create_genesis_block(key(1));
    let mut minter = Minter::new(key(1), false);
    let mut pool = SubscriptionPool::new();
    minter
        .force_produce_block(&mut chain, &mut pool, 2_000)
        .unwrap();
    minter
        .force_produce_block(&mut chain, &mut pool, 3_000)
        .unwrap();

    let mut log = Vec::new();
    chain.write_log(&mut log).unwrap();

    // clean log reopens completely
    let reopened = Blockchain::open_from_log(&log, false).unwrap();
    assert_eq!(reopened.get_chain_height(), 2);

    // corrupted tail: trimmed with auto_trim, refused without
    let mut torn = log.clone();
    torn.extend_from_slice(&[0, 0, 0, 50, 1, 2, 3]);
    let trimmed = Blockchain::open_from_log(&torn, true).unwrap();
    assert_eq!(trimmed.get_chain_height(), 2);
    assert!(Blockchain::open_from_log(&torn, false).is_err());
}

#[test]
fn request_dispatch() {
    let mut chain = Blockchain::new();
    chain.create_genesis_block(key(1));
    let mut data = ServerData {
        chain,
        minter: Minter::new(key(1), false),
        sub_pool: SubscriptionPool::new(),
    };

    let state = WsState::new(9);

    // the reserved id is refused with an error under the reserved id
    let rep = answer(
        &mut data,
        &state,
        9,
        RpcPayload { id: u32::MAX, msg: None },
        1_000,
    )
    .unwrap();
    assert_eq!(rep.id, u32::MAX);
    assert!(matches!(rep.msg, Some(RpcMsg::Error(ref e)) if e == &vec![ERR_IO]));

    // a bare id is echoed as a keep-alive
    let rep = answer(&mut data, &state, 9, RpcPayload { id: 7, msg: None }, 1_000).unwrap();
    assert_eq!(rep.id, 7);
    assert!(rep.msg.is_none());

    // properties report the head height
    let rep = answer(
        &mut data,
        &state,
        9,
        RpcPayload { id: 8, msg: Some(RpcMsg::Properties(PropsIo::In)) },
        1_000,
    )
    .unwrap();
    assert!(matches!(rep.msg, Some(RpcMsg::Properties(PropsIo::Out(p))) if p.height == 0));

    // an out-of-range block request is an invalid-height error
    let rep = answer(
        &mut data,
        &state,
        9,
        RpcPayload { id: 9, msg: Some(RpcMsg::Block(BlockIo::In(5))) },
        1_000,
    )
    .unwrap();
    assert!(matches!(rep.msg, Some(RpcMsg::Error(_))));
}

#[test]
fn heartbeat_two_silent_ticks_close() {
    let mut state = WsState::new(1);
    assert_eq!(state.heartbeat_tick(), HeartbeatAction::Ping);
    // no inbound traffic since the ping: the next tick closes
    assert_eq!(state.heartbeat_tick(), HeartbeatAction::Close);

    // inbound traffic clears the debt
    let mut chain = Blockchain::new();
    chain.create_genesis_block(key(1));
    let mut data = ServerData {
        chain,
        minter: Minter::new(key(1), false),
        sub_pool: SubscriptionPool::new(),
    };
    let mut state = WsState::new(1);
    state.heartbeat_tick();
    process_message(&mut data, &mut state, WsMessage::Pong, 1_000);
    assert!(!state.needs_pong());
    assert_eq!(state.heartbeat_tick(), HeartbeatAction::Ping);
}

#[test]
fn subscribe_ack_is_tagged() {
    let mut chain = Blockchain::new();
    chain.create_genesis_block(key(1));
    let mut data = ServerData {
        chain,
        minter: Minter::new(key(1), false),
        sub_pool: SubscriptionPool::new(),
    };
    let state = WsState::new(3);
    let rep = answer(
        &mut data,
        &state,
        3,
        RpcPayload { id: 4, msg: Some(RpcMsg::Subscribe) },
        1_000,
    )
    .unwrap();
    assert_eq!(rep.id, 4);
    assert!(matches!(rep.msg, Some(RpcMsg::Subscribe)));
    let rep = answer(
        &mut data,
        &state,
        3,
        RpcPayload { id: 5, msg: Some(RpcMsg::Unsubscribe) },
        1_000,
    )
    .unwrap();
    assert!(matches!(rep.msg, Some(RpcMsg::Unsubscribe)));
}

#[test]
fn filtered_and_full_block_requests() {
    let mut chain = Blockchain::new();
    chain.create_genesis_block(key(1));
    let mut minter = Minter::new(key(1), false);
    let mut pool = SubscriptionPool::new();
    minter.push_tx(mint_tx(50_000, 2), 1_000).unwrap();
    minter
        .force_produce_block(&mut chain, &mut pool, 2_000)
        .unwrap();
    let mut data = ServerData {
        chain,
        minter,
        sub_pool: pool,
    };

    // a filter matching nothing strips every transaction, header kept
    let mut state = WsState::new(6);
    assert!(state.set_block_filter(vec![key(9)]));
    let rep = answer(
        &mut data,
        &state,
        6,
        RpcPayload { id: 1, msg: Some(RpcMsg::Block(BlockIo::In(1))) },
        2_500,
    )
    .unwrap();
    match rep.msg {
        Some(RpcMsg::Block(BlockIo::Out(b))) => {
            assert_eq!(b.height, 1);
            assert!(b.transactions.is_empty());
        }
        other => panic!("unexpected reply: {:?}", other.is_some()),
    }

    // the full-block request bypasses the filter
    let rep = answer(
        &mut data,
        &state,
        6,
        RpcPayload { id: 2, msg: Some(RpcMsg::GetFullBlock(BlockIo::In(1))) },
        2_500,
    )
    .unwrap();
    match rep.msg {
        Some(RpcMsg::GetFullBlock(BlockIo::Out(b))) => {
            assert_eq!(b.transactions.len(), 2);
        }
        other => panic!("unexpected reply: {:?}", other.is_some()),
    }

    // address info serves the credited balance with the flat zero fee
    let rep = answer(
        &mut data,
        &state,
        6,
        RpcPayload { id: 3, msg: Some(RpcMsg::GetAddressInfo(BalanceIo::In(key(2)))) },
        2_500,
    )
    .unwrap();
    match rep.msg {
        Some(RpcMsg::GetAddressInfo(BalanceIo::Out(b))) => {
            assert_eq!(b.gold, Asset::new(50_000));
            assert_eq!(b.silver, Asset::new(0));
        }
        other => panic!("unexpected reply: {:?}", other.is_some()),
    }

    // a sixteen-address cap on the filter
    let mut state = WsState::new(6);
    let big: Vec<PublicKey> = (0..17).map(|_| key(0)).collect();
    assert!(!state.set_block_filter(big));
}

