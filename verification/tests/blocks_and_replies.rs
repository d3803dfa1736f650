use std::collections::HashMap;

use address_extractor::address::parse_address_to_bytes;
use address_extractor::block::{extract_block_addresses, validate_block, BlockData, TxData};
use address_extractor::gather::gather_blocks;
use address_extractor::height::{first_height_step, height_of, next_height_step, HeightStep};
use address_extractor::rpc::{
    batch_reply, block_call, height_call, plan_batch, single_block_reply, BatchPayload, BatchPlan,
    HttpReply, Param, RpcErrorDetail, RpcResponse,
};

fn address(n: u8) -> String {
    format!("0x{}", format!("{:02x}", n).repeat(20))
}

fn tx(from: Option<String>, to: Option<String>) -> TxData {
    TxData { from, to }
}

fn block(number: Option<&str>, transactions: Vec<TxData>) -> BlockData {
    BlockData { number: number.map(|s| s.to_string()), transactions }
}

fn numbered(n: u64) -> BlockData {
    block(
        Some(&format!("0x{:x}", n)),
        vec![tx(Some(address(n as u8)), Some(address(n as u8 + 1)))],
    )
}

fn item(id: Option<u64>, result: Option<BlockData>) -> RpcResponse<BlockData> {
    RpcResponse { id, result, error: None }
}

fn batch(items: Vec<RpcResponse<BlockData>>) -> HttpReply<BatchPayload> {
    HttpReply::Body(BatchPayload::Batch(items))
}

#[test]
fn blocks_are_held_to_their_number() {
    assert!(validate_block(&block(Some("0x10"), vec![]), 16).is_ok());
    assert_eq!(
        validate_block(&block(None, vec![]), 16).unwrap_err().message(),
        "Block 16 missing number"
    );
    assert_eq!(
        validate_block(&block(Some("0x11"), vec![]), 16).unwrap_err().message(),
        "Block mismatch: requested 16, received 17"
    );
    assert_eq!(
        validate_block(&block(Some("0xq"), vec![]), 16).unwrap_err().message(),
        "Invalid hex '0xq': invalid digit found in string"
    );
}

#[test]
fn addresses_come_in_order_and_with_repetitions() {
    let b = block(
        Some("0x1"),
        vec![
            tx(Some(address(1)), Some(address(2))),
            tx(Some(address(1)), None),
            tx(None, Some(address(3))),
            tx(Some("junk".to_string()), Some(address(2))),
            tx(None, None),
        ],
    );
    let (addresses, count) = extract_block_addresses(b, 1).unwrap();
    assert_eq!(count, 5);
    assert_eq!(
        addresses,
        vec![[1u8; 20], [2u8; 20], [1u8; 20], [3u8; 20], [2u8; 20]]
    );
}

#[test]
fn faulty_blocks_yield_nothing() {
    assert_eq!(
        extract_block_addresses(numbered(4), 5).unwrap_err().message(),
        "Block mismatch: requested 5, received 4"
    );
}

#[test]
fn call_for_a_block() {
    let call = block_call(255);
    assert_eq!(call.jsonrpc, "2.0");
    assert_eq!(call.method, "eth_getBlockByNumber");
    assert_eq!(call.id, 255);
    assert_eq!(call.params.len(), 2);
    assert!(matches!(&call.params[0], Param::Text(s) if s == "0xff"));
    assert!(matches!(&call.params[1], Param::Flag(true)));
}

#[test]
fn call_for_the_latest_block() {
    let call = height_call();
    assert_eq!(call.jsonrpc, "2.0");
    assert_eq!(call.method, "eth_blockNumber");
    assert_eq!(call.id, 1);
    assert!(call.params.is_empty());
}

#[test]
fn batches_are_planned() {
    match plan_batch(&[]) {
        BatchPlan::Done(map) => assert!(map.is_empty()),
        BatchPlan::Post(_) => panic!("nothing was asked for"),
    }
    match plan_batch(&[7, 8]) {
        BatchPlan::Done(_) => panic!("two blocks were asked for"),
        BatchPlan::Post(calls) => {
            assert_eq!(calls.len(), 2);
            assert_eq!(calls[0].id, 7);
            assert_eq!(calls[1].id, 8);
            assert!(matches!(&calls[1].params[0], Param::Text(s) if s == "0x8"));
        }
    }
}

#[test]
fn replies_to_the_call_for_a_block() {
    let ok = single_block_reply(HttpReply::Body(item(Some(3), Some(numbered(3)))), 3).unwrap();
    assert_eq!(ok.number.as_deref(), Some("0x3"));
    let gone = HttpReply::Failed("connection reset".to_string());
    assert_eq!(
        single_block_reply(gone, 3).unwrap_err().message(),
        "connection reset"
    );
    let refused = HttpReply::Status("403 Forbidden".to_string());
    assert_eq!(
        single_block_reply(refused, 3).unwrap_err().message(),
        "HTTP status 403 Forbidden"
    );
    let empty = HttpReply::Body(item(Some(3), None));
    assert_eq!(
        single_block_reply(empty, 3).unwrap_err().message(),
        "Block 3 returned null result"
    );
    let both = HttpReply::Body(RpcResponse {
        id: None,
        result: Some(numbered(3)),
        error: Some(RpcErrorDetail { message: "busy".to_string() }),
    });
    assert_eq!(
        single_block_reply(both, 3).unwrap_err().message(),
        "RPC error: busy"
    );
}

#[test]
fn complete_batches_are_accepted_in_any_order() {
    let reply = batch(vec![
        item(Some(2), Some(numbered(2))),
        item(Some(1), Some(numbered(1))),
    ]);
    let map = batch_reply(reply, &[1, 2]).unwrap();
    assert_eq!(map.len(), 2);
    assert_eq!(map[&1].number.as_deref(), Some("0x1"));
    assert_eq!(map[&2].number.as_deref(), Some("0x2"));
}

#[test]
fn of_several_items_with_one_id_the_last_counts() {
    let reply = batch(vec![
        item(Some(1), Some(numbered(8))),
        item(Some(1), Some(numbered(9))),
    ]);
    let map = batch_reply(reply, &[1]).unwrap();
    assert_eq!(map[&1].number.as_deref(), Some("0x9"));
}

#[test]
fn faults_of_batches() {
    let message = |reply, blocks: &[u64]| batch_reply(reply, blocks).unwrap_err().message();
    assert_eq!(
        message(HttpReply::Failed("no route".to_string()), &[1]),
        "no route"
    );
    assert_eq!(
        message(HttpReply::Status("500 Oops".to_string()), &[1]),
        "HTTP status 500 Oops"
    );
    assert_eq!(
        message(HttpReply::Body(BatchPayload::SingleError(None)), &[1]),
        "RPC batch error: Batch error"
    );
    let whole = BatchPayload::SingleError(Some(RpcErrorDetail { message: "limit".to_string() }));
    assert_eq!(
        message(HttpReply::Body(whole), &[1]),
        "RPC batch error: limit"
    );
    let bad = RpcResponse {
        id: None,
        result: None,
        error: Some(RpcErrorDetail { message: "bad".to_string() }),
    };
    assert_eq!(
        message(batch(vec![bad, item(None, None)]), &[1]),
        "RPC item error: bad"
    );
    assert_eq!(
        message(batch(vec![item(None, Some(numbered(1)))]), &[1]),
        "Missing numeric id"
    );
    assert_eq!(
        message(batch(vec![item(Some(2), None)]), &[1]),
        "Unexpected block id 2"
    );
    assert_eq!(
        message(batch(vec![item(Some(1), None)]), &[1]),
        "Block 1 returned null result"
    );
    assert_eq!(
        message(batch(vec![item(Some(1), Some(numbered(1)))]), &[1, 2]),
        "Incomplete batch: 1 / 2"
    );
    assert_eq!(
        message(batch(vec![item(Some(1), Some(numbered(1)))]), &[1, 1]),
        "Incomplete batch: 1 / 2"
    );
}

#[test]
fn blocks_are_gathered_in_the_order_asked_for() {
    let blocks = vec![2u64, 1];
    let map = HashMap::from([(1, numbered(1)), (2, numbered(2))]);
    let (addresses, count) = gather_blocks(&blocks, map).unwrap();
    assert_eq!(count, 2);
    assert_eq!(
        addresses,
        vec![[2u8; 20], [3u8; 20], [1u8; 20], [2u8; 20]]
    );
}

#[test]
fn gathering_stops_at_the_first_faulty_block() {
    let map = HashMap::from([(1, numbered(1)), (2, numbered(7))]);
    assert_eq!(
        gather_blocks(&vec![1, 2, 3], map).unwrap_err().message(),
        "Block mismatch: requested 2, received 7"
    );
    let map = HashMap::from([(1, numbered(1))]);
    assert_eq!(
        gather_blocks(&vec![1, 3], map).unwrap_err().message(),
        "Missing block 3 in result map"
    );
    let map = HashMap::from([(1, numbered(1))]);
    assert_eq!(
        gather_blocks(&vec![1, 1], map).unwrap_err().message(),
        "Missing block 1 in result map"
    );
    let (addresses, count) = gather_blocks(&vec![], HashMap::new()).unwrap();
    assert!(addresses.is_empty());
    assert_eq!(count, 0);
}

fn height(result: Option<&str>) -> HttpReply<RpcResponse<String>> {
    HttpReply::Body(RpcResponse {
        id: Some(1),
        result: result.map(|s| s.to_string()),
        error: None,
    })
}

#[test]
fn heights() {
    assert_eq!(height_of(height(Some("0x64"))), Some(100));
    assert_eq!(height_of(height(Some("latest"))), None);
    assert_eq!(height_of(height(None)), None);
    assert_eq!(height_of(HttpReply::Failed("down".to_string())), None);
    assert_eq!(height_of(HttpReply::Status("502".to_string())), None);
    let with_error = HttpReply::Body(RpcResponse {
        id: None,
        result: Some("0x5".to_string()),
        error: Some(RpcErrorDetail { message: "ignored".to_string() }),
    });
    assert_eq!(height_of(with_error), Some(5));
}

#[test]
fn endpoints_are_asked_for_the_height_in_turn() {
    assert_eq!(first_height_step(0), HeightStep::Rest { pause_secs: 15 });
    assert_eq!(first_height_step(2), HeightStep::Ask { rpc: 0 });
    assert_eq!(
        next_height_step(0, 2, height(None)),
        HeightStep::Ask { rpc: 1 }
    );
    assert_eq!(
        next_height_step(1, 2, height(None)),
        HeightStep::Rest { pause_secs: 15 }
    );
    assert_eq!(
        next_height_step(1, 2, height(Some("0xa"))),
        HeightStep::Found { rpc: 1, block: 10 }
    );
}

#[test]
fn sample_addresses_are_addresses() {
    assert_eq!(parse_address_to_bytes(&address(9)), Some([9u8; 20]));
}
