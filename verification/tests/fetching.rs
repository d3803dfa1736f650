use std::collections::HashMap;

use address_extractor::block::{BlockData, TxData};
use address_extractor::error::ExtractError;
use address_extractor::fetch::{retry_delay_secs, Ask, BatchFetch, Step, Turn};

fn block(n: u64) -> BlockData {
    BlockData {
        number: Some(format!("0x{:x}", n)),
        transactions: vec![TxData {
            from: Some(format!("{:02x}", n).repeat(20)),
            to: None,
        }],
    }
}

fn down<T>() -> Result<T, ExtractError> {
    Err(ExtractError::Transport("down".to_string()))
}

fn go_on(turn: Turn) -> (Vec<u64>, BatchFetch) {
    match turn.step {
        Step::Ask(fetch) => (turn.pauses_ms, fetch),
        Step::Done(res) => panic!("ended with {:?}", res),
    }
}

fn end(turn: Turn) -> (Vec<u64>, Result<(Vec<[u8; 20]>, usize), ExtractError>) {
    match turn.step {
        Step::Ask(fetch) => panic!("goes on with {:?}", fetch),
        Step::Done(res) => (turn.pauses_ms, res),
    }
}

#[test]
fn delays() {
    let delays: Vec<u64> = (1..=12).map(retry_delay_secs).collect();
    assert_eq!(delays, vec![5, 10, 20, 40, 40, 40, 40, 40, 40, 40, 40, 40]);
}

#[test]
fn without_endpoints_nothing_starts() {
    let error = BatchFetch::start(0, vec![1], 0).unwrap_err();
    assert_eq!(error.message(), "RPC list is empty");
}

#[test]
fn the_first_answer_ends_the_fetch() {
    let fetch = BatchFetch::start(3, vec![1, 2], 7).unwrap();
    assert_eq!(fetch.ask(), Ask::Batch { rpc: 1 });
    assert_eq!(fetch.blocks(), &vec![1, 2]);
    let map = HashMap::from([(1, block(1)), (2, block(2))]);
    assert!(fetch.can_take_batch(&map));
    let (pauses, res) = end(fetch.on_batch(Ok(map)));
    assert!(pauses.is_empty());
    assert_eq!(res.unwrap(), (vec![[1u8; 20], [2u8; 20]], 2));
}

#[test]
fn a_faulty_block_in_a_batch_ends_the_fetch() {
    let fetch = BatchFetch::start(3, vec![1, 2], 0).unwrap();
    let map = HashMap::from([(1, block(1)), (2, block(3))]);
    let (pauses, res) = end(fetch.on_batch(Ok(map)));
    assert!(pauses.is_empty());
    assert_eq!(
        res.unwrap_err().message(),
        "Block mismatch: requested 2, received 3"
    );
}

#[test]
fn endpoints_are_asked_in_turn_for_twelve_rounds() {
    let mut fetch = BatchFetch::start(3, vec![1], 2).unwrap();
    for round in 1..=12usize {
        for offset in 0..3usize {
            assert_eq!(fetch.ask(), Ask::Batch { rpc: (2 + offset) % 3 });
            let (pauses, next) = go_on(fetch.on_batch(down()));
            if offset == 2 && round < 12 {
                assert_eq!(pauses, vec![100, 1000 * retry_delay_secs(round)]);
            } else {
                assert_eq!(pauses, vec![100]);
            }
            fetch = next;
        }
    }
    assert_eq!(fetch.ask(), Ask::Single { rpc: 2, block: 1 });
}

fn given_up(blocks: Vec<u64>, rpcs: usize) -> BatchFetch {
    let mut fetch = BatchFetch::start(rpcs, blocks, 0).unwrap();
    for _ in 0..12 * rpcs {
        fetch = go_on(fetch.on_batch(down())).1;
    }
    fetch
}

#[test]
fn blocks_alone_yield_what_the_batch_would_have() {
    let mut fetch = given_up(vec![3, 1, 2], 2);
    for n in [3u64, 1] {
        assert_eq!(fetch.ask(), Ask::Single { rpc: 0, block: n });
        let (pauses, next) = go_on(fetch.on_single(Ok(block(n))));
        assert!(pauses.is_empty());
        fetch = next;
    }
    assert!(fetch.can_take_single(&block(2)));
    let (pauses, next) = go_on(fetch.on_single(down()));
    assert_eq!(pauses, vec![100]);
    assert_eq!(next.ask(), Ask::Single { rpc: 1, block: 2 });
    let (_, res) = end(next.on_single(Ok(block(2))));
    assert_eq!(res.unwrap(), (vec![[3u8; 20], [1u8; 20], [2u8; 20]], 3));
}

#[test]
fn a_faulty_block_alone_is_asked_for_again() {
    let fetch = given_up(vec![5], 2);
    let (pauses, next) = go_on(fetch.on_single(Ok(block(6))));
    assert_eq!(pauses, vec![100]);
    assert_eq!(next.ask(), Ask::Single { rpc: 1, block: 5 });
    let (pauses, next) = go_on(next.on_single(down()));
    assert_eq!(pauses, vec![100, 5000]);
    assert_eq!(next.ask(), Ask::Single { rpc: 0, block: 5 });
}

#[test]
fn a_block_that_never_comes_fails_the_fetch() {
    let mut fetch = given_up(vec![5, 6], 1);
    for round in 1..12usize {
        assert_eq!(fetch.ask(), Ask::Single { rpc: 0, block: 5 });
        let (pauses, next) = go_on(fetch.on_single(down()));
        assert_eq!(pauses, vec![100, 1000 * retry_delay_secs(round)]);
        fetch = next;
    }
    let (pauses, res) = end(fetch.on_single(down()));
    assert_eq!(pauses, vec![100]);
    assert_eq!(
        res.unwrap_err().message(),
        "Block 5 permanently failed on all RPCs"
    );
}

#[test]
fn without_blocks_there_is_nothing_to_fetch_alone() {
    let mut fetch = BatchFetch::start(1, vec![], 0).unwrap();
    for _ in 0..11 {
        fetch = go_on(fetch.on_batch(down())).1;
    }
    let (pauses, res) = end(fetch.on_batch(down()));
    assert_eq!(pauses, vec![100]);
    assert_eq!(res.unwrap(), (vec![], 0));
}

#[test]
fn a_fetch_yields_the_blocks_received_among_failures() {
    let two = |number: Option<&str>| BlockData {
        number: number.map(str::to_string),
        transactions: vec![
            TxData { from: Some("aa".repeat(20)), to: Some("bb".repeat(20)) },
            TxData { from: Some("cc".repeat(20)), to: None },
        ],
    };
    let fetch = given_up(vec![1, 2], 2);
    let (_, fetch) = go_on(fetch.on_single(down()));
    let (_, fetch) = go_on(fetch.on_single(Ok(two(Some("0x2")))));
    let (_, fetch) = go_on(fetch.on_single(Ok(block(1))));
    assert_eq!(fetch.ask(), Ask::Single { rpc: 0, block: 2 });
    let (_, fetch) = go_on(fetch.on_single(Ok(two(None))));
    let (_, fetch) = go_on(fetch.on_single(Ok(block(1))));
    let (_, fetch) = go_on(fetch.on_single(down()));
    let (_, res) = end(fetch.on_single(Ok(two(Some("0x2")))));
    assert_eq!(
        res.unwrap(),
        (vec![[1u8; 20], [0xaa; 20], [0xbb; 20], [0xcc; 20]], 3)
    );
}

#[test]
fn a_late_batch_is_as_good_as_an_early_one() {
    let map = || HashMap::from([(1, block(1)), (2, block(2))]);
    let early = BatchFetch::start(2, vec![1, 2], 0).unwrap();
    let mut late = BatchFetch::start(2, vec![1, 2], 0).unwrap();
    for _ in 0..23 {
        late = go_on(late.on_batch(down())).1;
    }
    let (_, early) = end(early.on_batch(Ok(map())));
    let (_, late) = end(late.on_batch(Ok(map())));
    assert_eq!(late.unwrap(), early.unwrap());
}

#[test]
fn the_way_the_blocks_come_makes_no_difference() {
    let early = BatchFetch::start(3, vec![7, 8], 1).unwrap();
    let map = HashMap::from([(7, block(7)), (8, block(8))]);
    let (_, at_once) = end(early.on_batch(Ok(map)));
    let fetch = given_up(vec![7, 8], 3);
    let (_, fetch) = go_on(fetch.on_single(Ok(block(8))));
    let (_, fetch) = go_on(fetch.on_single(Ok(block(7))));
    let (_, fetch) = go_on(fetch.on_single(down()));
    let (_, alone) = end(fetch.on_single(Ok(block(8))));
    assert_eq!(alone.unwrap(), at_once.unwrap());
}
