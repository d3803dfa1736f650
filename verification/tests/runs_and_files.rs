use std::collections::{BTreeSet, HashMap};

use address_extractor::address_set::AddressSet;
use address_extractor::block::{BlockData, TxData};
use address_extractor::gather::gather_blocks;
use address_extractor::listing::sorted_addresses;
use address_extractor::part_file::{part_file_name, PartRows};
use address_extractor::plan::{
    first_part, first_segment, next_part, next_segment, preferred_rpc, segment_batches, Part,
    Segment,
};
use address_extractor::progress::Progress;
use address_extractor::settings::{check_end_block, check_settings, Settings};
use address_extractor::upload::{upload_args, upload_step, UploadStep};

fn settings(start_block: u64, end_block: u64, batch_size: u64, concurrency: usize) -> Settings {
    Settings {
        chain: "bnb".to_string(),
        start_block,
        end_block,
        batch_size,
        concurrency,
        release_tag: None,
    }
}

#[test]
fn settings_are_checked() {
    assert!(check_settings(&settings(0, 0, 10, 8)).is_ok());
    assert_eq!(
        check_settings(&settings(2, 1, 0, 0)).unwrap_err().message(),
        "start-block cannot be greater than end-block"
    );
    for bad in [settings(1, 1, 0, 8), settings(1, 1, 10, 0)] {
        assert_eq!(
            check_settings(&bad).unwrap_err().message(),
            "batch-size and concurrency must be > 0"
        );
    }
    assert!(check_end_block(10, 10).is_ok());
    assert_eq!(
        check_end_block(11, 10).unwrap_err().message(),
        "Requested end block 11 > chain latest block 10"
    );
}

#[test]
fn parts_of_a_run() {
    let first = first_part(5, 2_000_004);
    assert_eq!(first, Part { number: 1, start: 5, end: 1_000_004 });
    let second = next_part(&first, 2_000_004).unwrap();
    assert_eq!(second, Part { number: 2, start: 1_000_005, end: 2_000_004 });
    assert_eq!(next_part(&second, 2_000_004), None);
    assert_eq!(first_part(7, 7), Part { number: 1, start: 7, end: 7 });
    assert_eq!(next_part(&first_part(7, 7), 7), None);
}

#[test]
fn parts_at_the_end_of_the_numbers() {
    let first = first_part(u64::MAX - 1_000_000, u64::MAX);
    assert_eq!(first.end, u64::MAX - 1);
    let second = next_part(&first, u64::MAX).unwrap();
    assert_eq!(second, Part { number: 2, start: u64::MAX, end: u64::MAX });
    assert_eq!(next_part(&second, u64::MAX), None);
}

#[test]
fn segments_of_a_part() {
    let part = first_part(0, 45_000);
    let mut segment = first_segment(&part);
    assert_eq!(segment, Segment { number: 0, start: 0, end: 19_999 });
    segment = next_segment(&segment, part.end).unwrap();
    assert_eq!(segment, Segment { number: 1, start: 20_000, end: 39_999 });
    segment = next_segment(&segment, part.end).unwrap();
    assert_eq!(segment, Segment { number: 2, start: 40_000, end: 45_000 });
    assert_eq!(next_segment(&segment, part.end), None);
    assert_eq!(preferred_rpc(&segment, 2), 0);
    assert_eq!(preferred_rpc(&segment, 12), 2);
}

#[test]
fn batches_of_a_segment() {
    assert_eq!(
        segment_batches(3, 9, 3),
        vec![vec![3, 4, 5], vec![6, 7, 8], vec![9]]
    );
    assert_eq!(segment_batches(3, 5, 3), vec![vec![3, 4, 5]]);
    assert_eq!(segment_batches(3, 5, u64::MAX), vec![vec![3, 4, 5]]);
    assert_eq!(segment_batches(5, 5, 1), vec![vec![5]]);
    assert!(segment_batches(6, 5, 1).is_empty());
    assert_eq!(
        segment_batches(u64::MAX - 2, u64::MAX, 2),
        vec![vec![u64::MAX - 2, u64::MAX - 1], vec![u64::MAX]]
    );
}

#[test]
fn every_block_of_a_run_is_requested_once() {
    let (first, last) = (999_990u64, 2_040_011u64);
    let mut requested: Vec<u64> = Vec::new();
    let mut part = Some(first_part(first, last));
    while let Some(p) = part {
        let mut segment = Some(first_segment(&p));
        while let Some(s) = segment {
            for batch in segment_batches(s.start, s.end, 777) {
                requested.extend(batch);
            }
            segment = next_segment(&s, p.end);
        }
        part = next_part(&p, last);
    }
    assert_eq!(requested, (first..=last).collect::<Vec<u64>>());
}

fn tagged(first: u8, last: u8) -> [u8; 20] {
    let mut address = [7u8; 20];
    address[0] = first;
    address[19] = last;
    address
}

#[test]
fn sets_hold_each_address_once() {
    let mut set = AddressSet::new();
    assert_eq!(set.len(), 0);
    set.insert(tagged(1, 1));
    set.insert(tagged(2, 1));
    set.insert(tagged(1, 1));
    set.extend(&vec![tagged(2, 1), tagged(3, 2), tagged(3, 2)]);
    assert_eq!(set.len(), 3);
    assert!(set.contains(&tagged(2, 1)));
    assert!(!set.contains(&tagged(2, 2)));
    assert_eq!(set.sorted(), vec![tagged(1, 1), tagged(2, 1), tagged(3, 2)]);
}

fn scrambled(count: usize) -> Vec<[u8; 20]> {
    let mut state = 1u64;
    let mut out = Vec::new();
    for _ in 0..count {
        let mut address = [0u8; 20];
        for byte in address.iter_mut() {
            state = state.wrapping_mul(6364136223846793005).wrapping_add(1442695040888963407);
            *byte = (state >> 33) as u8;
        }
        out.push(address);
    }
    out
}

#[test]
fn listings_are_those_of_the_standard_library() {
    for count in [0usize, 1, 2, 3, 10, 257, 1000] {
        let addresses = scrambled(count);
        let mut expected = addresses.clone();
        expected.sort_unstable();
        expected.dedup();
        let mut set = AddressSet::new();
        set.extend(&addresses);
        set.extend(&addresses);
        assert_eq!(set.len(), expected.len());
        assert_eq!(set.sorted(), expected);
    }
}

#[test]
fn listings_do_not_depend_on_the_order() {
    let mut addresses = scrambled(50);
    let forwards = sorted_addresses(&addresses);
    addresses.reverse();
    assert_eq!(sorted_addresses(&addresses), forwards);
}

#[test]
fn file_names() {
    assert_eq!(
        part_file_name("bnb", 1, 0, 999_999),
        "output/bnb_blocks_0_to_999999_part_001.csv.gz"
    );
    assert_eq!(
        part_file_name("eth", 1234, 5, u64::MAX),
        "output/eth_blocks_5_to_18446744073709551615_part_1234.csv.gz"
    );
    assert_ne!(
        part_file_name("bnb", 1, 0, 9),
        part_file_name("bnb", 2, 0, 9)
    );
}

#[test]
fn rows_of_a_file() {
    let mut set = AddressSet::new();
    set.insert([0x0b; 20]);
    set.insert([0x0a; 20]);
    set.insert([0x0b; 20]);
    let mut rows = PartRows::new(&set);
    assert_eq!(rows.next_row().unwrap(), "address");
    assert_eq!(rows.next_row().unwrap(), format!("0x{}", "0a".repeat(20)));
    assert_eq!(rows.next_row().unwrap(), format!("0x{}", "0b".repeat(20)));
    assert_eq!(rows.next_row(), None);
    assert_eq!(rows.next_row(), None);
}

#[test]
fn a_file_without_addresses_has_its_header() {
    let mut rows = PartRows::new(&AddressSet::new());
    assert_eq!(rows.next_row().unwrap(), "address");
    assert_eq!(rows.next_row(), None);
}

#[test]
fn progress_adds_up() {
    let mut progress = Progress::new();
    progress.start_segment(2);
    progress.absorb(10, 19, &vec![[1u8; 20], [2u8; 20], [1u8; 20]], 2);
    assert!(!progress.report_due());
    progress.absorb(20, 24, &vec![[2u8; 20]], 1);
    assert!(progress.report_due());
    assert_eq!(progress.blocks(), 15);
    assert_eq!(progress.segment_blocks(), 15);
    assert_eq!(progress.transactions(), 3);
    assert_eq!(progress.addresses(), 4);
    assert_eq!(progress.processed(), 2);
    assert_eq!(progress.total_batches(), 2);
    assert_eq!(progress.unique().len(), 2);
    progress.start_segment(1);
    assert_eq!(progress.segment_blocks(), 0);
    assert_eq!(progress.processed(), 0);
    assert_eq!(progress.blocks(), 15);
    assert_eq!(progress.unique().len(), 2);
}

#[test]
fn progress_is_told_after_every_hundredth_batch() {
    let mut progress = Progress::new();
    progress.start_segment(250);
    let mut told = Vec::new();
    for n in 1..=250u64 {
        progress.absorb(n, n, &vec![], 0);
        if progress.report_due() {
            told.push(n);
        }
    }
    assert_eq!(told, vec![100, 200, 250]);
}

#[test]
fn progress_knows_its_limits() {
    let mut progress = Progress::new();
    assert!(!progress.can_absorb(0, u64::MAX, &vec![], 0));
    assert!(progress.can_absorb(1, u64::MAX, &vec![], 0));
    progress.absorb(1, u64::MAX, &vec![], 0);
    assert!(!progress.can_absorb(5, 5, &vec![], 0));
}

#[test]
fn order_of_batches_does_not_matter() {
    let a = vec![[1u8; 20], [2u8; 20]];
    let b = vec![[2u8; 20], [3u8; 20]];
    let mut one = Progress::new();
    one.absorb(1, 2, &a, 4);
    one.absorb(3, 4, &b, 5);
    let mut two = Progress::new();
    two.absorb(3, 4, &b, 5);
    two.absorb(1, 2, &a, 4);
    assert_eq!(one.unique().sorted(), two.unique().sorted());
    assert_eq!(one.blocks(), two.blocks());
    assert_eq!(one.transactions(), two.transactions());
    assert_eq!(one.addresses(), two.addresses());
}

#[test]
fn uploads_are_tried_five_times() {
    let mut attempt = 1usize;
    let mut pauses = Vec::new();
    loop {
        match upload_step(attempt, false) {
            UploadStep::Retry { attempt: next, pause_secs } => {
                attempt = next;
                pauses.push(pause_secs);
            }
            UploadStep::GaveUp => break,
            UploadStep::Uploaded => panic!("nothing was uploaded"),
        }
    }
    assert_eq!(attempt, 5);
    assert_eq!(pauses, vec![5, 5, 5, 5]);
    assert_eq!(upload_step(5, true), UploadStep::Uploaded);
}

#[test]
fn upload_command() {
    assert_eq!(
        upload_args("v1", "a.csv.gz"),
        vec!["release", "upload", "v1", "a.csv.gz", "--clobber"]
    );
}

#[test]
fn a_part_holds_the_addresses_of_all_its_blocks() {
    let address = |n: u64| {
        let mut bytes = [0u8; 20];
        bytes[12..].copy_from_slice(&n.to_be_bytes());
        bytes
    };
    let chain = |n: u64| BlockData {
        number: Some(format!("0x{:x}", n)),
        transactions: vec![TxData {
            from: Some(format!("0x{}", hex::encode(address(n / 3)))),
            to: Some(hex::encode_upper(address(n / 5))),
        }],
    };
    let part = first_part(100, 41_000);
    let mut progress = Progress::new();
    let mut segment = Some(first_segment(&part));
    while let Some(s) = segment {
        let mut batches = segment_batches(s.start, s.end, 64);
        progress.start_segment(batches.len());
        batches.reverse();
        for batch in batches {
            let map: HashMap<u64, BlockData> = batch.iter().map(|&n| (n, chain(n))).collect();
            let (addresses, count) = gather_blocks(&batch, map).unwrap();
            progress.absorb(batch[0], batch[batch.len() - 1], &addresses, count);
        }
        assert!(progress.report_due());
        segment = next_segment(&s, part.end);
    }
    let expected: BTreeSet<[u8; 20]> =
        (100..=41_000u64).flat_map(|n| [address(n / 3), address(n / 5)]).collect();
    assert_eq!(progress.blocks(), 40_901);
    assert_eq!(progress.transactions(), 40_901);
    assert_eq!(progress.addresses(), 81_802);
    let mut rows = PartRows::new(progress.unique());
    assert_eq!(rows.next_row().unwrap(), "address");
    for bytes in expected {
        assert_eq!(rows.next_row().unwrap(), format!("0x{}", hex::encode(bytes)));
    }
    assert_eq!(rows.next_row(), None);
}
