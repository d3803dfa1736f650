use address_extractor::chains::{endpoints_for, rpc_list};
use address_extractor::error::{batch_context, ExtractError, HexFault};
use address_extractor::text::{decimal, hexadecimal, three_digits};

#[test]
fn numerals_are_those_of_the_standard_library() {
    let numbers = [
        0u64,
        1,
        9,
        10,
        15,
        16,
        99,
        100,
        255,
        256,
        999,
        1000,
        123_456_789,
        0xdead_beef,
        u64::MAX - 1,
        u64::MAX,
    ];
    for n in numbers {
        assert_eq!(decimal(n), format!("{}", n));
        assert_eq!(hexadecimal(n), format!("{:x}", n));
        assert_eq!(three_digits(n), format!("{:03}", n));
    }
}

#[test]
fn three_digits_are_filled_up_with_zeros() {
    assert_eq!(three_digits(0), "000");
    assert_eq!(three_digits(7), "007");
    assert_eq!(three_digits(42), "042");
    assert_eq!(three_digits(123), "123");
    assert_eq!(three_digits(1234), "1234");
}

#[test]
fn endpoints_of_bnb() {
    assert_eq!(
        rpc_list("bnb"),
        vec![
            "https://bsc-dataseed.binance.org/",
            "https://bsc-dataseed1.binance.org/",
            "https://bsc-dataseed2.binance.org/",
            "https://bsc-dataseed.bnbchain.org",
            "https://bsc-dataseed1.bnbchain.org",
            "https://bsc-dataseed2.bnbchain.org",
            "https://bsc-dataseed1.defibit.io/",
            "https://bsc-dataseed2.defibit.io/",
            "https://bsc-dataseed1.ninicoin.io/",
            "https://bsc-dataseed2.ninicoin.io/",
            "https://bsc.drpc.org",
            "https://bsc.meowrpc.com",
        ]
    );
}

#[test]
fn endpoints_of_the_other_chains() {
    assert_eq!(
        rpc_list("ethereum"),
        vec![
            "https://cloudflare-eth.com",
            "https://eth.drpc.org",
            "https://rpc.payload.de",
            "https://eth.merkle.io",
        ]
    );
    assert_eq!(
        rpc_list("polygon"),
        vec![
            "https://polygon-rpc.com",
            "https://polygon.drpc.org",
            "https://polygon.meowrpc.com",
        ]
    );
    assert_eq!(
        rpc_list("arbitrum"),
        vec![
            "https://arb1.arbitrum.io/rpc",
            "https://arbitrum.drpc.org",
            "https://arbitrum.meowrpc.com",
        ]
    );
    assert_eq!(
        rpc_list("base"),
        vec![
            "https://mainnet.base.org",
            "https://base.drpc.org",
            "https://base.meowrpc.com",
        ]
    );
    assert_eq!(
        rpc_list("optimism"),
        vec![
            "https://mainnet.optimism.io",
            "https://optimism.drpc.org",
            "https://optimism.meowrpc.com",
        ]
    );
    assert_eq!(
        rpc_list("avalanche_c"),
        vec![
            "https://api.avax.network/ext/bc/C/rpc",
            "https://avalanche.drpc.org",
        ]
    );
}

#[test]
fn other_names_of_chains() {
    assert_eq!(rpc_list("bsc"), rpc_list("bnb"));
    assert_eq!(rpc_list("eth"), rpc_list("ethereum"));
    assert_eq!(rpc_list("matic"), rpc_list("polygon"));
    assert_eq!(rpc_list("arb"), rpc_list("arbitrum"));
    assert_eq!(rpc_list("op"), rpc_list("optimism"));
    assert_eq!(rpc_list("avalanche"), rpc_list("avalanche_c"));
    assert_eq!(rpc_list("avax"), rpc_list("avalanche_c"));
}

#[test]
fn case_of_a_name_does_not_matter() {
    assert_eq!(rpc_list("ETH"), rpc_list("eth"));
    assert_eq!(rpc_list("Polygon"), rpc_list("polygon"));
    assert_eq!(rpc_list("AvAlAnChE_C"), rpc_list("avalanche_c"));
    assert_ne!(endpoints_for("ETH"), endpoints_for("eth"));
}

#[test]
fn unknown_names_get_a_short_list() {
    let short = vec![
        "https://bsc-dataseed.binance.org/",
        "https://bsc-dataseed1.binance.org/",
        "https://bsc-dataseed.bnbchain.org",
        "https://bsc-dataseed1.defibit.io/",
        "https://bsc-dataseed1.ninicoin.io/",
    ];
    for name in ["", " bnb", "solana", "étherscan", "bnb\n"] {
        assert_eq!(rpc_list(name), short);
    }
}

#[test]
fn messages() {
    let cases = vec![
        (
            ExtractError::InvalidHex { value: "0xzz".to_string(), fault: HexFault::InvalidDigit },
            "Invalid hex '0xzz': invalid digit found in string",
        ),
        (
            ExtractError::MissingNumber { expected: 7 },
            "Block 7 missing number",
        ),
        (
            ExtractError::BlockMismatch { requested: 7, received: 8 },
            "Block mismatch: requested 7, received 8",
        ),
        (ExtractError::Transport("timed out".to_string()), "timed out"),
        (
            ExtractError::HttpStatus("404 Not Found".to_string()),
            "HTTP status 404 Not Found",
        ),
        (ExtractError::Rpc("denied".to_string()), "RPC error: denied"),
        (
            ExtractError::NullResult { block: 9 },
            "Block 9 returned null result",
        ),
        (
            ExtractError::RpcBatch("limit".to_string()),
            "RPC batch error: limit",
        ),
        (
            ExtractError::RpcItem("limit".to_string()),
            "RPC item error: limit",
        ),
        (ExtractError::MissingId, "Missing numeric id"),
        (
            ExtractError::UnexpectedId { id: 12 },
            "Unexpected block id 12",
        ),
        (
            ExtractError::IncompleteBatch { got: 3, wanted: 10 },
            "Incomplete batch: 3 / 10",
        ),
        (ExtractError::NoEndpoints, "RPC list is empty"),
        (
            ExtractError::MissingBlock { block: 5 },
            "Missing block 5 in result map",
        ),
        (
            ExtractError::PermanentFailure { block: 5 },
            "Block 5 permanently failed on all RPCs",
        ),
        (
            ExtractError::StartAfterEnd,
            "start-block cannot be greater than end-block",
        ),
        (
            ExtractError::ZeroBatchOrConcurrency,
            "batch-size and concurrency must be > 0",
        ),
        (
            ExtractError::EndBeyondLatest { end: 20, latest: 10 },
            "Requested end block 20 > chain latest block 10",
        ),
        (
            ExtractError::UploadFailed { file: "a.csv.gz".to_string() },
            "Failed uploading a.csv.gz to release",
        ),
    ];
    for (error, text) in cases {
        assert_eq!(error.message(), text);
    }
    assert_eq!(batch_context(10, 19), "Permanent error on batch 10-19");
}
