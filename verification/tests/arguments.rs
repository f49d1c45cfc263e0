use cache_aware_routing::cli::{
    arg_value, microbench_command, parse_args, parse_u64, parse_usize, MicrobenchCommand,
};
use cache_aware_routing::types::Mode;

fn args(texts: &[&str]) -> Vec<String> {
    texts.iter().map(|text| text.to_string()).collect()
}

#[test]
fn mode_has_to_be_chosen() {
    for list in [args(&[]), args(&["--hits", "3"]), args(&["-single", "x"])] {
        assert_eq!(
            parse_args(&list).unwrap_err(),
            "choose --single or --disaggregated"
        );
    }
}

#[test]
fn prompt_follows_the_mode() {
    let config = parse_args(&args(&["--disaggregated", "a b"])).unwrap();
    assert_eq!(config.mode, Mode::Disaggregated);
    assert_eq!(config.prompt, "a b");
    assert_eq!(config.hits, 1000);

    for list in [
        args(&["--single"]),
        args(&["--single", "--hits", "3"]),
        args(&["--hits", "3", "--disaggregated"]),
        args(&["--single", "--"]),
    ] {
        assert_eq!(parse_args(&list).unwrap_err(), "missing user prompt");
    }
    assert_eq!(parse_args(&args(&["--single", "-x"])).unwrap().prompt, "-x");
    assert_eq!(parse_args(&args(&["--single", ""])).unwrap().prompt, "");
}

#[test]
fn single_counts_wherever_it_stands() {
    let config = parse_args(&args(&["--disaggregated", "p", "--single", "q"])).unwrap();
    assert_eq!(config.mode, Mode::Single);
    assert_eq!(config.prompt, "p");
}

#[test]
fn hits_have_to_be_a_number() {
    let hits = |value: &str| parse_args(&args(&["--single", "p", "--hits", value]));
    assert_eq!(hits("7").unwrap().hits, 7);
    assert_eq!(hits("+7").unwrap().hits, 7);
    for value in ["", "x", "-1", "99999999999999999999999"] {
        assert_eq!(
            hits(value).unwrap_err(),
            format!("invalid --hits: {}", value.parse::<usize>().unwrap_err())
        );
    }
    assert_eq!(
        parse_args(&args(&["--single", "p", "--hits"])).unwrap().hits,
        1000
    );
}

#[test]
fn value_follows_its_flag() {
    let list = args(&["--a", "1", "--b", "--a", "2", "--c"]);
    assert_eq!(arg_value(&list, "--a"), Some("1".to_string()));
    assert_eq!(arg_value(&list, "--b"), Some("--a".to_string()));
    assert_eq!(arg_value(&list, "--c"), None);
    assert_eq!(arg_value(&list, "--d"), None);
    assert_eq!(arg_value(&[], "--a"), None);
}

#[test]
fn unreadable_numbers_fall_back() {
    let list = args(&["--n", "5", "--bad", "five", "--big", "18446744073709551616"]);
    assert_eq!(parse_usize(&list, "--n", 9), 5);
    assert_eq!(parse_usize(&list, "--bad", 9), 9);
    assert_eq!(parse_usize(&list, "--big", 9), 9);
    assert_eq!(parse_usize(&list, "--none", 9), 9);
    assert_eq!(parse_u64(&list, "--n", 9), 5);
    assert_eq!(parse_u64(&list, "--big", 9), 9);
}

#[test]
fn commands_have_defaults() {
    assert!(microbench_command(&[]).is_none());
    assert!(microbench_command(&args(&["--single", "bench-part2-query"])).is_none());
    assert!(matches!(
        microbench_command(&args(&["bench-part2-query"])),
        Some(MicrobenchCommand::Query {
            iterations: 100_000,
            pods: 64,
            blocks: 32,
            dropoffs: 4
        })
    ));
    assert!(matches!(
        microbench_command(&args(&["bench-part2-compare", "--pods", "3", "--dropoffs", "x"])),
        Some(MicrobenchCommand::Compare {
            iterations: 100_000,
            pods: 3,
            blocks: 32,
            dropoffs: 4
        })
    ));
    assert!(matches!(
        microbench_command(&args(&["bench-part2-shards", "--blocks-per-chain", "5"])),
        Some(MicrobenchCommand::Shards {
            chains: 10_000,
            blocks_per_chain: 5
        })
    ));
    assert!(matches!(
        microbench_command(&args(&["bench-part2-concurrency", "--duration-secs", "2"])),
        Some(MicrobenchCommand::Concurrency {
            readers: 8,
            writers: 2,
            duration_secs: 2,
            pods: 64,
            blocks: 32
        })
    ));
}

#[test]
fn commands_are_brought_into_their_bounds() {
    let query = MicrobenchCommand::Query {
        iterations: 0,
        pods: 1000,
        blocks: 0,
        dropoffs: 0,
    };
    assert!(matches!(
        query.bounded(),
        MicrobenchCommand::Query {
            iterations: 1,
            pods: 256,
            blocks: 0,
            dropoffs: 0
        }
    ));
    let compare = MicrobenchCommand::Compare {
        iterations: 5,
        pods: 0,
        blocks: 7,
        dropoffs: 9,
    };
    assert!(matches!(
        compare.bounded(),
        MicrobenchCommand::Compare {
            iterations: 5,
            pods: 1,
            blocks: 7,
            dropoffs: 9
        }
    ));
    let shards = MicrobenchCommand::Shards {
        chains: 0,
        blocks_per_chain: 0,
    };
    assert!(matches!(
        shards.bounded(),
        MicrobenchCommand::Shards {
            chains: 0,
            blocks_per_chain: 0
        }
    ));
    let concurrency = MicrobenchCommand::Concurrency {
        readers: 0,
        writers: 0,
        duration_secs: 0,
        pods: 8,
        blocks: 0,
    };
    assert!(matches!(
        concurrency.bounded(),
        MicrobenchCommand::Concurrency {
            readers: 1,
            writers: 0,
            duration_secs: 1,
            pods: 8,
            blocks: 1
        }
    ));
}
