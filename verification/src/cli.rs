//! The command line.

use vstd::prelude::*;

use crate::bench_part2;
use crate::bitmap::MAX_PODS;
use crate::seq_lemmas;
use crate::text;
use crate::types::{Config, Mode};

verus! {

/// What follows the first `flag` that something follows.
pub open spec fn flag_value(args: Seq<Seq<char>>, flag: Seq<char>) -> Option<Seq<char>>
    decreases args.len(),
{
    if args.len() < 2 {
        None
    } else if args[0] == flag {
        Some(args[1])
    } else {
        flag_value(args.drop_first(), flag)
    }
}

/// What follows the first `flag` that something follows.
pub fn arg_value(args: &[String], flag: &str) -> (value: Option<String>)
    ensures
        match value {
            Some(value) => flag_value(text::texts(args@), flag@) == Some(value@),
            None => flag_value(text::texts(args@), flag@) is None,
        },
{
    let ghost all = text::texts(args@);
    let mut i: usize = 0;
    assert(all.skip(0) =~= all);
    while i < args.len()
        invariant
            i <= args@.len(),
            all == text::texts(args@),
            flag_value(all, flag@) == flag_value(all.skip(i as int), flag@),
        decreases args@.len() - i,
    {
        if args.len() - i < 2 {
            return None;
        }
        if text::same_text(args[i].as_str(), flag) {
            return Some(args[i + 1].clone());
        }
        assert(all.skip(i as int).drop_first() =~= all.skip(i + 1));
        i = i + 1;
    }
    None
}

/// The number that follows `flag`, or `default` where there is none that can be read.
pub open spec fn number_or(
    args: Seq<Seq<char>>,
    flag: Seq<char>,
    max: nat,
    default: nat,
) -> nat {
    match flag_value(args, flag) {
        None => default,
        Some(value) => match text::read_number(value, max) {
            Ok(number) => number,
            Err(_) => default,
        },
    }
}

/// The number that follows `flag`, or `default` where there is none that can be read.
pub fn parse_usize(args: &[String], flag: &str, default: usize) -> (number: usize)
    ensures
        number == number_or(text::texts(args@), flag@, usize::MAX as nat, default as nat),
{
    match arg_value(args, flag) {
        None => default,
        Some(value) => match text::parse_number(value.as_str(), usize::MAX as u64) {
            Ok(number) => {
                proof {
                    text::lemma_number_bound(value@, usize::MAX as nat);
                }
                number as usize
            },
            Err(_) => default,
        },
    }
}

/// The number that follows `flag`, or `default` where there is none that can be read.
pub fn parse_u64(args: &[String], flag: &str, default: u64) -> (number: u64)
    ensures
        number == number_or(text::texts(args@), flag@, u64::MAX as nat, default as nat),
{
    match arg_value(args, flag) {
        None => default,
        Some(value) => match text::parse_number(value.as_str(), u64::MAX) {
            Ok(number) => number,
            Err(_) => default,
        },
    }
}

/// The place of the first argument that names a mode.
pub open spec fn mode_position(args: Seq<Seq<char>>) -> Option<int>
    decreases args.len(),
{
    if args.len() == 0 {
        None
    } else {
        match mode_position(args.drop_last()) {
            Some(position) => Some(position),
            None => if args.last() == "--single"@ || args.last() == "--disaggregated"@ {
                Some(args.len() - 1)
            } else {
                None
            },
        }
    }
}

/// The configuration that `args` ask for, or what is wrong with them. `--single` counts wherever
/// it stands, and the prompt stands behind the first argument that names a mode.
pub open spec fn requested(args: Seq<Seq<char>>) -> Result<(Mode, Seq<char>, nat), Seq<char>> {
    match mode_position(args) {
        None => Err("choose --single or --disaggregated"@),
        Some(position) => {
            let mode = if args.contains("--single"@) {
                Mode::Single
            } else {
                Mode::Disaggregated
            };
            if position + 1 >= args.len() || text::is_flag(args[position + 1]) {
                Err("missing user prompt"@)
            } else {
                let hits = match flag_value(args, "--hits"@) {
                    Some(value) => value,
                    None => "1000"@,
                };
                match text::read_number(hits, usize::MAX as nat) {
                    Ok(number) => Ok((mode, args[position + 1], number)),
                    Err(error) => Err("invalid --hits: "@ + error.text()),
                }
            }
        },
    }
}

/// Reads the arguments of a benchmark run.
pub fn parse_args(args: &[String]) -> (config: Result<Config, String>)
    ensures
        match config {
            Ok(config) => requested(text::texts(args@)) == Ok::<
                (Mode, Seq<char>, nat),
                Seq<char>,
            >((config.mode, config.prompt@, config.hits as nat)),
            Err(message) => requested(text::texts(args@)) == Err::<
                (Mode, Seq<char>, nat),
                Seq<char>,
            >(message@),
        },
{
    let ghost all = text::texts(args@);
    let mut position: Option<usize> = None;
    let mut single: bool = false;
    let mut i: usize = 0;
    while i < args.len()
        invariant
            i <= args@.len(),
            all == text::texts(args@),
            match position {
                Some(found) => mode_position(all.take(i as int)) == Some(found as int) && found < i,
                None => mode_position(all.take(i as int)) is None,
            },
            single == all.take(i as int).contains("--single"@),
        decreases args@.len() - i,
    {
        let is_single: bool = text::same_text(args[i].as_str(), "--single");
        let is_disaggregated: bool = text::same_text(args[i].as_str(), "--disaggregated");
        proof {
            let next = all.take(i + 1);
            assert(next.drop_last() =~= all.take(i as int));
            assert(next.last() == args@[i as int]@);
            seq_lemmas::lemma_take_contains(all, i as int);
        }
        if is_single {
            single = true;
        }
        if position.is_none() && (is_single || is_disaggregated) {
            position = Some(i);
        }
        i = i + 1;
    }
    assert(all.take(all.len() as int) =~= all);
    let mode_index: usize = match position {
        Some(found) => found,
        None => {
            return Err("choose --single or --disaggregated".to_owned());
        },
    };
    let mode = if single {
        Mode::Single
    } else {
        Mode::Disaggregated
    };
    if args.len() - mode_index < 2 {
        return Err("missing user prompt".to_owned());
    }
    let prompt: String = args[mode_index + 1].clone();
    if text::begins_as_flag(prompt.as_str()) {
        return Err("missing user prompt".to_owned());
    }
    let hits: String = match arg_value(args, "--hits") {
        Some(value) => value,
        None => "1000".to_owned(),
    };
    match text::parse_number(hits.as_str(), usize::MAX as u64) {
        Ok(number) => {
            proof {
                text::lemma_number_bound(hits@, usize::MAX as nat);
            }
            Ok(Config { mode, prompt, hits: number as usize })
        },
        Err(error) => {
            let mut message: String = "invalid --hits: ".to_owned();
            message.append(error.message());
            Err(message)
        },
    }
}

/// A benchmark of the query path, with its parameters.
#[derive(Clone, Copy, Debug)]
pub enum MicrobenchCommand {
    Query { iterations: usize, pods: usize, blocks: usize, dropoffs: usize },
    Compare { iterations: usize, pods: usize, blocks: usize, dropoffs: usize },
    Shards { chains: usize, blocks_per_chain: usize },
    Concurrency { readers: usize, writers: usize, duration_secs: u64, pods: usize, blocks: usize },
}

/// `value`, or one where that is zero.
pub open spec fn at_least_one(value: usize) -> usize {
    if value == 0 {
        1
    } else {
        value
    }
}

/// The number of pods that a benchmark runs with where it is asked for `pods`.
pub open spec fn benched_pods(pods: usize) -> usize {
    bench_part2::clamped(pods as nat, 1, MAX_PODS as nat) as usize
}

impl MicrobenchCommand {
    /// The command with its parameters within the bounds in which it can run: something is done
    /// at least once, by one reader at least, for a second at least, and a bitmap holds the pods.
    pub open spec fn within_bounds(self) -> Self {
        match self {
            MicrobenchCommand::Query { iterations, pods, blocks, dropoffs } =>
                MicrobenchCommand::Query {
                iterations: at_least_one(iterations),
                pods: benched_pods(pods),
                blocks,
                dropoffs,
            },
            MicrobenchCommand::Compare { iterations, pods, blocks, dropoffs } =>
                MicrobenchCommand::Compare {
                iterations: at_least_one(iterations),
                pods: benched_pods(pods),
                blocks,
                dropoffs,
            },
            MicrobenchCommand::Shards { chains, blocks_per_chain } => MicrobenchCommand::Shards {
                chains,
                blocks_per_chain,
            },
            MicrobenchCommand::Concurrency { readers, writers, duration_secs, pods, blocks } =>
                MicrobenchCommand::Concurrency {
                readers: at_least_one(readers),
                writers,
                duration_secs: if duration_secs == 0 {
                    1
                } else {
                    duration_secs
                },
                pods: benched_pods(pods),
                blocks: at_least_one(blocks),
            },
        }
    }

    /// The command with its parameters within the bounds in which it can run.
    pub fn bounded(self) -> (command: Self)
        ensures
            command == self.within_bounds(),
    {
        match self {
            MicrobenchCommand::Query { iterations, pods, blocks, dropoffs } =>
                MicrobenchCommand::Query {
                iterations: if iterations == 0 {
                    1
                } else {
                    iterations
                },
                pods: bench_part2::clamp_pods(pods),
                blocks,
                dropoffs,
            },
            MicrobenchCommand::Compare { iterations, pods, blocks, dropoffs } =>
                MicrobenchCommand::Compare {
                iterations: if iterations == 0 {
                    1
                } else {
                    iterations
                },
                pods: bench_part2::clamp_pods(pods),
                blocks,
                dropoffs,
            },
            MicrobenchCommand::Shards { chains, blocks_per_chain } => MicrobenchCommand::Shards {
                chains,
                blocks_per_chain,
            },
            MicrobenchCommand::Concurrency { readers, writers, duration_secs, pods, blocks } =>
                MicrobenchCommand::Concurrency {
                readers: if readers == 0 {
                    1
                } else {
                    readers
                },
                writers,
                duration_secs: if duration_secs == 0 {
                    1
                } else {
                    duration_secs
                },
                pods: bench_part2::clamp_pods(pods),
                blocks: if blocks == 0 {
                    1
                } else {
                    blocks
                },
            },
        }
    }
}

/// The count that follows `flag`, or `default`.
pub open spec fn count_or(args: Seq<Seq<char>>, flag: Seq<char>, default: nat) -> usize {
    number_or(args, flag, usize::MAX as nat, default) as usize
}

/// The benchmark that the first of `args` names, if it names one.
pub open spec fn microbench(args: Seq<Seq<char>>) -> Option<MicrobenchCommand> {
    if args.len() == 0 {
        None
    } else if args[0] == "bench-part2-query"@ {
        Some(
            MicrobenchCommand::Query {
                iterations: count_or(args, "--iterations"@, 100_000),
                pods: count_or(args, "--pods"@, 64),
                blocks: count_or(args, "--blocks"@, 32),
                dropoffs: count_or(args, "--dropoffs"@, 4),
            },
        )
    } else if args[0] == "bench-part2-compare"@ {
        Some(
            MicrobenchCommand::Compare {
                iterations: count_or(args, "--iterations"@, 100_000),
                pods: count_or(args, "--pods"@, 64),
                blocks: count_or(args, "--blocks"@, 32),
                dropoffs: count_or(args, "--dropoffs"@, 4),
            },
        )
    } else if args[0] == "bench-part2-shards"@ {
        Some(
            MicrobenchCommand::Shards {
                chains: count_or(args, "--chains"@, 10_000),
                blocks_per_chain: count_or(args, "--blocks-per-chain"@, 64),
            },
        )
    } else if args[0] == "bench-part2-concurrency"@ {
        Some(
            MicrobenchCommand::Concurrency {
                readers: count_or(args, "--readers"@, 8),
                writers: count_or(args, "--writers"@, 2),
                duration_secs: number_or(
                    args,
                    "--duration-secs"@,
                    u64::MAX as nat,
                    10,
                ) as u64,
                pods: count_or(args, "--pods"@, 64),
                blocks: count_or(args, "--blocks"@, 32),
            },
        )
    } else {
        None
    }
}

/// Reads which benchmark the first of `args` names, if it names one.
pub fn microbench_command(args: &[String]) -> (command: Option<MicrobenchCommand>)
    ensures
        command == microbench(text::texts(args@)),
{
    if args.len() == 0 {
        return None;
    }
    let name: &str = args[0].as_str();
    if text::same_text(name, "bench-part2-query") {
        Some(
            MicrobenchCommand::Query {
                iterations: parse_usize(args, "--iterations", 100_000),
                pods: parse_usize(args, "--pods", 64),
                blocks: parse_usize(args, "--blocks", 32),
                dropoffs: parse_usize(args, "--dropoffs", 4),
            },
        )
    } else if text::same_text(name, "bench-part2-compare") {
        Some(
            MicrobenchCommand::Compare {
                iterations: parse_usize(args, "--iterations", 100_000),
                pods: parse_usize(args, "--pods", 64),
                blocks: parse_usize(args, "--blocks", 32),
                dropoffs: parse_usize(args, "--dropoffs", 4),
            },
        )
    } else if text::same_text(name, "bench-part2-shards") {
        Some(
            MicrobenchCommand::Shards {
                chains: parse_usize(args, "--chains", 10_000),
                blocks_per_chain: parse_usize(args, "--blocks-per-chain", 64),
            },
        )
    } else if text::same_text(name, "bench-part2-concurrency") {
        Some(
            MicrobenchCommand::Concurrency {
                readers: parse_usize(args, "--readers", 8),
                writers: parse_usize(args, "--writers", 2),
                duration_secs: parse_u64(args, "--duration-secs", 10),
                pods: parse_usize(args, "--pods", 64),
                blocks: parse_usize(args, "--blocks", 32),
            },
        )
    } else {
        None
    }
}

/// Whether the value of `flag` stands behind place `i`: the flag is there, something follows it,
/// and it does not stand before.
pub open spec fn says(args: Seq<Seq<char>>, i: int, flag: Seq<char>) -> bool {
    &&& 0 <= i
    &&& i + 1 < args.len()
    &&& args[i] == flag
    &&& forall|j: int| 0 <= j < i ==> #[trigger] args[j] != flag
}

/// Whether `flag` stands anywhere with something behind it.
pub open spec fn stands(args: Seq<Seq<char>>, flag: Seq<char>) -> bool {
    exists|i: int| 0 <= i && i + 1 < args.len() && #[trigger] args[i] == flag
}

/// `text` without a plus sign before it.
pub open spec fn without_plus(text: Seq<char>) -> Seq<char> {
    if text.len() > 0 && text[0] == '+' {
        text.skip(1)
    } else {
        text
    }
}

/// Whether `text` is made of digits that stand for `number`, with a plus sign before them or
/// without.
pub open spec fn is_numeral(text: Seq<char>, number: nat) -> bool {
    &&& without_plus(text).len() > 0
    &&& forall|k: int|
        0 <= k < without_plus(text).len() ==> '0' <= #[trigger] without_plus(text)[k] <= '9'
    &&& text::digits_value(without_plus(text)) == number
}

/// Whether the value of `flag` stands behind place `i` and is a numeral for `number`, which is not
/// beyond `max`.
pub open spec fn says_number(
    args: Seq<Seq<char>>,
    i: int,
    flag: Seq<char>,
    max: nat,
    number: nat,
) -> bool {
    says(args, i, flag) && is_numeral(args[i + 1], number) && number <= max
}

/// Whether the value of `flag` stands behind place `i` and is no number up to `max`.
pub open spec fn says_nothing(
    args: Seq<Seq<char>>,
    i: int,
    flag: Seq<char>,
    max: nat,
) -> bool {
    says(args, i, flag) && text::read_number(args[i + 1], max) is Err
}

/// The value of a flag is what follows it where it first stands, and a flag that nothing follows
/// has none.
pub proof fn lemma_flag_value(args: Seq<Seq<char>>, flag: Seq<char>, i: int)
    ensures
        says(args, i, flag) ==> flag_value(args, flag) == Some(args[i + 1]),
        !stands(args, flag) ==> flag_value(args, flag) is None,
    decreases args.len(),
{
    if args.len() >= 2 {
        let rest = args.drop_first();
        if args[0] == flag {
            assert(stands(args, flag));
        } else {
            lemma_flag_value(rest, flag, i - 1);
            if says(args, i, flag) {
                assert forall|j: int| 0 <= j < i - 1 implies #[trigger] rest[j] != flag by {
                    assert(rest[j] == args[j + 1]);
                }
                assert(says(rest, i - 1, flag));
            }
            if stands(rest, flag) {
                let k = choose|k: int|
                    0 <= k && k + 1 < rest.len() && #[trigger] rest[k] == flag;
                assert(args[k + 1] == flag);
            }
        }
    }
}

/// A number behind a flag counts. Where there is no such flag, or no number behind it, the default
/// does.
pub proof fn lemma_number_or(
    args: Seq<Seq<char>>,
    flag: Seq<char>,
    max: nat,
    default: nat,
    i: int,
    number: nat,
)
    ensures
        says_number(args, i, flag, max, number) ==> number_or(args, flag, max, default) == number,
        says_nothing(args, i, flag, max) ==> number_or(args, flag, max, default) == default,
        !stands(args, flag) ==> number_or(args, flag, max, default) == default,
{
    lemma_flag_value(args, flag, i);
    if says_number(args, i, flag, max, number) {
        lemma_numeral_is_read(args[i + 1], number, max);
    }
}

/// A numeral is read as its number.
proof fn lemma_numeral_is_read(text: Seq<char>, number: nat, max: nat)
    requires
        is_numeral(text, number),
        number <= max,
    ensures
        text::read_number(text, max) == Ok::<nat, text::NumberError>(number),
{
    let digits = without_plus(text);
    assert(text[0] == '+' ==> seq!['+'] + digits =~= text);
    text::lemma_read_number(digits, max);
}

/// The names of the benchmarks are different.
proof fn lemma_names_differ()
    ensures
        "bench-part2-query"@.len() == 17,
        "bench-part2-shards"@.len() == 18,
        "bench-part2-compare"@.len() == 19,
        "bench-part2-concurrency"@.len() == 23,
{
    reveal_strlit("bench-part2-query");
    reveal_strlit("bench-part2-shards");
    reveal_strlit("bench-part2-compare");
    reveal_strlit("bench-part2-concurrency");
}

/// Each parameter of the query benchmark is the number behind its own flag, or its default.
pub proof fn lemma_query_parameters(args: Seq<Seq<char>>, i: int, number: nat)
    requires
        args.len() > 0,
        args[0] == "bench-part2-query"@,
    ensures
        microbench(args) matches Some(MicrobenchCommand::Query {
            iterations,
            pods,
            blocks,
            dropoffs,
        }) && {
            &&& says_number(args, i, "--iterations"@, usize::MAX as nat, number) ==> iterations
                == number
            &&& says_nothing(args, i, "--iterations"@, usize::MAX as nat) ==> iterations == 100_000
            &&& !stands(args, "--iterations"@) ==> iterations == 100_000
            &&& says_number(args, i, "--pods"@, usize::MAX as nat, number) ==> pods
                == number
            &&& says_nothing(args, i, "--pods"@, usize::MAX as nat) ==> pods == 64
            &&& !stands(args, "--pods"@) ==> pods == 64
            &&& says_number(args, i, "--blocks"@, usize::MAX as nat, number) ==> blocks
                == number
            &&& says_nothing(args, i, "--blocks"@, usize::MAX as nat) ==> blocks == 32
            &&& !stands(args, "--blocks"@) ==> blocks == 32
            &&& says_number(args, i, "--dropoffs"@, usize::MAX as nat, number) ==> dropoffs
                == number
            &&& says_nothing(args, i, "--dropoffs"@, usize::MAX as nat) ==> dropoffs == 4
            &&& !stands(args, "--dropoffs"@) ==> dropoffs == 4
        },
{
    lemma_names_differ();
    lemma_number_or(args, "--iterations"@, usize::MAX as nat, 100_000, i, number);
    lemma_number_or(args, "--pods"@, usize::MAX as nat, 64, i, number);
    lemma_number_or(args, "--blocks"@, usize::MAX as nat, 32, i, number);
    lemma_number_or(args, "--dropoffs"@, usize::MAX as nat, 4, i, number);
}

/// Each parameter of the comparison is the number behind its own flag, or its default.
pub proof fn lemma_compare_parameters(args: Seq<Seq<char>>, i: int, number: nat)
    requires
        args.len() > 0,
        args[0] == "bench-part2-compare"@,
    ensures
        microbench(args) matches Some(MicrobenchCommand::Compare {
            iterations,
            pods,
            blocks,
            dropoffs,
        }) && {
            &&& says_number(args, i, "--iterations"@, usize::MAX as nat, number) ==> iterations
                == number
            &&& says_nothing(args, i, "--iterations"@, usize::MAX as nat) ==> iterations == 100_000
            &&& !stands(args, "--iterations"@) ==> iterations == 100_000
            &&& says_number(args, i, "--pods"@, usize::MAX as nat, number) ==> pods
                == number
            &&& says_nothing(args, i, "--pods"@, usize::MAX as nat) ==> pods == 64
            &&& !stands(args, "--pods"@) ==> pods == 64
            &&& says_number(args, i, "--blocks"@, usize::MAX as nat, number) ==> blocks
                == number
            &&& says_nothing(args, i, "--blocks"@, usize::MAX as nat) ==> blocks == 32
            &&& !stands(args, "--blocks"@) ==> blocks == 32
            &&& says_number(args, i, "--dropoffs"@, usize::MAX as nat, number) ==> dropoffs
                == number
            &&& says_nothing(args, i, "--dropoffs"@, usize::MAX as nat) ==> dropoffs == 4
            &&& !stands(args, "--dropoffs"@) ==> dropoffs == 4
        },
{
    lemma_names_differ();
    lemma_number_or(args, "--iterations"@, usize::MAX as nat, 100_000, i, number);
    lemma_number_or(args, "--pods"@, usize::MAX as nat, 64, i, number);
    lemma_number_or(args, "--blocks"@, usize::MAX as nat, 32, i, number);
    lemma_number_or(args, "--dropoffs"@, usize::MAX as nat, 4, i, number);
}

/// Each parameter of the shard benchmark is the number behind its own flag, or its default.
pub proof fn lemma_shards_parameters(args: Seq<Seq<char>>, i: int, number: nat)
    requires
        args.len() > 0,
        args[0] == "bench-part2-shards"@,
    ensures
        microbench(args) matches Some(MicrobenchCommand::Shards {
            chains,
            blocks_per_chain,
        }) && {
            &&& says_number(args, i, "--chains"@, usize::MAX as nat, number) ==> chains
                == number
            &&& says_nothing(args, i, "--chains"@, usize::MAX as nat) ==> chains == 10_000
            &&& !stands(args, "--chains"@) ==> chains == 10_000
            &&& says_number(args, i, "--blocks-per-chain"@, usize::MAX as nat, number)
                ==> blocks_per_chain == number
            &&& says_nothing(args, i, "--blocks-per-chain"@, usize::MAX as nat)
                ==> blocks_per_chain == 64
            &&& !stands(args, "--blocks-per-chain"@) ==> blocks_per_chain == 64
        },
{
    lemma_names_differ();
    lemma_number_or(args, "--chains"@, usize::MAX as nat, 10_000, i, number);
    lemma_number_or(args, "--blocks-per-chain"@, usize::MAX as nat, 64, i, number);
}

/// Each parameter of the concurrency benchmark is the number behind its own flag, or its default.
pub proof fn lemma_concurrency_parameters(args: Seq<Seq<char>>, i: int, number: nat)
    requires
        args.len() > 0,
        args[0] == "bench-part2-concurrency"@,
    ensures
        microbench(args) matches Some(MicrobenchCommand::Concurrency {
            readers,
            writers,
            duration_secs,
            pods,
            blocks,
        }) && {
            &&& says_number(args, i, "--readers"@, usize::MAX as nat, number) ==> readers
                == number
            &&& says_nothing(args, i, "--readers"@, usize::MAX as nat) ==> readers == 8
            &&& !stands(args, "--readers"@) ==> readers == 8
            &&& says_number(args, i, "--writers"@, usize::MAX as nat, number) ==> writers
                == number
            &&& says_nothing(args, i, "--writers"@, usize::MAX as nat) ==> writers == 2
            &&& !stands(args, "--writers"@) ==> writers == 2
            &&& says_number(args, i, "--duration-secs"@, u64::MAX as nat, number) ==> duration_secs
                == number
            &&& says_nothing(args, i, "--duration-secs"@, u64::MAX as nat) ==> duration_secs == 10
            &&& !stands(args, "--duration-secs"@) ==> duration_secs == 10
            &&& says_number(args, i, "--pods"@, usize::MAX as nat, number) ==> pods
                == number
            &&& says_nothing(args, i, "--pods"@, usize::MAX as nat) ==> pods == 64
            &&& !stands(args, "--pods"@) ==> pods == 64
            &&& says_number(args, i, "--blocks"@, usize::MAX as nat, number) ==> blocks
                == number
            &&& says_nothing(args, i, "--blocks"@, usize::MAX as nat) ==> blocks == 32
            &&& !stands(args, "--blocks"@) ==> blocks == 32
        },
{
    lemma_names_differ();
    lemma_number_or(args, "--readers"@, usize::MAX as nat, 8, i, number);
    lemma_number_or(args, "--writers"@, usize::MAX as nat, 2, i, number);
    lemma_number_or(args, "--duration-secs"@, u64::MAX as nat, 10, i, number);
    lemma_number_or(args, "--pods"@, usize::MAX as nat, 64, i, number);
    lemma_number_or(args, "--blocks"@, usize::MAX as nat, 32, i, number);
}

/// Only the first argument names a benchmark, and only four names do.
pub proof fn lemma_no_benchmark(args: Seq<Seq<char>>)
    ensures
        microbench(args) is None <==> args.len() == 0 || (args[0] != "bench-part2-query"@ && args[0]
            != "bench-part2-compare"@ && args[0] != "bench-part2-shards"@ && args[0]
            != "bench-part2-concurrency"@),
{
}

/// A count is left as it is where it is within its bounds, and brought to the next bound where it
/// is not. What has no bounds is left as it is.
pub proof fn lemma_bounds(command: MicrobenchCommand)
    ensures
        command.within_bounds().within_bounds() == command.within_bounds(),
        command matches MicrobenchCommand::Query { iterations: i, pods: p, blocks: b, dropoffs: d }
            ==> (command.within_bounds() matches MicrobenchCommand::Query {
            iterations,
            pods,
            blocks,
            dropoffs,
        } && {
            &&& is_nearest(i as int, iterations as int, 1, usize::MAX as int)
            &&& is_nearest(p as int, pods as int, 1, 256)
            &&& blocks == b
            &&& dropoffs == d
        }),
        command matches MicrobenchCommand::Compare {
            iterations: i,
            pods: p,
            blocks: b,
            dropoffs: d,
        } ==> (command.within_bounds() matches MicrobenchCommand::Compare {
            iterations,
            pods,
            blocks,
            dropoffs,
        } && {
            &&& is_nearest(i as int, iterations as int, 1, usize::MAX as int)
            &&& is_nearest(p as int, pods as int, 1, 256)
            &&& blocks == b
            &&& dropoffs == d
        }),
        command is Shards ==> command.within_bounds() == command,
        command matches MicrobenchCommand::Concurrency {
            readers: r,
            writers: w,
            duration_secs: s,
            pods: p,
            blocks: b,
        } ==> (command.within_bounds() matches MicrobenchCommand::Concurrency {
            readers,
            writers,
            duration_secs,
            pods,
            blocks,
        } && {
            &&& is_nearest(r as int, readers as int, 1, usize::MAX as int)
            &&& writers == w
            &&& is_nearest(s as int, duration_secs as int, 1, u64::MAX as int)
            &&& is_nearest(p as int, pods as int, 1, 256)
            &&& is_nearest(b as int, blocks as int, 1, usize::MAX as int)
        }),
{
}

/// Whether `result` is the number from `low` to `high` that is nearest to `asked`.
pub open spec fn is_nearest(asked: int, result: int, low: int, high: int) -> bool {
    &&& low <= result <= high
    &&& low <= asked <= high ==> result == asked
    &&& asked < low ==> result == low
    &&& asked > high ==> result == high
}

/// The place of the mode is the first one with a mode.
pub proof fn lemma_mode_position(args: Seq<Seq<char>>, i: int)
    ensures
        mode_position(args) == Some(i) <==> {
            &&& 0 <= i < args.len()
            &&& args[i] == "--single"@ || args[i] == "--disaggregated"@
            &&& forall|j: int|
                0 <= j < i ==> #[trigger] args[j] != "--single"@ && args[j] != "--disaggregated"@
        },
        mode_position(args) is None <==> forall|j: int|
            0 <= j < args.len() ==> #[trigger] args[j] != "--single"@ && args[j]
                != "--disaggregated"@,
    decreases args.len(),
{
    if args.len() > 0 {
        let before = args.drop_last();
        let last = args.len() - 1;
        lemma_mode_position(before, i);
        assert forall|j: int| 0 <= j < last implies #[trigger] args[j] == before[j] by {}
        if let Some(found) = mode_position(before) {
            lemma_mode_position(before, found);
            assert(args[found] == before[found]);
        } else {
            assert forall|j: int| 0 <= j < last implies #[trigger] args[j] != "--single"@
                && args[j] != "--disaggregated"@ by {
                assert(args[j] == before[j]);
            }
        }
    }
}

/// A run without a mode is refused. With one it is refused where no prompt stands behind the first
/// argument that names one, or a flag does. Otherwise that is the prompt, the mode is that of one
/// pod just where `--single` stands anywhere, and the hits are the number behind `--hits`, or a
/// thousand.
pub proof fn lemma_requested(args: Seq<Seq<char>>, i: int, h: int, hits: nat)
    ensures
        (forall|j: int|
            0 <= j < args.len() ==> #[trigger] args[j] != "--single"@ && args[j]
                != "--disaggregated"@) ==> requested(args) == Err::<
            (Mode, Seq<char>, nat),
            Seq<char>,
        >("choose --single or --disaggregated"@),
        0 <= i < args.len() && (args[i] == "--single"@ || args[i] == "--disaggregated"@) && (
        forall|j: int|
            0 <= j < i ==> #[trigger] args[j] != "--single"@ && args[j] != "--disaggregated"@)
            ==> {
            let prompt = args[i + 1];
            let one_pod = exists|j: int|
                0 <= j < args.len() && #[trigger] args[j] == "--single"@;
            let mode = if one_pod {
                Mode::Single
            } else {
                Mode::Disaggregated
            };
            if i + 1 == args.len() || (prompt.len() >= 2 && prompt[0] == '-' && prompt[1] == '-') {
                requested(args) == Err::<(Mode, Seq<char>, nat), Seq<char>>("missing user prompt"@)
            } else {
                &&& says_number(args, h, "--hits"@, usize::MAX as nat, hits) ==> requested(args)
                    == Ok::<(Mode, Seq<char>, nat), Seq<char>>((mode, prompt, hits))
                &&& !stands(args, "--hits"@) ==> requested(args) == Ok::<
                    (Mode, Seq<char>, nat),
                    Seq<char>,
                >((mode, prompt, 1000))
                &&& says_nothing(args, h, "--hits"@, usize::MAX as nat) ==> requested(args)
                    == Err::<(Mode, Seq<char>, nat), Seq<char>>(
                    "invalid --hits: "@ + text::read_number(
                        args[h + 1],
                        usize::MAX as nat,
                    )->Err_0.text(),
                )
            }
        },
{
    lemma_mode_position(args, i);
    lemma_flag_value(args, "--hits"@, h);
    if says_number(args, h, "--hits"@, usize::MAX as nat, hits) {
        lemma_numeral_is_read(args[h + 1], hits, usize::MAX as nat);
    }
    let thousand = "1000"@;
    reveal_strlit("1000");
    assert(thousand.drop_last().drop_last().drop_last().drop_last() =~= Seq::<char>::empty());
    reveal_with_fuel(text::digits_value, 5);
    assert(text::digits_value(thousand) == 1000);
    text::lemma_read_number(thousand, usize::MAX as nat);
}

} // verus!
