# Cache-aware routing

A router for inference requests that knows which pod already holds the longest prefix of a prompt,
with a benchmark of its query path. The library is written in Verus: what each function returns is
stated in its contract and proved.

## How it works

1. A prompt is cut into tokens at white space, the tokens into blocks of four, and each block is
   hashed. The hash under which a block is cached is cumulative: it covers the whole prefix up to
   the block, so a match means that the pod can reuse that whole prefix.
2. `HostBitmap` is a set of up to 256 pods in four words. To intersect the owners of a block with
   the living pods takes four operations.
3. The index maps a block hash to the pods that hold the block. It has 256 shards, and Fibonacci
   hashing picks the shard of a hash. A pod that shuts down is masked on reading; its entries can
   be cleaned up later.
4. A query bisects the chain of hashes for whole groups of pods at once, with one lookup for each
   group. A naive scan is there to hold it against.
5. A request goes through five phases: prepare, filter, score, pick, execute.

## Layout

- `src/` is the verified library.
  - `bitmap`, `shard`, `indexer`: pod sets and the index.
  - `hash`, `text`: tokens, hashes, numbers.
  - `search`: grouped bisection, on an index that stands still or on one that others update.
  - `routing`, `types`, `cli`: the phases of a request, and the command line.
  - `bench_part2`, `workload`, `metrics`: what the benchmarks build, query, count and sum up.
  - `laws`: what holds of the index and of its queries over several calls.
- `tests/` runs the library.
- `app/` is the program around it: arguments, clocks, threads, locks, floating point and printing.

## What is trusted

The proofs rest on what the Verus standard library says of Rust's, and on two contracts more:
`String::push` appends a character, and `slice::sort_unstable` sorts.

## Running the program

```text
--single "the cat sat on the table" --hits 1000
--disaggregated "the cat sat on the table" --hits 1000
bench-part2-query --iterations 100000 --pods 64 --blocks 32 --dropoffs 4
bench-part2-compare --iterations 100000 --pods 64 --blocks 32 --dropoffs 4
bench-part2-shards --chains 10000 --blocks-per-chain 64
bench-part2-concurrency --readers 8 --writers 2 --duration-secs 10 --pods 64 --blocks 32
```
