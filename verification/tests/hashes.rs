use cache_aware_routing::hash::{
    combine_cumulative, cumulative_hashes_from_blocks, fnv1a64, hash_block, make_synthetic_chain,
    prompt_to_block_hashes, prompt_to_cumulative_hashes, tokenize, BLOCK_SIZE,
};

fn strings(texts: &[&str]) -> Vec<String> {
    texts.iter().map(|text| text.to_string()).collect()
}

#[test]
fn fnv1a_gives_the_published_values() {
    assert_eq!(fnv1a64(b""), 0xcbf29ce484222325);
    assert_eq!(fnv1a64(b"a"), 0xaf63dc4c8601ec8c);
    assert_eq!(fnv1a64(b"foobar"), 0x85944171f73967e8);
}

#[test]
fn block_hash_ends_each_token() {
    assert_eq!(hash_block(&strings(&["the", "cat"])), 0x97af862de058b3bc);
    assert_eq!(hash_block(&strings(&["thecat"])), 0x2cba8459b5ee90fd);
    assert_eq!(hash_block(&strings(&[])), 0xcbf29ce484222325);
    assert_eq!(
        hash_block(&strings(&["the", "cat"])),
        fnv1a64(b"the\xffcat\xff")
    );
    assert_ne!(
        hash_block(&strings(&["a", "bc"])),
        hash_block(&strings(&["ab", "c"]))
    );
}

#[test]
fn cumulative_hash_takes_both_numbers_in_little_endian() {
    assert_eq!(combine_cumulative(0, 0), 0x88201fb960ff6465);
    assert_eq!(combine_cumulative(1, 2), 0x7717980363c8e066);
    let mut bytes = Vec::new();
    bytes.extend_from_slice(&0x0123456789abcdefu64.to_le_bytes());
    bytes.extend_from_slice(&0xfedcba9876543210u64.to_le_bytes());
    assert_eq!(
        combine_cumulative(0x0123456789abcdef, 0xfedcba9876543210),
        fnv1a64(&bytes)
    );
    assert_ne!(combine_cumulative(1, 2), combine_cumulative(2, 1));
}

#[test]
fn prompt_has_a_hash_for_each_block() {
    let chain = prompt_to_cumulative_hashes("the cat sat on the table near the window");
    assert_eq!(
        chain,
        vec![0xceeacebb8adbb606, 0x35ffd70559cd0602, 0xbf3cb1cd56c0f861]
    );
    assert!(prompt_to_cumulative_hashes("").is_empty());
    assert!(prompt_to_cumulative_hashes(" \t\n ").is_empty());
    assert_eq!(prompt_to_cumulative_hashes("one").len(), 1);
    assert_eq!(prompt_to_cumulative_hashes("a b c d").len(), 1);
    assert_eq!(prompt_to_cumulative_hashes("a b c d e").len(), 2);
    assert_eq!(BLOCK_SIZE, 4);
}

#[test]
fn block_hashes_stand_by_themselves() {
    let hashes = prompt_to_block_hashes("a b c d a b c d e");
    assert_eq!(hashes.len(), 3);
    assert_eq!(hashes[0], hashes[1]);
    assert_eq!(hashes[2], hash_block(&strings(&["e"])));

    let cumulative = cumulative_hashes_from_blocks(&hashes);
    assert_eq!(cumulative[0], combine_cumulative(0, hashes[0]));
    assert_eq!(cumulative[1], combine_cumulative(cumulative[0], hashes[1]));
    assert_eq!(cumulative[2], combine_cumulative(cumulative[1], hashes[2]));
    assert_ne!(cumulative[0], cumulative[1]);
    assert!(cumulative_hashes_from_blocks(&[]).is_empty());
}

#[test]
fn prompts_with_the_same_first_blocks_share_their_hashes() {
    let a = prompt_to_cumulative_hashes("the cat sat on the table near the window");
    let b = prompt_to_cumulative_hashes("the  cat\tsat on\nthe table near the door and left");
    assert_eq!(a[..2], b[..2]);
    assert_ne!(a[2], b[2]);

    let c = prompt_to_cumulative_hashes("a cat sat on the table near the window");
    assert_ne!(a[0], c[0]);
    assert_ne!(a[1], c[1]);
    assert_ne!(a[2], c[2]);
}

#[test]
fn longer_prompt_keeps_the_hashes_of_whole_blocks() {
    let short = prompt_to_cumulative_hashes("a b c d e f g h");
    let long = prompt_to_cumulative_hashes("a b c d e f g h\u{3000}i j");
    assert_eq!(short.len(), 2);
    assert_eq!(long.len(), 3);
    assert_eq!(long[..2], short[..]);
}

#[test]
fn synthetic_chains_are_fixed() {
    assert_eq!(
        make_synthetic_chain(0, 3),
        vec![0x5816e1a6655be586, 0xb32b2e7e5927c664, 0xbe67701e4572ab72]
    );
    assert_eq!(
        make_synthetic_chain(7, 2),
        vec![0x9b6311c2e0e57055, 0xbe87a92bc13a8751]
    );
    assert!(make_synthetic_chain(0, 0).is_empty());
    let long = make_synthetic_chain(12345678901234567890, 20);
    assert_eq!(make_synthetic_chain(12345678901234567890, 11), long[..11]);
}

#[test]
fn synthetic_chain_hashes_its_labels() {
    let mut prev = 0xcbf29ce484222325;
    for (i, hash) in make_synthetic_chain(u64::MAX, 12).into_iter().enumerate() {
        let local = fnv1a64(format!("chain={}:block={i}", u64::MAX).as_bytes());
        prev = combine_cumulative(prev, local);
        assert_eq!(hash, prev);
    }
}

#[test]
fn tokenize_splits_at_any_white_space() {
    for prompt in [
        "",
        " ",
        "one",
        "  lead and trail  ",
        "tabs\tand\nlines\r\nand\u{b}more\u{c}",
        "wide\u{3000}space\u{a0}and\u{2003}others\u{85}too",
        "zero\u{200b}width is no space",
        "naïve çà et là 日本 語 🦀 🦀",
    ] {
        let expected: Vec<String> = prompt.split_whitespace().map(|t| t.to_string()).collect();
        assert_eq!(tokenize(prompt), expected);
    }
}

#[test]
fn different_prompts_can_collide() {
    let a = "8yn0iYCKYHlIj4-BwPqk";
    let b = "GReLUrM4wMqfg9yzV3KQ";
    assert_eq!(fnv1a64(a.as_bytes()), fnv1a64(b.as_bytes()));
    assert_eq!(prompt_to_cumulative_hashes(a), prompt_to_cumulative_hashes(b));
}
