use std::sync::Arc;

use lsm_block::{Block, BlockBuilder, BlockIterator};

fn build_block(block_size: usize, entries: &[(&[u8], &[u8])]) -> Block {
    let mut builder = BlockBuilder::new(block_size);
    for (key, value) in entries {
        assert!(builder.add(key, value), "entry unexpectedly rejected");
    }
    builder.build()
}

fn collect_entries(block: Arc<Block>) -> Vec<(Vec<u8>, Vec<u8>)> {
    let mut out = Vec::new();
    let mut it = BlockIterator::create_and_seek_to_first(block);
    while it.is_valid() {
        out.push((it.key().to_vec(), it.value().to_vec()));
        it.next();
    }
    out
}

#[test]
fn single_entry_layout() {
    let block = build_block(4096, &[(b"a", b"1")]);
    // [key_len][key][value_len][value] with big-endian 16-bit lengths.
    assert_eq!(block.data, vec![0, 1, b'a', 0, 1, b'1']);
    assert_eq!(block.offsets, vec![0]);
}

#[test]
fn concrete_scenario_budget_24() {
    let mut builder = BlockBuilder::new(24);
    assert!(builder.add(b"a", b"1"));
    // current size 2 + 2 + 6 = 10; cost of ("bb", "22") is 2 + 2 + 6 = 10.
    assert!(builder.add(b"bb", b"22"));
    let block = builder.build();
    let encoded = block.encode();
    assert_eq!(encoded.len(), block.data.len() + block.offsets.len() * 2 + 2);
    let decoded = Block::decode(&encoded);
    assert_eq!(decoded.offsets, vec![0, 6]);
    let entries = collect_entries(Arc::new(decoded));
    assert_eq!(
        entries,
        vec![(b"a".to_vec(), b"1".to_vec()), (b"bb".to_vec(), b"22".to_vec())]
    );
}

#[test]
fn round_trip_reproduces_data_and_offsets() {
    let block = build_block(
        4096,
        &[(b"ant", b"one"), (b"bee", b"two"), (b"cat", b"three"), (b"dog", b"")],
    );
    let encoded = block.encode();
    let decoded = Block::decode(&encoded);
    assert_eq!(decoded.data, block.data);
    assert_eq!(decoded.offsets, block.offsets);
}

#[test]
fn round_trip_with_long_entries_and_many_offsets() {
    // Keys and values long enough that offsets and length fields need the
    // high byte of their 16-bit encoding.
    let long_key = vec![b'k'; 300];
    let long_value = vec![b'v'; 700];
    let mut builder = BlockBuilder::new(1 << 20);
    assert!(builder.add(b"a", &long_value));
    assert!(builder.add(&long_key, b"x"));
    assert!(builder.add(&long_key[..299], &long_value));
    let block = builder.build();
    assert!(block.data.len() > 256);
    let encoded = block.encode();
    let decoded = Block::decode(&encoded);
    assert_eq!(decoded.data, block.data);
    assert_eq!(decoded.offsets, block.offsets);
}

#[test]
fn empty_block_round_trip() {
    let builder = BlockBuilder::new(64);
    assert!(builder.is_empty());
    let block = builder.build();
    let encoded = block.encode();
    assert_eq!(encoded, vec![0, 0]);
    let decoded = Block::decode(&encoded);
    assert!(decoded.data.is_empty());
    assert!(decoded.offsets.is_empty());
}

#[test]
fn iteration_preserves_insertion_order() {
    let entries: Vec<(&[u8], &[u8])> = vec![
        (b"apple", b"red"),
        (b"banana", b"yellow"),
        (b"cherry", b"dark"),
        (b"date", b"brown"),
        (b"elder", b"black"),
    ];
    let block = build_block(4096, &entries);
    let scanned = collect_entries(Arc::new(block));
    let expected: Vec<(Vec<u8>, Vec<u8>)> = entries
        .iter()
        .map(|(k, v)| (k.to_vec(), v.to_vec()))
        .collect();
    assert_eq!(scanned, expected);
}

#[test]
fn first_oversized_entry_always_accepted() {
    let mut builder = BlockBuilder::new(10);
    assert!(builder.is_empty());
    // Costs 4 + 20 + 6 = 30 bytes against a budget of 10: accepted anyway.
    assert!(builder.add(b"huge", &[7u8; 20]));
    assert!(!builder.is_empty());
    let block = builder.build();
    assert_eq!(block.offsets.len(), 1);
    let entries = collect_entries(Arc::new(block));
    assert_eq!(entries, vec![(b"huge".to_vec(), vec![7u8; 20])]);
}

#[test]
fn overflowing_second_entry_rejected_and_state_kept() {
    let mut builder = BlockBuilder::new(10);
    assert!(builder.add(b"huge", &[7u8; 20]));
    // Any further entry overflows the budget.
    assert!(!builder.add(b"k", b"v"));
    assert!(!builder.is_empty());
    let block = builder.build();
    assert_eq!(block.offsets, vec![0]);
    let entries = collect_entries(Arc::new(block));
    assert_eq!(entries, vec![(b"huge".to_vec(), vec![7u8; 20])]);
}

#[test]
fn budget_boundary_exact_fit() {
    // Second entry lands exactly on the budget: 10 + 10 <= 20 accepted,
    // a third identical one (20 + 10 > 20) is not.
    let mut builder = BlockBuilder::new(20);
    assert!(builder.add(b"a", b"1"));
    assert!(builder.add(b"b", b"2"));
    assert!(!builder.add(b"c", b"3"));
    let block = builder.build();
    assert_eq!(block.offsets, vec![0, 6]);
}

#[test]
fn seek_lands_on_exact_key() {
    let block = Arc::new(build_block(
        4096,
        &[(b"b", b"1"), (b"d", b"2"), (b"f", b"3")],
    ));
    let it = BlockIterator::create_and_seek_to_key(Arc::clone(&block), b"d");
    assert!(it.is_valid());
    assert_eq!(it.key(), b"d");
    assert_eq!(it.value(), b"2");
}

#[test]
fn seek_lands_on_next_greater_key() {
    let block = Arc::new(build_block(
        4096,
        &[(b"b", b"1"), (b"d", b"2"), (b"f", b"3")],
    ));
    let it = BlockIterator::create_and_seek_to_key(Arc::clone(&block), b"c");
    assert!(it.is_valid());
    assert_eq!(it.key(), b"d");
    let it = BlockIterator::create_and_seek_to_key(Arc::clone(&block), b"a");
    assert!(it.is_valid());
    assert_eq!(it.key(), b"b");
    // A proper prefix of a stored key sorts before it.
    let it = BlockIterator::create_and_seek_to_key(block, b"");
    assert!(it.is_valid());
    assert_eq!(it.key(), b"b");
}

#[test]
fn seek_past_last_key_is_invalid() {
    let block = Arc::new(build_block(
        4096,
        &[(b"b", b"1"), (b"d", b"2"), (b"f", b"3")],
    ));
    let it = BlockIterator::create_and_seek_to_key(block, b"g");
    assert!(!it.is_valid());
}

#[test]
fn seek_again_after_iteration() {
    let block = Arc::new(build_block(4096, &[(b"b", b"1"), (b"d", b"2")]));
    let mut it = BlockIterator::create_and_seek_to_first(block);
    it.next();
    it.next();
    assert!(!it.is_valid());
    it.seek_to_key(b"b");
    assert!(it.is_valid());
    assert_eq!(it.key(), b"b");
    it.seek_to_first();
    assert_eq!(it.key(), b"b");
}

#[test]
fn invalidity_is_terminal() {
    let block = Arc::new(build_block(4096, &[(b"a", b"1"), (b"b", b"2")]));
    let mut it = BlockIterator::create_and_seek_to_first(block);
    it.next();
    assert!(it.is_valid());
    it.next();
    assert!(!it.is_valid());
    for _ in 0..5 {
        it.next();
        assert!(!it.is_valid());
    }
}

#[test]
fn many_iterators_share_one_block() {
    let block = Arc::new(build_block(4096, &[(b"a", b"1"), (b"b", b"2")]));
    let first = BlockIterator::create_and_seek_to_first(Arc::clone(&block));
    let mut second = BlockIterator::create_and_seek_to_first(Arc::clone(&block));
    second.next();
    assert_eq!(first.key(), b"a");
    assert_eq!(second.key(), b"b");
}

#[test]
fn probe_count_stays_within_logarithmic_bound() {
    // ceil(log2(n + 1)) for n entries.
    let cases: Vec<(usize, usize)> = vec![(1, 1), (2, 2), (3, 2), (7, 3), (20, 5)];
    for (n, bound) in cases {
        let entries: Vec<(Vec<u8>, Vec<u8>)> = (0..n)
            .map(|i| {
                (
                    vec![b'a', (i / 256) as u8, (i % 256) as u8],
                    vec![b'v', i as u8],
                )
            })
            .collect();
        let borrowed: Vec<(&[u8], &[u8])> = entries
            .iter()
            .map(|(k, v)| (k.as_slice(), v.as_slice()))
            .collect();
        let block = Arc::new(build_block(1 << 20, &borrowed));
        for (target, _) in &entries {
            let mut it = BlockIterator::create_and_seek_to_first(Arc::clone(&block));
            let probes = it.seek_to_key_probed(target);
            assert!(it.is_valid());
            assert_eq!(it.key(), target.as_slice());
            assert!(probes <= bound, "{} probes over {} entries", probes, n);
        }
        let mut it = BlockIterator::create_and_seek_to_first(Arc::clone(&block));
        let probes = it.seek_to_key_probed(b"zzz");
        assert!(!it.is_valid());
        assert!(probes <= bound);
    }
}

#[test]
fn values_may_be_empty() {
    let block = Arc::new(build_block(4096, &[(b"k", b"")]));
    let it = BlockIterator::create_and_seek_to_first(block);
    assert!(it.is_valid());
    assert_eq!(it.value(), b"");
}
