use aresadb::distributed::bloom::{BloomFilter, CountingBloomFilter};
use aresadb::distributed::compression::{CompressionError, Compressor, StreamingCompressor};
use aresadb::distributed::replication::{
    ConsensusMessage, LogEntry, ReplicaConfig, ReplicaSet, ReplicaState, ReplicationCommand,
};
use aresadb::distributed::shard::{
    collect_limited, shard_directory, ConsistentHashRing, ShardConfig, ShardManager, ShardStats,
    SingleShardStats,
};
use aresadb::distributed::streaming::{
    collect_results, BatchStep, BatchedStream, Cursor, NextStep, Received, ResultStream,
};
use aresadb::distributed::wal::{WalEntry, WalEntryType, WalError, WriteAheadLog};
use aresadb::storage::{EdgeId, NodeId, Timestamp};

fn bits_for(items: usize, rate: f64) -> usize {
    let ln2 = 2.0f64.ln();
    (-(items as f64) * rate.ln() / (ln2 * ln2)).ceil() as usize
}

fn hashes_for(bits: usize, items: usize) -> u32 {
    ((bits as f64 / items as f64) * 2.0f64.ln()).max(1.0).ceil() as u32
}

fn bloom(items: usize, rate: f64) -> BloomFilter {
    let bits = bits_for(items, rate);
    BloomFilter::with_params(bits, hashes_for(bits, items))
}

fn counting(items: usize, rate: f64) -> CountingBloomFilter {
    let bits = bits_for(items, rate);
    CountingBloomFilter::with_params(bits, hashes_for(bits, items))
}

#[test]
fn test_bloom_basic_operations() {
    let mut filter = bloom(1000, 0.01);

    filter.insert(b"apple");
    filter.insert(b"banana");
    filter.insert(b"cherry");

    assert!(filter.may_contain(b"apple"));
    assert!(filter.may_contain(b"banana"));
    assert!(filter.may_contain(b"cherry"));
    assert_eq!(filter.count(), 3);
}

#[test]
fn test_bloom_false_positive_rate() {
    let mut filter = bloom(10000, 0.01);

    for i in 0_u64..10000 {
        filter.insert(&i.to_le_bytes());
    }

    let mut false_positives = 0;
    for i in 10000_u64..20000 {
        if filter.may_contain(&i.to_le_bytes()) {
            false_positives += 1;
        }
    }

    let fpp = false_positives as f64 / 10000.0;
    assert!(fpp < 0.02, "FPP too high: {}", fpp);
}

#[test]
fn test_bloom_serialization() {
    let mut filter = bloom(1000, 0.01);
    filter.insert(b"test");
    filter.insert(b"data");

    let bytes = filter.to_bytes();
    let restored = BloomFilter::from_bytes(&bytes).unwrap();

    assert!(restored.may_contain(b"test"));
    assert!(restored.may_contain(b"data"));
    assert_eq!(restored.count(), 2);
}

#[test]
fn test_bloom_merge() {
    let mut filter1 = bloom(1000, 0.01);
    filter1.insert(b"a");
    filter1.insert(b"b");

    let mut filter2 = bloom(1000, 0.01);
    filter2.insert(b"c");
    filter2.insert(b"d");

    filter1.merge(&filter2);

    assert!(filter1.may_contain(b"a"));
    assert!(filter1.may_contain(b"b"));
    assert!(filter1.may_contain(b"c"));
    assert!(filter1.may_contain(b"d"));
}

#[test]
fn test_counting_bloom_basic() {
    let mut filter = counting(1000, 0.01);

    filter.insert(b"apple");
    filter.insert(b"banana");

    assert!(filter.may_contain(b"apple"));
    assert!(filter.may_contain(b"banana"));

    assert!(filter.remove(b"apple"));
    assert!(!filter.may_contain(b"apple"));
    assert!(filter.may_contain(b"banana"));
}

#[test]
fn test_counting_bloom_multiple_inserts() {
    let mut filter = counting(1000, 0.01);

    filter.insert(b"test");
    filter.insert(b"test");
    filter.insert(b"test");

    assert!(filter.may_contain(b"test"));

    filter.remove(b"test");
    assert!(filter.may_contain(b"test"));

    filter.remove(b"test");
    assert!(filter.may_contain(b"test"));

    filter.remove(b"test");
    assert!(!filter.may_contain(b"test"));
}

#[test]
fn counters_stay_at_their_limit() {
    let mut filter = CountingBloomFilter::with_params(40, 3);
    for n in 1..=20u8 {
        filter.increment_counter(17);
        assert_eq!(filter.get_counter(17), n.min(15));
    }
    assert!((0..40).all(|c| c == 17 || filter.get_counter(c) == 0));
    assert_eq!(filter.count(), 0);
}

#[test]
fn test_bloom_filter_basic() {
    let mut filter = bloom(1000, 0.01);
    filter.insert(b"hello");
    filter.insert(b"world");

    assert!(filter.may_contain(b"hello"));
    assert!(filter.may_contain(b"world"));
}

#[test]
fn test_bloom_filter_accuracy() {
    let mut filter = bloom(10000, 0.01);

    for i in 0..5000 {
        filter.insert(format!("item_{}", i).as_bytes());
    }

    for i in 0..5000 {
        assert!(filter.may_contain(format!("item_{}", i).as_bytes()));
    }

    let mut false_positives = 0;
    for i in 5000..10000 {
        if filter.may_contain(format!("item_{}", i).as_bytes()) {
            false_positives += 1;
        }
    }

    let fpp = false_positives as f64 / 5000.0;
    assert!(fpp < 0.03, "FPP too high: {:.2}%", fpp * 100.0);
}

#[test]
fn test_bloom_filter_serialization() {
    let mut filter = bloom(1000, 0.01);
    for i in 0..100 {
        filter.insert(format!("key_{}", i).as_bytes());
    }

    let bytes = filter.to_bytes();
    let restored = BloomFilter::from_bytes(&bytes).unwrap();

    for i in 0..100 {
        assert!(restored.may_contain(format!("key_{}", i).as_bytes()));
    }
}

#[test]
fn test_bloom_filter_clear() {
    let mut filter = bloom(100, 0.01);
    filter.insert(b"test");
    assert!(filter.may_contain(b"test"));

    filter.clear();
    assert!(!filter.may_contain(b"test"));
}

#[test]
fn test_bloom_filter_bulk_operations() {
    let count = 100_000_usize;
    let mut filter = bloom(count, 0.01);

    for i in 0..count as u64 {
        filter.insert(&i.to_le_bytes());
    }
    for i in 0..count as u64 {
        assert!(filter.may_contain(&i.to_le_bytes()));
    }
}

#[test]
fn an_empty_filter_holds_nothing() {
    let filter = BloomFilter::with_params(128, 3);
    assert!(!filter.may_contain(b"anything"));
    assert_eq!(filter.count(), 0);
    assert_eq!(filter.num_bits(), 128);
    assert_eq!(filter.num_hashes(), 3);
    assert_eq!(filter.memory_usage(), 16);
}

#[test]
fn a_filter_tells_items_apart() {
    let mut filter = BloomFilter::with_params(4096, 4);
    filter.insert(b"one");
    let others = (0..50).filter(|i| filter.may_contain(format!("other {}", i).as_bytes())).count();
    assert!(others < 5);
}

#[test]
fn a_filter_image_that_is_cut_is_refused() {
    let mut filter = BloomFilter::with_params(64, 2);
    filter.insert(b"x");
    let bytes = filter.to_bytes();
    assert_eq!(bytes.len(), 12 + 8);
    assert!(BloomFilter::from_bytes(&bytes[..bytes.len() - 1]).is_none());
    assert!(BloomFilter::from_bytes(&bytes[..10]).is_none());
}

#[test]
fn removing_what_was_never_inserted_changes_nothing() {
    let mut filter = CountingBloomFilter::with_params(4096, 3);
    filter.insert(b"kept");
    assert!(!filter.remove(b"absent"));
    assert!(filter.may_contain(b"kept"));
    assert_eq!(filter.count(), 1);
}

#[test]
fn test_compress_decompress_small() {
    let compressor = Compressor::new();
    let data = b"hello";

    let compressed = compressor.compress(data);
    let decompressed = compressor.decompress(&compressed).unwrap();

    assert_eq!(data.as_slice(), decompressed.as_slice());
    assert_eq!(compressed[0], 0x00);
}

#[test]
fn test_compress_decompress_large() {
    let compressor = Compressor::new();
    let data: Vec<u8> = (0..1000).map(|i| (i % 256) as u8).collect();

    let compressed = compressor.compress(&data);
    let decompressed = compressor.decompress(&compressed).unwrap();

    assert_eq!(data, decompressed);
    assert_eq!(compressed[0], 0x01);
    assert!(compressed.len() < data.len());
}

#[test]
fn test_compression_stats() {
    let compressor = Compressor::new();
    let data = vec![0u8; 1000];

    let (compressed, stats) = compressor.compress_with_stats(&data);

    assert!(stats.was_compressed);
    let ratio = stats.original_size as f64 / stats.compressed_size as f64;
    assert!(ratio > 1.0);
    let savings = (1.0 - stats.compressed_size as f64 / stats.original_size as f64) * 100.0;
    assert!(savings > 50.0);

    let decompressed = compressor.decompress(&compressed).unwrap();
    assert_eq!(data, decompressed);
}

#[test]
fn test_compress_empty() {
    let compressor = Compressor::new();

    let compressed = compressor.compress(&[]);
    let decompressed = compressor.decompress(&compressed).unwrap();

    assert!(decompressed.is_empty());
}

#[test]
fn test_compress_batch() {
    let compressor = Compressor::new();

    let chunks: Vec<Vec<u8>> = vec![vec![1, 2, 3, 4, 5], (0..100).collect(), vec![0; 500]];

    let chunk_refs: Vec<&[u8]> = chunks.iter().map(|c| c.as_slice()).collect();
    let compressed = compressor.compress_batch(&chunk_refs);

    let compressed_refs: Vec<&[u8]> = compressed.iter().map(|c| c.as_slice()).collect();
    let decompressed = compressor.decompress_batch(&compressed_refs).unwrap();

    assert_eq!(chunks, decompressed);
}

#[test]
fn test_streaming_compressor() {
    let streaming = StreamingCompressor::new(100);

    let data: Vec<u8> = (0..1000).map(|i| (i % 256) as u8).collect();

    let compressed: Vec<Vec<u8>> = streaming.compress_stream(&data);
    let refs: Vec<&[u8]> = compressed.iter().map(|c| c.as_slice()).collect();

    let decompressed: Vec<u8> = streaming
        .decompress_stream(&refs)
        .into_iter()
        .flat_map(|r| r.unwrap())
        .collect();

    assert_eq!(compressed.len(), 10);
    assert_eq!(data, decompressed);
}

#[test]
fn test_compression_with_random_data() {
    let compressor = Compressor::new();
    let mut state = 0x2545_f491_4f6c_dd1du64;
    let data: Vec<u8> = (0..1000)
        .map(|_| {
            state ^= state << 13;
            state ^= state >> 7;
            state ^= state << 17;
            (state >> 32) as u8
        })
        .collect();

    let compressed = compressor.compress(&data);
    let decompressed = compressor.decompress(&compressed).unwrap();

    assert_eq!(data, decompressed);
}

#[test]
fn mod_test_compression_roundtrip() {
    let compressor = Compressor::new();
    let data = b"Hello, AresaDB! This is a test of compression.";

    let compressed = compressor.compress(data);
    let decompressed = compressor.decompress(&compressed).unwrap();

    assert_eq!(data.as_slice(), decompressed.as_slice());
}

#[test]
fn integration_tests_test_compression_roundtrip() {
    let compressor = Compressor::new();

    let test_cases: Vec<(&str, Vec<u8>)> = vec![
        ("empty", vec![]),
        ("small", b"hello".to_vec()),
        ("repetitive", vec![0u8; 1000]),
        (
            "random-ish",
            (0..1000).map(|i| (i * 17 % 256) as u8).collect(),
        ),
        (
            "text",
            b"The quick brown fox jumps over the lazy dog".repeat(20),
        ),
    ];

    for (name, data) in test_cases {
        let compressed = compressor.compress(&data);
        let decompressed = compressor.decompress(&compressed).unwrap();
        assert_eq!(data, decompressed, "Failed for case: {}", name);
    }
}

#[test]
fn test_compression_efficiency() {
    let compressor = Compressor::new();

    let data = vec![0u8; 10000];
    let (compressed, stats) = compressor.compress_with_stats(&data);

    assert!(stats.original_size as f64 / stats.compressed_size as f64 > 1.0);
    assert!(compressed.len() < data.len());
}

#[test]
fn test_compression_performance() {
    let compressor = Compressor::default();

    let data: Vec<u8> = (0..100_000_u32).flat_map(|i| i.to_le_bytes()).collect();

    let compressed = compressor.compress(&data);
    let decompressed = compressor.decompress(&compressed).unwrap();

    assert_eq!(data, decompressed);
}

#[test]
fn damaged_blocks_are_refused() {
    let compressor = Compressor::new();
    match compressor.decompress(&[7, 1, 2]) {
        Err(CompressionError::InvalidMarker(b)) => {
            assert_eq!(b, 7);
            assert_eq!(CompressionError::InvalidMarker(b).message(), "Invalid compression marker: 7");
        }
        _ => panic!("Expected an invalid marker"),
    }
    match compressor.decompress(&[1, 9, 0, 0, 0, 0xff]) {
        Err(CompressionError::Corrupt) => {
            assert_eq!(CompressionError::Corrupt.message(), "Failed to decompress data");
        }
        _ => panic!("Expected a corrupt block"),
    }
    assert!(compressor.decompress(&[]).unwrap().is_empty());
}

#[test]
fn data_below_the_threshold_is_kept() {
    let compressor = Compressor::with_min_size(10);
    assert_eq!(compressor.compress(&[5; 9]), vec![0, 5, 5, 5, 5, 5, 5, 5, 5, 5]);
    assert_eq!(compressor.compress(&[5; 10])[0], 1);
}

#[test]
fn test_replica_creation() {
    let config = ReplicaConfig::default();
    let replica = ReplicaSet::new(config, 0);

    assert_eq!(replica.state(), ReplicaState::Follower);
    assert_eq!(replica.term(), 0);
    assert!(!replica.is_leader());
}

#[test]
fn test_start_election() {
    let config = ReplicaConfig::default();
    let mut replica = ReplicaSet::new(config, 0);

    let msg = replica.start_election();

    assert_eq!(replica.state(), ReplicaState::Candidate);
    assert_eq!(replica.term(), 1);

    match msg {
        ConsensusMessage::RequestVote { term, .. } => {
            assert_eq!(term, 1);
        }
        _ => panic!("Expected RequestVote message"),
    }
}

#[test]
fn test_become_leader() {
    let config = ReplicaConfig {
        peers: vec!["peer1".to_string(), "peer2".to_string()],
        ..Default::default()
    };
    let mut replica = ReplicaSet::new(config, 0);

    replica.become_leader();

    assert_eq!(replica.state(), ReplicaState::Leader);
    assert!(replica.is_leader());
    assert_eq!(replica.leader(), Some(replica.node_id().to_string()));
}

#[test]
fn test_append_command() {
    let config = ReplicaConfig::default();
    let mut replica = ReplicaSet::new(config, 0);

    assert!(replica.append_command(ReplicationCommand::Nop).is_err());

    replica.become_leader();
    let index = replica.append_command(ReplicationCommand::Nop).ok().unwrap();
    assert_eq!(index, 1);
}

#[test]
fn test_vote_request() {
    let config = ReplicaConfig::default();
    let mut replica = ReplicaSet::new(config, 0);

    let response = replica.process_message(
        ConsensusMessage::RequestVote {
            term: 1,
            candidate_id: "other".to_string(),
            last_log_index: 0,
            last_log_term: 0,
        },
        5,
    );

    match response {
        Some(ConsensusMessage::VoteResponse { term, vote_granted }) => {
            assert_eq!(term, 1);
            assert!(vote_granted);
        }
        _ => panic!("Expected VoteResponse"),
    }
}

#[test]
fn test_heartbeat() {
    let config = ReplicaConfig::default();
    let mut replica = ReplicaSet::new(config, 0);
    replica.become_leader();

    let heartbeat = replica.create_heartbeat();

    match heartbeat {
        ConsensusMessage::AppendEntries { entries, .. } => {
            assert!(entries.is_empty());
        }
        _ => panic!("Expected AppendEntries"),
    }
}

#[test]
fn a_replica_votes_once_in_a_term() {
    let mut replica = ReplicaSet::new(ReplicaConfig::default(), 0);
    let ask = |who: &str, term: u64| ConsensusMessage::RequestVote {
        term,
        candidate_id: who.to_string(),
        last_log_index: 0,
        last_log_term: 0,
    };
    let granted = |m: Option<ConsensusMessage>| match m {
        Some(ConsensusMessage::VoteResponse { vote_granted, .. }) => vote_granted,
        _ => panic!("Expected VoteResponse"),
    };
    assert!(granted(replica.process_message(ask("a", 4), 1)));
    assert!(!granted(replica.process_message(ask("b", 4), 2)));
    assert!(granted(replica.process_message(ask("a", 4), 3)));
    assert!(!granted(replica.process_message(ask("c", 3), 4)));
    assert!(granted(replica.process_message(ask("b", 5), 5)));
    assert_eq!(replica.term(), 5);
}

#[test]
fn entries_are_appended_committed_and_applied() {
    let mut replica = ReplicaSet::new(ReplicaConfig::default(), 0);
    let entry = |index: u64| LogEntry {
        term: 1,
        index,
        command: ReplicationCommand::InsertNode(vec![index as u8]),
    };
    let answer = replica.process_message(
        ConsensusMessage::AppendEntries {
            term: 1,
            leader_id: "leader".to_string(),
            prev_log_index: 0,
            prev_log_term: 0,
            entries: vec![entry(1), entry(2), entry(3)],
            leader_commit: 2,
        },
        10,
    );
    match answer {
        Some(ConsensusMessage::AppendResponse { term, success, match_index }) => {
            assert_eq!(term, 1);
            assert!(success);
            assert_eq!(match_index, 3);
        }
        _ => panic!("Expected AppendResponse"),
    }
    assert_eq!(replica.leader(), Some("leader".to_string()));
    let ready = replica.get_unapplied_entries();
    assert_eq!(ready.len(), 2);
    assert_eq!(ready[1].index, 2);
    replica.mark_applied(2);
    assert!(replica.get_unapplied_entries().is_empty());
}

#[test]
fn votes_go_to_logs_that_are_as_new() {
    let logged = || {
        let mut replica = ReplicaSet::new(ReplicaConfig::default(), 0);
        let entry = |index: u64| LogEntry { term: 2, index, command: ReplicationCommand::Nop };
        let entries = vec![entry(1), entry(2)];
        replica.handle_append_entries(2, "leader".to_string(), 0, 0, entries, 0, 1);
        replica
    };
    let ask = |term: u64, index: u64, last: u64| {
        let mut replica = logged();
        match replica.handle_request_vote(term, "a".to_string(), index, last, 5) {
            ConsensusMessage::VoteResponse { term, vote_granted } => {
                assert_eq!(replica.term(), term);
                (term, vote_granted)
            }
            _ => panic!("Expected VoteResponse"),
        }
    };
    assert_eq!(ask(1, 9, 9), (2, false));
    assert_eq!(ask(2, 2, 2), (2, true));
    assert_eq!(ask(3, 2, 2), (3, true));
    assert_eq!(ask(3, 1, 2), (3, false));
    assert_eq!(ask(3, 9, 1), (3, false));
    assert_eq!(ask(3, 0, 3), (3, true));
}

#[test]
fn entries_go_behind_the_end_of_a_log_that_fits() {
    let mut replica = ReplicaSet::new(ReplicaConfig::default(), 0);
    let entry = |index: u64| LogEntry { term: 1, index, command: ReplicationCommand::Nop };
    let mut offer = |term: u64, prev: u64, prev_term: u64, entries: Vec<LogEntry>| {
        let leader = "leader".to_string();
        match replica.handle_append_entries(term, leader, prev, prev_term, entries, 0, 3) {
            ConsensusMessage::AppendResponse { term, success, match_index } => {
                (term, success, match_index)
            }
            _ => panic!("Expected AppendResponse"),
        }
    };
    assert_eq!(offer(1, 0, 0, vec![entry(1), entry(2), entry(3)]), (1, true, 3));
    assert_eq!(offer(1, 1, 1, vec![entry(2), entry(3), entry(4)]), (1, true, 4));
    assert_eq!(offer(0, 4, 1, vec![entry(5)]), (1, false, 0));
    assert_eq!(offer(2, 7, 1, vec![entry(8)]), (2, false, 4));
    assert_eq!(offer(2, 4, 1, vec![]), (2, true, 4));
    assert_eq!(offer(2, 3, 2, vec![entry(4)]), (2, false, 2));
}

#[test]
fn answers_of_a_later_term_end_a_candidacy() {
    let mut replica = ReplicaSet::new(ReplicaConfig::default(), 0);
    replica.start_election();
    replica.handle_vote_response(1, true);
    assert_eq!(replica.state(), ReplicaState::Candidate);
    replica.handle_vote_response(4, false);
    assert_eq!(replica.state(), ReplicaState::Follower);
    assert_eq!(replica.term(), 4);
    replica.handle_append_response(6, true, 0);
    assert_eq!(replica.term(), 6);
}

#[test]
fn an_election_is_due_once_the_timeout_has_passed() {
    let replica = ReplicaSet::new(ReplicaConfig::default(), 1000);
    assert!(!replica.election_timeout_elapsed(1000));
    assert!(replica.election_timeout_elapsed(1000 + 100_000));
}

#[test]
fn test_consistent_hash_ring() {
    let mut ring = ConsistentHashRing::new(100);

    ring.add_node(0);
    ring.add_node(1);
    ring.add_node(2);

    let node1 = ring.get_node(b"test_key");
    let node2 = ring.get_node(b"test_key");
    assert_eq!(node1, node2);

    let mut distribution = [0usize; 3];
    for i in 0..1000 {
        let node = ring.get_node(format!("key_{}", i).as_bytes());
        distribution[node] += 1;
    }

    for &count in &distribution {
        assert!(count > 100, "Uneven distribution: {:?}", distribution);
    }
}

#[test]
fn a_node_that_leaves_gives_up_only_its_keys() {
    let mut ring = ConsistentHashRing::new(50);
    for n in 0..4 {
        ring.add_node(n);
    }
    let keys: Vec<String> = (0..200).map(|i| format!("k{}", i)).collect();
    let before: Vec<usize> = keys.iter().map(|k| ring.get_node(k.as_bytes())).collect();
    ring.remove_node(2);
    for (k, was) in keys.iter().zip(before.iter()) {
        let now = ring.get_node(k.as_bytes());
        assert!(now != 2);
        if *was != 2 {
            assert_eq!(now, *was);
        }
    }
}

#[test]
fn test_shard_key_determinism() {
    let shard1 = ShardManager::shard_for_key(b"test_key", 8);
    let shard2 = ShardManager::shard_for_key(b"test_key", 8);
    assert_eq!(shard1, shard2);
}

#[test]
fn integration_tests_test_shard_distribution() {
    let mut distribution = [0usize; 8];

    for i in 0..10000 {
        let key = format!("key_{}", i);
        let shard = ShardManager::shard_for_key(key.as_bytes(), 8) as usize;
        distribution[shard] += 1;
    }

    let avg = 10000 / 8;
    for (i, &count) in distribution.iter().enumerate() {
        assert!(
            count > avg / 2 && count < avg * 2,
            "Shard {} has uneven distribution: {} (expected ~{})",
            i,
            count,
            avg
        );
    }
}

#[test]
fn routed_nodes_are_found_in_their_shard() {
    let config = ShardConfig {
        num_shards: 4,
        virtual_nodes: 100,
        base_path: ".".to_string(),
    };
    let mut manager = ShardManager::new(config, 10_000, 4);
    let mut used = [0usize; 4];
    for _ in 0..100 {
        let id = NodeId::new();
        let shard = manager.insert_node(&id);
        used[shard] += 1;
        assert_eq!(manager.get_node(&id), Some(shard));
        assert_eq!(manager.get_shard_for_node(&id), shard);
        let edge = EdgeId::new();
        assert_eq!(manager.insert_edge(&id, &edge), shard);
    }
    assert_eq!(used.iter().sum::<usize>(), 100);
    for count in used {
        assert!(count > 0);
    }
    assert_eq!(manager.per_shard_limit(None), None);
}

#[test]
fn shards_are_named_and_counted() {
    assert_eq!(shard_directory(7), "shard_0007");
    assert_eq!(shard_directory(12345), "shard_12345");
    let mut all = vec![1, 2];
    assert!(collect_limited(&mut all, vec![3, 4, 5], Some(4)));
    assert_eq!(all, vec![1, 2, 3, 4]);
    let stats = ShardStats::combine(vec![
        SingleShardStats { id: 0, node_count: 3, edge_count: 1, size_bytes: 10 },
        SingleShardStats { id: 1, node_count: 4, edge_count: 0, size_bytes: 20 },
    ]);
    assert_eq!(stats.total_nodes, 7);
    assert_eq!(stats.total_edges, 1);
    assert_eq!(stats.total_size, 30);
}

fn drain<T, E>(stream: &mut ResultStream<T>, mut queue: Vec<Received<T, E>>) -> Vec<Result<T, E>> {
    let mut out = Vec::new();
    queue.reverse();
    loop {
        let item = match stream.start_next() {
            NextStep::Ready(t) => Some(Ok(t)),
            NextStep::Finished => None,
            NextStep::Receive => stream.finish_next(queue.pop().unwrap_or(Received::Closed)),
        };
        match item {
            Some(r) => out.push(r),
            None => return out,
        }
    }
}

#[test]
fn test_result_stream() {
    let mut stream: ResultStream<i32> = ResultStream::new();
    let queue: Vec<Received<i32, String>> = (0..5).map(Received::Item).collect();
    let results: Vec<i32> = drain(&mut stream, queue).into_iter().map(|r| r.unwrap()).collect();
    assert_eq!(results, vec![0, 1, 2, 3, 4]);
    assert!(stream.is_complete());
}

#[test]
fn test_stream_collect() {
    let mut stream: ResultStream<String> = ResultStream::new();
    stream.prefetch("a".to_string());
    let queue: Vec<Received<String, String>> = vec![
        Received::Item("b".to_string()),
        Received::Item("c".to_string()),
    ];
    let results = collect_results(drain(&mut stream, queue)).unwrap();
    assert_eq!(results, vec!["a", "b", "c"]);
}

#[test]
fn a_length_beyond_32_bits_is_corrupt() {
    let mut data = vec![1u8, 8, 0, 0, 0, 0xf0];
    data.resize(data.len() + 16_843_009, 255);
    data.push(7);
    let c = Compressor::new();
    assert!(matches!(c.decompress(&data), Err(CompressionError::Corrupt)));
    assert!(matches!(
        c.decompress_batch(&[data.as_slice()]),
        Err(CompressionError::Corrupt)
    ));
}

#[test]
fn a_long_run_among_the_literals_is_no_length() {
    let n: usize = 16_843_009;
    let mut data = vec![1u8];
    data.extend_from_slice(&(n as u32).to_le_bytes());
    data.push(0xf0);
    data.resize(data.len() + 66_050, 255);
    data.push(244);
    data.resize(data.len() + n, 255);
    let c = Compressor::new();
    let back = c.decompress(&data).unwrap();
    assert_eq!(back.len(), n);
    assert!(back.iter().all(|b| *b == 255));
    let batch = c.decompress_batch(&[data.as_slice()]).unwrap();
    assert_eq!(batch.len(), 1);
    assert_eq!(batch[0].len(), n);
}

#[test]
fn large_data_comes_back() {
    let data = vec![255u8; 20_000_000];
    let c = Compressor::new();
    let packed = c.compress(&data);
    assert!(packed.len() < data.len());
    assert_eq!(c.decompress(&packed).unwrap(), data);
}

#[test]
fn thresholds_do_not_matter_for_reading() {
    let data: Vec<u8> = (0..200u8).collect();
    for write in [0, 64, 200, 201, 1000] {
        for read in [0, 64, 200, 201, 1000] {
            let packed = Compressor::with_min_size(write).compress(&data);
            assert_eq!(Compressor::with_min_size(read).decompress(&packed).unwrap(), data);
        }
    }
}

#[test]
fn reopened_shards_find_their_nodes() {
    let config = || ShardConfig {
        num_shards: 4,
        virtual_nodes: 16,
        base_path: "shards".to_string(),
    };
    let mut first = ShardManager::new(config(), 10_000, 4);
    let mut stored: Vec<Vec<NodeId>> = vec![vec![]; 4];
    for _ in 0..40 {
        let id = NodeId::new();
        stored[first.insert_node(&id)].push(id);
    }
    let again = ShardManager::open(config(), 10_000, 4, &stored);
    let empty = ShardManager::new(config(), 10_000, 4);
    for (shard, ids) in stored.iter().enumerate() {
        for id in ids {
            assert_eq!(again.get_node(id), Some(shard));
            assert_eq!(empty.get_node(id), None);
        }
    }
}

#[test]
fn test_batched_stream() {
    let mut batched: BatchedStream<i32> = BatchedStream::new();
    let mut batches: Vec<Vec<i32>> = vec![vec![4, 5], vec![1, 2, 3]];
    let mut results = Vec::new();
    loop {
        if let Some(item) = batched.next_in_batch() {
            results.push(item);
            continue;
        }
        let event: Option<Result<Vec<i32>, String>> = batches.pop().map(Ok);
        match batched.take_batch(event) {
            BatchStep::Item(item) => results.push(item),
            BatchStep::Failure(e) => panic!("{}", e),
            BatchStep::NextBatch => {}
            BatchStep::Finished => break,
        }
    }
    assert_eq!(results, vec![1, 2, 3, 4, 5]);
    let batches: Vec<Result<Vec<i32>, String>> = vec![Ok(vec![1, 2, 3]), Ok(vec![4, 5])];
    assert_eq!(BatchedStream::new().collect(batches), Ok(vec![1, 2, 3, 4, 5]));
}

#[test]
fn an_empty_batch_does_not_end_the_stream() {
    let mut batched: BatchedStream<i32> = BatchedStream::new();
    let nothing: Option<Result<Vec<i32>, String>> = Some(Ok(vec![]));
    assert!(matches!(batched.take_batch(nothing), BatchStep::NextBatch));
    let end: Option<Result<Vec<i32>, String>> = None;
    assert!(matches!(batched.take_batch(end), BatchStep::Finished));
    let batches: Vec<Result<Vec<i32>, String>> = vec![Ok(vec![1]), Ok(vec![]), Ok(vec![2, 3])];
    assert_eq!(batched.collect(batches), Ok(vec![1, 2, 3]));
    let broken: Vec<Result<Vec<i32>, String>> =
        vec![Ok(vec![1]), Err("broken".to_string()), Ok(vec![2])];
    assert_eq!(BatchedStream::new().collect(broken), Err("broken".to_string()));
}

#[test]
fn a_failure_ends_a_collection() {
    let events: Vec<Result<i32, String>> = vec![Ok(1), Err("broken".to_string()), Ok(2)];
    assert_eq!(collect_results(events), Err("broken".to_string()));
}

#[test]
fn test_cursor() {
    let mut cursor = Cursor::new(100);

    assert_eq!(cursor.position, 0);
    assert!(cursor.has_more);

    cursor.advance(50);
    assert_eq!(cursor.position, 50);

    cursor.complete();
    assert!(!cursor.has_more);
}

fn at(millis: i64) -> Timestamp {
    Timestamp { millis }
}

#[test]
fn test_wal_basic() {
    let mut wal = WriteAheadLog::open(None);
    let mut image: Vec<u8> = Vec::new();

    let (lsn1, bytes) = wal.append(at(1), WalEntryType::InsertNode, vec![1, 2, 3]);
    image.extend(bytes);
    let (lsn2, bytes) = wal.append(at(2), WalEntryType::UpdateNode, vec![4, 5, 6]);
    image.extend(bytes);
    let (lsn3, bytes) = wal.append(at(3), WalEntryType::DeleteNode, vec![7, 8, 9]);
    image.extend(bytes);

    assert_eq!(lsn1, 1);
    assert_eq!(lsn2, 2);
    assert_eq!(lsn3, 3);

    let entries = WriteAheadLog::read_all(&image);
    assert_eq!(entries.len(), 3);
    assert_eq!(entries[0].entry_type, WalEntryType::InsertNode);
    assert_eq!(entries[0].data, vec![1, 2, 3]);
}

#[test]
fn test_wal_recovery() {
    let mut image: Vec<u8> = Vec::new();
    {
        let mut wal = WriteAheadLog::open(None);
        image.extend(wal.append(at(1), WalEntryType::InsertNode, vec![1, 2, 3]).1);
        image.extend(wal.append(at(2), WalEntryType::UpdateNode, vec![4, 5, 6]).1);
    }

    let mut wal = WriteAheadLog::open(WriteAheadLog::find_last_lsn(&image));
    let entries = WriteAheadLog::read_all(&image);
    assert_eq!(entries.len(), 2);

    let (lsn, _) = wal.append(at(3), WalEntryType::DeleteNode, vec![7, 8, 9]);
    assert_eq!(lsn, 3);
}

#[test]
fn test_wal_node_operations() {
    let mut wal = WriteAheadLog::open(None);

    let payload = b"test_node_data".to_vec();
    let (lsn, image) = wal.append(at(1), WalEntryType::InsertNode, payload.clone());
    assert!(lsn > 0);

    let entries = WriteAheadLog::read_all(&image);
    assert_eq!(entries.len(), 1);
    assert_eq!(entries[0].entry_type, WalEntryType::InsertNode);
    assert_eq!(entries[0].data, payload);
}

#[test]
fn test_wal_truncate() {
    let mut wal = WriteAheadLog::open(None);
    let mut image: Vec<u8> = Vec::new();

    image.extend(wal.append(at(1), WalEntryType::InsertNode, vec![1]).1);
    image.extend(wal.append(at(2), WalEntryType::InsertNode, vec![2]).1);
    image.extend(wal.checkpoint(at(3)).1);
    image.extend(wal.append(at(4), WalEntryType::InsertNode, vec![4]).1);

    let image = WriteAheadLog::truncate_before(&image, 3);

    let entries = WriteAheadLog::read_all(&image);
    assert_eq!(entries.len(), 2);
    assert!(entries[0].lsn >= 3);
}

#[test]
fn test_wal_checksum() {
    let mut wal = WriteAheadLog::open(None);
    let (_, mut image) = wal.append(at(1), WalEntryType::InsertNode, vec![1, 2, 3]);

    image[10] = 0xFF;

    let entries = WriteAheadLog::read_all(&image);
    assert!(entries.is_empty() || entries[0].data != vec![1, 2, 3]);
}

#[test]
fn log_frames_read_back_and_broken_ones_are_refused() {
    let entry = WalEntry::at(9, at(77), WalEntryType::TxCommit, Some(5), vec![1, 2]);
    let bytes = entry.to_bytes();
    let (back, used) = WalEntry::from_bytes(&bytes).ok().unwrap();
    assert_eq!(used, bytes.len());
    assert_eq!(back.lsn, 9);
    assert_eq!(back.timestamp.millis, 77);
    assert_eq!(back.entry_type, WalEntryType::TxCommit);
    assert_eq!(back.tx_id, Some(5));
    assert_eq!(back.data, vec![1, 2]);
    let stamped = WalEntry::with_tx(2, WalEntryType::TxBegin, 4, vec![3]);
    let (back, _) = WalEntry::from_bytes(&stamped.to_bytes()).ok().unwrap();
    assert_eq!(back.tx_id, Some(4));
    assert_eq!(back.timestamp, stamped.timestamp);

    assert!(matches!(WalEntry::from_bytes(&bytes[..4]), Err(WalError::TooShort)));
    assert!(matches!(
        WalEntry::from_bytes(&bytes[..bytes.len() - 1]),
        Err(WalError::Truncated)
    ));
    let mut broken = bytes.clone();
    let last = broken.len() - 1;
    broken[last] ^= 1;
    assert!(matches!(WalEntry::from_bytes(&broken), Err(WalError::ChecksumMismatch)));
    assert_eq!(WalError::TooShort.message(), "WAL entry too short");
    assert_eq!(WalError::Truncated.message(), "WAL entry truncated");
    assert_eq!(WalError::ChecksumMismatch.message(), "WAL entry checksum mismatch");
}

#[test]
fn a_frame_with_one_byte_changed_is_refused() {
    let entry = WalEntry::at(3, at(8), WalEntryType::InsertNode, Some(6), vec![4, 5, 6]);
    let bytes = entry.to_bytes();
    for k in 4..bytes.len() {
        for change in [1u8, 0x80, 0xff] {
            let mut broken = bytes.clone();
            broken[k] ^= change;
            assert!(matches!(WalEntry::from_bytes(&broken), Err(WalError::ChecksumMismatch)));
            assert!(WriteAheadLog::read_all(&broken).is_empty());
        }
    }
}

#[test]
fn a_torn_log_goes_on_behind_its_whole_entries() {
    let entry = |lsn: u64| WalEntry::at(lsn, at(5), WalEntryType::InsertNode, None, vec![lsn as u8]);
    let mut image = entry(1).to_bytes();
    image.extend_from_slice(&entry(2).to_bytes());
    let whole = image.len();
    assert_eq!(WriteAheadLog::readable_length(&image), whole);
    image.extend_from_slice(&entry(3).to_bytes()[..11]);
    assert_eq!(WriteAheadLog::readable_length(&image), whole);
    assert_eq!(WriteAheadLog::readable_length(&[1, 2, 3]), 0);

    let mut lost = image.clone();
    lost.extend_from_slice(&entry(3).to_bytes());
    assert_eq!(WriteAheadLog::read_all(&lost).len(), 2);

    image.truncate(WriteAheadLog::readable_length(&image));
    image.extend_from_slice(&entry(3).to_bytes());
    let numbers: Vec<u64> = WriteAheadLog::read_all(&image).iter().map(|e| e.lsn).collect();
    assert_eq!(numbers, vec![1, 2, 3]);
}

#[test]
fn every_proper_prefix_of_a_frame_is_refused() {
    let first = WalEntry::at(1, at(5), WalEntryType::InsertNode, None, vec![9, 8, 7]);
    let second = WalEntry::at(2, at(6), WalEntryType::DeleteNode, Some(3), vec![1]);
    let bytes = second.to_bytes();
    for n in 0..bytes.len() {
        match WalEntry::from_bytes(&bytes[..n]) {
            Err(WalError::TooShort) => assert!(n < 8),
            Err(WalError::Truncated) => assert!(n >= 8),
            _ => panic!("Expected a refusal at {}", n),
        }
        let mut image = first.to_bytes();
        image.extend_from_slice(&bytes[..n]);
        let entries = WriteAheadLog::read_all(&image);
        assert_eq!(entries.len(), 1);
        assert_eq!(entries[0].data, vec![9, 8, 7]);
    }
}

#[test]
fn a_log_is_read_from_a_number_on() {
    let mut wal = WriteAheadLog::open_with_options(Some(40), true);
    assert!(wal.sync_mode());
    let mut image: Vec<u8> = Vec::new();
    for i in 0..5u8 {
        image.extend(wal.append_tx(at(1), WalEntryType::InsertEdge, 3, vec![i]).1);
    }
    let tail = WriteAheadLog::read_from(&image, 44);
    assert_eq!(tail.len(), 2);
    assert_eq!(tail[0].lsn, 44);
    assert_eq!(tail[1].tx_id, Some(3));
    assert_eq!(WriteAheadLog::find_last_lsn(&image), Some(45));
}

#[test]
fn a_packed_block_begins_with_the_length_of_its_data() {
    let compressor = Compressor::with_min_size(0);
    let data = vec![7u8; 300];
    let packed = compressor.compress(&data);
    assert_eq!(packed[0], 1);
    assert_eq!(packed[1..5], [44, 1, 0, 0]);
    assert_eq!(compressor.decompress(&packed).ok(), Some(data));
    let cut = compressor.decompress(&packed[..4]);
    assert!(matches!(cut, Err(CompressionError::Corrupt)));
    assert_eq!(CompressionError::Corrupt.message(), "Failed to decompress data");
}

#[test]
fn behind_the_greatest_number_comes_zero() {
    let mut wal = WriteAheadLog::open_with_options(Some(u64::MAX - 1), false);
    assert_eq!(wal.append(at(1), WalEntryType::TxBegin, Vec::new()).0, u64::MAX);
    assert_eq!(wal.current_lsn(), 0);
}
