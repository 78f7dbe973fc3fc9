use mysticeti_core::block_store::BlockStore;
use mysticeti_core::committee::Committee;
use mysticeti_core::consensus::universal_committer::UniversalCommitterBuilder;
use mysticeti_core::consensus::{LeaderStatus, DEFAULT_WAVE_LENGTH};
use mysticeti_core::test_util::{build_dag, committee, TestBlockWriter};
use mysticeti_core::types::{BlockReference, StatementBlock};
use mysticeti_core::util::{parse_duration, u64_to_string, ParseDurationError};

/// Quorum and validity thresholds take the standard values for a committee
/// of four.
#[test]
fn committee_thresholds() {
    let committee = Committee::new(4);
    assert_eq!(committee.len(), 4);
    assert_eq!(committee.total_stake(), 4);
    assert_eq!(committee.quorum_threshold(), 3);
    assert_eq!(committee.validity_threshold(), 2);
    assert_eq!(Committee::new(10).quorum_threshold(), 7);
    assert_eq!(Committee::new(10).validity_threshold(), 4);
}

/// The leader election is plain round-robin.
#[test]
fn leader_election_round_robin() {
    let committee = Committee::new(4);
    assert_eq!(committee.elect_leader(0), 0);
    assert_eq!(committee.elect_leader(3), 3);
    assert_eq!(committee.elect_leader(6), 2);
    assert_eq!(committee.elect_leader(9), 1);
    assert_eq!(committee.authorities(), vec![0, 1, 2, 3]);
}

/// A block is linked to everything in its causal history and nothing else.
#[test]
fn block_store_linked() {
    let mut store = BlockStore::new();
    let a0 = StatementBlock::new_genesis(0);
    let b0 = StatementBlock::new_genesis(1);
    let a1 = StatementBlock::new(
        BlockReference::new_test(0, 1),
        vec![a0.reference()],
    );
    let b1 = StatementBlock::new(
        BlockReference::new_test(1, 1),
        vec![b0.reference()],
    );
    let a2 = StatementBlock::new(
        BlockReference::new_test(0, 2),
        vec![a1.reference(), b1.reference()],
    );
    store.insert_block(a0.duplicate());
    store.insert_block(b0.duplicate());
    store.insert_block(a1.duplicate());
    store.insert_block(b1.duplicate());
    store.insert_block(a2.duplicate());

    assert_eq!(store.highest_round(), 2);
    assert_eq!(store.len_expensive(), 5);
    assert!(store.block_exists(a1.reference()));
    assert!(!store.block_exists(BlockReference::new_test(3, 1)));

    assert!(store.linked(&a2, &a0));
    assert!(store.linked(&a2, &b0));
    assert!(store.linked(&a2, &b1));
    assert!(store.linked(&a1, &a0));
    assert!(!store.linked(&a1, &b0));
    assert!(!store.linked(&b1, &a0));
    assert!(!store.linked(&a0, &a2));
}

/// Without pipelining a single committer expects one leader per wave.
#[test]
fn get_leaders_single() {
    let committee = committee(4);
    let mut block_writer = TestBlockWriter::new(&committee);
    build_dag(&committee, &mut block_writer, None, DEFAULT_WAVE_LENGTH);
    let committer =
        UniversalCommitterBuilder::new(committee.clone(), block_writer.into_block_store()).build();
    assert_eq!(committer.get_leaders(0), vec![0]);
    assert_eq!(committer.get_leaders(1), Vec::<u64>::new());
    assert_eq!(committer.get_leaders(2), Vec::<u64>::new());
    assert_eq!(committer.get_leaders(3), vec![3]);
}

/// With pipelining and several leaders every round carries leader slots.
#[test]
fn get_leaders_pipelined() {
    let committee = committee(4);
    let mut block_writer = TestBlockWriter::new(&committee);
    build_dag(&committee, &mut block_writer, None, DEFAULT_WAVE_LENGTH);
    let committer =
        UniversalCommitterBuilder::new(committee.clone(), block_writer.into_block_store())
            .with_number_of_leaders(2)
            .with_pipeline(true)
            .build();
    assert_eq!(committer.get_leaders(1).len(), 2);
    assert_eq!(committer.get_leaders(1), vec![1, 2]);
}

/// The commit sequence never holds an undecided entry.
#[test]
fn commit_sequence_all_decided() {
    let committee = committee(4);
    let mut block_writer = TestBlockWriter::new(&committee);
    build_dag(&committee, &mut block_writer, None, DEFAULT_WAVE_LENGTH * 4 + 1);
    let mut committer =
        UniversalCommitterBuilder::new(committee.clone(), block_writer.into_block_store()).build();
    let sequence = committer.try_commit(BlockReference::new_test(0, 0), DEFAULT_WAVE_LENGTH * 4);
    assert!(!sequence.is_empty());
    for status in &sequence {
        assert!(status.is_decided());
    }
}

/// With pipelining and two leaders per round, a fully connected DAG
/// commits two leaders for every round, in round order.
#[test]
fn pipelined_multi_leader_commit() {
    let committee = committee(4);
    let mut block_writer = TestBlockWriter::new(&committee);
    let top_round = DEFAULT_WAVE_LENGTH * 4 + 1;
    build_dag(&committee, &mut block_writer, None, top_round);
    let mut committer =
        UniversalCommitterBuilder::new(committee.clone(), block_writer.into_block_store())
            .with_number_of_leaders(2)
            .with_pipeline(true)
            .build();
    let threshold_round = top_round;
    let sequence = committer.try_commit(BlockReference::new_test(0, 0), threshold_round);

    // Rounds 1 through `top_round - wave_length` are all decidable; each
    // carries two leader slots.
    let decidable_rounds = (top_round - DEFAULT_WAVE_LENGTH) as usize;
    assert_eq!(sequence.len(), 2 * decidable_rounds);
    let mut expected_round = 1;
    for pair in sequence.chunks(2) {
        match (&pair[0], &pair[1]) {
            (LeaderStatus::Commit(first), LeaderStatus::Commit(second)) => {
                assert_eq!(first.round(), expected_round);
                assert_eq!(second.round(), expected_round);
                assert_eq!(first.author(), expected_round % 4);
                assert_eq!(second.author(), (expected_round + 1) % 4);
            }
            other => panic!("Expected two committed leaders, got {other:?}"),
        }
        expected_round += 1;
    }
}

/// Statuses report the slot they speak about.
#[test]
fn leader_status_accessors() {
    let block = StatementBlock::new(BlockReference::new_test(2, 6), vec![]);
    let commit = LeaderStatus::Commit(block);
    assert_eq!(commit.authority(), 2);
    assert_eq!(commit.round(), 6);
    assert!(commit.is_decided());
    let skip = LeaderStatus::Skip(1, 3);
    assert_eq!(skip.authority(), 1);
    assert_eq!(skip.round(), 3);
    assert!(skip.is_decided());
    let undecided = LeaderStatus::Undecided(0, 9);
    assert!(!undecided.is_decided());
}

/// Numbers print in plain decimal.
#[test]
fn u64_to_string_values() {
    assert_eq!(u64_to_string(0), "0");
    assert_eq!(u64_to_string(7), "7");
    assert_eq!(u64_to_string(42), "42");
    assert_eq!(u64_to_string(1234567890), "1234567890");
    assert_eq!(u64_to_string(u64::MAX), "18446744073709551615");
}

/// Durations parse exactly, with one error for each way to go wrong.
#[test]
fn parse_duration_values() {
    assert_eq!(parse_duration("0"), Ok(0));
    assert_eq!(parse_duration("42"), Ok(42));
    assert_eq!(parse_duration("300"), Ok(300));
    assert_eq!(parse_duration("18446744073709551615"), Ok(u64::MAX));
    assert_eq!(parse_duration("+42"), Ok(42));
    assert_eq!(parse_duration(""), Err(ParseDurationError::Empty));
    assert_eq!(parse_duration("+"), Err(ParseDurationError::InvalidDigit));
    assert_eq!(parse_duration("12a"), Err(ParseDurationError::InvalidDigit));
    assert_eq!(parse_duration("-3"), Err(ParseDurationError::InvalidDigit));
    assert_eq!(
        parse_duration("18446744073709551616"),
        Err(ParseDurationError::Overflow)
    );
}
