use encodings::Encoding;
use encodings::EncodingError;
use encodings::PaddingDirection;
use encodings::TruncationDirection;
use encodings::TruncationStrategy;

/// A single-sequence encoding of `n` tokens: ids `0..n`, token `i` covering
/// characters `[2*i, 2*i + 1)`, one word per token.
fn single_encoding(n: u32) -> Encoding {
    let mut ids = Vec::new();
    let mut type_ids = Vec::new();
    let mut tokens = Vec::new();
    let mut offsets = Vec::new();
    let mut word_ids = Vec::new();
    let mut special = Vec::new();
    let mut attention = Vec::new();
    let mut seq_ids = Vec::new();
    for i in 0..n {
        ids.push(i);
        type_ids.push(0);
        tokens.push(format!("tok{}", i));
        offsets.push(((2 * i) as usize, (2 * i + 1) as usize));
        word_ids.push(Some(i));
        special.push(0);
        attention.push(1);
        seq_ids.push(Some(0));
    }
    Encoding::from_parts(
        ids, type_ids, tokens, offsets, word_ids, special, attention, seq_ids, 1,
    )
}

/// A pair encoding: `c0` tokens of sequence 0 followed by `c1` tokens of
/// sequence 1, ids numbered consecutively.
fn pair_encoding(c0: u32, c1: u32) -> Encoding {
    let mut ids = Vec::new();
    let mut type_ids = Vec::new();
    let mut tokens = Vec::new();
    let mut offsets = Vec::new();
    let mut word_ids = Vec::new();
    let mut special = Vec::new();
    let mut attention = Vec::new();
    let mut seq_ids = Vec::new();
    for i in 0..(c0 + c1) {
        let s = if i < c0 { 0 } else { 1 };
        ids.push(i);
        type_ids.push(s);
        tokens.push(format!("tok{}", i));
        offsets.push(((2 * i) as usize, (2 * i + 1) as usize));
        word_ids.push(Some(i));
        special.push(0);
        attention.push(1);
        seq_ids.push(Some(s));
    }
    Encoding::from_parts(
        ids, type_ids, tokens, offsets, word_ids, special, attention, seq_ids, 2,
    )
}

fn pad_token() -> String {
    "[PAD]".to_string()
}

#[test]
fn uninitialized_operations_report_error() {
    let e = Encoding::new();
    assert_eq!(e.get_length(), Err(EncodingError::UninitializedState));
    assert_eq!(e.get_ids(), Err(EncodingError::UninitializedState));
    assert_eq!(e.get_n_sequences(), Err(EncodingError::UninitializedState));
    assert_eq!(e.char_to_token(0, 0), Err(EncodingError::UninitializedState));
    assert_eq!(
        e.word_to_tokens(0, 0),
        Err(EncodingError::UninitializedState)
    );
    assert!(e.get_overflowing().is_err());
    let mut m = Encoding::new();
    assert_eq!(
        m.pad(3, 0, 0, &pad_token(), PaddingDirection::Right),
        Err(EncodingError::UninitializedState)
    );
    assert_eq!(
        m.truncate(
            1,
            0,
            TruncationStrategy::LongestFirst,
            TruncationDirection::Right
        ),
        Err(EncodingError::UninitializedState)
    );
}

#[test]
fn default_encoding_is_uninitialized() {
    let e = Encoding::default();
    assert_eq!(e.get_length(), Err(EncodingError::UninitializedState));
}

#[test]
fn getters_return_the_populated_data() {
    let e = single_encoding(3);
    assert_eq!(e.get_length().unwrap(), 3);
    assert_eq!(e.get_n_sequences().unwrap(), 1);
    assert_eq!(e.get_ids().unwrap(), vec![0, 1, 2]);
    assert_eq!(e.get_type_ids().unwrap(), vec![0, 0, 0]);
    assert_eq!(e.get_attention_mask().unwrap(), vec![1, 1, 1]);
    assert_eq!(e.get_special_tokens_mask().unwrap(), vec![0, 0, 0]);
    assert_eq!(
        e.get_tokens().unwrap(),
        vec!["tok0".to_string(), "tok1".to_string(), "tok2".to_string()]
    );
    assert_eq!(e.get_offsets().unwrap(), vec![(0, 1), (2, 3), (4, 5)]);
    assert_eq!(
        e.get_word_ids().unwrap(),
        vec![Some(0), Some(1), Some(2)]
    );
    assert_eq!(
        e.get_sequence_ids().unwrap(),
        vec![Some(0), Some(0), Some(0)]
    );
    assert_eq!(e.get_overflowing().unwrap().len(), 0);
}

#[test]
fn truncate_five_to_three_with_stride_one() {
    let mut e = single_encoding(5);
    let r = e.truncate(
        3,
        1,
        TruncationStrategy::LongestFirst,
        TruncationDirection::Right,
    );
    assert_eq!(r, Ok(()));
    assert_eq!(e.get_length().unwrap(), 3);
    assert_eq!(e.get_ids().unwrap(), vec![0, 1, 2]);
    let overflow = e.get_overflowing().unwrap();
    assert_eq!(overflow.len(), 1);
    assert_eq!(overflow[0].get_length().unwrap(), 3);
    assert_eq!(overflow[0].get_ids().unwrap(), vec![2, 3, 4]);
}

#[test]
fn truncate_left_keeps_the_tail() {
    let mut e = single_encoding(5);
    e.truncate(
        3,
        1,
        TruncationStrategy::LongestFirst,
        TruncationDirection::Left,
    )
    .unwrap();
    assert_eq!(e.get_ids().unwrap(), vec![2, 3, 4]);
    let overflow = e.get_overflowing().unwrap();
    assert_eq!(overflow.len(), 1);
    assert_eq!(overflow[0].get_ids().unwrap(), vec![0, 1, 2]);
}

#[test]
fn truncate_to_zero_moves_everything_to_overflow() {
    let mut e = single_encoding(4);
    e.truncate(
        0,
        0,
        TruncationStrategy::LongestFirst,
        TruncationDirection::Right,
    )
    .unwrap();
    assert_eq!(e.get_length().unwrap(), 0);
    let overflow = e.get_overflowing().unwrap();
    assert_eq!(overflow.len(), 1);
    assert_eq!(overflow[0].get_ids().unwrap(), vec![0, 1, 2, 3]);
}

#[test]
fn truncate_within_limit_is_a_noop() {
    let mut e = single_encoding(3);
    e.truncate(
        5,
        2,
        TruncationStrategy::LongestFirst,
        TruncationDirection::Right,
    )
    .unwrap();
    assert_eq!(e.get_ids().unwrap(), vec![0, 1, 2]);
    assert_eq!(e.get_overflowing().unwrap().len(), 0);
}

#[test]
fn truncate_twice_is_a_noop() {
    let mut e = single_encoding(5);
    e.truncate(
        3,
        0,
        TruncationStrategy::LongestFirst,
        TruncationDirection::Right,
    )
    .unwrap();
    let ids_once = e.get_ids().unwrap();
    let overflow_once = e.get_overflowing().unwrap().len();
    e.truncate(
        3,
        0,
        TruncationStrategy::LongestFirst,
        TruncationDirection::Right,
    )
    .unwrap();
    assert_eq!(e.get_ids().unwrap(), ids_once);
    assert_eq!(e.get_overflowing().unwrap().len(), overflow_once);
}

#[test]
fn pair_only_first_trims_sequence_zero_only() {
    let mut e = pair_encoding(4, 4);
    let r = e.truncate(
        6,
        0,
        TruncationStrategy::OnlyFirst,
        TruncationDirection::Right,
    );
    assert_eq!(r, Ok(()));
    assert_eq!(e.get_length().unwrap(), 6);
    assert_eq!(e.get_ids().unwrap(), vec![0, 1, 4, 5, 6, 7]);
    assert_eq!(
        e.get_sequence_ids().unwrap(),
        vec![Some(0), Some(0), Some(1), Some(1), Some(1), Some(1)]
    );
    let overflow = e.get_overflowing().unwrap();
    assert_eq!(overflow.len(), 1);
    assert_eq!(overflow[0].get_ids().unwrap(), vec![2, 3]);
}

#[test]
fn pair_only_second_trims_sequence_one_only() {
    let mut e = pair_encoding(3, 3);
    e.truncate(
        4,
        0,
        TruncationStrategy::OnlySecond,
        TruncationDirection::Right,
    )
    .unwrap();
    assert_eq!(e.get_ids().unwrap(), vec![0, 1, 2, 3]);
    let overflow = e.get_overflowing().unwrap();
    assert_eq!(overflow[0].get_ids().unwrap(), vec![4, 5]);
}

#[test]
fn pair_only_first_fails_when_sequence_zero_runs_out() {
    let mut e = pair_encoding(1, 4);
    let before = e.get_ids().unwrap();
    let r = e.truncate(
        2,
        0,
        TruncationStrategy::OnlyFirst,
        TruncationDirection::Right,
    );
    assert_eq!(r, Err(EncodingError::InvalidStrategyForInput));
    assert_eq!(e.get_ids().unwrap(), before);
    assert_eq!(e.get_overflowing().unwrap().len(), 0);
}

#[test]
fn only_first_on_a_single_sequence_fails() {
    let mut e = single_encoding(5);
    let r = e.truncate(
        3,
        0,
        TruncationStrategy::OnlyFirst,
        TruncationDirection::Right,
    );
    assert_eq!(r, Err(EncodingError::InvalidStrategyForInput));
    assert_eq!(e.get_length().unwrap(), 5);
}

#[test]
fn pair_longest_first_balances_the_sequences() {
    let mut e = pair_encoding(5, 3);
    let r = e.truncate(
        4,
        0,
        TruncationStrategy::LongestFirst,
        TruncationDirection::Right,
    );
    assert_eq!(r, Ok(()));
    assert_eq!(e.get_length().unwrap(), 4);
    // Greedy removal from the longer sequence keeps two tokens of each.
    assert_eq!(e.get_ids().unwrap(), vec![0, 1, 5, 6]);
    let overflow = e.get_overflowing().unwrap();
    assert_eq!(overflow.len(), 1);
    assert_eq!(overflow[0].get_ids().unwrap(), vec![2, 3, 4, 7]);
    assert_eq!(
        overflow[0].get_sequence_ids().unwrap(),
        vec![Some(0), Some(0), Some(0), Some(1)]
    );
}

#[test]
fn pair_longest_first_fails_when_both_sequences_run_out() {
    // Two special tokens belong to neither sequence, so only two tokens can
    // be removed and a target of one cannot be met.
    let ids = vec![10, 0, 1, 11];
    let type_ids = vec![0, 0, 1, 1];
    let tokens = vec![
        "[CLS]".to_string(),
        "a".to_string(),
        "b".to_string(),
        "[SEP]".to_string(),
    ];
    let offsets = vec![(0, 0), (0, 1), (2, 3), (0, 0)];
    let word_ids = vec![None, Some(0), Some(0), None];
    let special = vec![1, 0, 0, 1];
    let attention = vec![1, 1, 1, 1];
    let seq_ids = vec![None, Some(0), Some(1), None];
    let mut e = Encoding::from_parts(
        ids, type_ids, tokens, offsets, word_ids, special, attention, seq_ids, 2,
    );
    let r = e.truncate(
        1,
        0,
        TruncationStrategy::LongestFirst,
        TruncationDirection::Right,
    );
    assert_eq!(r, Err(EncodingError::InvalidStrategyForInput));
    assert_eq!(e.get_length().unwrap(), 4);
}

#[test]
fn pad_right_appends_sentinels() {
    let mut e = single_encoding(3);
    let r = e.pad(5, 9, 7, &pad_token(), PaddingDirection::Right);
    assert_eq!(r, Ok(()));
    assert_eq!(e.get_length().unwrap(), 5);
    assert_eq!(e.get_ids().unwrap(), vec![0, 1, 2, 9, 9]);
    assert_eq!(e.get_type_ids().unwrap(), vec![0, 0, 0, 7, 7]);
    assert_eq!(e.get_attention_mask().unwrap(), vec![1, 1, 1, 0, 0]);
    assert_eq!(e.get_special_tokens_mask().unwrap(), vec![0, 0, 0, 1, 1]);
    assert_eq!(
        e.get_tokens().unwrap()[3..],
        ["[PAD]".to_string(), "[PAD]".to_string()]
    );
    assert_eq!(e.get_offsets().unwrap()[3..], [(0, 0), (0, 0)]);
    assert_eq!(e.get_word_ids().unwrap()[3..], [None, None]);
    assert_eq!(e.get_sequence_ids().unwrap()[3..], [None, None]);
}

#[test]
fn pad_left_keeps_originals_at_the_tail() {
    let mut e = single_encoding(3);
    let r = e.pad(5, 0, 0, &pad_token(), PaddingDirection::Left);
    assert_eq!(r, Ok(()));
    assert_eq!(e.get_length().unwrap(), 5);
    assert_eq!(e.get_ids().unwrap(), vec![0, 0, 0, 1, 2]);
    assert_eq!(e.get_attention_mask().unwrap(), vec![0, 0, 1, 1, 1]);
    assert_eq!(e.get_sequence_ids().unwrap()[..2], [None, None]);
    // The original tokens keep their offsets and word ids at the tail.
    assert_eq!(
        e.get_offsets().unwrap()[2..],
        [(0, 1), (2, 3), (4, 5)]
    );
    assert_eq!(
        e.get_word_ids().unwrap()[2..],
        [Some(0), Some(1), Some(2)]
    );
    // Offset-based lookups on the original tokens still work.
    assert_eq!(e.char_to_token(2, 0).unwrap(), Some(3));
    assert_eq!(e.char_to_word(2, 0).unwrap(), Some(1));
}

#[test]
fn pad_within_target_is_a_noop_and_padding_is_idempotent() {
    let mut e = single_encoding(3);
    e.pad(2, 0, 0, &pad_token(), PaddingDirection::Right).unwrap();
    assert_eq!(e.get_ids().unwrap(), vec![0, 1, 2]);
    e.pad(5, 0, 0, &pad_token(), PaddingDirection::Right).unwrap();
    let once = e.get_ids().unwrap();
    e.pad(5, 0, 0, &pad_token(), PaddingDirection::Right).unwrap();
    assert_eq!(e.get_ids().unwrap(), once);
    assert_eq!(e.get_length().unwrap(), 5);
}

#[test]
fn char_lookups_cover_token_spans() {
    let e = single_encoding(3);
    // Token 1 covers characters [2, 3).
    assert_eq!(e.char_to_token(2, 0).unwrap(), Some(1));
    assert_eq!(e.char_to_word(2, 0).unwrap(), Some(1));
    // Character 1 falls between tokens.
    assert_eq!(e.char_to_token(1, 0).unwrap(), None);
    assert_eq!(e.char_to_word(1, 0).unwrap(), None);
    // No token of a nonexistent sequence covers anything.
    assert_eq!(e.char_to_token(2, 1).unwrap(), None);
    // Positions past the text find nothing.
    assert_eq!(e.char_to_token(100, 0).unwrap(), None);
}

#[test]
fn word_lookups_round_trip() {
    // Three tokens of word 0, then one of word 1.
    let ids = vec![0, 1, 2, 3];
    let type_ids = vec![0, 0, 0, 0];
    let tokens = vec![
        "aa".to_string(),
        "bb".to_string(),
        "cc".to_string(),
        "dd".to_string(),
    ];
    let offsets = vec![(0, 2), (2, 4), (4, 6), (7, 9)];
    let word_ids = vec![Some(0), Some(0), Some(0), Some(1)];
    let special = vec![0, 0, 0, 0];
    let attention = vec![1, 1, 1, 1];
    let seq_ids = vec![Some(0), Some(0), Some(0), Some(0)];
    let e = Encoding::from_parts(
        ids, type_ids, tokens, offsets, word_ids, special, attention, seq_ids, 1,
    );
    assert_eq!(e.word_to_tokens(0, 0).unwrap(), Some((0, 3)));
    assert_eq!(e.word_to_tokens(1, 0).unwrap(), Some((3, 4)));
    assert_eq!(e.word_to_tokens(2, 0).unwrap(), None);
    assert_eq!(e.word_to_tokens(0, 1).unwrap(), None);
    assert_eq!(e.word_to_chars(0, 0).unwrap(), Some((0, 6)));
    assert_eq!(e.word_to_chars(1, 0).unwrap(), Some((7, 9)));
    assert_eq!(e.token_to_word(1).unwrap(), Some((0, 0)));
    assert_eq!(e.token_to_word(3).unwrap(), Some((0, 1)));
    assert_eq!(e.token_to_word(9).unwrap(), None);
    assert_eq!(e.token_to_chars(2).unwrap(), Some((0, (4, 6))));
    assert_eq!(e.token_to_chars(9).unwrap(), None);
    assert_eq!(e.token_to_sequence(0).unwrap(), Some(0));
    assert_eq!(e.token_to_sequence(9).unwrap(), None);
}

#[test]
fn pair_lookups_are_scoped_by_sequence() {
    let e = pair_encoding(2, 2);
    // Word ids 2 and 3 belong to sequence 1.
    assert_eq!(e.word_to_tokens(2, 1).unwrap(), Some((2, 3)));
    assert_eq!(e.word_to_tokens(2, 0).unwrap(), None);
    assert_eq!(e.token_to_sequence(3).unwrap(), Some(1));
    assert_eq!(e.token_to_word(3).unwrap(), Some((1, 3)));
    assert_eq!(e.get_n_sequences().unwrap(), 2);
}

#[test]
fn padding_token_finds_no_sequence() {
    let mut e = single_encoding(2);
    e.pad(3, 0, 0, &pad_token(), PaddingDirection::Right).unwrap();
    assert_eq!(e.token_to_sequence(2).unwrap(), None);
    assert_eq!(e.token_to_chars(2).unwrap(), None);
    assert_eq!(e.token_to_word(2).unwrap(), None);
}

#[test]
fn overflow_entries_are_independent_of_the_parent() {
    let mut e = single_encoding(5);
    e.truncate(
        3,
        0,
        TruncationStrategy::LongestFirst,
        TruncationDirection::Right,
    )
    .unwrap();
    let overflow_before = e.get_overflowing().unwrap();
    let ids_before = overflow_before[0].get_ids().unwrap();
    // Mutate the parent afterwards; previously produced overflow copies and
    // the freshly fetched ones are unaffected.
    e.pad(8, 0, 0, &pad_token(), PaddingDirection::Right).unwrap();
    assert_eq!(overflow_before[0].get_ids().unwrap(), ids_before);
    let overflow_after = e.get_overflowing().unwrap();
    assert_eq!(overflow_after[0].get_ids().unwrap(), ids_before);
    // And mutating a fetched overflow copy leaves the parent's store alone.
    let mut child = overflow_after.into_iter().next().unwrap();
    child.pad(9, 0, 0, &pad_token(), PaddingDirection::Right).unwrap();
    assert_eq!(e.get_overflowing().unwrap()[0].get_ids().unwrap(), ids_before);
}

#[test]
fn every_position_of_a_token_maps_back_to_it() {
    // Tokens covering [0, 2), [2, 4), [4, 6), [7, 9).
    let ids = vec![0, 1, 2, 3];
    let type_ids = vec![0, 0, 0, 0];
    let tokens = vec![
        "aa".to_string(),
        "bb".to_string(),
        "cc".to_string(),
        "dd".to_string(),
    ];
    let offsets = vec![(0, 2), (2, 4), (4, 6), (7, 9)];
    let word_ids = vec![Some(0), Some(0), Some(1), Some(2)];
    let special = vec![0, 0, 0, 0];
    let attention = vec![1, 1, 1, 1];
    let seq_ids = vec![Some(0), Some(0), Some(0), Some(0)];
    let e = Encoding::from_parts(
        ids, type_ids, tokens, offsets, word_ids, special, attention, seq_ids, 1,
    );
    for (t, (a, b)) in [(0, (0, 2)), (1, (2, 4)), (2, (4, 6)), (3, (7, 9))] {
        for p in a..b {
            assert_eq!(e.char_to_token(p, 0).unwrap(), Some(t));
        }
    }
    // The gap between tokens 2 and 3 maps to nothing.
    assert_eq!(e.char_to_token(6, 0).unwrap(), None);
}

#[test]
fn pair_truncation_from_the_left_keeps_each_tail() {
    let mut e = pair_encoding(4, 4);
    e.truncate(
        6,
        0,
        TruncationStrategy::OnlyFirst,
        TruncationDirection::Left,
    )
    .unwrap();
    // The first two tokens of sequence 0 are removed instead of the last.
    assert_eq!(e.get_ids().unwrap(), vec![2, 3, 4, 5, 6, 7]);
    let overflow = e.get_overflowing().unwrap();
    assert_eq!(overflow[0].get_ids().unwrap(), vec![0, 1]);
}

#[test]
fn length_stays_aligned_across_mutations() {
    let mut e = pair_encoding(4, 3);
    e.truncate(
        5,
        0,
        TruncationStrategy::LongestFirst,
        TruncationDirection::Right,
    )
    .unwrap();
    e.pad(9, 0, 0, &pad_token(), PaddingDirection::Left).unwrap();
    let n = e.get_length().unwrap();
    assert_eq!(e.get_ids().unwrap().len(), n);
    assert_eq!(e.get_type_ids().unwrap().len(), n);
    assert_eq!(e.get_tokens().unwrap().len(), n);
    assert_eq!(e.get_offsets().unwrap().len(), n);
    assert_eq!(e.get_word_ids().unwrap().len(), n);
    assert_eq!(e.get_special_tokens_mask().unwrap().len(), n);
    assert_eq!(e.get_attention_mask().unwrap().len(), n);
    assert_eq!(e.get_sequence_ids().unwrap().len(), n);
    for c in e.get_overflowing().unwrap() {
        let m = c.get_length().unwrap();
        assert_eq!(c.get_ids().unwrap().len(), m);
        assert_eq!(c.get_offsets().unwrap().len(), m);
        assert_eq!(c.get_sequence_ids().unwrap().len(), m);
    }
}
