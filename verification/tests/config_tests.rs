use encodings::EncodingError;
use encodings::PaddingDirection;
use encodings::TruncationDirection;
use encodings::TruncationStrategy;
use encodings::config::parse_padding_direction;
use encodings::config::parse_truncation_direction;
use encodings::config::parse_truncation_strategy;

#[test]
fn truncation_direction_labels_parse() {
    assert_eq!(
        parse_truncation_direction("left"),
        Ok(TruncationDirection::Left)
    );
    assert_eq!(
        parse_truncation_direction("right"),
        Ok(TruncationDirection::Right)
    );
}

#[test]
fn bad_direction_label_is_rejected_immediately() {
    assert_eq!(
        parse_truncation_direction("sideways"),
        Err(EncodingError::InvalidDirection)
    );
    assert_eq!(
        parse_truncation_direction("Left"),
        Err(EncodingError::InvalidDirection)
    );
    assert_eq!(
        parse_truncation_direction(""),
        Err(EncodingError::InvalidDirection)
    );
}

#[test]
fn padding_direction_labels_parse() {
    assert_eq!(parse_padding_direction("left"), Ok(PaddingDirection::Left));
    assert_eq!(
        parse_padding_direction("right"),
        Ok(PaddingDirection::Right)
    );
    assert_eq!(
        parse_padding_direction("up"),
        Err(EncodingError::InvalidDirection)
    );
}

#[test]
fn strategy_labels_parse() {
    assert_eq!(
        parse_truncation_strategy("longest_first"),
        Ok(TruncationStrategy::LongestFirst)
    );
    assert_eq!(
        parse_truncation_strategy("only_first"),
        Ok(TruncationStrategy::OnlyFirst)
    );
    assert_eq!(
        parse_truncation_strategy("only_second"),
        Ok(TruncationStrategy::OnlySecond)
    );
    assert_eq!(
        parse_truncation_strategy("shortest_first"),
        Err(EncodingError::InvalidStrategy)
    );
}
