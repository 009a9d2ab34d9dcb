//! Configuration values for the truncation and padding engines, and the
//! error taxonomy of the library.
//!
//! Free-form labels (as they arrive from a configuration boundary) are parsed
//! here, before any mutation happens: an unrecognized label is rejected at
//! once, so a bad configuration value can never leave an encoding partially
//! mutated.

use vstd::prelude::*;

verus! {

/// Which end of the token stream truncation removes from.
#[derive(Clone, Copy, PartialEq, Eq, Structural, Debug)]
pub enum TruncationDirection {
    Left,
    Right,
}

/// Which end of the token stream padding extends.
#[derive(Clone, Copy, PartialEq, Eq, Structural, Debug)]
pub enum PaddingDirection {
    Left,
    Right,
}

/// How truncation chooses tokens to remove from a pair encoding.
#[derive(Clone, Copy, PartialEq, Eq, Structural, Debug)]
pub enum TruncationStrategy {
    /// Repeatedly trim one token from whichever sequence is currently longer
    /// (ties trim sequence 0).
    LongestFirst,
    /// Trim only sequence 0.
    OnlyFirst,
    /// Trim only sequence 1.
    OnlySecond,
}

/// The errors an encoding operation reports. Absence (a lookup with no
/// mapping) is never an error: lookups return `None` instead.
#[derive(Clone, Copy, PartialEq, Eq, Structural, Debug)]
pub enum EncodingError {
    /// An operation was invoked on an encoding that was never populated
    /// with token data.
    UninitializedState,
    /// A truncation strategy was asked to trim a sequence the encoding does
    /// not have, or a sequence ran out of tokens before the target length
    /// was met.
    InvalidStrategyForInput,
    /// A free-form direction label did not name a known direction.
    InvalidDirection,
    /// A free-form strategy label did not name a known strategy.
    InvalidStrategy,
}

/// Parses a truncation direction from its lower-case label, rejecting
/// anything but `"left"` and `"right"`.
pub fn parse_truncation_direction(label: &str) -> (r: Result<
    TruncationDirection,
    EncodingError,
>)
    ensures
        label@ == "left"@ ==> r == Ok::<TruncationDirection, EncodingError>(
            TruncationDirection::Left,
        ),
        label@ == "right"@ ==> r == Ok::<TruncationDirection, EncodingError>(
            TruncationDirection::Right,
        ),
        label@ != "left"@ && label@ != "right"@ ==> r == Err::<
            TruncationDirection,
            EncodingError,
        >(EncodingError::InvalidDirection),
{
    proof {
        reveal_strlit("left");
        reveal_strlit("right");
        assert("left"@.len() == 4);
        assert("right"@.len() == 5);
        assert("left"@ != "right"@);
    }
    let owned: String = label.to_owned();
    if owned == "left".to_owned() {
        Ok(TruncationDirection::Left)
    } else if owned == "right".to_owned() {
        Ok(TruncationDirection::Right)
    } else {
        Err(EncodingError::InvalidDirection)
    }
}

/// Parses a padding direction from its lower-case label, rejecting anything
/// but `"left"` and `"right"`.
pub fn parse_padding_direction(label: &str) -> (r: Result<PaddingDirection, EncodingError>)
    ensures
        label@ == "left"@ ==> r == Ok::<PaddingDirection, EncodingError>(PaddingDirection::Left),
        label@ == "right"@ ==> r == Ok::<PaddingDirection, EncodingError>(PaddingDirection::Right),
        label@ != "left"@ && label@ != "right"@ ==> r == Err::<PaddingDirection, EncodingError>(
            EncodingError::InvalidDirection,
        ),
{
    proof {
        reveal_strlit("left");
        reveal_strlit("right");
        assert("left"@.len() == 4);
        assert("right"@.len() == 5);
        assert("left"@ != "right"@);
    }
    let owned: String = label.to_owned();
    if owned == "left".to_owned() {
        Ok(PaddingDirection::Left)
    } else if owned == "right".to_owned() {
        Ok(PaddingDirection::Right)
    } else {
        Err(EncodingError::InvalidDirection)
    }
}

/// Parses a truncation strategy from its snake-case label, rejecting
/// anything but `"longest_first"`, `"only_first"` and `"only_second"`.
pub fn parse_truncation_strategy(label: &str) -> (r: Result<TruncationStrategy, EncodingError>)
    ensures
        label@ == "longest_first"@ ==> r == Ok::<TruncationStrategy, EncodingError>(
            TruncationStrategy::LongestFirst,
        ),
        label@ == "only_first"@ ==> r == Ok::<TruncationStrategy, EncodingError>(
            TruncationStrategy::OnlyFirst,
        ),
        label@ == "only_second"@ ==> r == Ok::<TruncationStrategy, EncodingError>(
            TruncationStrategy::OnlySecond,
        ),
        label@ != "longest_first"@ && label@ != "only_first"@ && label@ != "only_second"@ ==> r
            == Err::<TruncationStrategy, EncodingError>(EncodingError::InvalidStrategy),
{
    proof {
        reveal_strlit("longest_first");
        reveal_strlit("only_first");
        reveal_strlit("only_second");
        assert("longest_first"@.len() == 13);
        assert("only_first"@.len() == 10);
        assert("only_second"@.len() == 11);
        assert("longest_first"@ != "only_first"@);
        assert("longest_first"@ != "only_second"@);
        assert("only_first"@ != "only_second"@);
    }
    let owned: String = label.to_owned();
    if owned == "longest_first".to_owned() {
        Ok(TruncationStrategy::LongestFirst)
    } else if owned == "only_first".to_owned() {
        Ok(TruncationStrategy::OnlyFirst)
    } else if owned == "only_second".to_owned() {
        Ok(TruncationStrategy::OnlySecond)
    } else {
        Err(EncodingError::InvalidStrategy)
    }
}

} // verus!
