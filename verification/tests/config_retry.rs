use unfrag::config::{default_batch_size, validate_batch_size, ConfigError};
use unfrag::retry::{attempts_until_success, retry_decision, RetryDecision, RetryPolicy};

#[test]
fn batch_size_range() {
    assert_eq!(validate_batch_size(2), Ok(2));
    assert_eq!(validate_batch_size(100), Ok(100));
    assert_eq!(validate_batch_size(32), Ok(32));
    assert_eq!(validate_batch_size(1), Err(ConfigError::BatchSizeOutOfRange));
    assert_eq!(validate_batch_size(0), Err(ConfigError::BatchSizeOutOfRange));
    assert_eq!(validate_batch_size(101), Err(ConfigError::BatchSizeOutOfRange));
}

#[test]
fn default_batch_size_is_valid() {
    let d = default_batch_size();
    assert_eq!(d, 32);
    assert_eq!(validate_batch_size(d), Ok(32));
}

#[test]
fn decision_after_attempt() {
    let policy = RetryPolicy { delay_secs: 5 };
    assert_eq!(retry_decision(true, &policy), RetryDecision::Done);
    assert_eq!(retry_decision(false, &policy), RetryDecision::RetryAfter(5));
}

#[test]
fn retry_until_first_success() {
    let policy = RetryPolicy { delay_secs: 5 };
    assert_eq!(attempts_until_success(&vec![false, false, true], &policy), 3);
    assert_eq!(attempts_until_success(&vec![true], &policy), 1);
    assert_eq!(
        attempts_until_success(&vec![false, true, false, true], &policy),
        2
    );
}
