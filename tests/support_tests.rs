use cdx_grid::fingerprint::{hash_message, puzzle_hash};
use cdx_grid::retry::{next_retry_action, retry_delay_ms, RetryAction, STORE_ATTEMPTS};
use cdx_grid::validator::{contains_word, intersect, label_cap, InvalidReason, Validator};
use sha2::Digest;

fn names() -> Vec<String> {
    ["Fruits", "Colors", "Birds", "Trees", "Red things", "Tiny", "Sweet", "Round"]
        .iter()
        .map(|s| s.to_string())
        .collect()
}

#[test]
fn message_joins_rows_then_columns() {
    let m = hash_message(&names(), &[0, 1, 2, 3], &[4, 5, 6, 7]).unwrap();
    assert_eq!(m, b"Fruits|Colors|Birds|TreesRed things|Tiny|Sweet|Round".to_vec());
    assert!(hash_message(&names(), &[0, 1, 2, 8], &[4, 5, 6, 7]).is_none());
}

#[test]
fn puzzle_hash_is_hex_sha256_of_message() {
    let h = puzzle_hash(&names(), &[0, 1, 2, 3], &[4, 5, 6, 7]).unwrap();
    let expected = hex::encode(sha2::Sha256::digest(b"Fruits|Colors|Birds|TreesRed things|Tiny|Sweet|Round"));
    assert_eq!(h, expected);
    assert_eq!(h.len(), 64);
    assert!(h.chars().all(|c| c.is_ascii_hexdigit() && !c.is_ascii_uppercase()));
    let other = puzzle_hash(&names(), &[1, 0, 2, 3], &[4, 5, 6, 7]).unwrap();
    assert_ne!(h, other);
    assert!(puzzle_hash(&names(), &[0, 1, 2, 3], &[4, 5, 6, 9]).is_none());
}

#[test]
fn puzzle_hash_of_empty_names() {
    let empty: Vec<String> = vec![String::new()];
    let h = puzzle_hash(&empty, &[0, 0, 0, 0], &[0, 0, 0, 0]).unwrap();
    assert_eq!(h, hex::encode(sha2::Sha256::digest(b"||||||")));
}

#[test]
fn backoff_doubles_from_fifty() {
    assert_eq!(retry_delay_ms(1), 50);
    assert_eq!(retry_delay_ms(2), 100);
    assert_eq!(retry_delay_ms(3), 200);
    assert_eq!(retry_delay_ms(4), 400);
    assert_eq!(retry_delay_ms(32), 50 * (1u64 << 31));
    assert_eq!(retry_delay_ms(59), 50 * (1u64 << 58));
}

#[test]
fn retry_actions() {
    assert_eq!(next_retry_action(1, STORE_ATTEMPTS, true), RetryAction::Finish);
    assert_eq!(next_retry_action(1, STORE_ATTEMPTS, false), RetryAction::RetryAfter { delay_ms: 50 });
    assert_eq!(next_retry_action(4, STORE_ATTEMPTS, false), RetryAction::RetryAfter { delay_ms: 400 });
    assert_eq!(next_retry_action(5, STORE_ATTEMPTS, false), RetryAction::GiveUp);
    assert_eq!(next_retry_action(5, STORE_ATTEMPTS, true), RetryAction::Finish);
    assert_eq!(next_retry_action(59, 100, false), RetryAction::RetryAfter { delay_ms: 50 * (1u64 << 58) });
    assert_eq!(next_retry_action(1000, 1000, false), RetryAction::GiveUp);
    assert_eq!(next_retry_action(700, 1000, true), RetryAction::Finish);
}

#[test]
fn word_set_intersection() {
    let mut r = intersect(&vec![1, 2, 3, 4], &vec![9, 4, 2]);
    r.sort();
    assert_eq!(r, vec![2, 4]);
    assert!(intersect(&vec![], &vec![1]).is_empty());
    assert!(contains_word(&vec![5, 6], 6));
    assert!(!contains_word(&vec![5, 6], 7));
}

#[test]
fn strict_label_has_cap_one() {
    assert_eq!(label_cap(&"Letter Patterns".to_string()), 1);
    assert_eq!(label_cap(&"Animals".to_string()), 2);
}

fn validator(labels: Vec<Option<String>>) -> Validator {
    // rows 0..4 and columns 4..8; cell (r, c) owns word 4 * r + c
    let mut words = Vec::new();
    for r in 0..4u64 {
        words.push((0..4u64).map(|c| 4 * r + c).collect());
    }
    for c in 0..4u64 {
        words.push((0..4u64).map(|r| 4 * r + c).collect());
    }
    Validator { names: names(), words, labels }
}

fn grid(rows: [&str; 4], cols: [&str; 4]) -> ([String; 4], [String; 4]) {
    (rows.map(|s| s.to_string()), cols.map(|s| s.to_string()))
}

#[test]
fn valid_grid_passes() {
    let v = validator(vec![None; 8]);
    let (rows, cols) = grid(["Fruits", "Colors", "Birds", "Trees"], ["Red things", "Tiny", "Sweet", "Round"]);
    assert_eq!(v.validate(&rows, &cols), Ok(()));
    assert_eq!(v.find_category(&"Birds".to_string()), Some(2));
    assert_eq!(v.find_category(&"Fish".to_string()), None);
}

#[test]
fn unknown_category_is_reported_first() {
    let v = validator(vec![None; 8]);
    let (rows, cols) = grid(["Fruits", "Colors", "Birds", "Trees"], ["Red things", "Fish", "Sweet", "Cars"]);
    assert_eq!(v.validate(&rows, &cols), Err(InvalidReason::UnknownCategory { position: 5 }));
}

#[test]
fn meta_cap_violation_is_reported() {
    let mut labels = vec![None; 8];
    labels[1] = Some("Letter Patterns".to_string());
    labels[6] = Some("Letter Patterns".to_string());
    let v = validator(labels);
    let (rows, cols) = grid(["Fruits", "Colors", "Birds", "Trees"], ["Red things", "Tiny", "Sweet", "Round"]);
    assert_eq!(v.validate(&rows, &cols), Err(InvalidReason::MetaCap { position: 6, count: 2, max: 1 }));
    let mut labels = vec![None; 8];
    labels[0] = Some("Food".to_string());
    labels[2] = Some("Food".to_string());
    labels[7] = Some("Food".to_string());
    let v = validator(labels);
    assert_eq!(v.validate(&rows, &cols), Err(InvalidReason::MetaCap { position: 7, count: 3, max: 2 }));
}

#[test]
fn empty_cell_is_reported() {
    let v = validator(vec![None; 8]);
    // a column in a row's place explains the words of the other cells
    let (rows, cols) = grid(["Fruits", "Colors", "Birds", "Red things"], ["Trees", "Tiny", "Sweet", "Round"]);
    assert_eq!(v.validate(&rows, &cols), Err(InvalidReason::EmptyCell { row: 0, col: 0 }));
}
