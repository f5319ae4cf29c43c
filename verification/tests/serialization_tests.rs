use llm_scratch_rs::serialization::{check_shapes, decode_weights, encode_weights, is_json_path, WeightsError};

fn matrix(rows: &[&[f32]]) -> Vec<Vec<u32>> {
    rows.iter().map(|r| r.iter().map(|v| v.to_bits()).collect()).collect()
}

#[test]
fn the_bytes_of_a_file() {
    let bytes = encode_weights(&vec![matrix(&[&[1.0, -2.0]])]);
    let mut expected = Vec::new();
    expected.extend(1u64.to_le_bytes());
    expected.extend(1u64.to_le_bytes());
    expected.extend(2u64.to_le_bytes());
    expected.extend(1.0f32.to_le_bytes());
    expected.extend((-2.0f32).to_le_bytes());
    assert_eq!(bytes, expected);
}

#[test]
fn weights_survive_a_round_trip() {
    let saved = vec![matrix(&[&[1.5, 2.5], &[-3.0, 4.0]]), matrix(&[&[0.125]])];
    let bytes = encode_weights(&saved);
    let mut target = vec![matrix(&[&[0.0, 0.0], &[0.0, 0.0]]), matrix(&[&[0.0]])];
    assert!(decode_weights(&bytes, &mut target).is_ok());
    assert_eq!(target, saved);
}

#[test]
fn files_that_do_not_fit_are_refused() {
    let saved = vec![matrix(&[&[1.5, 2.5]])];
    let bytes = encode_weights(&saved);
    let mut two = vec![matrix(&[&[0.0, 0.0]]), matrix(&[&[0.0]])];
    assert!(matches!(decode_weights(&bytes, &mut two), Err(WeightsError::CountMismatch)));
    let mut tall = vec![matrix(&[&[0.0, 0.0], &[0.0, 0.0]])];
    assert!(matches!(decode_weights(&bytes, &mut tall), Err(WeightsError::RowMismatch)));
    let mut narrow = vec![matrix(&[&[0.0]])];
    assert!(matches!(decode_weights(&bytes, &mut narrow), Err(WeightsError::ColumnMismatch)));
    let mut none = vec![matrix(&[&[0.0, 0.0]])];
    assert!(matches!(decode_weights(&vec![1, 2], &mut none), Err(WeightsError::UnexpectedEnd)));
    // What was read before the file ended stays.
    let short = bytes[..bytes.len() - 4].to_vec();
    assert!(matches!(decode_weights(&short, &mut none), Err(WeightsError::UnexpectedEnd)));
    assert_eq!(none, vec![matrix(&[&[1.5, 0.0]])]);
}

#[test]
fn paths_choose_the_format() {
    assert!(is_json_path("model_weights.json"));
    assert!(!is_json_path("model_weights.bin"));
}

#[test]
fn shapes_are_compared_by_rows_and_first_row() {
    let a = vec![matrix(&[&[0.0, 0.0]])];
    assert!(check_shapes(&a, &vec![matrix(&[&[1.0, 2.0]])]).is_ok());
    assert!(matches!(check_shapes(&a, &vec![]), Err(WeightsError::CountMismatch)));
    assert!(matches!(check_shapes(&a, &vec![matrix(&[&[1.0, 2.0], &[1.0, 2.0]])]), Err(WeightsError::RowMismatch)));
    assert!(matches!(check_shapes(&a, &vec![matrix(&[&[1.0]])]), Err(WeightsError::ColumnMismatch)));
}
