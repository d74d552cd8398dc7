use stringutils::edit::{create_cost_matrix, table_shape};
use stringutils::error::TextError;

fn tokens(words: &[&str]) -> Vec<String> {
    words.iter().map(|w| w.to_string()).collect()
}

#[test]
fn cost_of_one_substitution_is_one() {
    let m = create_cost_matrix(tokens(&["the", "cat", "sat"]), tokens(&["the", "cat", "sit"]))
        .unwrap();
    assert_eq!(m.get(3, 3), Some(1));
}

#[test]
fn full_table_for_three_tokens() {
    let m = create_cost_matrix(tokens(&["the", "cat", "sat"]), tokens(&["the", "cat", "sit"]))
        .unwrap();
    assert_eq!(m.rows(), 4);
    assert_eq!(m.cols(), 4);
    assert_eq!(
        m.to_rows(),
        vec![vec![0, 1, 2, 3], vec![1, 0, 1, 2], vec![2, 1, 0, 1], vec![3, 2, 1, 1]]
    );
}

#[test]
fn borders_count_upwards() {
    let m = create_cost_matrix(tokens(&["a", "b", "c", "d"]), tokens(&["x", "y"])).unwrap();
    for i in 0..5 {
        assert_eq!(m.get(i, 0), Some(i as u64));
    }
    for j in 0..3 {
        assert_eq!(m.get(0, j), Some(j as u64));
    }
}

#[test]
fn empty_sequences_give_a_single_zero() {
    let m = create_cost_matrix(Vec::new(), Vec::new()).unwrap();
    assert_eq!(m.to_rows(), vec![vec![0]]);
}

#[test]
fn empty_reference_costs_pure_insertion() {
    let m = create_cost_matrix(Vec::new(), tokens(&["a", "b"])).unwrap();
    assert_eq!(m.to_rows(), vec![vec![0, 1, 2]]);
}

#[test]
fn empty_prediction_costs_pure_deletion() {
    let m = create_cost_matrix(tokens(&["a", "b"]), Vec::new()).unwrap();
    assert_eq!(m.to_rows(), vec![vec![0], vec![1], vec![2]]);
}

#[test]
fn token_equality_is_exact() {
    let m = create_cost_matrix(tokens(&["Cat"]), tokens(&["cat"])).unwrap();
    assert_eq!(m.get(1, 1), Some(1));
    let m = create_cost_matrix(tokens(&["cat"]), tokens(&["cat"])).unwrap();
    assert_eq!(m.get(1, 1), Some(0));
}

#[test]
fn insertion_and_deletion_are_counted() {
    let m = create_cost_matrix(
        tokens(&["a", "b", "c"]),
        tokens(&["b", "c", "d", "e"]),
    )
    .unwrap();
    assert_eq!(
        m.to_rows(),
        vec![
            vec![0, 1, 2, 3, 4],
            vec![1, 1, 2, 3, 4],
            vec![2, 1, 2, 3, 4],
            vec![3, 2, 1, 2, 3],
        ]
    );
}

#[test]
fn entries_outside_the_table_are_absent() {
    let m = create_cost_matrix(tokens(&["a"]), tokens(&["b"])).unwrap();
    assert_eq!(m.get(2, 0), None);
    assert_eq!(m.get(0, 2), None);
    assert_eq!(m.get(1, 1), Some(1));
}

#[test]
fn error_messages_name_the_failure() {
    assert_eq!(TextError::InvalidEncoding.message(), "input is not valid UTF-8");
    assert_eq!(
        TextError::SizeLimitExceeded.message(),
        "cost matrix exceeds the addressable size"
    );
}

#[test]
fn shape_of_an_addressable_table() {
    assert_eq!(table_shape(0, 0), Some((1, 1)));
    assert_eq!(table_shape(3, 5), Some((4, 6)));
    assert_eq!(table_shape(10_000, 10_000), Some((10_001, 10_001)));
}

#[test]
fn shape_beyond_the_addressable_range() {
    assert_eq!(table_shape(usize::MAX, 0), None);
    assert_eq!(table_shape(0, usize::MAX), None);
    assert_eq!(table_shape(usize::MAX, usize::MAX), None);
    assert_eq!(table_shape(isize::MAX as usize, 0), None);
    assert_eq!(table_shape((isize::MAX as usize) / 8, 0), None);
    assert_eq!(table_shape((isize::MAX as usize) / 8 - 1, 0), Some(((isize::MAX as usize) / 8, 1)));
    assert_eq!(table_shape(1 << (usize::BITS / 2), 1 << (usize::BITS / 2)), None);
}

fn least_edits(a: &[String], b: &[String]) -> u64 {
    match (a.split_last(), b.split_last()) {
        (None, _) => b.len() as u64,
        (_, None) => a.len() as u64,
        (Some((x, before_a)), Some((y, before_b))) => {
            let keep_or_substitute = least_edits(before_a, before_b) + u64::from(x != y);
            let delete = least_edits(before_a, b) + 1;
            let insert = least_edits(a, before_b) + 1;
            keep_or_substitute.min(delete).min(insert)
        }
    }
}

#[test]
fn entries_are_the_least_number_of_edits() {
    let pairs = [
        (vec!["the", "cat", "sat"], vec!["the", "cat", "sit"]),
        (vec!["a", "b", "a", "b"], vec!["b", "a", "b", "a", "b"]),
        (vec!["x", "y", "z"], vec![]),
        (vec!["k", "i", "t", "t", "e", "n"], vec!["s", "i", "t", "t", "i", "n", "g"]),
        (vec!["a", "a", "a"], vec!["a", "a"]),
    ];
    for (reference, predicted) in pairs {
        let reference = tokens(&reference);
        let predicted = tokens(&predicted);
        let m = create_cost_matrix(reference.clone(), predicted.clone()).unwrap();
        for i in 0..=reference.len() {
            for j in 0..=predicted.len() {
                assert_eq!(m.get(i, j), Some(least_edits(&reference[..i], &predicted[..j])));
            }
        }
    }
}

#[test]
fn building_twice_gives_the_same_table() {
    let first = create_cost_matrix(tokens(&["a", "b", "c"]), tokens(&["a", "x", "c", "d"])).unwrap();
    let second = create_cost_matrix(tokens(&["a", "b", "c"]), tokens(&["a", "x", "c", "d"])).unwrap();
    assert_eq!(first.to_rows(), second.to_rows());
}
