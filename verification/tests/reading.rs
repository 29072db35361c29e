use tsp_stima::common::INF;
use tsp_stima::input::{parse_matrix, MatrixError};
use tsp_stima::matrix::is_valid_cost_matrix;
use tsp_stima::solve_tsp_dynamic_programming;

#[test]
fn rows_are_lines_and_entries_are_words() {
    assert_eq!(parse_matrix("0 1\n1 0\n"), Ok(vec![vec![0, 1], vec![1, 0]]));
    assert_eq!(parse_matrix("7"), Ok(vec![vec![7]]));
}

#[test]
fn blank_lines_and_extra_white_space_are_skipped() {
    let text = "\n  1\t2   3 \r\n\n4 5 6\r\n   \n7 8 9";
    assert_eq!(
        parse_matrix(text),
        Ok(vec![vec![1, 2, 3], vec![4, 5, 6], vec![7, 8, 9]])
    );
}

#[test]
fn white_space_beyond_ascii_separates_words() {
    assert_eq!(
        parse_matrix("1\u{a0}2\n3\u{3000}4"),
        Ok(vec![vec![1, 2], vec![3, 4]])
    );
}

#[test]
fn signs_are_read() {
    assert_eq!(parse_matrix("+5 -3\n-0 007"), Ok(vec![vec![5, -3], vec![0, 7]]));
}

#[test]
fn the_whole_range_of_i32_is_read() {
    assert_eq!(
        parse_matrix("2147483647 -2147483648\n0 0"),
        Ok(vec![vec![i32::MAX, i32::MIN], vec![0, 0]])
    );
}

#[test]
fn numbers_out_of_range_are_refused() {
    assert_eq!(
        parse_matrix("2147483648"),
        Err(MatrixError::BadInteger { line: 0, word: 0 })
    );
    assert_eq!(
        parse_matrix("1 -2147483649"),
        Err(MatrixError::BadInteger { line: 0, word: 1 })
    );
    assert_eq!(
        parse_matrix("99999999999999999999999999999999"),
        Err(MatrixError::BadInteger { line: 0, word: 0 })
    );
}

#[test]
fn words_that_are_no_integers_are_refused() {
    for word in ["x", "12a", "1_000", "-", "+", "1.5", "--1", "0x10", "١"] {
        let text = format!("1 2\n3 {}", word);
        assert_eq!(
            parse_matrix(&text),
            Err(MatrixError::BadInteger { line: 1, word: 1 })
        );
    }
}

#[test]
fn words_are_read_as_the_standard_library_reads_them() {
    for word in [
        "0", "-1", "+1", "00012", "2147483647", "2147483648", "-2147483648", "-2147483649", "+-1",
        "1e3", "９", "-00000000000000000000000000000000000001",
    ] {
        let ours = parse_matrix(word);
        match word.parse::<i32>() {
            Ok(value) => assert_eq!(ours, Ok(vec![vec![value]])),
            Err(_) => assert_eq!(ours, Err(MatrixError::BadInteger { line: 0, word: 0 })),
        }
    }
}

#[test]
fn lines_are_counted_with_the_blank_ones() {
    assert_eq!(
        parse_matrix("\n\n1 x"),
        Err(MatrixError::BadInteger { line: 2, word: 1 })
    );
}

#[test]
fn rows_of_different_lengths_are_refused() {
    assert_eq!(
        parse_matrix("1 2\n3\n"),
        Err(MatrixError::RaggedRow { line: 1, found: 1, expected: 2 })
    );
    assert_eq!(
        parse_matrix("1\n\n2 3 4\n"),
        Err(MatrixError::RaggedRow { line: 2, found: 3, expected: 1 })
    );
}

#[test]
fn the_first_wrong_line_is_reported() {
    assert_eq!(
        parse_matrix("1 2\n3\n4 x"),
        Err(MatrixError::RaggedRow { line: 1, found: 1, expected: 2 })
    );
    assert_eq!(
        parse_matrix("1 2\n3 y\n4"),
        Err(MatrixError::BadInteger { line: 1, word: 1 })
    );
    assert_eq!(
        parse_matrix("1 2 3\n4 5 z 6"),
        Err(MatrixError::BadInteger { line: 1, word: 2 })
    );
}

#[test]
fn text_without_entries_is_refused() {
    assert_eq!(parse_matrix(""), Err(MatrixError::NoRows));
    assert_eq!(parse_matrix(" \n\t\n\r\n"), Err(MatrixError::NoRows));
}

#[test]
fn matrix_that_is_not_square_is_refused() {
    assert_eq!(
        parse_matrix("1 2 3\n4 5 6\n"),
        Err(MatrixError::NotSquare { rows: 2, cols: 3 })
    );
    assert_eq!(
        parse_matrix("1\n2\n"),
        Err(MatrixError::NotSquare { rows: 2, cols: 1 })
    );
}

#[test]
fn matrix_read_from_text_is_solved() {
    let text = format!(
        "{inf} 10 15 20\n10 {inf} 35 25\n15 35 {inf} 30\n20 25 30 {inf}\n",
        inf = INF
    );
    let graph = parse_matrix(&text).unwrap();
    assert!(is_valid_cost_matrix(&graph));
    assert_eq!(
        solve_tsp_dynamic_programming(&graph),
        Some((80, vec![0, 2, 3, 1, 0]))
    );
}

#[test]
fn well_formed_matrices_are_accepted() {
    assert!(is_valid_cost_matrix(&Vec::new()));
    assert!(is_valid_cost_matrix(&vec![vec![INF]]));
    assert!(is_valid_cost_matrix(&vec![vec![0, INF], vec![3, 0]]));
    assert!(is_valid_cost_matrix(&vec![vec![INF, (INF - 1) / 2], vec![1, INF]]));
}

#[test]
fn matrices_that_are_not_square_are_rejected() {
    assert!(!is_valid_cost_matrix(&vec![vec![0, 1]]));
    assert!(!is_valid_cost_matrix(&vec![vec![0, 1], vec![1]]));
    assert!(!is_valid_cost_matrix(&vec![vec![0], vec![1]]));
}

#[test]
fn entries_that_are_no_costs_are_rejected() {
    assert!(!is_valid_cost_matrix(&vec![vec![INF, -1], vec![1, INF]]));
    assert!(!is_valid_cost_matrix(&vec![vec![INF, INF + 1], vec![1, INF]]));
    assert!(!is_valid_cost_matrix(&vec![vec![INF, i32::MAX], vec![1, INF]]));
}

#[test]
fn costs_that_could_add_up_to_the_sentinel_are_rejected() {
    assert!(!is_valid_cost_matrix(&vec![vec![INF, (INF - 1) / 2 + 1], vec![1, INF]]));
    assert!(is_valid_cost_matrix(&vec![vec![INF - 1]]));
    assert!(!is_valid_cost_matrix(&vec![
        vec![INF, INF / 3 + 1, 1],
        vec![1, INF, 1],
        vec![1, 1, INF]
    ]));
}

#[test]
fn graphs_too_large_for_one_word_are_rejected() {
    let n = usize::BITS as usize;
    let graph = vec![vec![INF; n]; n];
    assert!(!is_valid_cost_matrix(&graph));
    let graph = vec![vec![INF; n - 1]; n - 1];
    assert!(is_valid_cost_matrix(&graph));
}
