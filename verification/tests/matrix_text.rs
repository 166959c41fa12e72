use tsp_rs::text::{graph_of_text, parse_matrix, parse_number, split_lines, split_words};

#[test]
fn numbers_are_read_in_decimal() {
    assert_eq!(parse_number(&b"0".to_vec()), Some(0));
    assert_eq!(parse_number(&b"007".to_vec()), Some(7));
    assert_eq!(parse_number(&b"18446744073709551615".to_vec()), Some(u64::MAX));
    assert_eq!(parse_number(&b"18446744073709551616".to_vec()), None);
    assert_eq!(parse_number(&b"99999999999999999999".to_vec()), None);
    assert_eq!(parse_number(&b"".to_vec()), None);
    assert_eq!(parse_number(&b"-3".to_vec()), None);
    assert_eq!(parse_number(&b"+3".to_vec()), Some(3));
    assert_eq!(parse_number(&b"+".to_vec()), None);
    assert_eq!(parse_number(&b"++3".to_vec()), None);
    assert_eq!(parse_number(&b"3+".to_vec()), None);
    assert_eq!(parse_number(&b"12a".to_vec()), None);
}

#[test]
fn lines_and_words_are_split() {
    assert_eq!(split_lines(&b"".to_vec()), vec![b"".to_vec()]);
    assert_eq!(split_lines(&b"a\n\nbc\n".to_vec()), vec![b"a".to_vec(), b"".to_vec(), b"bc".to_vec(), b"".to_vec()]);
    assert_eq!(split_words(&b"  12\t3  456 \r".to_vec()), vec![b"12".to_vec(), b"3".to_vec(), b"456".to_vec()]);
    assert_eq!(split_words(&b"   ".to_vec()), Vec::<Vec<u8>>::new());
}

#[test]
fn a_matrix_is_read_row_by_row() {
    let text = b"0 1 4 3\n1 0 2 5\r\n\n  4   2 0 6\n3\t5 6 0\n".to_vec();
    assert_eq!(
        parse_matrix(&text),
        Some(vec![vec![0, 1, 4, 3], vec![1, 0, 2, 5], vec![4, 2, 0, 6], vec![3, 5, 6, 0]])
    );
    assert_eq!(parse_matrix(&b"".to_vec()), Some(vec![]));
    assert_eq!(parse_matrix(&b"1 2\n3".to_vec()), Some(vec![vec![1, 2], vec![3]]));
}

#[test]
fn a_text_with_anything_but_numbers_is_refused() {
    assert_eq!(parse_matrix(&b"0 1\n1 x\n".to_vec()), None);
    assert_eq!(parse_matrix(&b"0 -1\n1 0\n".to_vec()), None);
    assert_eq!(parse_matrix(&b"0 1.5\n".to_vec()), None);
    assert!(graph_of_text(&b"0 1\n1 zero\n".to_vec()).is_none());
}

#[test]
fn a_graph_is_read_with_its_vertices_numbered() {
    let g = graph_of_text(&b"0 7\n7 0\n".to_vec()).unwrap();
    assert_eq!(g.num_vertices(), 2);
    assert_eq!(g.get_vertex(0), Ok(&0));
    assert_eq!(g.get_vertex(1), Ok(&1));
    assert_eq!(g.get_edge_weight(0, 1), Ok(7));
    assert!(g.is_squared());
    let ragged = graph_of_text(&b"0 7\n7\n".to_vec()).unwrap();
    assert!(!ragged.is_squared());
}
