use lib::coo;
use lib::csr::{abs_diff, Matrix};
use lib::from_coordinates::{csr_from_coordinates, Element};
use lib::mtx::{
    is_whitespace, parse_line, parse_matrix_market, parse_usize, trim_chars, MtxLine, ParseError,
};

fn lines(text: &[&str]) -> Vec<String> {
    text.iter().map(|s| s.to_string()).collect()
}

fn chars(s: &str) -> Vec<char> {
    s.chars().collect()
}

fn pattern(m: usize, n: usize, entries: &[(usize, usize)]) -> Matrix {
    let elements: Vec<Element> = entries.iter().map(|&(i, j)| Element { i, j }).collect();
    csr_from_coordinates(&elements, m, n).0
}

/// The 4 x 4 pattern with rows {0,1,3}, {0,1,3}, {2,3}, {0,1,2,3}.
fn square() -> Matrix {
    pattern(
        4,
        4,
        &[
            (0, 0), (0, 1), (0, 3), (1, 0), (1, 1), (1, 3), (2, 2), (2, 3), (3, 0), (3, 1), (3, 2),
            (3, 3),
        ],
    )
}

/// The 4 x 6 pattern with rows {0,1}, {1,3}, {2,3,4}, {5}.
fn wide() -> Matrix {
    pattern(4, 6, &[(0, 0), (0, 1), (1, 1), (1, 3), (2, 3), (3, 5), (2, 4), (2, 2)])
}


fn is_permutation(p: &[usize]) -> bool {
    let mut q = p.to_vec();
    q.sort();
    q == (0..p.len()).collect::<Vec<usize>>()
}

#[test]
fn abs_diff_both_ways() {
    assert_eq!(abs_diff(3, 7), 4);
    assert_eq!(abs_diff(7, 3), 4);
    assert_eq!(abs_diff(5, 5), 0);
}

#[test]
fn new_matrix_is_empty() {
    let m = Matrix::new(3, 5, 7);
    assert_eq!(m.m, 3);
    assert_eq!(m.n, 5);
    assert_eq!(m.nz_len, 7);
    assert!(m.col_index.is_empty() && m.row_index.is_empty() && m.labels.is_empty());
    assert_eq!((m.bw, m.max_degree, m.min_bw), (0, 0, 0));
}

#[test]
fn csr_sorts_rows_and_tracks_sources() {
    let elements = vec![
        Element { i: 1, j: 2 },
        Element { i: 0, j: 1 },
        Element { i: 1, j: 0 },
        Element { i: 0, j: 0 },
        Element { i: 2, j: 2 },
        Element { i: 1, j: 1 },
    ];
    let (m, order) = csr_from_coordinates(&elements, 3, 3);
    assert_eq!(m.row_index, vec![0, 2, 5, 6]);
    assert_eq!(m.col_index, vec![0, 1, 0, 1, 2, 2]);
    assert_eq!(order, vec![3, 1, 2, 5, 0, 4]);
    assert_eq!(m.max_degree, 3);
    assert_eq!(m.min_bw, 1);
    assert_eq!(m.labels, vec![0, 1, 2]);
    assert_eq!(m.nz_len, 6);
}

#[test]
fn csr_with_empty_rows() {
    let (m, order) = csr_from_coordinates(&[Element { i: 2, j: 0 }], 3, 1);
    assert_eq!(m.row_index, vec![0, 0, 0, 1]);
    assert_eq!(m.col_index, vec![0]);
    assert_eq!(order, vec![0]);
    assert_eq!(m.labels, vec![0, 1, 2]);
    assert_eq!(m.max_degree, 1);
    assert_eq!(m.min_bw, 0);
}

#[test]
fn bandwidth_is_largest_label_distance() {
    let mut m = square();
    assert_eq!(m.bandwidth(), 3);
    assert_eq!(m.bw, 3);
    m.labels = vec![1, 0, 3, 2];
    assert_eq!(m.bandwidth(), 2);
    let mut d = pattern(3, 3, &[(0, 0), (1, 1), (2, 2)]);
    assert_eq!(d.bandwidth(), 0);
}

#[test]
fn bw_vertex_per_row() {
    let m = square();
    assert_eq!(m.bw_vertex(0), 3);
    assert_eq!(m.bw_vertex(1), 2);
    assert_eq!(m.bw_vertex(2), 1);
    assert_eq!(m.bw_vertex(3), 3);
}

#[test]
fn degree_of_columns_is_zero() {
    let m = wide();
    assert_eq!(m.degree(2), 3);
    assert_eq!(m.degree(4), 0);
    assert_eq!(m.degree(5), 0);
}

#[test]
fn old_label_finds_first_vertex() {
    let mut m = square();
    m.labels = vec![2, 3, 3, 0];
    assert_eq!(m.old_label(3), 1);
    assert_eq!(m.old_label(0), 3);
}

#[test]
fn criticals_sorted_without_repetition() {
    let mut m = square();
    m.labels = vec![3, 3, 0, 1];
    let c = m.criticals();
    assert_eq!(m.bw, 2);
    assert_eq!(c, vec![1, 3]);
}

#[test]
fn criticals_nonempty_at_bandwidth_zero() {
    let mut m = pattern(3, 3, &[(0, 0), (1, 1), (2, 2)]);
    assert_eq!(m.criticals(), vec![0, 1, 2]);
}

#[test]
fn reorder_moves_rows_and_keeps_value_order() {
    let mut m = square();
    let sources = m.reorder(&[2, 0, 3, 1]);
    // Row 0 comes from vertex 1, row 1 from vertex 3, row 2 from vertex 0,
    // row 3 from vertex 2.
    assert_eq!(m.row_index, vec![0, 3, 7, 10, 12]);
    assert_eq!(m.col_index, vec![0, 1, 2, 0, 1, 2, 3, 0, 1, 2, 1, 3]);
    assert_eq!(sources, vec![3, 4, 5, 8, 9, 10, 11, 0, 1, 2, 6, 7]);
    assert_eq!(m.labels, vec![0, 1, 2, 3]);
    assert_eq!(m.m, 4);
}

#[test]
fn reorder_makes_wide_matrix_square() {
    let mut m = wide();
    let sources = m.reorder(&[0, 1, 2, 3, 4, 5]);
    assert_eq!(m.m, 6);
    assert_eq!(m.n, 6);
    assert_eq!(m.row_index, vec![0, 2, 4, 7, 8, 8, 8]);
    assert_eq!(m.col_index, vec![0, 1, 1, 3, 2, 3, 4, 5]);
    assert_eq!(sources, vec![0, 1, 2, 3, 4, 5, 6, 7]);
}

#[test]
fn reorder_and_relabel_agree() {
    let p = vec![2, 0, 3, 1];
    let mut b = square();
    b.reorder(&p);
    let mut c = square();
    c.labels = p.clone();
    assert_eq!(b.bandwidth(), c.bandwidth());
    assert_eq!(b.criticals(), c.criticals());
}

#[test]
fn cmr_labels_is_a_permutation() {
    let mut m = square();
    m.cmr_labels(1);
    assert!(is_permutation(&m.labels));
    assert_eq!(m.labels[1], 3);
    assert_eq!(m.row_index, vec![0, 3, 6, 8, 12]);
    assert_eq!(m.col_index, vec![0, 1, 3, 0, 1, 3, 2, 3, 0, 1, 2, 3]);
}

#[test]
fn cmr_labels_restarts_on_disconnected_graph() {
    let mut m = pattern(4, 4, &[(0, 1), (1, 0), (2, 3), (3, 2)]);
    m.cmr_labels(2);
    assert_eq!(m.labels, vec![1, 0, 3, 2]);
}

#[test]
fn cmr_numbering_covers_extra_columns() {
    let m = wide();
    let lv = m.cmr_numbering(0);
    assert!(is_permutation(&lv));
    assert_eq!(lv, vec![5, 4, 0, 2, 1, 3]);
    let mut r = wide();
    let order = r.cmr_reorder(0);
    assert_eq!(order, lv);
    assert_eq!(r.m, 6);
}

#[test]
fn cmr_numbering_matches_cmr_labels_on_square() {
    for start in 0..4 {
        let mut labelled = square();
        labelled.cmr_labels(start);
        let numbering = square().cmr_numbering(start);
        assert_eq!(numbering, labelled.labels);
    }
    let mut labelled = pattern(4, 4, &[(0, 1), (1, 0), (2, 3), (3, 2)]);
    labelled.cmr_labels(2);
    let numbering = pattern(4, 4, &[(0, 1), (1, 0), (2, 3), (3, 2)]).cmr_numbering(2);
    assert_eq!(numbering, labelled.labels);
}

#[test]
fn cmr_numbering_leaves_unreached_columns() {
    let m = pattern(2, 3, &[(0, 0), (1, 1)]);
    let lv = m.cmr_numbering(0);
    assert_eq!(lv, vec![2, 1, usize::MAX]);
}

#[test]
fn labelled_rows_in_label_order() {
    let mut m = square();
    assert_eq!(
        m.labelled_rows(),
        vec![vec![0, 1, 3], vec![0, 1, 3], vec![2, 3], vec![0, 1, 2, 3]]
    );
    m.labels = vec![3, 2, 0, 1];
    assert_eq!(
        m.labelled_rows(),
        vec![vec![0, 1], vec![0, 1, 2, 3], vec![1, 2, 3], vec![1, 2, 3]]
    );
}

#[test]
fn mid_of_values() {
    let m = square();
    assert_eq!(m.mid(&[]), 0);
    assert_eq!(m.mid(&[7, 2, 9, 4]), 5);
    assert_eq!(m.mid(&[3]), 3);
}

#[test]
fn neighbour_candidates() {
    let m = square();
    assert_eq!(m.neighbour_of_criticals2(3), vec![0, 1, 2, 1, 1]);
    assert_eq!(m.neighbour_of_criticals(0), vec![0, 1, 0, 1, 3]);
}

#[test]
fn vertex_to_swap_with_finds_nothing() {
    let mut m = square();
    assert!(m.vertex_to_swap_with(&2).is_empty());
    assert_eq!(m.col_index, square().col_index);
}

#[test]
fn vertices_swap_exchanges_rows() {
    let mut m = square();
    assert!(m.vertices_swap_bw_update(&0, &1));
    assert_eq!(m.col_index, vec![1, 0, 3, 1, 0, 3, 2, 3, 1, 0, 2, 3]);
    assert_eq!(m.row_index, vec![0, 3, 6, 8, 12]);
    assert_eq!(m.bw, 3);
}

#[test]
fn parse_usize_like_std() {
    assert_eq!(parse_usize(&chars("42")), Some(42));
    assert_eq!(parse_usize(&chars("+42")), Some(42));
    assert_eq!(parse_usize(&chars("")), None);
    assert_eq!(parse_usize(&chars("+")), None);
    assert_eq!(parse_usize(&chars("-1")), None);
    assert_eq!(parse_usize(&chars("4x")), None);
    assert_eq!(parse_usize(&chars("18446744073709551615")), Some(usize::MAX));
    assert_eq!(parse_usize(&chars("18446744073709551616")), None);
    for s in ["0", "17", "+9", "x", "99999999999999999999"] {
        assert_eq!(parse_usize(&chars(s)), s.parse::<usize>().ok());
    }
}

#[test]
fn trim_like_std() {
    for s in ["  a b ", "\t\u{a0}x\u{3000}", "   ", "", "x"] {
        let t: String = trim_chars(&chars(s)).into_iter().collect();
        assert_eq!(t, s.trim());
    }
    assert!(is_whitespace('\u{2028}'));
    assert!(!is_whitespace('a'));
}

#[test]
fn parse_line_kinds() {
    assert!(matches!(parse_line(false, &chars("% comment"), 0), Ok(MtxLine::Comment)));
    assert!(matches!(parse_line(false, &chars("3 4 5"), 0), Ok(MtxLine::Size(3, 4, 5))));
    match parse_line(true, &chars("3 4  7.5 "), 0) {
        Ok(MtxLine::Entry(e)) => {
            assert_eq!((e.i, e.j), (2, 3));
            assert_eq!(e.value, Some(chars("7.5")));
        },
        _ => panic!("entry expected"),
    }
    match parse_line(false, &chars("3 4"), 0) {
        Ok(MtxLine::Entry(e)) => {
            assert_eq!((e.i, e.j), (2, 3));
            assert_eq!(e.value, None);
        },
        _ => panic!("entry expected"),
    }
}

#[test]
fn parse_errors() {
    assert_eq!(parse_line(false, &chars("5"), 7).err(), Some(ParseError::MissingColumn(7)));
    assert_eq!(parse_line(false, &chars(""), 1).err(), Some(ParseError::MissingColumn(1)));
    assert_eq!(parse_line(false, &chars("4 x 4"), 2).err(), Some(ParseError::BadSize(2)));
    assert_eq!(parse_line(true, &chars("a 1"), 3).err(), Some(ParseError::BadIndex(3)));
    assert_eq!(parse_line(true, &chars("1 b 2.0"), 3).err(), Some(ParseError::BadIndex(3)));
    assert_eq!(parse_line(true, &chars("0 1"), 4).err(), Some(ParseError::ZeroIndex(4)));
    assert_eq!(parse_line(true, &chars("1 0"), 4).err(), Some(ParseError::ZeroIndex(4)));
    assert_eq!(parse_line(true, &chars("1  2"), 5).err(), Some(ParseError::BadIndex(5)));
    let r = parse_matrix_market(&lines(&["2 2 3", "1 1", "2 2"]));
    assert_eq!(r.err(), Some(ParseError::CountMismatch { expected: 3, found: 2 }));
    let r = parse_matrix_market(&lines(&["2 2 1", "1 1", "x 2", "0 0"]));
    assert_eq!(r.err(), Some(ParseError::BadIndex(2)));
}

#[test]
fn parse_pattern_file() {
    let (entries, m, n) = parse_matrix_market(&lines(&[
        "%%MatrixMarket matrix coordinate pattern general",
        "% a comment",
        "3 2 2",
        "1 2",
        "3 1",
    ]))
    .unwrap();
    assert_eq!((m, n), (3, 2));
    assert_eq!(entries.len(), 2);
    assert_eq!((entries[0].i, entries[0].j, entries[0].value.is_none()), (0, 1, true));
    assert_eq!((entries[1].i, entries[1].j), (2, 0));
}

#[test]
fn parse_without_size_line() {
    let (entries, m, n) = parse_matrix_market(&lines(&["% nothing"])).unwrap();
    assert!(entries.is_empty());
    assert_eq!((m, n), (0, 0));
}

#[test]
fn coo_bandwidth_and_reading() {
    let f = coo::parse_coordinate_lines(&lines(&[
        "% header",
        "4 3 4",
        "1 1 5",
        "2 2 8",
        "3 3 3",
        "4 2 6",
        "2 3",
    ]))
    .unwrap();
    assert_eq!(f.matrix.i_size, Some(4));
    assert_eq!(f.matrix.j_size, Some(3));
    assert_eq!(f.matrix.v_size, Some(4));
    assert_eq!(f.matrix.i, vec![1, 2, 3, 4, 2]);
    assert_eq!(f.matrix.j, vec![1, 2, 3, 2, 3]);
    assert_eq!(f.values, vec![chars("5"), chars("8"), chars("3"), chars("6")]);
    assert_eq!(f.matrix.bandwidth(), 2);
    let e = coo::Matrix::new();
    assert_eq!(e.bandwidth(), 0);
    assert!(e.i_size.is_none() && e.j_size.is_none() && e.v_size.is_none());
}

#[test]
fn coo_errors() {
    let r = coo::parse_coordinate_lines(&lines(&["4 3 x"]));
    assert_eq!(r.err(), Some(ParseError::BadSize(0)));
    let r = coo::parse_coordinate_lines(&lines(&["4 3 4", "1"]));
    assert_eq!(r.err(), Some(ParseError::MissingColumn(1)));
    let r = coo::parse_coordinate_lines(&lines(&["4 99999999999 4"]));
    assert_eq!(r.err(), Some(ParseError::BadIndex(0)));
}

#[test]
fn local_search_changes_nothing_but_bw() {
    let mut m = square();
    m.labels = vec![1, 0, 3, 2];
    let mut solution = vec![3, 1, 2, 0];
    let improved = m.local_search(&mut solution);
    assert!(improved.is_empty());
    assert_eq!(solution, vec![3, 1, 2, 0]);
    assert_eq!(m.bw, 2);
    assert_eq!(m.labels, vec![1, 0, 3, 2]);
}

#[test]
fn ils_reorders_and_records_bandwidth() {
    let mut m = square();
    m.ils();
    assert_eq!(m.bw, 2);
    let mut r = square();
    r.cmr_reorder(0);
    assert_eq!(m.col_index, r.col_index);
    assert_eq!(m.row_index, r.row_index);
}

#[test]
fn reversed_labels_keep_bandwidth() {
    let mut a = square();
    a.labels = vec![2, 0, 3, 1];
    let mut b = square();
    b.labels = a.labels.iter().map(|&x| 3 - x).collect();
    assert_eq!(a.bandwidth(), b.bandwidth());
    assert_eq!(a.bandwidth(), 2);
}

#[test]
fn reorder_keeps_nonzeros_and_sorts_rows() {
    for p in [vec![2, 0, 3, 1], vec![3, 2, 1, 0], vec![1, 0, 3, 2]] {
        let mut b = square();
        b.reorder(&p);
        assert_eq!(b.col_index.len(), square().col_index.len());
        for r in 0..b.m {
            let row = &b.col_index[b.row_index[r]..b.row_index[r + 1]];
            assert!(row.windows(2).all(|w| w[0] <= w[1]));
        }
    }
    let mut w = wide();
    w.reorder(&[5, 4, 0, 2, 1, 3]);
    assert_eq!(w.col_index.len(), wide().col_index.len());
}

#[test]
fn reorder_then_inverse_gives_matrix_back() {
    let p = vec![2, 0, 3, 1];
    let mut q = vec![0; 4];
    for (i, &x) in p.iter().enumerate() {
        q[x] = i;
    }
    let a = square();
    let mut c = square();
    let s1 = c.reorder(&p);
    let s2 = c.reorder(&q);
    assert_eq!(c.m, a.m);
    assert_eq!(c.row_index, a.row_index);
    assert_eq!(c.col_index, a.col_index);
    for k in 0..s2.len() {
        assert_eq!(s1[s2[k]], k);
    }
}

#[test]
fn cmr_reorder_and_relabel_find_same_criticals() {
    let mut b = square();
    let order = b.cmr_reorder(0);
    let mut c = square();
    c.labels = order;
    assert_eq!(b.criticals(), c.criticals());
}
