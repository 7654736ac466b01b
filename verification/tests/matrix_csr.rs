use lib::csr::Matrix;
use lib::from_coordinates::{csr_from_coordinates, Element};
use lib::mtx::{parse_matrix_market, MtxEntry};

fn lines(text: &[&str]) -> Vec<String> {
    text.iter().map(|s| s.to_string()).collect()
}

fn test1() -> Vec<String> {
    lines(&[
        "%%MatrixMarket matrix coordinate real general",
        "4 3 4",
        "1 1 5.0",
        "2 2 8.0",
        "3 3 3.0",
        "4 2 6.0",
    ])
}

fn test2() -> Vec<String> {
    lines(&[
        "%%MatrixMarket matrix coordinate real general",
        "4 6 8",
        "1 1 10.0",
        "1 2 20.0",
        "2 2 30.0",
        "2 4 40.0",
        "3 4 60.0",
        "4 6 80.0",
        "3 5 70.0",
        "3 3 50.0",
    ])
}

fn test3() -> Vec<String> {
    lines(&[
        "%%MatrixMarket matrix coordinate real general",
        "4 4 12",
        "1 1 2.0",
        "1 2 3.0",
        "1 4 1.0",
        "2 1 3.0",
        "2 2 2.0",
        "2 4 5.0",
        "3 3 2.0",
        "3 4 4.0",
        "4 1 1.0",
        "4 2 5.0",
        "4 3 4.0",
        "4 4 2.0",
    ])
}

fn value_of(e: &MtxEntry) -> Option<f64> {
    e.value.as_ref().map(|t| t.iter().collect::<String>().parse::<f64>().unwrap())
}

/// The matrix of a coordinate file with its values, as the file reader
/// builds it.
fn load(text: Vec<String>) -> (Matrix, Vec<f64>) {
    let (entries, m, n) = parse_matrix_market(&text).unwrap();
    let elements: Vec<Element> = entries.iter().map(|e| Element { i: e.i, j: e.j }).collect();
    let (matrix, order) = csr_from_coordinates(&elements, m, n);
    let mut v = Vec::new();
    for k in order {
        if let Some(x) = value_of(&entries[k]) {
            v.push(x);
        }
    }
    (matrix, v)
}

fn load_matrix(text: Vec<String>) -> Matrix {
    load(text).0
}


#[test]
fn mm_file_to_csr_test() {
    let (matrix, v) = load(test1());
    assert_eq!(v, [5.0, 8.0, 3.0, 6.0]);
    assert_eq!(matrix.col_index, [0, 1, 2, 1]);
    assert_eq!(matrix.row_index, [0, 1, 2, 3, 4]);
    assert_eq!(matrix.labels, [0, 1, 2, 3]);
    assert_eq!(matrix.m, 4);
    assert_eq!(matrix.n, 3);

    let (matrix, v) = load(test2());
    assert_eq!(v, [10.0, 20.0, 30.0, 40.0, 50.0, 60.0, 70.0, 80.0]);
    assert_eq!(matrix.col_index, [0, 1, 1, 3, 2, 3, 4, 5]);
    assert_eq!(matrix.row_index, [0, 2, 4, 7, 8]);
    assert_eq!(matrix.labels, [0, 1, 2, 3, 4, 5]);
    assert_eq!(matrix.m, 4);
    assert_eq!(matrix.n, 6);

    let (matrix, v) = load(test3());
    assert_eq!(
        v,
        [2.0, 3.0, 1.0, 3.0, 2.0, 5.0, 2.0, 4.0, 1.0, 5.0, 4.0, 2.0]
    );
    assert_eq!(matrix.col_index, [0, 1, 3, 0, 1, 3, 2, 3, 0, 1, 2, 3]);
    assert_eq!(matrix.row_index, [0, 3, 6, 8, 12]);
    assert_eq!(matrix.labels, [0, 1, 2, 3]);
    assert_eq!(matrix.m, 4);
    assert_eq!(matrix.n, 4);
}

#[test]
fn bw_test() {
    let mut matrix = load_matrix(test1());
    assert_eq!(matrix.bandwidth(), 2);
    let start = matrix.col_index[0];
    matrix.cmr_reorder(start);
    assert_eq!(matrix.bandwidth(), 2);

    let mut matrix = load_matrix(test2());
    assert_eq!(matrix.bandwidth(), 2);
    let start = matrix.col_index[0];
    matrix.cmr_reorder(start);
    assert_eq!(matrix.bandwidth(), 2);

    let mut matrix = load_matrix(test3());
    assert_eq!(matrix.bandwidth(), 3);
    let start = matrix.col_index[0];
    matrix.cmr_reorder(start);
    assert_eq!(matrix.bandwidth(), 2);
}

#[test]
fn criticals_neighbours_test() {
    let mut matrix = load_matrix(test1());
    let mut matrix2 = matrix.clone();
    assert_eq!(matrix.criticals(), vec![3]);
    let order = matrix.cmr_reorder(0);
    matrix2.labels = order;
    assert_eq!(matrix.criticals(), matrix2.criticals());

    let mut matrix = load_matrix(test2());
    let mut matrix2 = matrix.clone();
    assert_eq!(matrix.criticals(), vec![1, 2, 3]);
    let order = matrix.cmr_reorder(0);
    matrix2.labels = order;
    assert_eq!(matrix.criticals(), matrix2.criticals());

    let mut matrix = load_matrix(test3());
    let mut matrix2 = matrix.clone();
    assert_eq!(matrix.criticals(), vec![0, 3]);
    let order = matrix.cmr_reorder(0);
    matrix2.labels = order;
    assert_eq!(matrix.criticals(), matrix2.criticals());
}

#[test]
fn labels_degree_test() {
    let mut matrix = load_matrix(test3());
    let mut matrix2 = matrix.clone();
    assert_eq!(matrix.bandwidth(), 3);
    assert_eq!(matrix.degree(0), 3);
    assert_eq!(matrix.degree(1), 3);
    assert_eq!(matrix.degree(2), 2);
    assert_eq!(matrix.degree(3), 4);
    let start = matrix.col_index[0];
    let order = matrix.cmr_reorder(start);
    assert_eq!(matrix.bandwidth(), 2);
    assert_eq!(matrix.degree(0), 2);
    assert_eq!(matrix.degree(1), 4);
    assert_eq!(matrix.degree(2), 3);
    assert_eq!(matrix.degree(3), 3);
    assert_eq!(matrix2.bandwidth(), 3);
    assert_eq!(matrix2.degree(0), 3);
    assert_eq!(matrix2.degree(1), 3);
    assert_eq!(matrix2.degree(2), 2);
    assert_eq!(matrix2.degree(3), 4);
    let _shown = matrix2.labelled_rows();
    matrix2.labels = order;
    assert_eq!(matrix2.bandwidth(), 2);
    assert_eq!(matrix2.degree(0), 4);
    assert_eq!(matrix2.degree(1), 2);
    assert_eq!(matrix2.degree(2), 3);
    assert_eq!(matrix2.degree(3), 3);
}

#[test]
fn cmr_labels_test() {
    let mut matrix = load_matrix(test3());
    let mut matrix2 = matrix.clone();
    let mut matrix3 = matrix.clone();
    matrix.cmr_labels(0);
    assert_eq!(matrix.bandwidth(), 2);
    assert_eq!(matrix.labels, vec![3, 2, 0, 1]);
    matrix2.cmr_labels(2);
    assert_eq!(matrix2.bandwidth(), 2);
    assert_eq!(matrix2.labels, vec![1, 0, 3, 2]);
    matrix3.cmr_labels(3);
    assert_eq!(matrix3.bandwidth(), 3);
    assert_eq!(matrix3.labels, vec![1, 0, 2, 3]);
}
