use lib::mtx::{parse_matrix_market, MtxEntry};

fn lines(text: &[&str]) -> Vec<String> {
    text.iter().map(|s| s.to_string()).collect()
}

/// An entry as the file reader keeps it: value, row and column from 0.
#[derive(Debug, PartialEq)]
struct Element {
    v: Option<f64>,
    i: usize,
    j: usize,
}

fn element(e: &MtxEntry) -> Element {
    Element {
        v: e.value.as_ref().map(|t| t.iter().collect::<String>().parse::<f64>().unwrap()),
        i: e.i,
        j: e.j,
    }
}

fn read(text: Vec<String>) -> (Vec<Element>, usize, usize) {
    let (entries, m, n) = parse_matrix_market(&text).unwrap();
    (entries.iter().map(element).collect(), m, n)
}

#[test]
fn read_matrix_market_file_test() {
    let (coordinates, m, n) = read(lines(&[
        "%%MatrixMarket matrix coordinate real general",
        "4 3 4",
        "1 1 5.0",
        "2 2 8.0",
        "3 3 3.0",
        "4 2 6.0",
    ]));
    let coo = vec![
        Element { v: Some(5.0), i: 0, j: 0 },
        Element { v: Some(8.0), i: 1, j: 1 },
        Element { v: Some(3.0), i: 2, j: 2 },
        Element { v: Some(6.0), i: 3, j: 1 },
    ];
    let mut it = coordinates.iter();
    for el in coo.iter() {
        assert_eq!(Some(el), it.next());
    }
    assert_eq!(coordinates.len(), coo.len());
    assert_eq!(m, 4);
    assert_eq!(n, 3);

    let (coordinates, m, n) = read(lines(&[
        "%%MatrixMarket matrix coordinate real general",
        "4 6 8",
        "1 1 10.0",
        "1 2 20.0",
        "2 2 30.0",
        "2 4 40.0",
        "3 4 60.0",
        "4 6 80.0",
        "3 5 70.0",
        "3 3 50.0",
    ]));
    let coo = vec![
        Element { v: Some(10.0), i: 0, j: 0 },
        Element { v: Some(20.0), i: 0, j: 1 },
        Element { v: Some(30.0), i: 1, j: 1 },
        Element { v: Some(40.0), i: 1, j: 3 },
        Element { v: Some(60.0), i: 2, j: 3 },
        Element { v: Some(80.0), i: 3, j: 5 },
        Element { v: Some(70.0), i: 2, j: 4 },
        Element { v: Some(50.0), i: 2, j: 2 },
    ];
    let mut it = coordinates.iter();
    for el in coo.iter() {
        assert_eq!(Some(el), it.next());
    }
    assert_eq!(coordinates.len(), coo.len());
    assert_eq!(m, 4);
    assert_eq!(n, 6);

    let (coordinates, m, n) = read(lines(&[
        "%%MatrixMarket matrix coordinate real general",
        "4 4 12",
        "1 1 2.0",
        "1 2 3.0",
        "1 4 1.0",
        "2 1 3.0",
        "2 2 2.0",
        "2 4 5.0",
        "3 3 2.0",
        "3 4 4.0",
        "4 1 1.0",
        "4 2 5.0",
        "4 3 4.0",
        "4 4 2.0",
    ]));
    let coo = vec![
        Element { v: Some(2.0), i: 0, j: 0 },
        Element { v: Some(3.0), i: 0, j: 1 },
        Element { v: Some(1.0), i: 0, j: 3 },
        Element { v: Some(3.0), i: 1, j: 0 },
        Element { v: Some(2.0), i: 1, j: 1 },
        Element { v: Some(5.0), i: 1, j: 3 },
        Element { v: Some(2.0), i: 2, j: 2 },
        Element { v: Some(4.0), i: 2, j: 3 },
        Element { v: Some(1.0), i: 3, j: 0 },
        Element { v: Some(5.0), i: 3, j: 1 },
        Element { v: Some(4.0), i: 3, j: 2 },
        Element { v: Some(2.0), i: 3, j: 3 },
    ];
    let mut it = coordinates.iter();
    for el in coo.iter() {
        assert_eq!(Some(el), it.next());
    }
    assert_eq!(coordinates.len(), coo.len());
    assert_eq!(m, 4);
    assert_eq!(n, 4);
}
