//! Matrices in coordinate form, numbered from 1 as in the file.
use vstd::prelude::*;
use crate::mtx::{
    chars_of, find_space, first_space, lines_view, parse_usize, spec_parse_usize, split3, trim,
    trim_chars, ParseError,
};

verus! {

/// Pattern of a matrix in coordinate form: nonzero `k` sits in row `i[k]`
/// and column `j[k]`; the sizes are those of the file's size line.
#[derive(Clone, Debug)]
pub struct Matrix {
    pub i_size: Option<u32>,
    pub j_size: Option<u32>,
    pub v_size: Option<u32>,
    pub i: Vec<u32>,
    pub j: Vec<u32>,
}

/// Distance between two indices.
pub open spec fn dist32(a: u32, b: u32) -> nat {
    if a >= b { (a - b) as nat } else { (b - a) as nat }
}

/// Largest `|i[k] - j[k]|` over the first `k` positions of both sequences.
pub open spec fn max_dist_upto(i: Seq<u32>, j: Seq<u32>, k: int) -> nat
    decreases k,
{
    if k <= 0 {
        0
    } else {
        let d = dist32(i[k - 1], j[k - 1]);
        let r = max_dist_upto(i, j, k - 1);
        if d > r { d } else { r }
    }
}

impl Matrix {
    /// An empty matrix without sizes.
    pub fn new() -> (matrix: Self)
        ensures
            matrix.i_size is None,
            matrix.j_size is None,
            matrix.v_size is None,
            matrix.i@.len() == 0,
            matrix.j@.len() == 0,
    {
        Matrix { i_size: None, j_size: None, v_size: None, i: Vec::new(), j: Vec::new() }
    }

    /// Number of positions that have both a row and a column.
    pub open spec fn pairs(&self) -> int {
        if self.i@.len() <= self.j@.len() { self.i@.len() as int } else { self.j@.len() as int }
    }

    /// Bandwidth: the largest `|i - j|` over the nonzeros.
    pub fn bandwidth(&self) -> (bandwidth: u32)
        ensures
            bandwidth == max_dist_upto(self.i@, self.j@, self.pairs()),
            forall|t: int|
                0 <= t < self.pairs() ==> #[trigger] self.i@[t] - self.j@[t] <= bandwidth && self.j@[t] - self.i@[t] <= bandwidth,
            bandwidth == 0 || exists|t: int|
                0 <= t < self.pairs() && (bandwidth == #[trigger] self.i@[t] - self.j@[t] || bandwidth == self.j@[t] - self.i@[t]),
    {
        proof {
            self.lemma_bandwidth_is_max();
        }
        let mut bandwidth: u32 = 0;
        let mut k: usize = 0;
        while k < self.i.len() && k < self.j.len()
            invariant
                k <= self.pairs(),
                bandwidth == max_dist_upto(self.i@, self.j@, k as int),
            decreases self.i@.len() - k,
        {
            let a = self.i[k];
            let b = self.j[k];
            let d: u32 = if a >= b { a - b } else { b - a };
            if d > bandwidth {
                bandwidth = d;
            }
            k += 1;
        }
        bandwidth
    }
}

/// The bandwidth of the first `k` positions is the largest `|i - j|` among
/// them, counted on both sides of the diagonal: it bounds `i[t] - j[t]` and
/// `j[t] - i[t]` for every position `t < k`, one of them reaches it unless
/// it is 0, and exchanging rows and columns (transposing) keeps it.
pub proof fn lemma_max_dist_upto(i: Seq<u32>, j: Seq<u32>, k: int)
    requires
        0 <= k <= i.len(),
        k <= j.len(),
    ensures
        forall|t: int| 0 <= t < k ==> i[t] - j[t] <= #[trigger] max_dist_upto(i, j, k) && j[t] - i[t] <= max_dist_upto(i, j, k),
        max_dist_upto(i, j, k) == 0 || exists|t: int|
            0 <= t < k && (max_dist_upto(i, j, k) == #[trigger] i[t] - j[t] || max_dist_upto(i, j, k) == j[t] - i[t]),
        max_dist_upto(j, i, k) == max_dist_upto(i, j, k),
    decreases k,
{
    if k > 0 {
        lemma_max_dist_upto(i, j, k - 1);
        assert forall|t: int| 0 <= t < k implies i[t] - j[t] <= #[trigger] max_dist_upto(i, j, k) && j[t] - i[t] <= max_dist_upto(i, j, k) by {
            if t < k - 1 {
                assert(i[t] - j[t] <= max_dist_upto(i, j, k - 1));
            }
        }
        if max_dist_upto(i, j, k) != 0 && max_dist_upto(i, j, k) == max_dist_upto(i, j, k - 1) {
            let t = choose|t: int|
                0 <= t < k - 1 && (max_dist_upto(i, j, k - 1) == #[trigger] i[t] - j[t] || max_dist_upto(i, j, k - 1) == j[t] - i[t]);
            assert(0 <= t < k && (max_dist_upto(i, j, k) == i[t] - j[t] || max_dist_upto(i, j, k) == j[t] - i[t]));
        }
        if max_dist_upto(i, j, k) != max_dist_upto(i, j, k - 1) {
            let t = k - 1;
            assert(max_dist_upto(i, j, k) == i[t] - j[t] || max_dist_upto(i, j, k) == j[t] - i[t]);
        }
    }
}

impl Matrix {
    /// The bandwidth that `bandwidth` computes is the largest `|i - j|`
    /// over the nonzeros, on either side of the diagonal, and the
    /// transposed matrix (rows and columns exchanged) has the same.
    pub proof fn lemma_bandwidth_is_max(&self)
        ensures
            forall|t: int|
                0 <= t < self.pairs() ==> #[trigger] self.i@[t] - self.j@[t] <= max_dist_upto(self.i@, self.j@, self.pairs())
                    && self.j@[t] - self.i@[t] <= max_dist_upto(self.i@, self.j@, self.pairs()),
            max_dist_upto(self.i@, self.j@, self.pairs()) == 0 || exists|t: int|
                0 <= t < self.pairs() && (max_dist_upto(self.i@, self.j@, self.pairs()) == #[trigger] self.i@[t] - self.j@[t]
                    || max_dist_upto(self.i@, self.j@, self.pairs()) == self.j@[t] - self.i@[t]),
            max_dist_upto(self.j@, self.i@, self.pairs()) == max_dist_upto(self.i@, self.j@, self.pairs()),
    {
        lemma_max_dist_upto(self.i@, self.j@, self.pairs());
    }
}

/// The number that `str::parse::<u32>` reads from `s`.
pub open spec fn spec_parse_u32(s: Seq<char>) -> Option<nat> {
    match spec_parse_usize(s) {
        Some(x) => if x <= u32::MAX { Some(x) } else { None },
        None => None,
    }
}

pub fn parse_u32(s: &[char]) -> (r: Option<u32>)
    ensures
        match r {
            Some(v) => spec_parse_u32(s@) == Some(v as nat),
            None => spec_parse_u32(s@) is None,
        },
{
    match parse_usize(s) {
        Some(x) => if x <= 0xffff_ffff {
            Some(x as u32)
        } else {
            None
        },
        None => None,
    }
}

/// Reading state: whether the size line was seen, the sizes, the rows and
/// columns read, and the value texts read after the size line.
pub type CooState = (bool, Option<u32>, Option<u32>, Option<u32>, Seq<u32>, Seq<u32>, Seq<Seq<char>>);

/// Reads line `ln`, `s`, in the plain coordinate format.  Lines starting
/// with `%` are skipped.  Every other line needs a row and a column, both
/// `u32`.  The first line with a third field gives the sizes (the third
/// field, a `u32`, is the number of entries); after it a third field is a
/// value, kept as trimmed text.  Rows and columns of the other lines are
/// kept.
pub open spec fn coo_line(st: CooState, s: Seq<char>, ln: usize) -> Result<CooState, ParseError> {
    if s.len() > 0 && s[0] == '%' {
        Ok(st)
    } else {
        let p = split3(s);
        match p.1 {
            None => Err(ParseError::MissingColumn(ln)),
            Some(b) => match (spec_parse_u32(trim(p.0)), spec_parse_u32(trim(b))) {
                (Some(i), Some(j)) => match p.2 {
                    Some(c) => if !st.0 {
                        match spec_parse_u32(trim(c)) {
                            Some(v) => Ok((true, Some(i as u32), Some(j as u32), Some(v as u32), st.4, st.5, st.6)),
                            None => Err(ParseError::BadSize(ln)),
                        }
                    } else {
                        Ok((st.0, st.1, st.2, st.3, st.4.push(i as u32), st.5.push(j as u32), st.6.push(trim(c))))
                    },
                    None => Ok((st.0, st.1, st.2, st.3, st.4.push(i as u32), st.5.push(j as u32), st.6)),
                },
                _ => Err(ParseError::BadIndex(ln)),
            },
        }
    }
}

/// State after the first `k` lines, or the error of the first bad line.
pub open spec fn coo_prefix(lines: Seq<Seq<char>>, k: int) -> Result<CooState, ParseError>
    decreases k,
{
    if k <= 0 {
        Ok((false, None, None, None, Seq::empty(), Seq::empty(), Seq::empty()))
    } else {
        match coo_prefix(lines, k - 1) {
            Err(e) => Err(e),
            Ok(st) => coo_line(st, lines[k - 1], (k - 1) as usize),
        }
    }
}

/// A file in coordinate form: its pattern and the texts of its values.
#[derive(Clone, Debug)]
pub struct CooFile {
    pub matrix: Matrix,
    pub values: Vec<Vec<char>>,
}

impl CooFile {
    pub open spec fn state(&self) -> CooState {
        (
            self.matrix.i_size is Some,
            self.matrix.i_size,
            self.matrix.j_size,
            self.matrix.v_size,
            self.matrix.i@,
            self.matrix.j@,
            self.values@.map_values(|v: Vec<char>| v@),
        )
    }
}

/// Reads the lines of a coordinate file as `coo_prefix` says.
pub fn parse_coordinate_lines(lines: &[String]) -> (r: Result<CooFile, ParseError>)
    ensures
        match r {
            Ok(f) => coo_prefix(lines_view(lines@), lines@.len() as int) == Ok::<CooState, ParseError>(f.state()),
            Err(e) => coo_prefix(lines_view(lines@), lines@.len() as int) == Err::<CooState, ParseError>(e),
        },
{
    let ghost lv = lines_view(lines@);
    let mut f = CooFile { matrix: Matrix::new(), values: Vec::new() };
    proof {
        assert(f.values@.map_values(|v: Vec<char>| v@) =~= Seq::<Seq<char>>::empty());
        assert(f.matrix.i@ =~= Seq::<u32>::empty());
        assert(f.matrix.j@ =~= Seq::<u32>::empty());
    }
    let mut k: usize = 0;
    while k < lines.len()
        invariant
            lv == lines_view(lines@),
            k <= lines@.len(),
            coo_prefix(lv, k as int) == Ok::<CooState, ParseError>(f.state()),
            f.matrix.i_size is Some <==> f.matrix.j_size is Some,
        decreases lines@.len() - k,
    {
        let line = chars_of(lines[k].as_str());
        proof {
            assert(lv[k as int] == lines@[k as int]@);
        }
        match coo_step(&mut f, line.as_slice(), k) {
            Ok(()) => {},
            Err(e) => {
                proof {
                    lemma_coo_error(lv, k as int + 1, e);
                }
                return Err(e);
            },
        }
        k += 1;
    }
    Ok(f)
}

/// Once a line is bad, the error stays.
pub proof fn lemma_coo_error(lines: Seq<Seq<char>>, k: int, e: ParseError)
    requires
        0 <= k <= lines.len(),
        coo_prefix(lines, k) == Err::<CooState, ParseError>(e),
    ensures
        coo_prefix(lines, lines.len() as int) == Err::<CooState, ParseError>(e),
    decreases lines.len() - k,
{
    if k < lines.len() {
        lemma_coo_error(lines, k + 1, e);
    }
}

/// Reads one line into `f`, as `coo_line` says.
fn coo_step(f: &mut CooFile, line: &[char], ln: usize) -> (r: Result<(), ParseError>)
    requires
        old(f).matrix.i_size is Some <==> old(f).matrix.j_size is Some,
    ensures
        final(f).matrix.i_size is Some <==> final(f).matrix.j_size is Some,
        match r {
            Ok(()) => coo_line(old(f).state(), line@, ln) == Ok::<CooState, ParseError>(final(f).state()),
            Err(e) => coo_line(old(f).state(), line@, ln) == Err::<CooState, ParseError>(e),
        },
{
    if line.len() > 0 && line[0] == '%' {
        return Ok(());
    }
    proof {
        assert(line@.skip(0) =~= line@);
    }
    let k1 = match find_space(line, 0) {
        Some(k) => k,
        None => {
            return Err(ParseError::MissingColumn(ln));
        },
    };
    let a = trim_chars(&line[0..k1]);
    let k2 = find_space(line, k1 + 1);
    let ghost rest = line@.skip(k1 + 1);
    let b: Vec<char>;
    let c: Option<Vec<char>>;
    match k2 {
        Some(k) => {
            b = trim_chars(&line[k1 + 1..k]);
            c = Some(trim_chars(&line[k + 1..line.len()]));
            proof {
                assert(rest.take(k - (k1 + 1)) =~= line@.subrange(k1 + 1, k as int));
                assert(rest.skip(k - (k1 + 1) + 1) =~= line@.subrange(k + 1, line@.len() as int));
            }
        },
        None => {
            b = trim_chars(&line[k1 + 1..line.len()]);
            c = None;
            proof {
                assert(rest =~= line@.subrange(k1 + 1, line@.len() as int));
            }
        },
    }
    proof {
        assert(line@.take(k1 as int) =~= line@.subrange(0, k1 as int));
    }
    let i = parse_u32(a.as_slice());
    let j = parse_u32(b.as_slice());
    let (i, j) = match (i, j) {
        (Some(i), Some(j)) => (i, j),
        _ => {
            return Err(ParseError::BadIndex(ln));
        },
    };
    match c {
        Some(cv) => {
            if f.matrix.i_size.is_none() {
                match parse_u32(cv.as_slice()) {
                    Some(v) => {
                        f.matrix.i_size = Some(i);
                        f.matrix.j_size = Some(j);
                        f.matrix.v_size = Some(v);
                        return Ok(());
                    },
                    None => {
                        return Err(ParseError::BadSize(ln));
                    },
                }
            }
            let ghost before = f.values@.map_values(|v: Vec<char>| v@);
            let ghost cv_view = cv@;
            f.values.push(cv);
            proof {
                assert(f.values@.map_values(|v: Vec<char>| v@) =~= before.push(cv_view));
            }
        },
        None => {},
    }
    f.matrix.i.push(i);
    f.matrix.j.push(j);
    Ok(())
}

} // verus!
