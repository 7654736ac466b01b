//! Matrix Market coordinate files.
use vstd::prelude::*;

verus! {

/// The characters of `s`.
pub fn chars_of(s: &str) -> (r: Vec<char>)
    ensures
        r@ == s@,
{
    let mut r: Vec<char> = Vec::new();
    for c in it: s.chars()
        invariant
            r@ == it.seq().take(it.index() as int),
    {
        r.push(c);
    }
    r
}

/// `c` has the Unicode `White_Space` property, as `char::is_whitespace`
/// decides.
pub open spec fn is_ws(c: char) -> bool {
    let x = c as u32;
    (0x09 <= x <= 0x0d) || x == 0x20 || x == 0x85 || x == 0xa0 || x == 0x1680 || (0x2000 <= x
        <= 0x200a) || x == 0x2028 || x == 0x2029 || x == 0x202f || x == 0x205f || x == 0x3000
}

pub fn is_whitespace(c: char) -> (b: bool)
    ensures
        b == is_ws(c),
{
    let x = c as u32;
    (0x09 <= x && x <= 0x0d) || x == 0x20 || x == 0x85 || x == 0xa0 || x == 0x1680 || (0x2000 <= x
        && x <= 0x200a) || x == 0x2028 || x == 0x2029 || x == 0x202f || x == 0x205f || x == 0x3000
}

/// `s` without its leading whitespace.
pub open spec fn trim_start(s: Seq<char>) -> Seq<char>
    decreases s.len(),
{
    if s.len() > 0 && is_ws(s[0]) {
        trim_start(s.drop_first())
    } else {
        s
    }
}

/// `s` without its trailing whitespace.
pub open spec fn trim_end(s: Seq<char>) -> Seq<char>
    decreases s.len(),
{
    if s.len() > 0 && is_ws(s.last()) {
        trim_end(s.drop_last())
    } else {
        s
    }
}

/// `s` without leading and trailing whitespace, as `str::trim` leaves it.
pub open spec fn trim(s: Seq<char>) -> Seq<char> {
    trim_end(trim_start(s))
}

pub proof fn lemma_trim_start_skip(s: Seq<char>, k: int)
    requires
        0 <= k <= s.len(),
        forall|j: int| 0 <= j < k ==> is_ws(#[trigger] s[j]),
    ensures
        trim_start(s) == trim_start(s.skip(k)),
    decreases k,
{
    if k > 0 {
        assert(s.skip(1) =~= s.drop_first());
        lemma_trim_start_skip(s.drop_first(), k - 1);
        assert(s.drop_first().skip(k - 1) =~= s.skip(k));
    } else {
        assert(s.skip(0) =~= s);
    }
}

pub proof fn lemma_trim_end_take(s: Seq<char>, k: int)
    requires
        0 <= k <= s.len(),
        forall|j: int| k <= j < s.len() ==> is_ws(#[trigger] s[j]),
    ensures
        trim_end(s) == trim_end(s.take(k)),
    decreases s.len() - k,
{
    if k < s.len() {
        assert(s.take(s.len() - 1) =~= s.drop_last());
        lemma_trim_end_take(s.drop_last(), k);
        assert(s.drop_last().take(k) =~= s.take(k));
    } else {
        assert(s.take(k) =~= s);
    }
}

/// `s` trimmed.
pub fn trim_chars(s: &[char]) -> (r: Vec<char>)
    ensures
        r@ == trim(s@),
{
    let mut a: usize = 0;
    while a < s.len() && is_whitespace(s[a])
        invariant
            a <= s@.len(),
            forall|j: int| 0 <= j < a ==> is_ws(#[trigger] s@[j]),
        decreases s@.len() - a,
    {
        a += 1;
    }
    proof {
        lemma_trim_start_skip(s@, a as int);
    }
    let ghost rest = s@.skip(a as int);
    proof {
        assert(a == s@.len() || !is_ws(rest[0]));
        assert(trim_start(rest) == rest);
    }
    let mut b: usize = s.len();
    while b > a && is_whitespace(s[b - 1])
        invariant
            a <= b <= s@.len(),
            forall|j: int| b <= j < s@.len() ==> is_ws(#[trigger] s@[j]),
        decreases b,
    {
        b -= 1;
    }
    proof {
        lemma_trim_end_take(rest, b - a);
        assert(rest.take(b - a) =~= s@.subrange(a as int, b as int));
        let t = s@.subrange(a as int, b as int);
        assert(t.len() == 0 || !is_ws(t.last()));
        assert(trim_end(t) == t);
    }
    let mut r: Vec<char> = Vec::with_capacity(b - a);
    let mut k: usize = a;
    while k < b
        invariant
            a <= k <= b <= s@.len(),
            r@ == s@.subrange(a as int, k as int),
        decreases b - k,
    {
        r.push(s[k]);
        proof {
            assert(s@.subrange(a as int, k + 1) =~= s@.subrange(a as int, k as int).push(s@[k as int]));
        }
        k += 1;
    }
    r
}

pub open spec fn is_digit(c: char) -> bool {
    0x30 <= (c as u32) <= 0x39
}

pub open spec fn digit_val(c: char) -> nat {
    ((c as u32) - 0x30) as nat
}

/// Value of a string of decimal digits.
pub open spec fn decimal_value(d: Seq<char>) -> nat
    decreases d.len(),
{
    if d.len() == 0 {
        0
    } else {
        decimal_value(d.drop_last()) * 10 + digit_val(d.last())
    }
}

/// `s` without one leading `+`.
pub open spec fn digits_part(s: Seq<char>) -> Seq<char> {
    if s.len() > 0 && s[0] == '+' { s.drop_first() } else { s }
}

/// The number that `str::parse::<usize>` reads from `s`: an optional `+`
/// and then one or more decimal digits, of a value that fits in `usize`.
pub open spec fn spec_parse_usize(s: Seq<char>) -> Option<nat> {
    let d = digits_part(s);
    if d.len() > 0 && (forall|k: int| 0 <= k < d.len() ==> is_digit(#[trigger] d[k])) && decimal_value(d)
        <= usize::MAX {
        Some(decimal_value(d))
    } else {
        None
    }
}

pub proof fn lemma_decimal_prefix(d: Seq<char>, k: int)
    requires
        0 <= k <= d.len(),
    ensures
        decimal_value(d.take(k)) <= decimal_value(d),
    decreases d.len() - k,
{
    if k < d.len() {
        lemma_decimal_prefix(d.drop_last(), k);
        assert(d.drop_last().take(k) =~= d.take(k));
        assert(decimal_value(d) >= decimal_value(d.drop_last())) by (nonlinear_arith)
            requires
                decimal_value(d) == decimal_value(d.drop_last()) * 10 + digit_val(d.last()),
        ;
    } else {
        assert(d.take(k) =~= d);
    }
}

/// Reads a `usize` as `str::parse::<usize>` does.
pub fn parse_usize(s: &[char]) -> (r: Option<usize>)
    ensures
        match r {
            Some(v) => spec_parse_usize(s@) == Some(v as nat),
            None => spec_parse_usize(s@) is None,
        },
{
    let start: usize = if s.len() > 0 && s[0] == '+' { 1 } else { 0 };
    let ghost d = digits_part(s@);
    proof {
        assert(d =~= s@.skip(start as int));
    }
    if start == s.len() {
        return None;
    }
    let mut v: usize = 0;
    let mut k: usize = start;
    while k < s.len()
        invariant
            start <= k <= s@.len(),
            start < s@.len(),
            d =~= s@.skip(start as int),
            d == digits_part(s@),
            forall|j: int| 0 <= j < k - start ==> is_digit(#[trigger] d[j]),
            v == decimal_value(d.take(k - start)),
        decreases s@.len() - k,
    {
        let c = s[k];
        let x = c as u32;
        if x < 0x30 || x > 0x39 {
            proof {
                assert(d[k - start] == c);
                assert(!is_digit(d[k - start]));
                assert(!(forall|j: int| 0 <= j < d.len() ==> is_digit(#[trigger] d[j])));

            }
            return None;
        }
        let dig = (x - 0x30) as usize;
        proof {
            assert(d.take(k - start + 1).drop_last() =~= d.take(k - start));
            assert(d.take(k - start + 1).last() == c);
        }
        match v.checked_mul(10) {
            Some(t) => match t.checked_add(dig) {
                Some(w) => {
                    v = w;
                },
                None => {
                    proof {
                        let pre = d.take(k - start + 1);
                        assert(pre.drop_last() =~= d.take(k - start));
                        assert(digit_val(pre.last()) == dig);
                        assert(decimal_value(pre) == v * 10 + dig);
                        lemma_decimal_prefix(d, k - start + 1);
                    }
                    return None;
                },
            },
            None => {
                proof {
                    lemma_decimal_prefix(d, k - start + 1);
                    assert(decimal_value(d.take(k - start + 1)) >= v * 10);
                }
                return None;
            },
        }
        k += 1;
    }
    proof {
        assert(d.take(k - start) =~= d);
    }
    Some(v)
}

/// Position of the first space in `s`, if any.
pub open spec fn first_space(s: Seq<char>) -> Option<nat>
    decreases s.len(),
{
    if s.len() == 0 {
        None
    } else if s[0] == ' ' {
        Some(0)
    } else {
        match first_space(s.drop_first()) {
            Some(k) => Some(k + 1),
            None => None,
        }
    }
}

proof fn lemma_first_space_is(s: Seq<char>, k: int)
    requires
        0 <= k <= s.len(),
        forall|j: int| 0 <= j < k ==> #[trigger] s[j] != ' ',
    ensures
        k < s.len() && s[k] == ' ' ==> first_space(s) == Some(k as nat),
        k == s.len() ==> first_space(s) is None,
    decreases k,
{
    if k > 0 {
        lemma_first_space_is(s.drop_first(), k - 1);
    }
}

/// Position of the first space in `s[from..]`, counted from `from`.
pub fn find_space(s: &[char], from: usize) -> (r: Option<usize>)
    requires
        from <= s@.len(),
    ensures
        match r {
            Some(k) => from <= k < s@.len() && first_space(s@.skip(from as int)) == Some((k - from) as nat),
            None => first_space(s@.skip(from as int)) is None,
        },
{
    let ghost t = s@.skip(from as int);
    let mut k: usize = from;
    while k < s.len()
        invariant
            from <= k <= s@.len(),
            t == s@.skip(from as int),
            forall|j: int| 0 <= j < k - from ==> #[trigger] t[j] != ' ',
        decreases s@.len() - k,
    {
        if s[k] == ' ' {
            proof {
                lemma_first_space_is(t, k - from);
            }
            return Some(k);
        }
        k += 1;
    }
    proof {
        lemma_first_space_is(t, k - from);
    }
    None
}

/// The pieces that `str::splitn(3, ' ')` makes of `s`: up to the first
/// space, up to the second space, and the rest.
pub open spec fn split3(s: Seq<char>) -> (Seq<char>, Option<Seq<char>>, Option<Seq<char>>) {
    match first_space(s) {
        None => (s, None, None),
        Some(k) => {
            let rest = s.skip(k as int + 1);
            match first_space(rest) {
                None => (s.take(k as int), Some(rest), None),
                Some(k2) => (s.take(k as int), Some(rest.take(k2 as int)), Some(rest.skip(k2 as int + 1))),
            }
        },
    }
}

/// How an entry line with at least two spaces reads: with `k1` the first
/// space and `k2` the next one, the row and column are the numbers written
/// (trimmed) before `k1` and between `k1` and `k2`, minus one, and the value
/// text is everything after `k2`, trimmed as `str::trim` trims it, sign and
/// all.  After the size line, such a line whose two numbers are positive is
/// always an entry.
pub proof fn lemma_entry_fields(header: bool, s: Seq<char>, ln: usize, k1: int, k2: int)
    requires
        0 <= k1 < k2 < s.len(),
        s[k1] == ' ',
        s[k2] == ' ',
        forall|t: int| 0 <= t < k2 && t != k1 ==> #[trigger] s[t] != ' ',
    ensures
        spec_line(header, s, ln) matches Ok(LineSpec::Entry(i, j, val)) ==> {
            &&& val == Some(trim(s.skip(k2 + 1)))
            &&& spec_parse_usize(trim(s.take(k1))) == Some((i + 1) as nat)
            &&& spec_parse_usize(trim(s.subrange(k1 + 1, k2))) == Some((j + 1) as nat)
        },
        (header && s[0] != '%' && spec_parse_usize(trim(s.take(k1))) is Some && spec_parse_usize(trim(s.take(k1)))->0 > 0
            && spec_parse_usize(trim(s.subrange(k1 + 1, k2))) is Some && spec_parse_usize(trim(s.subrange(k1 + 1, k2)))->0
            > 0) ==> (spec_line(header, s, ln) is Ok && spec_line(header, s, ln)->Ok_0 is Entry),
{
    lemma_first_space_is(s, k1);
    let rest = s.skip(k1 + 1);
    assert forall|t: int| 0 <= t < k2 - k1 - 1 implies #[trigger] rest[t] != ' ' by {
        assert(rest[t] == s[k1 + 1 + t]);
    }
    assert(rest[k2 - k1 - 1] == s[k2]);
    lemma_first_space_is(rest, k2 - k1 - 1);
    assert(rest.take(k2 - k1 - 1) =~= s.subrange(k1 + 1, k2));
    assert(rest.skip(k2 - k1) =~= s.skip(k2 + 1));
}

/// Why a list of lines is not a coordinate file.
#[derive(Clone, Copy, Debug, PartialEq, Eq)]
pub enum ParseError {
    /// The line has no second field.
    MissingColumn(usize),
    /// A number of the size line is not a `usize`.
    BadSize(usize),
    /// A row or column index of the line is not a `usize`.
    BadIndex(usize),
    /// A row or column index of the line is 0; indices start at 1.
    ZeroIndex(usize),
    /// The size line announced `expected` entries but `found` were read.
    CountMismatch { expected: usize, found: usize },
}

/// What a line holds.
pub enum LineSpec {
    Comment,
    Size(usize, usize, usize),
    Entry(usize, usize, Option<Seq<char>>),
}

/// Reads line number `ln`, `s`, given whether the size line was seen.  A
/// line that starts with `%` is a comment.  The first line with three
/// fields is the size line `rows columns entries`.  Any other line is an
/// entry `row column [value]`, numbered from 1; the value, trimmed, is left
/// as text.
pub open spec fn spec_line(header: bool, s: Seq<char>, ln: usize) -> Result<LineSpec, ParseError> {
    if s.len() > 0 && s[0] == '%' {
        Ok(LineSpec::Comment)
    } else {
        let p = split3(s);
        match p.1 {
            None => Err(ParseError::MissingColumn(ln)),
            Some(b) => {
                let i = trim(p.0);
                let j = trim(b);
                if p.2 is Some && !header {
                    match (spec_parse_usize(trim(p.2->0)), spec_parse_usize(i), spec_parse_usize(j)) {
                        (Some(nz), Some(m), Some(n)) => Ok(LineSpec::Size(m as usize, n as usize, nz as usize)),
                        _ => Err(ParseError::BadSize(ln)),
                    }
                } else {
                    let value = match p.2 {
                        Some(c) => Some(trim(c)),
                        None => None,
                    };
                    match spec_parse_usize(i) {
                        None => Err(ParseError::BadIndex(ln)),
                        Some(iv) => if iv == 0 {
                            Err(ParseError::ZeroIndex(ln))
                        } else {
                            match spec_parse_usize(j) {
                                None => Err(ParseError::BadIndex(ln)),
                                Some(jv) => if jv == 0 {
                                    Err(ParseError::ZeroIndex(ln))
                                } else {
                                    Ok(LineSpec::Entry((iv - 1) as usize, (jv - 1) as usize, value))
                                },
                            }
                        },
                    }
                }
            },
        }
    }
}

/// An entry of a coordinate file: row and column from 0, and the value's
/// text, trimmed, when the line has one.
#[derive(Clone, Debug)]
pub struct MtxEntry {
    pub i: usize,
    pub j: usize,
    pub value: Option<Vec<char>>,
}

impl View for MtxEntry {
    type V = (usize, usize, Option<Seq<char>>);

    open spec fn view(&self) -> (usize, usize, Option<Seq<char>>) {
        (
            self.i,
            self.j,
            match &self.value {
                Some(v) => Some(v@),
                None => None,
            },
        )
    }
}

/// What a line holds.
#[derive(Clone, Debug)]
pub enum MtxLine {
    Comment,
    Size(usize, usize, usize),
    Entry(MtxEntry),
}

impl MtxLine {
    pub open spec fn spec(&self) -> LineSpec {
        match self {
            MtxLine::Comment => LineSpec::Comment,
            MtxLine::Size(m, n, nz) => LineSpec::Size(*m, *n, *nz),
            MtxLine::Entry(e) => LineSpec::Entry(e@.0, e@.1, e@.2),
        }
    }
}

/// Reads line number `ln` of a coordinate file, as `spec_line` says.
pub fn parse_line(header: bool, line: &[char], ln: usize) -> (r: Result<MtxLine, ParseError>)
    ensures
        match r {
            Ok(l) => spec_line(header, line@, ln) == Ok::<LineSpec, ParseError>(l.spec()),
            Err(e) => spec_line(header, line@, ln) == Err::<LineSpec, ParseError>(e),
        },
{
    if line.len() > 0 && line[0] == '%' {
        return Ok(MtxLine::Comment);
    }
    let k1 = match find_space(line, 0) {
        Some(k) => k,
        None => {
            proof {
                assert(line@.skip(0) =~= line@);
            }
            return Err(ParseError::MissingColumn(ln));
        },
    };
    proof {
        assert(line@.skip(0) =~= line@);
    }
    let a = trim_chars(&line[0..k1]);
    let k2 = find_space(line, k1 + 1);
    let ghost rest = line@.skip(k1 + 1);
    let b: Vec<char>;
    let c: Option<Vec<char>>;
    match k2 {
        Some(k) => {
            b = trim_chars(&line[k1 + 1..k]);
            c = Some(trim_chars(&line[k + 1..line.len()]));
            proof {
                assert(rest.take(k - (k1 + 1)) =~= line@.subrange(k1 + 1, k as int));
                assert(rest.skip(k - (k1 + 1) + 1) =~= line@.subrange(k + 1, line@.len() as int));
            }
        },
        None => {
            b = trim_chars(&line[k1 + 1..line.len()]);
            c = None;
            proof {
                assert(rest =~= line@.subrange(k1 + 1, line@.len() as int));
            }
        },
    }
    proof {
        assert(line@.take(k1 as int) =~= line@.subrange(0, k1 as int));
    }
    match c {
        Some(cv) => {
            if !header {
                let nz = parse_usize(cv.as_slice());
                let m = parse_usize(a.as_slice());
                let n = parse_usize(b.as_slice());
                match (nz, m, n) {
                    (Some(nz), Some(m), Some(n)) => {
                        return Ok(MtxLine::Size(m, n, nz));
                    },
                    _ => {
                        return Err(ParseError::BadSize(ln));
                    },
                }
            }
            parse_entry(a.as_slice(), b.as_slice(), Some(cv), ln)
        },
        None => parse_entry(a.as_slice(), b.as_slice(), None, ln),
    }
}

/// Reads the row and column of an entry line, both numbered from 1.
fn parse_entry(a: &[char], b: &[char], value: Option<Vec<char>>, ln: usize) -> (r: Result<MtxLine, ParseError>)
    ensures
        match r {
            Ok(l) => {
                &&& spec_parse_usize(a@) is Some
                &&& spec_parse_usize(a@)->0 != 0
                &&& spec_parse_usize(b@) is Some
                &&& spec_parse_usize(b@)->0 != 0
                &&& l.spec() == LineSpec::Entry(
                    (spec_parse_usize(a@)->0 - 1) as usize,
                    (spec_parse_usize(b@)->0 - 1) as usize,
                    match &value {
                        Some(v) => Some(v@),
                        None => None,
                    },
                )
            },
            Err(e) => {
                ||| spec_parse_usize(a@) is None && e == ParseError::BadIndex(ln)
                ||| spec_parse_usize(a@) == Some(0nat) && e == ParseError::ZeroIndex(ln)
                ||| spec_parse_usize(a@) matches Some(x) && x != 0 && spec_parse_usize(b@) is None && e
                    == ParseError::BadIndex(ln)
                ||| spec_parse_usize(a@) matches Some(x) && x != 0 && spec_parse_usize(b@) == Some(0nat)
                    && e == ParseError::ZeroIndex(ln)
            },
        },
{
    let iv = match parse_usize(a) {
        Some(x) => x,
        None => {
            return Err(ParseError::BadIndex(ln));
        },
    };
    if iv == 0 {
        return Err(ParseError::ZeroIndex(ln));
    }
    let jv = match parse_usize(b) {
        Some(x) => x,
        None => {
            return Err(ParseError::BadIndex(ln));
        },
    };
    if jv == 0 {
        return Err(ParseError::ZeroIndex(ln));
    }
    Ok(MtxLine::Entry(MtxEntry { i: iv - 1, j: jv - 1, value }))
}

/// Reading state after some lines: whether the size line was seen, the
/// rows, columns and entries it announced, and the entries read.
pub type ReadState = (bool, usize, usize, usize, Seq<(usize, usize, Option<Seq<char>>)>);

/// State after the first `k` lines, or the error of the first bad line.
pub open spec fn spec_parse_prefix(lines: Seq<Seq<char>>, k: int) -> Result<ReadState, ParseError>
    decreases k,
{
    if k <= 0 {
        Ok((false, 0, 0, 0, Seq::empty()))
    } else {
        match spec_parse_prefix(lines, k - 1) {
            Err(e) => Err(e),
            Ok(st) => match spec_line(st.0, lines[k - 1], (k - 1) as usize) {
                Err(e) => Err(e),
                Ok(LineSpec::Comment) => Ok(st),
                Ok(LineSpec::Size(m, n, nz)) => Ok((true, m, n, nz, st.4)),
                Ok(LineSpec::Entry(i, j, v)) => Ok((st.0, st.1, st.2, st.3, st.4.push((i, j, v)))),
            },
        }
    }
}

/// Reads the lines of a coordinate file: the entries, in file order, and
/// the numbers of rows and columns.  The number of entries must be the one
/// the size line announced (0 without a size line).
pub open spec fn spec_parse_file(lines: Seq<Seq<char>>) -> Result<(Seq<(usize, usize, Option<Seq<char>>)>, usize, usize), ParseError> {
    match spec_parse_prefix(lines, lines.len() as int) {
        Err(e) => Err(e),
        Ok(st) => if st.4.len() != st.3 {
            Err(ParseError::CountMismatch { expected: st.3, found: st.4.len() as usize })
        } else {
            Ok((st.4, st.1, st.2))
        },
    }
}

/// The characters of each line.
pub open spec fn lines_view(lines: Seq<String>) -> Seq<Seq<char>> {
    lines.map_values(|l: String| l@)
}

/// Reads the lines of a Matrix Market coordinate file, as
/// `spec_parse_file` says: the entries with rows and columns numbered from
/// 0, the number of rows and the number of columns.
pub fn parse_matrix_market(lines: &[String]) -> (r: Result<(Vec<MtxEntry>, usize, usize), ParseError>)
    ensures
        match r {
            Ok((es, m, n)) => spec_parse_file(lines_view(lines@)) == Ok::<(Seq<(usize, usize, Option<Seq<char>>)>, usize, usize), ParseError>(
                (es@.map_values(|e: MtxEntry| e@), m, n),
            ),
            Err(e) => spec_parse_file(lines_view(lines@)) == Err::<(Seq<(usize, usize, Option<Seq<char>>)>, usize, usize), ParseError>(e),
        },
{
    let ghost lv = lines_view(lines@);
    let mut header: bool = false;
    let mut nz_len: usize = 0;
    let mut m: usize = 0;
    let mut n: usize = 0;
    let mut coordinates: Vec<MtxEntry> = Vec::new();
    let mut k: usize = 0;
    proof {
        assert(coordinates@.map_values(|e: MtxEntry| e@) =~= Seq::<(usize, usize, Option<Seq<char>>)>::empty());
    }
    while k < lines.len()
        invariant
            lv == lines_view(lines@),
            k <= lines@.len(),
            spec_parse_prefix(lv, k as int) == Ok::<ReadState, ParseError>(
                (header, m, n, nz_len, coordinates@.map_values(|e: MtxEntry| e@)),
            ),
        decreases lines@.len() - k,
    {
        let chars = chars_of(lines[k].as_str());
        proof {
            assert(lv[k as int] == lines@[k as int]@);
        }
        match parse_line(header, chars.as_slice(), k) {
            Err(e) => {
                proof {
                    lemma_prefix_error(lv, k as int + 1, e);
                }
                return Err(e);
            },
            Ok(MtxLine::Comment) => {},
            Ok(MtxLine::Size(mm, nn, nz)) => {
                header = true;
                m = mm;
                n = nn;
                nz_len = nz;
            },
            Ok(MtxLine::Entry(e)) => {
                let ghost ev = e@;
                let ghost before = coordinates@.map_values(|e: MtxEntry| e@);
                coordinates.push(e);
                proof {
                    assert(coordinates@.map_values(|e: MtxEntry| e@) =~= before.push(ev));
                }
            },
        }
        k += 1;
    }
    proof {
        assert(lv.len() == lines@.len());
    }
    if coordinates.len() != nz_len {
        return Err(ParseError::CountMismatch { expected: nz_len, found: coordinates.len() });
    }
    Ok((coordinates, m, n))
}

/// Once a line is bad, the error stays.
pub proof fn lemma_prefix_error(lines: Seq<Seq<char>>, k: int, e: ParseError)
    requires
        0 <= k <= lines.len(),
        spec_parse_prefix(lines, k) == Err::<ReadState, ParseError>(e),
    ensures
        spec_parse_prefix(lines, lines.len() as int) == Err::<ReadState, ParseError>(e),
    decreases lines.len() - k,
{
    if k < lines.len() {
        lemma_prefix_error(lines, k + 1, e);
    }
}

} // verus!
