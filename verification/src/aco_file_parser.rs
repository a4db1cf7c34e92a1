use vstd::prelude::*;

verus! {

/// Reader of the distance-matrix text format: `c` lines carry comments,
/// a `p` line declares the matrix dimension, and each `i` line carries
/// one row of distances as decimal numbers, stored in thousandths.
pub struct AcoFileParser {
    path: String,
}

/// A parsed distance-matrix file: the declared dimension and the
/// flattened row-major cell values, in thousandths.
pub struct AcoFile {
    pub size: usize,
    pub rows: Vec<u64>,
}

#[derive(Clone, Copy, Debug, PartialEq, Eq, Structural)]
pub enum AcoFileParseError {
    /// The file could not be read (raised by the caller doing the I/O).
    IoError,
    /// A dimension line carries no dimension token.
    NoSizeSet,
    /// The dimension token is not an unsigned decimal number.
    InvalidSizeValue,
    /// A data line appears before any dimension line, or carries the
    /// wrong number of values.
    IvalidFileStructure,
    /// No dimension line was found at all.
    EmptyFile,
}

/// Tokens joined back with single spaces, the inverse of splitting.
pub open spec fn join_spaces(ts: Seq<Seq<u8>>) -> Seq<u8>
    decreases ts.len(),
{
    if ts.len() == 0 {
        Seq::empty()
    } else if ts.len() == 1 {
        ts[0]
    } else {
        join_spaces(ts.drop_last()) + seq![32u8] + ts.last()
    }
}

/// No token holds a space.
pub open spec fn space_free(ts: Seq<Seq<u8>>) -> bool {
    forall|k: int| 0 <= k < ts.len() ==> !(#[trigger] ts[k]).contains(32u8)
}

/// Split a line at single spaces: the tokens are space-free and
/// joining them with single spaces restores the line exactly.
pub fn split_spaces(line: &Vec<u8>) -> (r: Vec<Vec<u8>>)
    ensures
        r@.len() >= 1,
        space_free(r@.map_values(|t: Vec<u8>| t@)),
        join_spaces(r@.map_values(|t: Vec<u8>| t@)) == line@,
{
    let mut tokens: Vec<Vec<u8>> = Vec::new();
    let mut cur: Vec<u8> = Vec::new();
    let mut pos: usize = 0;
    while pos < line.len()
        invariant
            pos <= line@.len(),
            space_free(tokens@.map_values(|t: Vec<u8>| t@)),
            !cur@.contains(32u8),
            join_spaces(tokens@.map_values(|t: Vec<u8>| t@).push(cur@)) == line@.subrange(
                0,
                pos as int,
            ),
        decreases line@.len() - pos,
    {
        let c = line[pos];
        let ghost toks = tokens@.map_values(|t: Vec<u8>| t@);
        let ghost prev_cur = cur@;
        if c == 32 {
            tokens.push(cur);
            cur = Vec::new();
            proof {
                let toks2 = tokens@.map_values(|t: Vec<u8>| t@);
                assert(toks2 =~= toks.push(prev_cur));
                assert(toks2.push(cur@).drop_last() =~= toks.push(prev_cur));
                assert(join_spaces(toks2.push(cur@)) == join_spaces(toks.push(prev_cur)) + seq![
                    32u8,
                ] + cur@);
                assert(join_spaces(toks2.push(cur@)) =~= line@.subrange(0, pos as int + 1));
            }
        } else {
            cur.push(c);
            proof {
                let toks2 = tokens@.map_values(|t: Vec<u8>| t@);
                assert(toks2 =~= toks);
                if toks.len() == 0 {
                    assert(join_spaces(toks2.push(cur@)) == cur@);
                    assert(cur@ =~= line@.subrange(0, pos as int + 1));
                } else {
                    assert(toks2.push(cur@).drop_last() =~= toks.push(prev_cur).drop_last());
                    assert(join_spaces(toks2.push(cur@)) == join_spaces(
                        toks.push(prev_cur).drop_last(),
                    ) + seq![32u8] + cur@);
                    assert(join_spaces(toks.push(prev_cur)) == join_spaces(
                        toks.push(prev_cur).drop_last(),
                    ) + seq![32u8] + prev_cur);
                    assert(join_spaces(toks2.push(cur@)) =~= line@.subrange(0, pos as int + 1));
                }
            }
        }
        pos = pos + 1;
    }
    let ghost toks_fin = tokens@.map_values(|t: Vec<u8>| t@);
    let ghost cur_fin = cur@;
    tokens.push(cur);
    proof {
        assert(line@.subrange(0, line@.len() as int) =~= line@);
        let toks2 = tokens@.map_values(|t: Vec<u8>| t@);
        assert(toks2 =~= toks_fin.push(cur_fin));
        assert forall|q: int| 0 <= q < toks2.len() implies !(#[trigger] toks2[q]).contains(
            32u8,
        ) by {
            if q < toks_fin.len() {
                assert(!toks_fin[q].contains(32u8));
            } else {
                assert(toks2[q] == cur_fin);
            }
        }
    }
    tokens
}

/// The byte is a decimal digit.
pub open spec fn is_digit(c: u8) -> bool {
    48 <= c <= 57
}

pub open spec fn all_digits(s: Seq<u8>) -> bool {
    forall|k: int| 0 <= k < s.len() ==> is_digit(#[trigger] s[k])
}

/// Value of a string of decimal digits.
pub open spec fn digits_val(s: Seq<u8>) -> int
    decreases s.len(),
{
    if s.len() == 0 {
        0
    } else {
        digits_val(s.drop_last()) * 10 + (s.last() - 48)
    }
}

proof fn lemma_digits_val_nonneg(s: Seq<u8>)
    requires
        all_digits(s),
    ensures
        digits_val(s) >= 0,
    decreases s.len(),
{
    if s.len() > 0 {
        assert(all_digits(s.drop_last()));
        lemma_digits_val_nonneg(s.drop_last());
    }
}

/// A digit string is worth at least any of its prefixes.
proof fn lemma_digits_prefix_le(s: Seq<u8>, k: int)
    requires
        all_digits(s),
        0 <= k <= s.len(),
    ensures
        digits_val(s.subrange(0, k)) <= digits_val(s),
    decreases s.len(),
{
    if k < s.len() {
        assert(all_digits(s.drop_last()));
        assert(s.drop_last().subrange(0, k) =~= s.subrange(0, k));
        lemma_digits_prefix_le(s.drop_last(), k);
        lemma_digits_val_nonneg(s.drop_last());
    } else {
        assert(s.subrange(0, k) =~= s);
    }
}

/// The dimension token: a non-empty digit string within the machine's
/// size type.
pub open spec fn usize_of_token(s: Seq<u8>) -> Option<int> {
    if s.len() > 0 && all_digits(s) && digits_val(s) <= usize::MAX {
        Some(digits_val(s))
    } else {
        None
    }
}

/// Parse a non-empty digit string into a machine size.
pub fn parse_usize(tok: &Vec<u8>) -> (r: Option<usize>)
    ensures
        match r {
            Some(v) => usize_of_token(tok@) == Some(v as int),
            None => usize_of_token(tok@) is None,
        },
{
    if tok.len() == 0 {
        return None;
    }
    let mut val: usize = 0;
    let mut k: usize = 0;
    proof {
        assert(tok@.subrange(0, 0) =~= Seq::<u8>::empty());
    }
    while k < tok.len()
        invariant
            k <= tok@.len(),
            all_digits(tok@.subrange(0, k as int)),
            val == digits_val(tok@.subrange(0, k as int)),
        decreases tok@.len() - k,
    {
        let c = tok[k];
        if c < 48 || c > 57 {
            return None;
        }
        let d: usize = (c - 48) as usize;
        if val > (usize::MAX - d) / 10 {
            proof {
                let prefix = tok@.subrange(0, k as int + 1);
                assert(prefix.drop_last() =~= tok@.subrange(0, k as int));
                assert(digits_val(prefix) == val * 10 + d);
                assert(val * 10 + d > usize::MAX) by (nonlinear_arith)
                    requires
                        val > (usize::MAX - d) / 10,
                        0 <= d <= 9,
                ;
                if all_digits(tok@) {
                    lemma_digits_prefix_le(tok@, k as int + 1);
                }
            }
            return None;
        }
        proof {
            let prefix = tok@.subrange(0, k as int + 1);
            assert(prefix.drop_last() =~= tok@.subrange(0, k as int));
            assert(val * 10 + d <= usize::MAX) by (nonlinear_arith)
                requires
                    val <= (usize::MAX - d) / 10,
                    0 <= d <= 9,
            ;
        }
        val = val * 10 + d;
        k = k + 1;
    }
    proof {
        assert(tok@.subrange(0, tok@.len() as int) =~= tok@);
    }
    Some(val)
}

/// Largest whole part a fixed-point token may carry: the thousandths
/// representation of anything larger leaves the value type.
pub open spec fn fixed_int_cap() -> int {
    18_446_744_073_709_550
}

/// Thousandths contributed by up to three leading fractional digits.
pub open spec fn frac_scaled(s: Seq<u8>) -> int {
    (if s.len() >= 1 {
        (s[0] - 48) * 100
    } else {
        0
    }) + (if s.len() >= 2 {
        (s[1] - 48) * 10
    } else {
        0
    }) + (if s.len() >= 3 {
        s[2] - 48
    } else {
        0int
    })
}

/// Index of the first dot of a token that holds one.
pub open spec fn dot_pos(s: Seq<u8>) -> int {
    choose|p: int| 0 <= p < s.len() && s[p] == 46 && !s.subrange(0, p).contains(46u8)
}

proof fn lemma_dot_pos_is(s: Seq<u8>, p: int)
    requires
        0 <= p < s.len(),
        s[p] == 46,
        !s.subrange(0, p).contains(46u8),
    ensures
        dot_pos(s) == p,
{
    assert(exists|q: int| 0 <= q < s.len() && s[q] == 46 && !s.subrange(0, q).contains(46u8)) by {
        assert(0 <= p < s.len() && s[p] == 46 && !s.subrange(0, p).contains(46u8));
    }
    let q = dot_pos(s);
    assert(0 <= q < s.len() && s[q] == 46 && !s.subrange(0, q).contains(46u8));
    if q < p {
        assert(s.subrange(0, p)[q] == 46);
    }
    if p < q {
        assert(s.subrange(0, q)[p] == 46);
    }
}

/// A distance token, in thousandths: a non-empty digit string with an
/// optional dot and non-empty fractional digits, of which the first
/// three count.  Anything else carries no value.
pub open spec fn fixed_of_token(s: Seq<u8>) -> Option<int> {
    if !s.contains(46u8) {
        if s.len() > 0 && all_digits(s) && digits_val(s) <= fixed_int_cap() {
            Some(digits_val(s) * 1000)
        } else {
            None
        }
    } else {
        let p = dot_pos(s);
        let ip = s.subrange(0, p);
        let fp = s.subrange(p + 1, s.len() as int);
        if ip.len() > 0 && all_digits(ip) && fp.len() > 0 && all_digits(fp) && digits_val(ip)
            <= fixed_int_cap() {
            Some(digits_val(ip) * 1000 + frac_scaled(fp))
        } else {
            None
        }
    }
}

/// Parse a decimal distance token into thousandths.
#[verifier::rlimit(100)]
pub fn parse_fixed(tok: &Vec<u8>) -> (r: Option<u64>)
    ensures
        match r {
            Some(v) => fixed_of_token(tok@) == Some(v as int),
            None => fixed_of_token(tok@) is None,
        },
{
    // Find the first dot, if any.
    let mut dot: Option<usize> = None;
    let mut k: usize = 0;
    while k < tok.len() && dot.is_none()
        invariant
            k <= tok@.len(),
            match dot {
                Option::None => !tok@.subrange(0, k as int).contains(46u8),
                Option::Some(p) => p < tok@.len() && tok@[p as int] == 46 && dot_pos(tok@)
                    == p as int,
            },
        decreases
                tok@.len() - k,
                (match dot {
                    Option::None => 1int,
                    Option::Some(_) => 0int,
                }),
    {
        if tok[k] == 46 {
            proof {
                lemma_dot_pos_is(tok@, k as int);
            }
            dot = Some(k);
        } else {
            proof {
                assert forall|q: int| 0 <= q < k as int + 1 implies #[trigger] tok@.subrange(
                    0,
                    k as int + 1,
                )[q] != 46 by {
                    if q < k as int {
                        assert(tok@.subrange(0, k as int)[q] != 46);
                    }
                }
            }
            k = k + 1;
        }
    }
    proof {
        if dot is None {
            assert(k == tok@.len());
            assert(tok@.subrange(0, tok@.len() as int) =~= tok@);
            if tok@.contains(46u8) {
                let q = choose|q: int| 0 <= q < tok@.len() && tok@[q] == 46;
                assert(tok@.subrange(0, tok@.len() as int)[q] == 46);
            }
        }
    }
    match dot {
        None => {
            proof {
                assert(tok@.subrange(0, tok@.len() as int) =~= tok@);
                if tok@.contains(46u8) {
                    let q = choose|q: int| 0 <= q < tok@.len() && tok@[q] == 46;
                    assert(tok@.subrange(0, tok@.len() as int)[q] == 46);
                }
            }
            let whole = parse_capped(tok, 0, tok.len());
            match whole {
                Some(v) => Some(v * 1000),
                None => None,
            }
        },
        Some(p) => {
            proof {
                assert(tok@.contains(46u8)) by {
                    assert(tok@[p as int] == 46u8);
                }
            }
            if p == 0 || p + 1 >= tok.len() {
                return None;
            }
            let whole = parse_capped(tok, 0, p);
            let Some(v) = whole else { return None };
            // Fractional digits: all must be digits, the first three count.
            if !check_digits(tok, p + 1) {
                return None;
            }
            let d1: u64 = (tok[p + 1] - 48) as u64;
            let d2: u64 = if p + 2 < tok.len() {
                (tok[p + 2] - 48) as u64
            } else {
                0
            };
            let d3: u64 = if tok.len() - p > 3 {
                (tok[p + 3] - 48) as u64
            } else {
                0
            };
            proof {
                let fp = tok@.subrange(p as int + 1, tok@.len() as int);
                assert(fp[0] == tok@[p as int + 1]);
                if fp.len() >= 2 {
                    assert(fp[1] == tok@[p as int + 2]);
                }
                if fp.len() >= 3 {
                    assert(fp[2] == tok@[p as int + 3]);
                }
                assert(all_digits(tok@.subrange(0, p as int)));
            }
            Some(v * 1000 + (d1 * 100 + d2 * 10 + d3))
        },
    }
}

/// The token a data line uses as its own marker.
pub open spec fn is_marker(t: Seq<u8>) -> bool {
    t =~= seq![105u8]
}

/// The distance values a data line's tokens carry, in order: the marker
/// token and tokens without a value are passed over.
pub open spec fn row_values(ts: Seq<Seq<u8>>) -> Seq<u64>
    decreases ts.len(),
{
    if ts.len() == 0 {
        Seq::empty()
    } else {
        row_values(ts.drop_last()) + (if is_marker(ts.last()) {
            Seq::<u64>::empty()
        } else {
            match fixed_of_token(ts.last()) {
                Some(v) => seq![v as u64],
                None => Seq::<u64>::empty(),
            }
        })
    }
}

/// Effect of one line, given as its token list, on the parse state
/// `(declared size, collected cells)`.
pub open spec fn step_line(
    size: Option<int>,
    rows: Seq<u64>,
    ts: Seq<Seq<u8>>,
) -> Result<(Option<int>, Seq<u64>), AcoFileParseError> {
    if ts.len() == 0 || ts[0].len() == 0 {
        Ok((size, rows))
    } else if ts[0][0] == 99 {
        Ok((size, rows))
    } else if ts[0][0] == 112 {
        if ts.len() < 2 {
            Err(AcoFileParseError::NoSizeSet)
        } else {
            match usize_of_token(ts[1]) {
                Some(v) => Ok((Some(v), rows)),
                None => Err(AcoFileParseError::InvalidSizeValue),
            }
        }
    } else if ts[0][0] == 105 {
        match size {
            None => Err(AcoFileParseError::IvalidFileStructure),
            Some(sz) => {
                let vals = row_values(ts);
                if vals.len() != sz {
                    Err(AcoFileParseError::IvalidFileStructure)
                } else {
                    Ok((size, rows + vals))
                }
            },
        }
    } else {
        Ok((size, rows))
    }
}

/// Run the parse over the lines from index `i` on.
pub open spec fn run_parse(
    ls: Seq<Seq<Seq<u8>>>,
    i: int,
    size: Option<int>,
    rows: Seq<u64>,
) -> Result<(Option<int>, Seq<u64>), AcoFileParseError>
    decreases ls.len() - i,
{
    if i < 0 || i >= ls.len() {
        Ok((size, rows))
    } else {
        match step_line(size, rows, ls[i]) {
            Err(e) => Err(e),
            Ok((s2, r2)) => run_parse(ls, i + 1, s2, r2),
        }
    }
}

/// The whole file, given as one token list per line: a file that
/// declares no dimension at all is empty.
pub open spec fn file_parse(ls: Seq<Seq<Seq<u8>>>) -> Result<
    (int, Seq<u64>),
    AcoFileParseError,
> {
    match run_parse(ls, 0, None, Seq::empty()) {
        Err(e) => Err(e),
        Ok((None, _)) => Err(AcoFileParseError::EmptyFile),
        Ok((Some(sz), rows)) => Ok((sz, rows)),
    }
}

pub open spec fn opt_int(o: Option<usize>) -> Option<int> {
    match o {
        None => None,
        Some(v) => Some(v as int),
    }
}

/// The nested view of one line's token vector is its token sequences.
proof fn lemma_line_deep_view(l: Vec<Vec<u8>>)
    ensures
        l.deep_view() =~~= l@.map_values(|t: Vec<u8>| t@),
{
    assert forall|q: int| 0 <= q < l@.len() implies l.deep_view()[q] =~= l@.map_values(
        |t: Vec<u8>| t@,
    )[q] by {
        assert(l.deep_view()[q] =~= l@[q]@);
    }
}

/// Parse a tokenized file: each entry is one line's token list.
pub fn parse_tokens(ls: &Vec<Vec<Vec<u8>>>) -> (r: Result<AcoFile, AcoFileParseError>)
    ensures
        match r {
            Ok(f) => file_parse(ls.deep_view()) == Ok::<(int, Seq<u64>), AcoFileParseError>(
                ((f.size as int), f.rows@),
            ),
            Err(e) => file_parse(ls.deep_view()) == Err::<(int, Seq<u64>), AcoFileParseError>(e),
        },
{
    let ghost all = ls.deep_view();
    let mut size: Option<usize> = None;
    let mut rows: Vec<u64> = Vec::new();
    let mut i: usize = 0;
    proof {
        assert(all.len() == ls@.len());
    }
    while i < ls.len()
        invariant
            all == ls.deep_view(),
            all.len() == ls@.len(),
            i <= ls@.len(),
            run_parse(all, 0, None, Seq::empty()) == run_parse(
                all,
                i as int,
                opt_int(size),
                rows@,
            ),
        decreases ls@.len() - i,
    {
        let line = &ls[i];
        let ghost ts = all[i as int];
        proof {
            lemma_line_deep_view(ls@[i as int]);
            assert(ts =~~= line@.map_values(|t: Vec<u8>| t@));
            assert(ts.len() == line@.len());
        }
        if line.len() == 0 || line[0].len() == 0 {
            proof {
                assert(step_line(opt_int(size), rows@, ts) == Ok::<
                    (Option<int>, Seq<u64>),
                    AcoFileParseError,
                >((opt_int(size), rows@)));
            }
            i = i + 1;
            continue ;
        }
        proof {
            assert(ts[0] =~= line@[0]@);
        }
        let h = line[0][0];
        if h == 99 {
            i = i + 1;
            continue ;
        }
        if h == 112 {
            if line.len() < 2 {
                return Err(AcoFileParseError::NoSizeSet);
            }
            proof {
                assert(ts[1] =~= line@[1]@);
            }
            match parse_usize(&line[1]) {
                Some(v) => {
                    size = Some(v);
                },
                None => {
                    return Err(AcoFileParseError::InvalidSizeValue);
                },
            }
            i = i + 1;
            continue ;
        }
        if h == 105 {
            let sz = match size {
                None => {
                    return Err(AcoFileParseError::IvalidFileStructure);
                },
                Some(sz) => sz,
            };
            let mut vals: Vec<u64> = Vec::new();
            let mut t: usize = 0;
            proof {
                assert(ts.subrange(0, 0) =~= Seq::<Seq<u8>>::empty());
            }
            while t < line.len()
                invariant
                    ts.len() == line@.len(),
                    forall|q: int| 0 <= q < ts.len() ==> #[trigger] ts[q] =~= line@[q]@,
                    t <= line@.len(),
                    vals@ == row_values(ts.subrange(0, t as int)),
                decreases line@.len() - t,
            {
                let tk = &line[t];
                let ghost prefix = ts.subrange(0, t as int);
                proof {
                    assert(ts.subrange(0, t as int + 1).drop_last() =~= prefix);
                    assert(ts.subrange(0, t as int + 1).last() =~= tk@);
                    assert(ts[t as int] =~= tk@);
                }
                let skip_it: bool = tk.len() == 1 && tk[0] == 105;
                proof {
                    if skip_it {
                        assert(is_marker(tk@)) by {
                            assert(tk@ =~= seq![105u8]);
                        }
                    } else {
                        if tk@.len() == 1 && tk@[0] == 105 {
                            assert(false);
                        }
                        assert(!is_marker(tk@)) by {
                            if tk@ =~= seq![105u8] {
                                assert(tk@.len() == 1 && tk@[0] == 105);
                            }
                        }
                    }
                }
                if !skip_it {
                    match parse_fixed(tk) {
                        Some(v) => {
                            vals.push(v);
                        },
                        None => {},
                    }
                }
                t = t + 1;
            }
            proof {
                assert(ts.subrange(0, ts.len() as int) =~= ts);
            }
            if vals.len() != sz {
                return Err(AcoFileParseError::IvalidFileStructure);
            }
            let mut taken = vals;
            rows.append(&mut taken);
            i = i + 1;
            continue ;
        }
        i = i + 1;
    }
    match size {
        None => Err(AcoFileParseError::EmptyFile),
        Some(sz) => Ok(AcoFile { size: sz, rows }),
    }
}

impl AcoFileParser {
    pub fn new(path: String) -> (r: Self)
        ensures
            r.path_spec() == path@,
    {
        AcoFileParser { path }
    }

    /// The path this parser was created for.
    pub closed spec fn path_spec(self) -> Seq<char> {
        self.path@
    }

    pub fn path(&self) -> (r: &String)
        ensures
            r@ == self.path_spec(),
    {
        &self.path
    }

    /// Parse the lines of the file's text: split each at spaces, then
    /// run the line interpreter.  The token lists are pinned by the
    /// splitting contract; the result is exactly their `file_parse`.
    #[verifier::rlimit(50)]
    pub fn parse_lines(&self, lines: &Vec<Vec<u8>>) -> (r: Result<AcoFile, AcoFileParseError>)
        ensures
            exists|ls: Seq<Seq<Seq<u8>>>|
                {
                    &&& ls.len() == lines@.len()
                    &&& (forall|q: int|
                        0 <= q < ls.len() ==> space_free(#[trigger] ls[q]) && join_spaces(ls[q])
                            == lines@[q]@)
                    &&& match r {
                        Ok(f) => #[trigger] file_parse(ls) == Ok::<
                            (int, Seq<u64>),
                            AcoFileParseError,
                        >(((f.size as int), f.rows@)),
                        Err(e) => file_parse(ls) == Err::<(int, Seq<u64>), AcoFileParseError>(e),
                    }
                },
    {
        let mut toks: Vec<Vec<Vec<u8>>> = Vec::new();
        let mut i: usize = 0;
        while i < lines.len()
            invariant
                i <= lines@.len(),
                toks@.len() == i,
                forall|q: int|
                    0 <= q < i ==> space_free(#[trigger] toks.deep_view()[q]) && join_spaces(
                        toks.deep_view()[q],
                    ) == lines@[q]@,
            decreases lines@.len() - i,
        {
            let ghost before = toks.deep_view();
            let split = split_spaces(&lines[i]);
            toks.push(split);
            proof {
                lemma_line_deep_view(split);
                assert(toks.deep_view() =~~= before.push(split.deep_view())) by {
                    assert forall|q: int| 0 <= q < toks.deep_view().len() implies toks.deep_view()[q]
                        =~~= before.push(split.deep_view())[q] by {
                        if q < before.len() {
                            assert(toks.deep_view()[q] == toks@[q].deep_view());
                        }
                    }
                }
                assert(space_free(toks.deep_view()[i as int]) && join_spaces(
                    toks.deep_view()[i as int],
                ) == lines@[i as int]@);
            }
            i = i + 1;
        }
        let r = parse_tokens(&toks);
        proof {
            let ls = toks.deep_view();
            assert(ls.len() == lines@.len());
        }
        r
    }
}

/// Whether every byte of `tok[from..]` is a decimal digit.
fn check_digits(tok: &Vec<u8>, from: usize) -> (r: bool)
    requires
        from <= tok@.len(),
    ensures
        r == all_digits(tok@.subrange(from as int, tok@.len() as int)),
{
    let mut f: usize = from;
    while f < tok.len()
        invariant
            from <= f <= tok@.len(),
            all_digits(tok@.subrange(from as int, f as int)),
        decreases tok@.len() - f,
    {
        let c = tok[f];
        if c < 48 || c > 57 {
            proof {
                let fp = tok@.subrange(from as int, tok@.len() as int);
                assert(fp[f - from] == tok@[f as int]);
                assert(!is_digit(fp[f - from]));
            }
            return false;
        }
        proof {
            assert(tok@.subrange(from as int, f as int + 1).drop_last() =~= tok@.subrange(
                from as int,
                f as int,
            ));
        }
        f = f + 1;
    }
    proof {
        assert(tok@.subrange(from as int, tok@.len() as int) =~= tok@.subrange(
            from as int,
            f as int,
        ));
    }
    true
}

/// Parse the digits of `tok[from..to]` if they stay within the fixed
/// whole-part cap.
fn parse_capped(tok: &Vec<u8>, from: usize, to: usize) -> (r: Option<u64>)
    requires
        from <= to <= tok@.len(),
    ensures
        ({
            let part = tok@.subrange(from as int, to as int);
            match r {
                Some(v) => part.len() > 0 && all_digits(part) && digits_val(part)
                    <= fixed_int_cap() && v as int == digits_val(part),
                None => !(part.len() > 0 && all_digits(part) && digits_val(part)
                    <= fixed_int_cap()),
            }
        }),
{
    if from == to {
        return None;
    }
    let ghost part = tok@.subrange(from as int, to as int);
    let mut val: u64 = 0;
    let mut k: usize = from;
    proof {
        assert(part.subrange(0, 0) =~= Seq::<u8>::empty());
    }
    while k < to
        invariant
            from <= k <= to <= tok@.len(),
            part == tok@.subrange(from as int, to as int),
            all_digits(part.subrange(0, k as int - from as int)),
            val == digits_val(part.subrange(0, k as int - from as int)),
            val <= fixed_int_cap(),
        decreases to - k,
    {
        let c = tok[k];
        proof {
            assert(part[k as int - from as int] == tok@[k as int]);
        }
        if c < 48 || c > 57 {
            return None;
        }
        let d: u64 = (c - 48) as u64;
        proof {
            let prefix = part.subrange(0, k as int + 1 - from as int);
            assert(prefix.drop_last() =~= part.subrange(0, k as int - from as int));
            assert(digits_val(prefix) == val * 10 + d);
        }
        if val > 1_844_674_407_370_955 || val * 10 > 18_446_744_073_709_550 - d {
            proof {
                let prefix = part.subrange(0, k as int + 1 - from as int);
                assert(digits_val(prefix) > fixed_int_cap());
                if all_digits(part) {
                    lemma_digits_prefix_le(part, k as int + 1 - from as int);
                }
            }
            return None;
        }
        val = val * 10 + d;
        k = k + 1;
    }
    proof {
        assert(part.subrange(0, to as int - from as int) =~= part);
    }
    Some(val)
}

} // verus!
