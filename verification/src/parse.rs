//! Parsing the textual grid format: a dimension line holding two integers,
//! then one line of direction glyphs per grid row.

use crate::grid::{dir_of_glyph, is_glyph, Direction, GraphMeta};
use vstd::prelude::*;

verus! {

/// Why a grid failed to load.
#[derive(Clone, Copy, PartialEq, Eq, Structural, Debug)]
pub enum ParseError {
    /// The dimension line does not hold exactly two integers.
    BadDimensions,
    /// A content line holds a character that is not one of `^ v < >`.
    BadGlyph,
    /// A content line's character count differs from the declared width.
    BadLineWidth,
    /// The number of content lines differs from the declared height.
    BadLineCount,
}

/// Whether `c` counts as surrounding whitespace, stripped from every line.
pub open spec fn is_space(c: char) -> bool {
    c == ' ' || c == '\t' || c == '\r' || c == '\n'
}

/// `s` with its leading whitespace removed.
pub open spec fn trim_front(s: Seq<char>) -> Seq<char>
    decreases s.len(),
{
    if s.len() > 0 && is_space(s[0]) {
        trim_front(s.drop_first())
    } else {
        s
    }
}

/// `s` with its trailing whitespace removed.
pub open spec fn trim_back(s: Seq<char>) -> Seq<char>
    decreases s.len(),
{
    if s.len() > 0 && is_space(s.last()) {
        trim_back(s.drop_last())
    } else {
        s
    }
}

/// `s` with leading and trailing whitespace removed.
pub open spec fn trimmed(s: Seq<char>) -> Seq<char> {
    trim_back(trim_front(s))
}

/// `s` split on every single space character, as `split(' ')` splits: two
/// adjacent spaces yield an empty piece between them, and the empty sequence
/// yields one empty piece.
pub open spec fn split_sp(s: Seq<char>) -> Seq<Seq<char>>
    decreases s.len(),
{
    if s.len() == 0 {
        seq![Seq::<char>::empty()]
    } else if s[0] == ' ' {
        seq![Seq::<char>::empty()] + split_sp(s.drop_first())
    } else {
        let rest = split_sp(s.drop_first());
        seq![seq![s[0]] + rest[0]] + rest.drop_first()
    }
}

/// Whether `c` is a decimal digit.
pub open spec fn is_digit(c: char) -> bool {
    ||| c == '0'
    ||| c == '1'
    ||| c == '2'
    ||| c == '3'
    ||| c == '4'
    ||| c == '5'
    ||| c == '6'
    ||| c == '7'
    ||| c == '8'
    ||| c == '9'
}

/// The value of a decimal digit (meaningful only when `is_digit(c)`).
pub open spec fn digit_val(c: char) -> int {
    if c == '0' {
        0
    } else if c == '1' {
        1
    } else if c == '2' {
        2
    } else if c == '3' {
        3
    } else if c == '4' {
        4
    } else if c == '5' {
        5
    } else if c == '6' {
        6
    } else if c == '7' {
        7
    } else if c == '8' {
        8
    } else {
        9
    }
}

/// The value of a sequence of decimal digits, most significant first.
pub open spec fn digits_val(s: Seq<char>) -> int
    decreases s.len(),
{
    if s.len() == 0 {
        0
    } else {
        digits_val(s.drop_last()) * 10 + digit_val(s.last())
    }
}

/// Whether a piece of the dimension line reads as an unsigned integer: it is
/// non-empty, all digits, and its value fits the machine.
pub open spec fn is_uint_token(s: Seq<char>) -> bool {
    &&& s.len() > 0
    &&& forall|i: int| 0 <= i < s.len() ==> is_digit(#[trigger] s[i])
    &&& digits_val(s) <= usize::MAX as int
}

/// The values of the pieces of `tokens` that read as unsigned integers, in
/// order; the other pieces are passed over.
pub open spec fn parsed_of(tokens: Seq<Seq<char>>) -> Seq<int>
    decreases tokens.len(),
{
    if tokens.len() == 0 {
        Seq::empty()
    } else {
        let rest = parsed_of(tokens.drop_first());
        if is_uint_token(tokens[0]) {
            seq![digits_val(tokens[0])] + rest
        } else {
            rest
        }
    }
}

/// The integers found on the dimension line: the line is trimmed, split on
/// spaces, and every piece that reads as an unsigned integer counts.
pub open spec fn parsed_dims(line: Seq<char>) -> Seq<int> {
    parsed_of(split_sp(trimmed(line)))
}

/// The view of a sequence of vectors as a sequence of sequences.
pub open spec fn seq_views<T>(s: Seq<Vec<T>>) -> Seq<Seq<T>> {
    Seq::new(s.len(), |i: int| s[i]@)
}

/// How one content line parses against the declared width: a character that
/// is no direction glyph fails first, then a wrong character count; otherwise
/// the row of directions it denotes.
pub open spec fn row_result(line: Seq<char>, width: int) -> Result<Seq<Direction>, ParseError> {
    let t = trimmed(line);
    if exists|i: int| 0 <= i < t.len() && !is_glyph(#[trigger] t[i]) {
        Err(ParseError::BadGlyph)
    } else if t.len() != width {
        Err(ParseError::BadLineWidth)
    } else {
        Ok(t.map_values(|c: char| dir_of_glyph(c)))
    }
}

/// How the content lines parse, in order: the first failing line decides the
/// error; otherwise all the rows of directions.
pub open spec fn rows_result(lines: Seq<Seq<char>>, width: int) -> Result<
    Seq<Seq<Direction>>,
    ParseError,
>
    decreases lines.len(),
{
    if lines.len() == 0 {
        Ok(Seq::empty())
    } else {
        match row_result(lines[0], width) {
            Err(e) => Err(e),
            Ok(row) => match rows_result(lines.drop_first(), width) {
                Err(e) => Err(e),
                Ok(rest) => Ok(seq![row] + rest),
            },
        }
    }
}

/// How a whole input parses: the first line must hold exactly two integers,
/// the width and the height; every further line must be a row of exactly
/// `width` glyphs; and there must be exactly `height` such rows.
pub open spec fn parse_spec(lines: Seq<Seq<char>>) -> Result<
    (int, int, Seq<Seq<Direction>>),
    ParseError,
> {
    if lines.len() == 0 {
        Err(ParseError::BadDimensions)
    } else {
        let dims = parsed_dims(lines[0]);
        if dims.len() != 2 {
            Err(ParseError::BadDimensions)
        } else {
            match rows_result(lines.drop_first(), dims[0]) {
                Err(e) => Err(e),
                Ok(rows) => if rows.len() != dims[1] {
                    Err(ParseError::BadLineCount)
                } else {
                    Ok((dims[0], dims[1], rows))
                },
            }
        }
    }
}

/// Whether `c` counts as surrounding whitespace.
fn is_space_char(c: char) -> (b: bool)
    ensures
        b == is_space(c),
{
    c == ' ' || c == '\t' || c == '\r' || c == '\n'
}

/// Skipping a prefix of whitespace reaches `trim_front`'s result.
proof fn lemma_trim_front_skip(s: Seq<char>, k: int)
    requires
        0 <= k <= s.len(),
        forall|i: int| 0 <= i < k ==> is_space(#[trigger] s[i]),
        k == s.len() || !is_space(s[k]),
    ensures
        trim_front(s) == s.subrange(k, s.len() as int),
    decreases k,
{
    if k == 0 {
        assert(s.subrange(0, s.len() as int) =~= s);
    } else {
        assert(is_space(s[0]));
        lemma_trim_front_skip(s.drop_first(), k - 1);
        assert(s.drop_first().subrange(k - 1, s.drop_first().len() as int) =~= s.subrange(
            k,
            s.len() as int,
        ));
    }
}

/// Dropping a suffix of whitespace reaches `trim_back`'s result.
proof fn lemma_trim_back_keep(s: Seq<char>, e: int)
    requires
        0 <= e <= s.len(),
        forall|i: int| e <= i < s.len() ==> is_space(#[trigger] s[i]),
        e == 0 || !is_space(s[e - 1]),
    ensures
        trim_back(s) == s.subrange(0, e),
    decreases s.len() - e,
{
    if e == s.len() {
        assert(s.subrange(0, e) =~= s);
    } else {
        assert(is_space(s.last()));
        lemma_trim_back_keep(s.drop_last(), e);
        assert(s.drop_last().subrange(0, e) =~= s.subrange(0, e));
    }
}

/// A copy of `v` with leading and trailing whitespace removed.
fn trim(v: &Vec<char>) -> (r: Vec<char>)
    ensures
        r@ == trimmed(v@),
{
    let mut start: usize = 0;
    while start < v.len() && is_space_char(v[start])
        invariant
            start <= v@.len(),
            forall|i: int| 0 <= i < start ==> is_space(#[trigger] v@[i]),
        decreases v@.len() - start,
    {
        start += 1;
    }
    let mut end: usize = v.len();
    while end > start && is_space_char(v[end - 1])
        invariant
            start <= end <= v@.len(),
            forall|i: int| end <= i < v@.len() ==> is_space(#[trigger] v@[i]),
        decreases end,
    {
        end -= 1;
    }
    proof {
        lemma_trim_front_skip(v@, start as int);
        let f = v@.subrange(start as int, v@.len() as int);
        lemma_trim_back_keep(f, end - start);
        assert(f.subrange(0, end - start) =~= v@.subrange(start as int, end as int));
    }
    let mut r: Vec<char> = Vec::new();
    let mut j = start;
    while j < end
        invariant
            start <= j <= end <= v@.len(),
            r@ == v@.subrange(start as int, j as int),
        decreases end - j,
    {
        let c = v[j];
        r.push(c);
        proof {
            assert(r@ =~= v@.subrange(start as int, j as int + 1));
        }
        j += 1;
    }
    r
}

/// Scanning up to the first space (or the end) peels the first piece off
/// `split_sp`.
proof fn lemma_split_first_token(s: Seq<char>, k: int)
    requires
        0 <= k <= s.len(),
        forall|i: int| 0 <= i < k ==> #[trigger] s[i] != ' ',
        k == s.len() || s[k] == ' ',
    ensures
        k == s.len() ==> split_sp(s) == seq![s],
        k < s.len() ==> split_sp(s) == seq![s.subrange(0, k)] + split_sp(
            s.subrange(k + 1, s.len() as int),
        ),
    decreases k,
{
    if k == 0 {
        if s.len() == 0 {
            assert(split_sp(s) == seq![Seq::<char>::empty()]);
            assert(s =~= Seq::<char>::empty());
        } else {
            assert(s[0] == ' ');
            assert(s.subrange(0, 0) =~= Seq::<char>::empty());
            assert(s.drop_first() =~= s.subrange(1, s.len() as int));
        }
    } else {
        let d = s.drop_first();
        lemma_split_first_token(d, k - 1);
        let rest = split_sp(d);
        if k == s.len() {
            assert(rest == seq![d]);
            assert(seq![s[0]] + rest[0] =~= s);
            assert(rest.drop_first() =~= Seq::<Seq<char>>::empty());
            assert(seq![seq![s[0]] + rest[0]] + rest.drop_first() =~= seq![s]);
        } else {
            assert(rest == seq![d.subrange(0, k - 1)] + split_sp(d.subrange(k, d.len() as int)));
            assert(rest[0] == d.subrange(0, k - 1));
            assert(seq![s[0]] + rest[0] =~= s.subrange(0, k));
            assert(rest.drop_first() =~= split_sp(d.subrange(k, d.len() as int)));
            assert(d.subrange(k, d.len() as int) =~= s.subrange(k + 1, s.len() as int));
            assert(seq![seq![s[0]] + rest[0]] + rest.drop_first() =~= seq![s.subrange(0, k)]
                + split_sp(s.subrange(k + 1, s.len() as int)));
        }
    }
}

/// A copy of the slice `v[a..b]`.
fn subvec(v: &Vec<char>, a: usize, b: usize) -> (r: Vec<char>)
    requires
        a <= b <= v@.len(),
    ensures
        r@ == v@.subrange(a as int, b as int),
{
    let mut r: Vec<char> = Vec::new();
    let mut j = a;
    while j < b
        invariant
            a <= j <= b <= v@.len(),
            r@ == v@.subrange(a as int, j as int),
        decreases b - j,
    {
        let c = v[j];
        r.push(c);
        proof {
            assert(r@ =~= v@.subrange(a as int, j as int + 1));
        }
        j += 1;
    }
    r
}

/// Splits `v` on every single space character, as `split_sp` describes.
fn split_spaces(v: &Vec<char>) -> (r: Vec<Vec<char>>)
    ensures
        seq_views(r@) == split_sp(v@),
{
    let mut tokens: Vec<Vec<char>> = Vec::new();
    let mut p: usize = 0;
    proof {
        assert(v@.subrange(0, v@.len() as int) =~= v@);
        assert(seq_views(tokens@) + split_sp(v@) =~= split_sp(v@));
    }
    loop
        invariant
            p <= v@.len(),
            split_sp(v@) == seq_views(tokens@) + split_sp(v@.subrange(p as int, v@.len() as int)),
        decreases v@.len() - p + 1,
    {
        let mut q = p;
        while q < v.len() && v[q] != ' '
            invariant
                p <= q <= v@.len(),
                forall|i: int| p <= i < q ==> #[trigger] v@[i] != ' ',
            decreases v@.len() - q,
        {
            q += 1;
        }
        let tok = subvec(v, p, q);
        tokens.push(tok);
        proof {
            let suf = v@.subrange(p as int, v@.len() as int);
            lemma_split_first_token(suf, q - p);
            assert forall|i: int| 0 <= i < q - p implies #[trigger] suf[i] != ' ' by {
                assert(suf[i] == v@[p + i]);
            }
            assert(tok@ =~= suf.subrange(0, q - p));
        }
        if q == v.len() {
            proof {
                let suf = v@.subrange(p as int, v@.len() as int);
                assert(split_sp(suf) == seq![suf]);
                assert(seq_views(tokens@) =~= seq_views(tokens@.drop_last()) + seq![tok@]);
                assert(split_sp(v@) =~= seq_views(tokens@));
            }
            return tokens;
        }
        proof {
            let suf = v@.subrange(p as int, v@.len() as int);
            assert(suf[q - p] == v@[q as int]);
            assert(split_sp(suf) == seq![suf.subrange(0, q - p)] + split_sp(
                suf.subrange(q - p + 1, suf.len() as int),
            ));
            assert(suf.subrange(q - p + 1, suf.len() as int) =~= v@.subrange(
                q as int + 1,
                v@.len() as int,
            ));
            assert(seq_views(tokens@) =~= seq_views(tokens@.drop_last()) + seq![tok@]);
            assert(seq_views(tokens@) + split_sp(v@.subrange(q as int + 1, v@.len() as int))
                =~= (seq_views(tokens@.drop_last()) + split_sp(
                v@.subrange(p as int, v@.len() as int),
            )));
        }
        p = q + 1;
    }
}

/// The value of a digit sequence is never negative.
proof fn lemma_digits_val_nonneg(s: Seq<char>)
    ensures
        digits_val(s) >= 0,
    decreases s.len(),
{
    if s.len() > 0 {
        lemma_digits_val_nonneg(s.drop_last());
    }
}

/// A prefix of a digit sequence never has a larger value than the whole.
proof fn lemma_digits_prefix_le(s: Seq<char>, i: int)
    requires
        0 <= i <= s.len(),
    ensures
        digits_val(s.subrange(0, i)) <= digits_val(s),
    decreases s.len() - i,
{
    if i == s.len() {
        assert(s.subrange(0, i) =~= s);
    } else {
        lemma_digits_prefix_le(s, i + 1);
        assert(s.subrange(0, i + 1).drop_last() =~= s.subrange(0, i));
        assert(s.subrange(0, i + 1).last() == s[i]);
        lemma_digits_val_nonneg(s.subrange(0, i));
    }
}

/// Parses `t` as an unsigned integer: all digits, non-empty, fitting the
/// machine; `None` otherwise.
fn parse_uint(t: &Vec<char>) -> (r: Option<usize>)
    ensures
        match r {
            Some(v) => is_uint_token(t@) && v as int == digits_val(t@),
            None => !is_uint_token(t@),
        },
{
    if t.len() == 0 {
        return None;
    }
    let mut acc: usize = 0;
    let mut i: usize = 0;
    while i < t.len()
        invariant
            0 < t@.len(),
            i <= t@.len(),
            forall|j: int| 0 <= j < i ==> is_digit(#[trigger] t@[j]),
            acc as int == digits_val(t@.subrange(0, i as int)),
        decreases t@.len() - i,
    {
        let d: usize = match t[i] {
            '0' => 0,
            '1' => 1,
            '2' => 2,
            '3' => 3,
            '4' => 4,
            '5' => 5,
            '6' => 6,
            '7' => 7,
            '8' => 8,
            '9' => 9,
            _ => {
                return None;
            },
        };
        assert(is_digit(t@[i as int]) && d as int == digit_val(t@[i as int]));
        proof {
            assert(t@.subrange(0, i as int + 1).drop_last() =~= t@.subrange(0, i as int));
            assert(t@.subrange(0, i as int + 1).last() == t@[i as int]);
        }
        if acc > (usize::MAX - d) / 10 {
            // the value no longer fits, so the token cannot read as an integer
            proof {
                vstd::arithmetic::div_mod::lemma_fundamental_div_mod(
                    usize::MAX as int - d as int,
                    10,
                );
                assert(digits_val(t@.subrange(0, i as int + 1)) > usize::MAX as int);
                if is_uint_token(t@) {
                    lemma_digits_prefix_le(t@, i as int + 1);
                    assert(false);
                }
            }
            return None;
        }
        proof {
            vstd::arithmetic::div_mod::lemma_fundamental_div_mod(usize::MAX as int - d as int, 10);
        }
        acc = acc * 10 + d;
        i += 1;
    }
    proof {
        assert(t@.subrange(0, t@.len() as int) =~= t@);
    }
    Some(acc)
}

/// Parses the dimension line: after trimming and splitting on spaces, the
/// pieces that read as integers must number exactly two, the width and the
/// height.
fn parse_dims(line: &Vec<char>) -> (r: Option<(usize, usize)>)
    ensures
        match r {
            Some(d) => parsed_dims(line@).len() == 2 && d.0 as int == parsed_dims(line@)[0]
                && d.1 as int == parsed_dims(line@)[1],
            None => parsed_dims(line@).len() != 2,
        },
{
    let t = trim(line);
    let toks = split_spaces(&t);
    let mut vals: Vec<usize> = Vec::new();
    let mut i: usize = 0;
    proof {
        assert(seq_views(toks@).skip(0) =~= seq_views(toks@));
        assert(Seq::new(vals@.len(), |j: int| vals@[j] as int) + parsed_of(seq_views(toks@))
            =~= parsed_of(seq_views(toks@)));
    }
    while i < toks.len()
        invariant
            i <= toks@.len(),
            parsed_of(seq_views(toks@)) == Seq::new(vals@.len(), |j: int| vals@[j] as int)
                + parsed_of(seq_views(toks@).skip(i as int)),
        decreases toks@.len() - i,
    {
        let ghost tv = seq_views(toks@);
        proof {
            assert(tv.skip(i as int).len() > 0);
            assert(tv.skip(i as int)[0] == tv[i as int]);
            assert(tv.skip(i as int).drop_first() =~= tv.skip(i as int + 1));
            assert(tv[i as int] == toks@[i as int]@);
        }
        match parse_uint(&toks[i]) {
            Some(v) => {
                vals.push(v);
                proof {
                    assert(Seq::new(vals@.len(), |j: int| vals@[j] as int) =~= Seq::new(
                        vals@.drop_last().len(),
                        |j: int| vals@.drop_last()[j] as int,
                    ) + seq![v as int]);
                    assert(Seq::new(vals@.drop_last().len(), |j: int| vals@.drop_last()[j] as int)
                        + seq![digits_val(tv[i as int])] + parsed_of(tv.skip(i as int + 1))
                        =~= Seq::new(vals@.len(), |j: int| vals@[j] as int) + parsed_of(
                        tv.skip(i as int + 1),
                    ));
                }
            },
            None => {
            },
        }
        i += 1;
    }
    proof {
        assert(seq_views(toks@).skip(toks@.len() as int) =~= Seq::<Seq<char>>::empty());
        assert(parsed_of(seq_views(toks@)) =~= Seq::new(vals@.len(), |j: int| vals@[j] as int));
        assert(seq_views(toks@) == split_sp(trimmed(line@)));
    }
    if vals.len() == 2 {
        let w = vals[0];
        let h = vals[1];
        Some((w, h))
    } else {
        None
    }
}

/// Parses one content line against the declared width, as `row_result`
/// describes.
fn parse_row(line: &Vec<char>, width: usize) -> (r: Result<Vec<Direction>, ParseError>)
    ensures
        match r {
            Ok(row) => row_result(line@, width as int) == Ok::<Seq<Direction>, ParseError>(row@)
                && row@.len() == width,
            Err(e) => row_result(line@, width as int) == Err::<Seq<Direction>, ParseError>(e),
        },
{
    let t = trim(line);
    let mut dirs: Vec<Direction> = Vec::new();
    let mut i: usize = 0;
    while i < t.len()
        invariant
            i <= t@.len(),
            t@ == trimmed(line@),
            dirs@.len() == i,
            forall|j: int| 0 <= j < i ==> is_glyph(#[trigger] t@[j]),
            forall|j: int| 0 <= j < i ==> dirs@[j] == dir_of_glyph(t@[j]),
        decreases t@.len() - i,
    {
        match Direction::from_glyph(t[i]) {
            Some(d) => {
                dirs.push(d);
            },
            None => {
                return Err(ParseError::BadGlyph);
            },
        }
        i += 1;
    }
    if dirs.len() != width {
        return Err(ParseError::BadLineWidth);
    }
    proof {
        assert(dirs@ =~= trimmed(line@).map_values(|c: char| dir_of_glyph(c)));
    }
    Ok(dirs)
}

impl GraphMeta {
    /// Creates a new `GraphMeta` from the lines of an input file, each line a
    /// vector of its characters: the first line declares the width and the
    /// height, each further line is a row of direction glyphs. Fails with a
    /// `ParseError` exactly as `parse_spec` describes: when the dimension
    /// line does not hold exactly two integers, when a line holds a character
    /// that is no glyph, when a line's character count differs from the
    /// declared width, or when the number of lines differs from the declared
    /// height.
    pub fn from_lines(lines: &Vec<Vec<char>>) -> (r: Result<GraphMeta, ParseError>)
        ensures
            match r {
                Ok(g) => g.wf() && parse_spec(seq_views(lines@)) == Ok::<
                    (int, int, Seq<Seq<Direction>>),
                    ParseError,
                >((g.width as int, g.height as int, seq_views(g.pointers@))),
                Err(e) => parse_spec(seq_views(lines@)) == Err::<
                    (int, int, Seq<Seq<Direction>>),
                    ParseError,
                >(e),
            },
    {
        let ghost lv = seq_views(lines@);
        if lines.len() == 0 {
            return Err(ParseError::BadDimensions);
        }
        let (width, height) = match parse_dims(&lines[0]) {
            Some(d) => d,
            None => {
                proof {
                    assert(lv[0] == lines@[0]@);
                }
                return Err(ParseError::BadDimensions);
            },
        };
        proof {
            assert(lv[0] == lines@[0]@);
        }
        let ghost content = lv.drop_first();
        let mut rows: Vec<Vec<Direction>> = Vec::new();
        let mut i: usize = 1;
        proof {
            assert(content.skip(0) =~= content);
            if rows_result(content, width as int) is Ok {
                let rest = rows_result(content, width as int)->Ok_0;
                assert(seq_views(rows@) + rest =~= rest);
            }
        }
        while i < lines.len()
            invariant
                1 <= i <= lines@.len(),
                lv == seq_views(lines@),
                content == lv.drop_first(),
                lines@.len() > 0,
                parsed_dims(lv[0]).len() == 2,
                width as int == parsed_dims(lv[0])[0],
                height as int == parsed_dims(lv[0])[1],
                rows@.len() == i - 1,
                forall|k: int| 0 <= k < rows@.len() ==> (#[trigger] rows@[k])@.len() == width,
                rows_result(content, width as int) == match rows_result(
                    content.skip(i - 1),
                    width as int,
                ) {
                    Err(e) => Err::<Seq<Seq<Direction>>, ParseError>(e),
                    Ok(rest) => Ok::<Seq<Seq<Direction>>, ParseError>(seq_views(rows@) + rest),
                },
            decreases lines@.len() - i,
        {
            let ghost j = i - 1;
            proof {
                assert(content.skip(j).len() > 0);
                assert(content.skip(j)[0] == content[j]);
                assert(content[j] == lv[i as int]);
                assert(lv[i as int] == lines@[i as int]@);
                assert(content.skip(j).drop_first() =~= content.skip(j + 1));
            }
            match parse_row(&lines[i], width) {
                Ok(row) => {
                    let ghost old_views = seq_views(rows@);
                    let ghost rv = row@;
                    rows.push(row);
                    proof {
                        assert(seq_views(rows@) =~= old_views + seq![rv]);
                        if rows_result(content.skip(j + 1), width as int) is Ok {
                            let rest = rows_result(content.skip(j + 1), width as int)->Ok_0;
                            assert((old_views + (seq![rv] + rest)) =~= (seq_views(rows@) + rest));
                        }
                    }
                },
                Err(e) => {
                    return Err(e);
                },
            }
            i += 1;
        }
        proof {
            assert(content.skip(lines@.len() - 1) =~= Seq::<Seq<char>>::empty());
            assert(seq_views(rows@) + Seq::<Seq<Direction>>::empty() =~= seq_views(rows@));
        }
        if rows.len() != height {
            return Err(ParseError::BadLineCount);
        }
        let g = GraphMeta { width, height, pointers: rows };
        Ok(g)
    }
}

} // verus!
