//! Textual height-map import.
//!
//! The format is a magic marker `P2`, an x and a y dimension, a maximum
//! height, and x·y height values, all as whitespace-separated decimal
//! tokens; a `#` starts a comment that runs to the end of its line.
//! Malformed input is rejected with a named reason and no partial data.
//!
//! `spec_parse_pgm` is the mathematical description of the whole format;
//! `terrain_from_pgm` returns exactly what it says.

use crate::grid::Grid;
use vstd::prelude::*;

verus! {

/// Which part of the height map a bad number was found in.
#[derive(PartialEq, Eq, Structural, Clone, Copy, Debug)]
pub enum Context {
    XDimension,
    YDimension,
    MaxHeight,
    Height,
}

/// Why an import was rejected.
#[derive(PartialEq, Debug)]
pub enum ParseError {
    InvalidMagicNumber(String),
    EmptyFile,
    InvalidNumber { context: Context, error: String },
    MissingXDimension,
    MissingYDimension,
    MissingMaxHeight,
    MissingDatapoint,
}

/// The mathematical shape of a rejected import: `ParseError` with token
/// text as character sequences.
pub enum PgmError {
    InvalidMagicNumber(Seq<char>),
    EmptyFile,
    InvalidNumber { context: Context, error: Seq<char> },
    MissingXDimension,
    MissingYDimension,
    MissingMaxHeight,
    MissingDatapoint,
}

impl View for ParseError {
    type V = PgmError;

    open spec fn view(&self) -> PgmError {
        match self {
            ParseError::InvalidMagicNumber(s) => PgmError::InvalidMagicNumber(s@),
            ParseError::EmptyFile => PgmError::EmptyFile,
            ParseError::InvalidNumber { context, error } => PgmError::InvalidNumber {
                context: *context,
                error: error@,
            },
            ParseError::MissingXDimension => PgmError::MissingXDimension,
            ParseError::MissingYDimension => PgmError::MissingYDimension,
            ParseError::MissingMaxHeight => PgmError::MissingMaxHeight,
            ParseError::MissingDatapoint => PgmError::MissingDatapoint,
        }
    }
}

/// Token-separating whitespace.
pub open spec fn is_pgm_whitespace(c: char) -> bool {
    c == '\n' || c == ' ' || c == '\t'
}

/// A character that ends a token: whitespace or the start of a comment.
pub open spec fn is_token_break(c: char) -> bool {
    is_pgm_whitespace(c) || c == '#'
}

/// The position of the newline that ends a comment scanned from `i`, or
/// the end of the input.
pub open spec fn comment_end(s: Seq<char>, i: int) -> int
    decreases s.len() - i,
{
    if i < 0 || i >= s.len() {
        s.len() as int
    } else if s[i] == '\n' {
        i
    } else {
        comment_end(s, i + 1)
    }
}

/// `comment_end` stays between its start and the end of the input.
pub proof fn lemma_comment_end_bounds(s: Seq<char>, i: int)
    requires
        0 <= i <= s.len(),
    ensures
        i <= comment_end(s, i) <= s.len(),
    decreases s.len() - i,
{
    if i < s.len() && s[i] != '\n' {
        lemma_comment_end_bounds(s, i + 1);
    }
}

/// The position of the next token start at or after `i`: whitespace is
/// skipped, and a `#` skips the rest of its line.
pub open spec fn skip_filler(s: Seq<char>, i: int) -> int
    decreases s.len() - i,
    via skip_filler_dec
{
    if i < 0 || i >= s.len() {
        s.len() as int
    } else if is_pgm_whitespace(s[i]) {
        skip_filler(s, i + 1)
    } else if s[i] == '#' {
        skip_filler(s, comment_end(s, i))
    } else {
        i
    }
}

#[via_fn]
proof fn skip_filler_dec(s: Seq<char>, i: int) {
    if 0 <= i < s.len() && !is_pgm_whitespace(s[i]) && s[i] == '#' {
        lemma_comment_end_bounds(s, i + 1);
    }
}

/// `skip_filler` stays in bounds and lands on the end of the input or on
/// a character that neither is whitespace nor starts a comment.
pub proof fn lemma_skip_filler_bounds(s: Seq<char>, i: int)
    requires
        0 <= i <= s.len(),
    ensures
        i <= skip_filler(s, i) <= s.len(),
        skip_filler(s, i) < s.len() ==> !is_token_break(s[skip_filler(s, i)]),
    decreases s.len() - i,
{
    if i < s.len() {
        if is_pgm_whitespace(s[i]) {
            lemma_skip_filler_bounds(s, i + 1);
        } else if s[i] == '#' {
            lemma_comment_end_bounds(s, i + 1);
            lemma_skip_filler_bounds(s, comment_end(s, i));
        }
    }
}

/// The position of the first token break at or after `i`, or the end of
/// the input.
pub open spec fn token_end(s: Seq<char>, i: int) -> int
    decreases s.len() - i,
{
    if i < 0 || i >= s.len() {
        s.len() as int
    } else if is_token_break(s[i]) {
        i
    } else {
        token_end(s, i + 1)
    }
}

/// `token_end` stays in bounds and lands on a break or the end.
pub proof fn lemma_token_end_bounds(s: Seq<char>, i: int)
    requires
        0 <= i <= s.len(),
    ensures
        i <= token_end(s, i) <= s.len(),
        token_end(s, i) < s.len() ==> is_token_break(s[token_end(s, i)]),
        i < s.len() && !is_token_break(s[i]) ==> token_end(s, i) >= i + 1,
    decreases s.len() - i,
{
    if i < s.len() && !is_token_break(s[i]) {
        lemma_token_end_bounds(s, i + 1);
    }
}

/// The whitespace-separated, comment-stripped tokens of `s` from
/// position `i` on.
pub open spec fn tokens_from(s: Seq<char>, i: int) -> Seq<Seq<char>>
    decreases s.len() - i,
    via tokens_from_dec
{
    if i < 0 || i > s.len() {
        Seq::empty()
    } else {
        let f = skip_filler(s, i);
        if f >= s.len() {
            Seq::empty()
        } else {
            seq![s.subrange(f, token_end(s, f))] + tokens_from(s, token_end(s, f))
        }
    }
}

#[via_fn]
proof fn tokens_from_dec(s: Seq<char>, i: int) {
    if 0 <= i <= s.len() {
        lemma_skip_filler_bounds(s, i);
        let f = skip_filler(s, i);
        if f < s.len() {
            lemma_token_end_bounds(s, f);
        }
    }
}

/// A decimal digit.
pub open spec fn is_digit(c: char) -> bool {
    '0' <= c <= '9'
}

/// A token of decimal digits only (at least one).
pub open spec fn is_numeric_token(t: Seq<char>) -> bool {
    t.len() > 0 && forall|i: int| 0 <= i < t.len() ==> is_digit(#[trigger] t[i])
}

/// The decimal value of a digit string.
pub open spec fn digits_value(t: Seq<char>) -> int
    decreases t.len(),
{
    if t.len() == 0 {
        0
    } else {
        digits_value(t.drop_last()) * 10 + (t.last() as int - '0' as int)
    }
}

/// Digit strings denote non-negative values.
pub proof fn lemma_digits_value_nonneg(t: Seq<char>)
    requires
        forall|i: int| 0 <= i < t.len() ==> is_digit(#[trigger] t[i]),
    ensures
        digits_value(t) >= 0,
    decreases t.len(),
{
    if t.len() > 0 {
        lemma_digits_value_nonneg(t.drop_last());
    }
}

/// A digit string is worth at least any of its prefixes.
pub proof fn lemma_digits_value_prefix(t: Seq<char>, j: int)
    requires
        forall|i: int| 0 <= i < t.len() ==> is_digit(#[trigger] t[i]),
        0 <= j <= t.len(),
    ensures
        digits_value(t.take(j)) <= digits_value(t),
    decreases t.len() - j,
{
    if j < t.len() {
        assert(t.take(j + 1).drop_last() =~= t.take(j));
        assert(t.take(j + 1).last() == t[j]);
        lemma_digits_value_nonneg(t.take(j));
        lemma_digits_value_prefix(t, j + 1);
        assert(digits_value(t.take(j + 1)) == digits_value(t.take(j)) * 10 + (t[j] as int
            - '0' as int));
    } else {
        assert(t.take(j) =~= t);
    }
}

/// A numeric token denoting a value within `bound`.
pub open spec fn is_bounded_number(t: Seq<char>, bound: int) -> bool {
    is_numeric_token(t) && digits_value(t) <= bound
}

/// The result of parsing the stretch of `count` height tokens starting at
/// token index `i`.
pub open spec fn spec_parse_heights(toks: Seq<Seq<char>>, i: int, count: nat) -> Result<
    Seq<u32>,
    PgmError,
>
    decreases count,
{
    if count == 0 {
        Ok(Seq::empty())
    } else if i >= toks.len() || i < 0 {
        Err(PgmError::MissingDatapoint)
    } else if !is_bounded_number(toks[i], u32::MAX as int) {
        Err(PgmError::InvalidNumber { context: Context::Height, error: toks[i] })
    } else {
        match spec_parse_heights(toks, i + 1, (count - 1) as nat) {
            Ok(rest) => Ok(seq![digits_value(toks[i]) as u32] + rest),
            Err(e) => Err(e),
        }
    }
}

/// What a height-map text denotes: the two dimensions and the row-major
/// (x-major) height values, or the first reason the text is rejected.
/// Dimensions above the grid's 32-bit addressing limit are rejected as
/// invalid numbers.
pub open spec fn spec_parse_pgm(s: Seq<char>) -> Result<(int, int, Seq<u32>), PgmError> {
    let toks = tokens_from(s, 0);
    if toks.len() == 0 {
        Err(PgmError::EmptyFile)
    } else if toks[0] != seq!['P', '2'] {
        Err(PgmError::InvalidMagicNumber(toks[0]))
    } else if toks.len() < 2 {
        Err(PgmError::MissingXDimension)
    } else if toks.len() < 3 {
        Err(PgmError::MissingYDimension)
    } else if !is_bounded_number(toks[1], 0x8000_0000) {
        Err(PgmError::InvalidNumber { context: Context::XDimension, error: toks[1] })
    } else if !is_bounded_number(toks[2], 0x8000_0000) {
        Err(PgmError::InvalidNumber { context: Context::YDimension, error: toks[2] })
    } else if toks.len() < 4 {
        Err(PgmError::MissingMaxHeight)
    } else if !is_bounded_number(toks[3], u64::MAX as int) {
        Err(PgmError::InvalidNumber { context: Context::MaxHeight, error: toks[3] })
    } else {
        let dx = digits_value(toks[1]);
        let dy = digits_value(toks[2]);
        match spec_parse_heights(toks, 4, (dx * dy) as nat) {
            Ok(heights) => Ok((dx, dy, heights)),
            Err(e) => Err(e),
        }
    }
}

/// After a well-formed header with dimensions `dx` and `dy`, the outcome
/// of the whole parse is the outcome of parsing `dx * dy` height tokens.
pub open spec fn pgm_reduces_to_heights(s: Seq<char>, dx: int, dy: int) -> bool {
    let toks = tokens_from(s, 0);
    &&& toks.len() >= 4
    &&& 0 <= dx == digits_value(toks[1])
    &&& 0 <= dy == digits_value(toks[2])
    &&& spec_parse_pgm(s) == (match spec_parse_heights(toks, 4, (dx * dy) as nat) {
        Ok(h) => Ok::<(int, int, Seq<u32>), PgmError>((dx, dy, h)),
        Err(e) => Err::<(int, int, Seq<u32>), PgmError>(e),
    })
}

/// Iterator over the tokens of a string, skipping whitespace and comments.
pub struct SkipWhitespace<'a> {
    data: &'a str,
    pos: usize,
}

impl<'a> SkipWhitespace<'a> {
    /// The characters being scanned.
    pub closed spec fn src(self) -> Seq<char> {
        self.data@
    }

    /// The current scan position.
    pub closed spec fn pos_spec(self) -> int {
        self.pos as int
    }

    /// The position never leaves the input.
    pub closed spec fn wf(self) -> bool {
        self.pos <= self.data@.len()
    }

    /// Starts scanning at the beginning of `data`.
    pub fn new(data: &'a str) -> (r: Self)
        ensures
            r.wf(),
            r.src() == data@,
            r.pos_spec() == 0,
    {
        SkipWhitespace { data, pos: 0 }
    }

    /// Whether `c` separates tokens.
    fn is_white_space(c: &char) -> (r: bool)
        ensures
            r == is_pgm_whitespace(*c),
    {
        *c == '\n' || *c == ' ' || *c == '\t'
    }

    /// Advances past whitespace.
    fn skip_whitespace(&mut self)
        requires
            old(self).wf(),
        ensures
            final(self).wf(),
            final(self).src() == old(self).src(),
            old(self).pos_spec() <= final(self).pos_spec(),
            skip_filler(final(self).src(), final(self).pos_spec()) == skip_filler(
                old(self).src(),
                old(self).pos_spec(),
            ),
            final(self).pos_spec() < final(self).src().len() ==> !is_pgm_whitespace(
                final(self).src()[final(self).pos_spec()],
            ),
            old(self).pos_spec() < old(self).src().len() && is_pgm_whitespace(
                old(self).src()[old(self).pos_spec()],
            ) ==> final(self).pos_spec() > old(self).pos_spec(),
    {
        let n = self.data.unicode_len();
        while self.pos < n && Self::is_white_space(&self.data.get_char(self.pos))
            invariant
                self.data == old(self).data,
                self.pos <= n,
                n == self.data@.len(),
                old(self).pos_spec() <= self.pos_spec(),
                skip_filler(self.src(), self.pos_spec()) == skip_filler(
                    old(self).src(),
                    old(self).pos_spec(),
                ),
            decreases n - self.pos,
        {
            self.pos = self.pos + 1;
        }
    }

    /// If a comment starts here, advances to the newline that ends it (or
    /// the end of the input).
    fn skip_comment(&mut self)
        requires
            old(self).wf(),
        ensures
            final(self).wf(),
            final(self).src() == old(self).src(),
            old(self).pos_spec() <= final(self).pos_spec(),
            skip_filler(final(self).src(), final(self).pos_spec()) == skip_filler(
                old(self).src(),
                old(self).pos_spec(),
            ),
            old(self).pos_spec() < old(self).src().len() && old(self).src()[old(
                self,
            ).pos_spec()] == '#' ==> final(self).pos_spec() > old(self).pos_spec(),
            !(old(self).pos_spec() < old(self).src().len() && old(self).src()[old(
                self,
            ).pos_spec()] == '#') ==> final(self).pos_spec() == old(self).pos_spec(),
    {
        let n = self.data.unicode_len();
        if self.pos < n && self.data.get_char(self.pos) == '#' {
            proof {
                lemma_comment_end_bounds(self.src(), self.pos_spec() + 1);
            }
            let ghost start = self.pos_spec();
            self.pos = self.pos + 1;
            while self.pos < n && self.data.get_char(self.pos) != '\n'
                invariant
                    self.data == old(self).data,
                    self.pos <= n,
                    n == self.data@.len(),
                    start < self.pos_spec(),
                    comment_end(self.src(), self.pos_spec()) == comment_end(self.src(), start),
                decreases n - self.pos,
            {
                self.pos = self.pos + 1;
            }
        }
    }

    /// Whether the next character is whitespace or starts a comment.
    fn is_next_skippable(&mut self) -> (r: bool)
        requires
            old(self).wf(),
        ensures
            *final(self) == *old(self),
            r == (old(self).pos_spec() < old(self).src().len() && is_token_break(
                old(self).src()[old(self).pos_spec()],
            )),
    {
        let n = self.data.unicode_len();
        if self.pos < n {
            let c = self.data.get_char(self.pos);
            Self::is_white_space(&c) || c == '#'
        } else {
            false
        }
    }

    /// Whether the next character belongs to a token.
    fn next_is_token_char(&self) -> (r: bool)
        requires
            self.wf(),
        ensures
            r == (self.pos_spec() < self.src().len() && !is_token_break(
                self.src()[self.pos_spec()],
            )),
    {
        let n = self.data.unicode_len();
        if self.pos < n {
            let c = self.data.get_char(self.pos);
            !(Self::is_white_space(&c) || c == '#')
        } else {
            false
        }
    }

    /// The next token, or nothing once only filler is left.
    pub fn next(&mut self) -> (r: Option<String>)
        requires
            old(self).wf(),
        ensures
            final(self).wf(),
            final(self).src() == old(self).src(),
            old(self).pos_spec() <= final(self).pos_spec(),
            match r {
                None => tokens_from(old(self).src(), old(self).pos_spec()) =~= Seq::<
                    Seq<char>,
                >::empty(),
                Some(t) => {
                    &&& t@.len() > 0
                    &&& tokens_from(old(self).src(), old(self).pos_spec()) =~= seq![t@]
                        + tokens_from(final(self).src(), final(self).pos_spec())
                },
            },
    {
        let ghost s = self.src();
        let ghost pos0 = self.pos_spec();
        let n = self.data.unicode_len();
        while self.is_next_skippable()
            invariant
                self.wf(),
                self.src() == s,
                n == s.len(),
                pos0 <= self.pos_spec(),
                skip_filler(s, self.pos_spec()) == skip_filler(s, pos0),
            decreases n - self.pos,
        {
            let ghost before = self.pos_spec();
            self.skip_comment();
            self.skip_whitespace();
            proof {
                if s[before] == '#' {
                    assert(self.pos_spec() > before);
                } else {
                    assert(is_pgm_whitespace(s[before]));
                    assert(self.pos_spec() > before);
                }
            }
        }
        proof {
            lemma_skip_filler_bounds(s, pos0);
        }
        let start = self.pos;
        proof {
            if self.pos < n {
                assert(skip_filler(s, self.pos_spec()) == self.pos_spec());
            }
            assert(skip_filler(s, pos0) == if start < n {
                start as int
            } else {
                s.len() as int
            });
        }
        if start >= n {
            return None;
        }
        while self.next_is_token_char()
            invariant
                self.wf(),
                self.src() == s,
                n == s.len(),
                start <= self.pos_spec(),
                token_end(s, start as int) == token_end(s, self.pos_spec()),
            decreases n - self.pos,
        {
            self.pos = self.pos + 1;
        }
        proof {
            assert(token_end(s, self.pos_spec()) == self.pos_spec());
            lemma_token_end_bounds(s, start as int);
        }
        let tok = self.data.substring_char(start, self.pos).to_owned();
        proof {
            assert(tok@ =~= s.subrange(start as int, self.pos_spec()));
            assert(tokens_from(s, pos0) =~= seq![tok@] + tokens_from(s, self.pos_spec()));
        }
        Some(tok)
    }
}

/// Parses a decimal token, rejecting values above `bound` as well as
/// anything that is not all digits.
fn parse_number(t: &str, bound: u64) -> (r: Option<u64>)
    ensures
        match r {
            Some(v) => is_bounded_number(t@, bound as int) && v == digits_value(t@),
            None => !is_bounded_number(t@, bound as int),
        },
{
    let n = t.unicode_len();
    if n == 0 {
        return None;
    }
    let mut acc: u64 = 0;
    let mut i: usize = 0;
    while i < n
        invariant
            i <= n,
            n == t@.len(),
            acc <= bound,
            forall|k: int| 0 <= k < i ==> is_digit(#[trigger] t@[k]),
            acc == digits_value(t@.take(i as int)),
        decreases n - i,
    {
        let c = t.get_char(i);
        if !('0' <= c && c <= '9') {
            return None;
        }
        let d = (c as u32) - ('0' as u32);
        proof {
            assert(t@.take(i as int + 1).drop_last() =~= t@.take(i as int));
            assert(t@.take(i as int + 1).last() == t@[i as int]);
        }
        let next = match acc.checked_mul(10) {
            Some(m) => m.checked_add(d as u64),
            None => None,
        };
        match next {
            Some(v) => {
                if v > bound {
                    proof {
                        lemma_digits_too_big(t@, i as int + 1, bound as int);
                    }
                    return None;
                }
                acc = v;
            },
            None => {
                proof {
                    lemma_digits_too_big_overflow(t@, i as int + 1, acc as int, d as int, bound as int);
                }
                return None;
            },
        }
        i = i + 1;
    }
    proof {
        assert(t@.take(n as int) =~= t@);
    }
    Some(acc)
}

/// If some prefix of the digits already exceeds the bound, the whole
/// token does.
proof fn lemma_digits_too_big(t: Seq<char>, j: int, bound: int)
    requires
        0 <= j <= t.len(),
        digits_value(t.take(j)) > bound,
    ensures
        !is_bounded_number(t, bound),
{
    if is_numeric_token(t) {
        lemma_digits_value_prefix(t, j);
    }
}

/// The same, when the prefix value only exists beyond the `u64` range.
proof fn lemma_digits_too_big_overflow(t: Seq<char>, j: int, acc: int, d: int, bound: int)
    requires
        0 < j <= t.len(),
        acc == digits_value(t.take(j - 1)),
        d == t[j - 1] as int - '0' as int,
        acc * 10 + d > u64::MAX,
        bound <= u64::MAX,
    ensures
        !is_bounded_number(t, bound),
{
    assert(t.take(j).drop_last() =~= t.take(j - 1));
    assert(t.take(j).last() == t[j - 1]);
    lemma_digits_too_big(t, j, bound);
}

/// Decodes a height-map text into a grid of raw height values, returning
/// exactly what `spec_parse_pgm` denotes.
pub fn terrain_from_pgm(data: String) -> (r: Result<Grid<u32>, ParseError>)
    ensures
        match r {
            Ok(g) => {
                &&& spec_parse_pgm(data@) matches Ok(m)
                &&& g.dim_x_spec() == m.0
                &&& g.dim_y_spec() == m.1
                &&& forall|x: int, y: int|
                    g.in_bounds(x, y) ==> g.spec_get(x, y) == m.2[x * m.1 + y]
            },
            Err(e) => spec_parse_pgm(data@) == Err::<(int, int, Seq<u32>), PgmError>(e@),
        },
{
    let ghost s = data@;
    let ghost toks = tokens_from(s, 0);
    let mut iter = SkipWhitespace::new(data.as_str());
    let magic = match iter.next() {
        Some(m) => m,
        None => {
            return Err(ParseError::EmptyFile);
        },
    };
    proof {
        assert(toks =~= seq![magic@] + tokens_from(s, iter.pos_spec()));
        assert(toks[0] == magic@);
        assert(tokens_from(s, iter.pos_spec()) =~= toks.skip(1));
    }
    let ms = magic.as_str();
    let magic_ok = ms.unicode_len() == 2 && ms.get_char(0) == 'P' && ms.get_char(1) == '2';
    proof {
        if magic_ok {
            assert(magic@ =~= seq!['P', '2']);
        } else {
            assert(magic@ != seq!['P', '2']);
        }
    }
    if !magic_ok {
        return Err(ParseError::InvalidMagicNumber(magic));
    }
    let x_dimension_string = match iter.next() {
        Some(t) => t,
        None => {
            return Err(ParseError::MissingXDimension);
        },
    };
    proof {
        assert(toks.skip(1) =~= seq![x_dimension_string@] + tokens_from(s, iter.pos_spec()));
        assert(toks[1] == x_dimension_string@);
        assert(tokens_from(s, iter.pos_spec()) =~= toks.skip(2));
    }
    let y_dimension_string = match iter.next() {
        Some(t) => t,
        None => {
            return Err(ParseError::MissingYDimension);
        },
    };
    proof {
        assert(toks.skip(2) =~= seq![y_dimension_string@] + tokens_from(s, iter.pos_spec()));
        assert(toks[2] == y_dimension_string@);
        assert(tokens_from(s, iter.pos_spec()) =~= toks.skip(3));
    }
    let dim_x: usize = match parse_number(x_dimension_string.as_str(), 0x8000_0000u64) {
        Some(v) => v as usize,
        None => {
            return Err(
                ParseError::InvalidNumber {
                    context: Context::XDimension,
                    error: x_dimension_string,
                },
            );
        },
    };
    let dim_y: usize = match parse_number(y_dimension_string.as_str(), 0x8000_0000u64) {
        Some(v) => v as usize,
        None => {
            return Err(
                ParseError::InvalidNumber {
                    context: Context::YDimension,
                    error: y_dimension_string,
                },
            );
        },
    };
    let max_height_string = match iter.next() {
        Some(t) => t,
        None => {
            return Err(ParseError::MissingMaxHeight);
        },
    };
    proof {
        assert(toks.skip(3) =~= seq![max_height_string@] + tokens_from(s, iter.pos_spec()));
        assert(toks[3] == max_height_string@);
        assert(tokens_from(s, iter.pos_spec()) =~= toks.skip(4));
    }
    let _max_height: u64 = match parse_number(max_height_string.as_str(), u64::MAX) {
        Some(v) => v,
        None => {
            return Err(
                ParseError::InvalidNumber { context: Context::MaxHeight, error: max_height_string },
            );
        },
    };
    let ghost total = (digits_value(toks[1]) * digits_value(toks[2])) as nat;
    proof {
        lemma_digits_value_nonneg(toks[1]);
        lemma_digits_value_nonneg(toks[2]);
        assert(pgm_reduces_to_heights(s, dim_x as int, dim_y as int));
    }
    let mut data_vec: Vec<u32> = Vec::new();
    let mut x: usize = 0;
    while x < dim_x
        invariant
            x <= dim_x,
            iter.wf(),
            iter.src() == s,
            s == data@,
            toks == tokens_from(s, 0),
            toks.len() >= 4,
            dim_x == digits_value(toks[1]),
            dim_y == digits_value(toks[2]),
            total == dim_x * dim_y,
            pgm_reduces_to_heights(s, dim_x as int, dim_y as int),
            data_vec@.len() == x * dim_y,
            4 + data_vec@.len() <= toks.len(),
            tokens_from(s, iter.pos_spec()) =~= toks.skip(4 + data_vec@.len() as int),
            spec_parse_heights(toks, 4 + data_vec@.len() as int, (total
                - data_vec@.len()) as nat) matches Err(e) ==> spec_parse_heights(toks, 4, total)
                == Err::<Seq<u32>, PgmError>(e),
            forall|rest: Seq<u32>|
                spec_parse_heights(toks, 4 + data_vec@.len() as int, (total
                    - data_vec@.len()) as nat) == Ok::<Seq<u32>, PgmError>(rest)
                    ==> spec_parse_heights(toks, 4, total) == Ok::<Seq<u32>, PgmError>(
                    data_vec@ + rest,
                ),
        decreases dim_x - x,
    {
        proof {
            assert(x * dim_y + dim_y <= dim_x * dim_y) by (nonlinear_arith)
                requires
                    0 <= x < dim_x,
                    0 <= dim_y,
            ;
        }
        let mut y: usize = 0;
        while y < dim_y
            invariant
                y <= dim_y,
                x < dim_x,
                iter.wf(),
                iter.src() == s,
                s == data@,
                toks == tokens_from(s, 0),
                toks.len() >= 4,
                dim_x == digits_value(toks[1]),
                dim_y == digits_value(toks[2]),
                total == dim_x * dim_y,
                pgm_reduces_to_heights(s, dim_x as int, dim_y as int),
                data_vec@.len() == x * dim_y + y,
                4 + data_vec@.len() <= toks.len(),
                x * dim_y + dim_y <= total,
                tokens_from(s, iter.pos_spec()) =~= toks.skip(4 + data_vec@.len() as int),
                spec_parse_heights(toks, 4 + data_vec@.len() as int, (total
                    - data_vec@.len()) as nat) matches Err(e) ==> spec_parse_heights(
                    toks,
                    4,
                    total,
                ) == Err::<Seq<u32>, PgmError>(e),
                forall|rest: Seq<u32>|
                    spec_parse_heights(toks, 4 + data_vec@.len() as int, (total
                        - data_vec@.len()) as nat) == Ok::<Seq<u32>, PgmError>(rest)
                        ==> spec_parse_heights(toks, 4, total) == Ok::<Seq<u32>, PgmError>(
                        data_vec@ + rest,
                    ),
            decreases dim_y - y,
        {
            let ghost k = 4 + data_vec@.len() as int;
            let ghost remaining = (total - data_vec@.len()) as nat;
            proof {
                assert(data_vec@.len() < total);
                assert(remaining > 0);
            }
            let height_string = match iter.next() {
                Some(t) => t,
                None => {
                    proof {
                        assert(toks.skip(k).len() == 0);
                        assert(k >= toks.len());
                        assert(spec_parse_heights(toks, k, remaining) == Err::<
                            Seq<u32>,
                            PgmError,
                        >(PgmError::MissingDatapoint));
                    }
                    return Err(ParseError::MissingDatapoint);
                },
            };
            proof {
                assert(toks.skip(k) =~= seq![height_string@] + tokens_from(s, iter.pos_spec()));
                assert(toks.skip(k).len() > 0);
                assert(k < toks.len());
                assert(toks.skip(k)[0] == toks[k]);
                assert(toks[k] == height_string@);
                assert(toks.skip(k).drop_first() =~= toks.skip(k + 1));
                assert((seq![height_string@] + tokens_from(s, iter.pos_spec())).drop_first()
                    =~= tokens_from(s, iter.pos_spec()));
                assert(tokens_from(s, iter.pos_spec()) =~= toks.skip(k + 1));
            }
            let height: u32 = match parse_number(height_string.as_str(), 0xffff_ffffu64) {
                Some(v) => v as u32,
                None => {
                    proof {
                        assert(spec_parse_heights(toks, k, remaining) == Err::<
                            Seq<u32>,
                            PgmError,
                        >(
                            PgmError::InvalidNumber {
                                context: Context::Height,
                                error: toks[k],
                            },
                        ));
                    }
                    return Err(
                        ParseError::InvalidNumber {
                            context: Context::Height,
                            error: height_string,
                        },
                    );
                },
            };
            let ghost old_data = data_vec@;
            data_vec.push(height);
            proof {
                assert(spec_parse_heights(toks, k, remaining) == (match spec_parse_heights(
                    toks,
                    k + 1,
                    (remaining - 1) as nat,
                ) {
                    Ok(rest) => Ok::<Seq<u32>, PgmError>(seq![height as u32] + rest),
                    Err(e) => Err::<Seq<u32>, PgmError>(e),
                }));
                assert forall|rest: Seq<u32>|
                    spec_parse_heights(toks, k + 1, (remaining - 1) as nat) == Ok::<
                        Seq<u32>,
                        PgmError,
                    >(rest) implies spec_parse_heights(toks, 4, total) == Ok::<
                    Seq<u32>,
                    PgmError,
                >(data_vec@ + rest) by {
                    assert(spec_parse_heights(toks, k, remaining) == Ok::<Seq<u32>, PgmError>(
                        seq![height as u32] + rest,
                    ));
                    assert(old_data + (seq![height as u32] + rest) =~= data_vec@ + rest);
                }
            }
            y = y + 1;
        }
        proof {
            assert((x + 1) * dim_y == x * dim_y + dim_y) by (nonlinear_arith);
        }
        x = x + 1;
    }
    proof {
        assert(data_vec@.len() == total) by {
            assert(data_vec@.len() == dim_x * dim_y);
        }
        assert(spec_parse_heights(toks, 4 + total as int, 0) == Ok::<Seq<u32>, PgmError>(
            Seq::empty(),
        ));
        assert(data_vec@ + Seq::<u32>::empty() =~= data_vec@);
        assert(spec_parse_heights(toks, 4, total) == Ok::<Seq<u32>, PgmError>(data_vec@));
    }
    let grid = Grid::from_raw(data_vec, dim_x, dim_y);
    Ok(grid)
}

/// The cell being filled stays within the total count.
proof fn lemma_counting_in_bounds(x: int, y: int, dim_x: int, dim_y: int)
    requires
        0 <= x < dim_x,
        0 <= y < dim_y,
    ensures
        0 <= x * dim_y + y < dim_x * dim_y,
{
    assert(0 <= x * dim_y + y < dim_x * dim_y) by (nonlinear_arith)
        requires
            0 <= x < dim_x,
            0 <= y < dim_y,
    ;
}

} // verus!
