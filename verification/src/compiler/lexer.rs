//! The template lexer: splits a template into text, `{{ variable }}`,
//! `{% tag %}`, `{% endtag %}` and `{# comment #}` tokens.
use vstd::prelude::*;
use crate::compiler::error::LexError;
use crate::text::{
    chars_of, find_from, lemma_find_from_bounds, first_word, first_word_range, has_prefix, is_whitespace, is_ws,
    lemma_utf8_len_prefix, lemma_utf8_len_push, lemma_utf8_len_encode, range_eq,
    range_has_prefix, string_of, strip_all, strip_all_range, trim, trim_range, utf8_len,
    utf8_len_exceeds, width_of, find_range, find_in,
};

verus! {

pub const TOKEN_COUNT_MAX: u32 = 500_000;

pub const FILTER_COUNT_MAX: u32 = 100;

pub const FILTER_ARGUMENTS_BYTES_MAX: u32 = 10_000;

/// A filter written after a variable: `|name:arg1,arg2`.
#[derive(Debug, Clone, PartialEq)]
pub struct Filter {
    pub name: String,
    pub arguments: Vec<String>,
}

#[derive(Debug, Clone, PartialEq)]
pub enum Token {
    Text(String),
    Variable { raw: String, expression: String, filters: Vec<Filter> },
    BlockStart { raw: String, tag: String, content: String },
    BlockEnd { tag: String, raw: String },
    Comment(String),
    Eof,
}

/// The view of a [`Filter`].
pub struct FilterModel {
    pub name: Seq<char>,
    pub arguments: Seq<Seq<char>>,
}

/// The view of a [`Token`].
pub enum TokenModel {
    Text(Seq<char>),
    Variable { raw: Seq<char>, expression: Seq<char>, filters: Seq<FilterModel> },
    BlockStart { raw: Seq<char>, tag: Seq<char>, content: Seq<char> },
    BlockEnd { tag: Seq<char>, raw: Seq<char> },
    Comment(Seq<char>),
    Eof,
}

pub open spec fn strings_view(v: Seq<String>) -> Seq<Seq<char>> {
    v.map_values(|a: String| a@)
}

impl View for Filter {
    type V = FilterModel;

    open spec fn view(&self) -> FilterModel {
        FilterModel { name: self.name@, arguments: strings_view(self.arguments@) }
    }
}

pub open spec fn filters_view(v: Seq<Filter>) -> Seq<FilterModel> {
    v.map_values(|f: Filter| f@)
}

impl View for Token {
    type V = TokenModel;

    open spec fn view(&self) -> TokenModel {
        match self {
            Token::Text(t) => TokenModel::Text(t@),
            Token::Variable { raw, expression, filters } => TokenModel::Variable {
                raw: raw@,
                expression: expression@,
                filters: filters_view(filters@),
            },
            Token::BlockStart { raw, tag, content } => TokenModel::BlockStart {
                raw: raw@,
                tag: tag@,
                content: content@,
            },
            Token::BlockEnd { tag, raw } => TokenModel::BlockEnd { tag: tag@, raw: raw@ },
            Token::Comment(c) => TokenModel::Comment(c@),
            Token::Eof => TokenModel::Eof,
        }
    }
}

pub open spec fn tokens_view(v: Seq<Token>) -> Seq<TokenModel> {
    v.map_values(|t: Token| t@)
}

pub open spec fn is_quote(c: char) -> bool {
    c == '"' || c == '\''
}

// ---------------------------------------------------------------------------
// Filters and their arguments
// ---------------------------------------------------------------------------
/// Arguments of a filter: the pieces of `s` between commas that stand outside
/// quotes, trimmed, empty pieces dropped.  `q` is the open quote, `start`
/// where the current piece began.
pub open spec fn arguments_from(
    s: Seq<char>,
    pos: int,
    q: Option<char>,
    start: int,
    acc: Seq<Seq<char>>,
) -> Seq<Seq<char>>
    decreases s.len() - pos,
{
    if pos >= s.len() || pos < 0 {
        let t = trim(s.subrange(start, s.len() as int));
        if t.len() > 0 {
            acc.push(t)
        } else {
            acc
        }
    } else {
        let c = s[pos];
        match q {
            Some(qc) => arguments_from(
                s,
                pos + 1,
                if c == qc {
                    None
                } else {
                    q
                },
                start,
                acc,
            ),
            None => if is_quote(c) {
                arguments_from(s, pos + 1, Some(c), start, acc)
            } else if c == ',' {
                let t = trim(s.subrange(start, pos));
                arguments_from(
                    s,
                    pos + 1,
                    None,
                    pos + 1,
                    if t.len() > 0 {
                        acc.push(t)
                    } else {
                        acc
                    },
                )
            } else {
                arguments_from(s, pos + 1, None, start, acc)
            },
        }
    }
}

/// The argument list of a filter; `None` when the argument text is longer
/// than the lexer accepts.
pub open spec fn split_arguments_spec(s: Seq<char>) -> Option<Seq<Seq<char>>> {
    if utf8_len(s) > FILTER_ARGUMENTS_BYTES_MAX {
        None
    } else {
        Some(arguments_from(s, 0, None, 0, seq![]))
    }
}

/// One filter segment (already trimmed): `name` or `name:arguments`.
/// `Some(None)` when there is no filter, `None` when the arguments are too
/// long.
pub open spec fn parse_filter_spec(s: Seq<char>) -> Option<Option<FilterModel>> {
    if s.len() == 0 {
        Some(None)
    } else {
        match find_from(s, seq![':'], 0) {
            Some(colon) => {
                let name = trim(s.take(colon));
                match split_arguments_spec(s.skip(colon + 1)) {
                    None => None,
                    Some(arguments) => if name.len() == 0 {
                        Some(None)
                    } else {
                        Some(Some(FilterModel { name, arguments }))
                    },
                }
            },
            None => {
                let name = trim(s);
                if name.len() == 0 {
                    Some(None)
                } else {
                    Some(Some(FilterModel { name, arguments: seq![] }))
                }
            },
        }
    }
}

pub open spec fn push_filter(
    acc: Seq<FilterModel>,
    f: Option<Option<FilterModel>>,
) -> Option<Seq<FilterModel>> {
    match f {
        None => None,
        Some(None) => Some(acc),
        Some(Some(filter)) => Some(acc.push(filter)),
    }
}

/// The filters of a variable expression: the segments after the first `|`
/// that stands outside quotes, split at such `|`.  `None` when the lexer's
/// limits are exceeded.
pub open spec fn filters_from(
    s: Seq<char>,
    pos: int,
    q: Option<char>,
    piped: bool,
    start: int,
    acc: Seq<FilterModel>,
) -> Option<Seq<FilterModel>>
    decreases s.len() - pos,
{
    if pos >= s.len() || pos < 0 {
        if piped {
            push_filter(acc, parse_filter_spec(trim(s.subrange(start, s.len() as int))))
        } else {
            Some(acc)
        }
    } else if acc.len() > FILTER_COUNT_MAX {
        None
    } else {
        let c = s[pos];
        match q {
            Some(qc) => filters_from(
                s,
                pos + 1,
                if c == qc {
                    None
                } else {
                    q
                },
                piped,
                start,
                acc,
            ),
            None => if is_quote(c) {
                filters_from(s, pos + 1, Some(c), piped, start, acc)
            } else if c == '|' {
                if !piped {
                    filters_from(s, pos + 1, None, true, pos + 1, acc)
                } else {
                    match push_filter(acc, parse_filter_spec(trim(s.subrange(start, pos)))) {
                        None => None,
                        Some(acc2) => filters_from(s, pos + 1, None, true, pos + 1, acc2),
                    }
                }
            } else {
                filters_from(s, pos + 1, None, piped, start, acc)
            },
        }
    }
}

pub open spec fn filters_spec(s: Seq<char>) -> Option<Seq<FilterModel>> {
    filters_from(s, 0, None, false, 0, seq![])
}

pub open spec fn args_inv(
    v: Seq<char>,
    lo: int,
    hi: int,
    pos: int,
    q: Option<char>,
    start: int,
    out: Seq<Seq<char>>,
) -> bool {
    let s = v.subrange(lo, hi);
    arguments_from(s, 0, None, 0, seq![]) == arguments_from(s, pos - lo, q, start - lo, out)
}

fn split_arguments(v: &Vec<char>, lo: usize, hi: usize) -> (r: Vec<String>)
    requires
        lo <= hi <= v.len(),
        utf8_len(v@.subrange(lo as int, hi as int)) <= FILTER_ARGUMENTS_BYTES_MAX,
    ensures
        split_arguments_spec(v@.subrange(lo as int, hi as int)) == Some(strings_view(r@)),
{
    let ghost s = v@.subrange(lo as int, hi as int);
    let mut arguments: Vec<String> = Vec::new();
    let mut quoted = false;
    let mut quote: char = ' ';
    let mut start = lo;
    let mut position = lo;
    assert(strings_view(arguments@) =~= Seq::<Seq<char>>::empty());
    while position < hi
        invariant
            lo <= start <= position <= hi <= v.len(),
            s == v@.subrange(lo as int, hi as int),
            args_inv(
                v@,
                lo as int,
                hi as int,
                position as int,
                if quoted {
                    Some(quote)
                } else {
                    None
                },
                start as int,
                strings_view(arguments@),
            ),
        decreases hi - position,
    {
        let c = v[position];
        if quoted {
            if c == quote {
                quoted = false;
            }
        } else if c == '"' || c == '\'' {
            quoted = true;
            quote = c;
        } else if c == ',' {
            let (a, b) = trim_range(v, start, position);
            assert(v@.subrange(start as int, position as int) =~= s.subrange(
                start - lo,
                position - lo,
            ));
            if a < b {
                let piece = string_of(v, a, b);
                proof {
                    assert(strings_view(arguments@.push(piece)) =~= strings_view(arguments@).push(
                        piece@,
                    ));
                }
                arguments.push(piece);
            }
            start = position + 1;
        }
        position += 1;
    }
    let (a, b) = trim_range(v, start, hi);
    assert(v@.subrange(start as int, hi as int) =~= s.subrange(start - lo, s.len() as int));
    if a < b {
        let piece = string_of(v, a, b);
        proof {
            assert(strings_view(arguments@.push(piece)) =~= strings_view(arguments@).push(
                piece@,
            ));
        }
        arguments.push(piece);
    }
    arguments
}

fn single(c: char) -> (r: Vec<char>)
    ensures
        r@ == seq![c],
{
    let mut v = Vec::new();
    v.push(c);
    assert(v@ =~= seq![c]);
    v
}

/// One trimmed filter segment `v[lo..hi]`.
fn parse_filter(v: &Vec<char>, lo: usize, hi: usize) -> (r: Option<Filter>)
    requires
        lo <= hi <= v.len(),
        parse_filter_spec(v@.subrange(lo as int, hi as int)) is Some,
    ensures
        parse_filter_spec(v@.subrange(lo as int, hi as int)) == Some(
            match r {
                Some(f) => Some(f@),
                None => None::<FilterModel>,
            },
        ),
{
    let ghost s = v@.subrange(lo as int, hi as int);
    if lo == hi {
        return None;
    }
    let colon = single(':');
    match find_range(v, lo, hi, &colon, 0) {
        Some(c) => {
            proof {
                crate::text::lemma_find_from_bounds(s, seq![':'], 0);
            }
            let (a, b) = trim_range(v, lo, lo + c);
            assert(v@.subrange(lo as int, lo + c) =~= s.take(c as int));
            assert(v@.subrange(lo + c + 1, hi as int) =~= s.skip(c + 1));
            let arguments = split_arguments(v, lo + c + 1, hi);
            if a == b {
                return None;
            }
            let name = string_of(v, a, b);
            Some(Filter { name, arguments })
        },
        None => {
            let (a, b) = trim_range(v, lo, hi);
            if a == b {
                return None;
            }
            let name = string_of(v, a, b);
            let arguments: Vec<String> = Vec::new();
            assert(strings_view(arguments@) =~= Seq::<Seq<char>>::empty());
            Some(Filter { name, arguments })
        },
    }
}

pub open spec fn filters_inv(
    v: Seq<char>,
    lo: int,
    hi: int,
    pos: int,
    q: Option<char>,
    piped: bool,
    start: int,
    out: Seq<FilterModel>,
) -> bool {
    let s = v.subrange(lo, hi);
    filters_spec(s) == filters_from(s, pos - lo, q, piped, start - lo, out)
}

/// The filters of the variable expression `v[lo..hi]`.
fn parse_filters(v: &Vec<char>, lo: usize, hi: usize) -> (r: Vec<Filter>)
    requires
        lo <= hi <= v.len(),
        filters_spec(v@.subrange(lo as int, hi as int)) is Some,
    ensures
        filters_spec(v@.subrange(lo as int, hi as int)) == Some(filters_view(r@)),
{
    let ghost s = v@.subrange(lo as int, hi as int);
    let mut filters: Vec<Filter> = Vec::new();
    let mut quoted = false;
    let mut quote: char = ' ';
    let mut piped = false;
    let mut start = lo;
    let mut position = lo;
    assert(filters_view(filters@) =~= Seq::<FilterModel>::empty());
    while position < hi
        invariant
            lo <= start <= position <= hi <= v.len(),
            s == v@.subrange(lo as int, hi as int),
            filters_spec(s) is Some,
            filters_inv(
                v@,
                lo as int,
                hi as int,
                position as int,
                if quoted {
                    Some(quote)
                } else {
                    None
                },
                piped,
                start as int,
                filters_view(filters@),
            ),
        decreases hi - position,
    {
        let c = v[position];
        if quoted {
            if c == quote {
                quoted = false;
            }
        } else if c == '"' || c == '\'' {
            quoted = true;
            quote = c;
        } else if c == '|' {
            if !piped {
                piped = true;
            } else {
                let (a, b) = trim_range(v, start, position);
                assert(v@.subrange(start as int, position as int) =~= s.subrange(
                    start - lo,
                    position - lo,
                ));
                let f = parse_filter(v, a, b);
                match f {
                    Some(filter) => {
                        proof {
                            assert(filters_view(filters@.push(filter)) =~= filters_view(
                                filters@,
                            ).push(filter@));
                        }
                        filters.push(filter);
                    },
                    None => {},
                }
            }
            start = position + 1;
        }
        position += 1;
    }
    if piped {
        let (a, b) = trim_range(v, start, hi);
        assert(v@.subrange(start as int, hi as int) =~= s.subrange(start - lo, s.len() as int));
        let f = parse_filter(v, a, b);
        match f {
            Some(filter) => {
                proof {
                    assert(filters_view(filters@.push(filter)) =~= filters_view(filters@).push(
                        filter@,
                    ));
                }
                filters.push(filter);
            },
            None => {},
        }
    }
    filters
}

// ---------------------------------------------------------------------------
// Tokens
// ---------------------------------------------------------------------------
/// Bytes of the UTF-8 encoding of `s` before character index `i`.
pub open spec fn byte_offset(s: Seq<char>, i: int) -> nat {
    utf8_len(s.take(i))
}

/// Whether a `{{`, `{%` or `{#` opens at `i`.
pub open spec fn opens_tag(s: Seq<char>, i: int) -> bool {
    0 <= i && i + 1 < s.len() && s[i] == '{' && (s[i + 1] == '{' || s[i + 1] == '%' || s[i
        + 1] == '#')
}

/// End of the text that starts at `i`: the next tag opening, or the end.
pub open spec fn text_end(s: Seq<char>, i: int) -> int
    decreases s.len() - i,
{
    if i < 0 || i >= s.len() {
        s.len() as int
    } else if opens_tag(s, i) {
        i
    } else {
        text_end(s, i + 1)
    }
}

/// Index of the `}}` that closes a variable, scanning from `i` with `q` the
/// open quote; a backslash inside quotes escapes the next character.
pub open spec fn variable_close(s: Seq<char>, i: int, q: Option<char>) -> Option<int>
    decreases s.len() - i,
{
    if i < 0 || i >= s.len() {
        None
    } else {
        match q {
            Some(qc) => if s[i] == '\\' {
                variable_close(
                    s,
                    if i + 1 < s.len() {
                        i + 2
                    } else {
                        i + 1
                    },
                    q,
                )
            } else if s[i] == qc {
                variable_close(s, i + 1, None)
            } else {
                variable_close(s, i + 1, q)
            },
            None => if is_quote(s[i]) {
                variable_close(s, i + 1, Some(s[i]))
            } else if s[i] == '}' && i + 1 < s.len() && s[i + 1] == '}' {
                Some(i)
            } else {
                variable_close(s, i + 1, None)
            },
        }
    }
}

pub open spec fn close_block() -> Seq<char> {
    seq!['%', '}']
}

pub open spec fn close_comment() -> Seq<char> {
    seq!['#', '}']
}

/// The body of a verbatim block that starts at `q`: the index where the body
/// ends and the index after the `{% endverbatim %}` that ends it (both the
/// end of the input when there is none).
pub open spec fn verbatim_end(s: Seq<char>, q: int) -> (int, int)
    decreases s.len() - q,
{
    if q < 0 || q + 1 >= s.len() {
        (s.len() as int, s.len() as int)
    } else if s[q] == '{' && s[q + 1] == '%' {
        match find_from(s, close_block(), q + 2) {
            Some(e) => if trim(s.subrange(q + 2, e)) == "endverbatim"@ {
                (q, e + 2)
            } else {
                verbatim_end(s, q + 1)
            },
            None => verbatim_end(s, q + 1),
        }
    } else {
        verbatim_end(s, q + 1)
    }
}

/// What one step of the lexer does at `i`.
pub enum StepModel {
    Tokens(Seq<TokenModel>, int),
    Failed(LexError),
    Limit,
}

pub open spec fn variable_step(s: Seq<char>, i: int) -> StepModel {
    match variable_close(s, i + 2, None) {
        None => StepModel::Failed(LexError::UnterminatedVariable(byte_offset(s, i) as u32)),
        Some(j) => {
            let expression = trim(s.subrange(i + 2, j));
            match filters_spec(expression) {
                None => StepModel::Limit,
                Some(filters) => StepModel::Tokens(
                    seq![
                        TokenModel::Variable {
                            raw: s.subrange(i, j + 2),
                            expression,
                            filters,
                        },
                    ],
                    j + 2,
                ),
            }
        },
    }
}

pub open spec fn is_verbatim_open(content: Seq<char>) -> bool {
    content == "verbatim"@ || has_prefix(content, "verbatim "@)
}

pub open spec fn block_step(s: Seq<char>, i: int) -> StepModel {
    match find_from(s, close_block(), i + 2) {
        None => StepModel::Failed(LexError::UnterminatedBlock(byte_offset(s, i) as u32)),
        Some(e) => {
            let raw = s.subrange(i, e + 2);
            let content = trim(s.subrange(i + 2, e));
            if is_verbatim_open(content) {
                let (body_end, resume) = verbatim_end(s, e + 2);
                StepModel::Tokens(
                    seq![
                        TokenModel::BlockStart { raw, tag: "verbatim"@, content },
                        TokenModel::Text(s.subrange(e + 2, body_end)),
                    ],
                    resume,
                )
            } else if has_prefix(content, "end"@) {
                StepModel::Tokens(
                    seq![TokenModel::BlockEnd { tag: first_word(strip_all(content, "end"@)), raw }],
                    e + 2,
                )
            } else {
                StepModel::Tokens(
                    seq![TokenModel::BlockStart { raw, tag: first_word(content), content }],
                    e + 2,
                )
            }
        },
    }
}

pub open spec fn comment_step(s: Seq<char>, i: int) -> StepModel {
    match find_from(s, close_comment(), i + 2) {
        None => StepModel::Failed(LexError::UnterminatedComment(byte_offset(s, i) as u32)),
        Some(e) => StepModel::Tokens(seq![TokenModel::Comment(s.subrange(i + 2, e))], e + 2),
    }
}

pub open spec fn text_step(s: Seq<char>, i: int) -> StepModel {
    let j = text_end(s, i);
    if j == i {
        StepModel::Tokens(seq![], i)
    } else {
        StepModel::Tokens(seq![TokenModel::Text(s.subrange(i, j))], j)
    }
}

pub open spec fn step(s: Seq<char>, i: int) -> StepModel {
    if s[i] == '{' && i + 1 < s.len() && s[i + 1] == '{' {
        variable_step(s, i)
    } else if s[i] == '{' && i + 1 < s.len() && s[i + 1] == '%' {
        block_step(s, i)
    } else if s[i] == '{' && i + 1 < s.len() && s[i + 1] == '#' {
        comment_step(s, i)
    } else {
        text_step(s, i)
    }
}

/// The result of lexing a whole input.
pub enum LexOutcome {
    Done(Seq<TokenModel>),
    Failed(LexError),
    /// More tokens, filters or filter-argument bytes than the lexer accepts.
    Limit,
}

/// The tokens from index `i` on, `count` tokens having been produced before.
pub open spec fn lex_from(s: Seq<char>, i: int, count: nat) -> LexOutcome
    decreases s.len() - i,
{
    if i < 0 || i >= s.len() {
        LexOutcome::Done(seq![])
    } else if count >= TOKEN_COUNT_MAX {
        LexOutcome::Limit
    } else {
        match step(s, i) {
            StepModel::Failed(e) => LexOutcome::Failed(e),
            StepModel::Limit => LexOutcome::Limit,
            StepModel::Tokens(t, j) => if count + t.len() > TOKEN_COUNT_MAX {
                LexOutcome::Limit
            } else if j <= i || j > s.len() {
                LexOutcome::Done(t)
            } else {
                match lex_from(s, j, count + t.len()) {
                    LexOutcome::Done(rest) => LexOutcome::Done(t + rest),
                    other => other,
                }
            },
        }
    }
}

/// The token stream of a template: its tokens followed by `Eof`.
pub open spec fn tokenize_spec(s: Seq<char>) -> LexOutcome {
    match lex_from(s, 0, 0) {
        LexOutcome::Done(t) => LexOutcome::Done(t.push(TokenModel::Eof)),
        other => other,
    }
}

pub open spec fn prepend(t: Seq<TokenModel>, o: LexOutcome) -> LexOutcome {
    match o {
        LexOutcome::Done(rest) => LexOutcome::Done(t + rest),
        other => other,
    }
}

fn opens_tag_at(v: &Vec<char>, p: usize) -> (r: bool)
    requires
        p < v.len(),
    ensures
        r == opens_tag(v@, p as int),
{
    if v[p] == '{' && p + 1 < v.len() {
        let next = v[p + 1];
        next == '{' || next == '%' || next == '#'
    } else {
        false
    }
}

/// Splits a template into tokens.
pub struct Lexer {
    input: Vec<char>,
    position: usize,
    offset: u32,
    buffer: Option<String>,
}

impl Lexer {
    /// The well-formedness of a lexer between calls.
    pub closed spec fn wf(&self) -> bool {
        &&& self.position <= self.input.len()
        &&& self.offset == byte_offset(self.input@, self.position as int)
        &&& utf8_len(self.input@) <= u32::MAX
        &&& self.buffer is None
    }

    /// The template being lexed.
    pub closed spec fn source(&self) -> Seq<char> {
        self.input@
    }

    /// How far the lexer has come.
    pub closed spec fn cursor(&self) -> int {
        self.position as int
    }

    pub fn new(input: &str) -> (r: Self)
        requires
            utf8_len(input@) <= u32::MAX,
        ensures
            r.wf(),
            r.source() == input@,
            r.cursor() == 0,
    {
        let chars = chars_of(input);
        proof {
            lemma_utf8_len_encode(input@);
            assert(input@.take(0) =~= Seq::<char>::empty());
            assert(byte_offset(chars@, 0) == 0);
        }
        Self { input: chars, position: 0, offset: 0, buffer: None }
    }

    /// Moves to `j`, keeping `offset` in step.
    fn advance_to(&mut self, j: usize)
        requires
            old(self).position <= j <= old(self).input.len(),
            old(self).offset == byte_offset(old(self).input@, old(self).position as int),
            utf8_len(old(self).input@) <= u32::MAX,
        ensures
            final(self).input == old(self).input,
            final(self).buffer == old(self).buffer,
            final(self).position == j,
            final(self).offset == byte_offset(final(self).input@, j as int),
    {
        let ghost s = self.input@;
        while self.position < j
            invariant
                self.input@ == s,
                self.input == old(self).input,
                self.position <= j <= s.len(),
                self.buffer == old(self).buffer,
                self.offset == byte_offset(s, self.position as int),
                utf8_len(s) <= u32::MAX,
            decreases j - self.position,
        {
            let p = self.position;
            let w = width_of(self.input[p]);
            proof {
                assert(s.take(p + 1) =~= s.take(p as int).push(s[p as int]));
                lemma_utf8_len_push(s.take(p as int), s[p as int]);
                lemma_utf8_len_prefix(s, p + 1, s.len() as int);
            }
            self.offset = self.offset + w;
            self.position = p + 1;
        }
    }

    fn consume_variable(&mut self) -> (r: Result<Token, LexError>)
        requires
            old(self).wf(),
            old(self).position + 1 < old(self).input.len(),
            !(variable_step(old(self).input@, old(self).position as int) is Limit),
        ensures
            final(self).input == old(self).input,
            final(self).buffer is None,
            final(self).offset == byte_offset(final(self).input@, final(self).position as int),
            final(self).position <= final(self).input.len(),
            match variable_step(old(self).input@, old(self).position as int) {
                StepModel::Tokens(t, j) => r is Ok && t == seq![r->Ok_0@] && final(self).position
                    == j && j > old(self).position,
                StepModel::Failed(e) => r == Err::<Token, LexError>(e),
                StepModel::Limit => false,
            },
    {
        let ghost s = self.input@;
        let start = self.position;
        let len = self.input.len();
        let mut p = start + 2;
        let mut quoted = false;
        let mut quote: char = ' ';
        while p < len
            invariant
                s == self.input@,
                self.input == old(self).input,
                self.buffer == old(self).buffer,
                self.position == start,
                self.offset == old(self).offset,
                self.offset == byte_offset(s, start as int),
                utf8_len(s) <= u32::MAX,
                old(self).wf(),
                old(self).position == start,
                !(variable_step(old(self).input@, old(self).position as int) is Limit),
                len == s.len(),
                start + 2 <= p <= len,
                variable_close(s, start + 2, None) == variable_close(
                    s,
                    p as int,
                    if quoted {
                        Some(quote)
                    } else {
                        None
                    },
                ),
            decreases len - p,
        {
            let c = self.input[p];
            if quoted {
                if c == '\\' {
                    p += 1;
                    if p < len {
                        p += 1;
                    }
                } else {
                    if c == quote {
                        quoted = false;
                    }
                    p += 1;
                }
            } else if c == '"' || c == '\'' {
                quoted = true;
                quote = c;
                p += 1;
            } else if c == '}' && p + 1 < len && self.input[p + 1] == '}' {
                assert(variable_close(s, p as int, None) == Some(p as int));
                assert(variable_close(s, start + 2, None) == Some(p as int));
                let (a, b) = trim_range(&self.input, start + 2, p);
                assert(filters_spec(trim(s.subrange(start + 2, p as int))) is Some);
                let filters = parse_filters(&self.input, a, b);
                let raw = string_of(&self.input, start, p + 2);
                let expression = string_of(&self.input, a, b);
                self.advance_to(p + 2);
                let token = Token::Variable { raw, expression, filters };
                return Ok(token);
            } else {
                p += 1;
            }
        }
        Err(LexError::UnterminatedVariable(self.offset))
    }

    fn consume_comment(&mut self) -> (r: Result<Token, LexError>)
        requires
            old(self).wf(),
            old(self).position + 1 < old(self).input.len(),
        ensures
            final(self).input == old(self).input,
            final(self).buffer is None,
            final(self).offset == byte_offset(final(self).input@, final(self).position as int),
            final(self).position <= final(self).input.len(),
            match comment_step(old(self).input@, old(self).position as int) {
                StepModel::Tokens(t, j) => r is Ok && t == seq![r->Ok_0@] && final(self).position
                    == j && j > old(self).position,
                StepModel::Failed(e) => r == Err::<Token, LexError>(e),
                StepModel::Limit => false,
            },
    {
        let start = self.position;
        let close = chars_of("#}");
        proof {
            reveal_strlit("#}");
            assert(close@ =~= close_comment());
        }
        match find_in(&self.input, &close, start + 2) {
            None => Err(LexError::UnterminatedComment(self.offset)),
            Some(e) => {
                proof {
                    crate::text::lemma_find_from_bounds(self.input@, close@, start + 2);
                }
                let content = string_of(&self.input, start + 2, e);
                self.advance_to(e + 2);
                Ok(Token::Comment(content))
            },
        }
    }

    fn consume_text(&mut self) -> (r: Option<Token>)
        requires
            old(self).wf(),
            old(self).position < old(self).input.len(),
        ensures
            final(self).input == old(self).input,
            final(self).buffer is None,
            final(self).offset == byte_offset(final(self).input@, final(self).position as int),
            final(self).position <= final(self).input.len(),
            final(self).position == text_end(old(self).input@, old(self).position as int),
            match r {
                Some(tok) => tok@ == TokenModel::Text(
                    old(self).input@.subrange(
                        old(self).position as int,
                        final(self).position as int,
                    ),
                ) && final(self).position > old(self).position,
                None => final(self).position == old(self).position,
            },
    {
        let ghost s = self.input@;
        let start = self.position;
        let len = self.input.len();
        let mut p = start;
        while p < len && !opens_tag_at(&self.input, p)
            invariant
                s == self.input@,
                self.input == old(self).input,
                self.buffer == old(self).buffer,
                self.position == start,
                self.offset == old(self).offset,
                old(self).wf(),
                len == s.len(),
                start <= p <= len,
                text_end(s, start as int) == text_end(s, p as int),
            decreases len - p,
        {
            p += 1;
        }
        assert(text_end(s, p as int) == p);
        if p == start {
            return None;
        }
        proof {
            lemma_text_end_bounds(s, p as int);
        }
        let text = string_of(&self.input, start, p);
        self.advance_to(p);
        Some(Token::Text(text))
    }

    /// `verbatim_end(source, p)`.
    fn find_verbatim_end(&self, p: usize) -> (r: (usize, usize))
        requires
            p <= self.input.len(),
        ensures
            r.0 as int == verbatim_end(self.input@, p as int).0,
            r.1 as int == verbatim_end(self.input@, p as int).1,
            p <= r.0 <= r.1 <= self.input.len(),
    {
        let ghost s = self.input@;
        let len = self.input.len();
        let close = chars_of("%}");
        let endv = chars_of("endverbatim");
        proof {
            reveal_strlit("%}");
            assert(close@ =~= close_block());
        }
        let mut q = p;
        while len - q > 1
            invariant
                s == self.input@,
                len == s.len(),
                p <= q <= len,
                close@ == close_block(),
                endv@ == "endverbatim"@,
                verbatim_end(s, p as int) == verbatim_end(s, q as int),
            decreases len - q,
        {
            if self.input[q] == '{' && self.input[q + 1] == '%' {
                match find_in(&self.input, &close, q + 2) {
                    Some(e) => {
                        proof {
                            crate::text::lemma_find_from_bounds(s, close@, q + 2);
                        }
                        let (ta, tb) = trim_range(&self.input, q + 2, e);
                        if range_eq(&self.input, ta, tb, &endv) {
                            return (q, e + 2);
                        }
                    },
                    None => {},
                }
            }
            q += 1;
        }
        (len, len)
    }

    fn consume_block(&mut self) -> (r: Result<Token, LexError>)
        requires
            old(self).wf(),
            old(self).position + 1 < old(self).input.len(),
        ensures
            final(self).input == old(self).input,
            final(self).offset == byte_offset(final(self).input@, final(self).position as int),
            final(self).position <= final(self).input.len(),
            match block_step(old(self).input@, old(self).position as int) {
                StepModel::Tokens(t, j) => r is Ok && final(self).position == j && j
                    > old(self).position && match final(self).buffer {
                    None => t == seq![r->Ok_0@],
                    Some(b) => t == seq![r->Ok_0@, TokenModel::Text(b@)],
                },
                StepModel::Failed(e) => r == Err::<Token, LexError>(e) && final(self).buffer
                    is None,
                StepModel::Limit => false,
            },
    {
        let ghost s = self.input@;
        let start = self.position;
        let close = chars_of("%}");
        proof {
            reveal_strlit("%}");
            assert(close@ =~= close_block());
        }
        match find_in(&self.input, &close, start + 2) {
            None => Err(LexError::UnterminatedBlock(self.offset)),
            Some(e) => {
                proof {
                    crate::text::lemma_find_from_bounds(s, close@, start + 2);
                }
                let raw = string_of(&self.input, start, e + 2);
                let (a, b) = trim_range(&self.input, start + 2, e);
                let content = string_of(&self.input, a, b);
                let verbatim = chars_of("verbatim");
                let verbatim_space = chars_of("verbatim ");
                if range_eq(&self.input, a, b, &verbatim) || range_has_prefix(
                    &self.input,
                    a,
                    b,
                    &verbatim_space,
                ) {
                    let (body_end, resume) = self.find_verbatim_end(e + 2);
                    let body = string_of(&self.input, e + 2, body_end);
                    self.advance_to(resume);
                    self.buffer = Some(body);
                    let tag = "verbatim".to_owned();
                    assert(is_verbatim_open(content@));
                    assert(body_end as int == verbatim_end(s, e + 2).0);
                    assert(resume as int == verbatim_end(s, e + 2).1);
                    assert(self.position == resume);
                    return Ok(Token::BlockStart { raw, tag, content });
                }
                let end = chars_of("end");
                proof {
                    reveal_strlit("end");
                }
                if range_has_prefix(&self.input, a, b, &end) {
                    let c = strip_all_range(&self.input, a, b, &end);
                    let (ta, tb) = first_word_range(&self.input, c, b);
                    let tag = string_of(&self.input, ta, tb);
                    self.advance_to(e + 2);
                    return Ok(Token::BlockEnd { tag, raw });
                }
                let (ta, tb) = first_word_range(&self.input, a, b);
                let tag = string_of(&self.input, ta, tb);
                self.advance_to(e + 2);
                Ok(Token::BlockStart { raw, tag, content })
            },
        }
    }

    fn next_token(&mut self) -> (r: Result<Option<Token>, LexError>)
        requires
            old(self).wf(),
            old(self).position < old(self).input.len(),
            !(step(old(self).input@, old(self).position as int) is Limit),
        ensures
            final(self).input == old(self).input,
            final(self).offset == byte_offset(final(self).input@, final(self).position as int),
            final(self).position <= final(self).input.len(),
            r is Err ==> final(self).buffer is None,
            match step(old(self).input@, old(self).position as int) {
                StepModel::Tokens(t, j) => r is Ok && final(self).position == j && j
                    > old(self).position && match r->Ok_0 {
                    Some(tok) => match final(self).buffer {
                        None => t == seq![tok@],
                        Some(b) => t == seq![tok@, TokenModel::Text(b@)],
                    },
                    None => false,
                },
                StepModel::Failed(e) => r == Err::<Option<Token>, LexError>(e),
                StepModel::Limit => false,
            },
    {
        let ghost s = self.input@;
        let p = self.position;
        let len = self.input.len();
        if self.input[p] == '{' && p + 1 < len {
            let next = self.input[p + 1];
            if next == '{' {
                return match self.consume_variable() {
                    Ok(t) => Ok(Some(t)),
                    Err(e) => Err(e),
                };
            }
            if next == '%' {
                return match self.consume_block() {
                    Ok(t) => Ok(Some(t)),
                    Err(e) => Err(e),
                };
            }
            if next == '#' {
                return match self.consume_comment() {
                    Ok(t) => Ok(Some(t)),
                    Err(e) => Err(e),
                };
            }
        }
        proof {
            assert(!opens_tag(s, p as int));
            assert(text_end(s, p as int) == text_end(s, p + 1));
            lemma_text_end_bounds(s, p + 1);
            assert(step(s, p as int) == text_step(s, p as int));
            assert(text_end(s, p as int) != p as int);
        }
        assert(self.input@ == s && self.position == p);
        assert(text_step(s, p as int) == StepModel::Tokens(
            seq![TokenModel::Text(s.subrange(p as int, text_end(s, p as int)))],
            text_end(s, p as int),
        ));
        let t = self.consume_text();
        assert(t is Some);
        Ok(t)
    }

    /// All tokens from the current position on, followed by `Eof`.
    pub fn tokenize(&mut self) -> (r: Result<Vec<Token>, LexError>)
        requires
            old(self).wf(),
            !(lex_from(old(self).source(), old(self).cursor(), 0) is Limit),
        ensures
            final(self).wf(),
            final(self).source() == old(self).source(),
            match lex_from(old(self).source(), old(self).cursor(), 0) {
                LexOutcome::Done(t) => r is Ok && tokens_view(r->Ok_0@) == t.push(
                    TokenModel::Eof,
                ),
                LexOutcome::Failed(e) => r == Err::<Vec<Token>, LexError>(e),
                LexOutcome::Limit => false,
            },
    {
        let ghost s = self.input@;
        let ghost p0 = self.position as int;
        let mut tokens: Vec<Token> = Vec::new();
        proof {
            assert(tokens_view(tokens@) =~= Seq::<TokenModel>::empty());
            assert(prepend(seq![], lex_from(s, p0, 0)) == lex_from(s, p0, 0)) by {
                match lex_from(s, p0, 0) {
                    LexOutcome::Done(rest) => {
                        assert(Seq::<TokenModel>::empty() + rest =~= rest);
                    },
                    _ => {},
                }
            }
        }
        while self.position < self.input.len()
            invariant
                s == self.input@,
                s == old(self).input@,
                p0 == old(self).position,
                self.wf(),
                !(lex_from(s, p0, 0) is Limit),
                lex_from(s, p0, 0) == prepend(
                    tokens_view(tokens@),
                    lex_from(s, self.position as int, tokens@.len()),
                ),
            decreases s.len() - self.position,
        {
            let ghost pos = self.position as int;
            let ghost count = tokens@.len();
            let ghost before = tokens_view(tokens@);
            assert(!(lex_from(s, pos, count) is Limit));
            match self.next_token() {
                Err(e) => {
                    return Err(e);
                },
                Ok(opt) => {
                    match opt {
                        Some(tok) => {
                            tokens.push(tok);
                        },
                        None => {},
                    }
                    match self.buffer.take() {
                        Some(b) => {
                            tokens.push(Token::Text(b));
                        },
                        None => {},
                    }
                    proof {
                        let t = match step(s, pos) {
                            StepModel::Tokens(t, _) => t,
                            _ => seq![],
                        };
                        assert(tokens_view(tokens@) =~= before + t);
                        match lex_from(s, self.position as int, tokens@.len()) {
                            LexOutcome::Done(rest) => {
                                assert(before + (t + rest) =~= (before + t) + rest);
                            },
                            _ => {},
                        }
                    }
                },
            }
        }
        proof {
            assert(lex_from(s, self.position as int, tokens@.len()) == LexOutcome::Done(
                Seq::<TokenModel>::empty(),
            ));
            assert(tokens_view(tokens@) + Seq::<TokenModel>::empty() =~= tokens_view(tokens@));
        }
        let ghost done = tokens_view(tokens@);
        tokens.push(Token::Eof);
        assert(tokens_view(tokens@) =~= done.push(TokenModel::Eof));
        Ok(tokens)
    }
}

/// A lexed stream never holds more than `TOKEN_COUNT_MAX` tokens.
pub proof fn lemma_lex_count(s: Seq<char>, i: int, count: nat)
    requires
        count <= TOKEN_COUNT_MAX,
    ensures
        lex_from(s, i, count) matches LexOutcome::Done(t) ==> count + t.len() <= TOKEN_COUNT_MAX,
    decreases s.len() - i,
{
    if 0 <= i < s.len() && count < TOKEN_COUNT_MAX {
        match step(s, i) {
            StepModel::Tokens(t, j) => {
                if count + t.len() <= TOKEN_COUNT_MAX && i < j <= s.len() {
                    lemma_lex_count(s, j, count + t.len());
                }
            },
            _ => {},
        }
    }
}

pub proof fn lemma_text_end_bounds(s: Seq<char>, i: int)
    requires
        0 <= i <= s.len(),
    ensures
        i <= text_end(s, i) <= s.len(),
    decreases s.len() - i,
{
    if i < s.len() && !opens_tag(s, i) {
        lemma_text_end_bounds(s, i + 1);
    }
}

/// The text of the template that a token stands for: the raw text of a tag,
/// the text itself, a comment with its delimiters; nothing for the end marker.
pub open spec fn token_source(t: TokenModel) -> Seq<char> {
    match t {
        TokenModel::Text(c) => c,
        TokenModel::Variable { raw, .. } => raw,
        TokenModel::BlockStart { raw, .. } => raw,
        TokenModel::BlockEnd { raw, .. } => raw,
        TokenModel::Comment(c) => seq!['{', '#'] + c + close_comment(),
        TokenModel::Eof => seq![],
    }
}

/// The source texts of `ts`, in order.
pub open spec fn tokens_source(ts: Seq<TokenModel>) -> Seq<char>
    decreases ts.len(),
{
    if ts.len() == 0 {
        seq![]
    } else {
        tokens_source(ts.drop_last()) + token_source(ts.last())
    }
}

/// Whether the tag at `i` opens a verbatim block that a later
/// `{% endverbatim %}` closes.
pub open spec fn verbatim_closed_at(s: Seq<char>, i: int) -> bool {
    &&& 0 <= i && i + 1 < s.len() && s[i] == '{' && s[i + 1] == '%'
    &&& find_from(s, close_block(), i + 2) matches Some(e)
    &&& is_verbatim_open(trim(s.subrange(i + 2, e)))
    &&& verbatim_end(s, e + 2).0 < verbatim_end(s, e + 2).1
}

/// Whether lexing from `i` on meets a closed verbatim block.
pub open spec fn closes_verbatim(s: Seq<char>, i: int) -> bool
    decreases s.len() - i,
{
    if i < 0 || i >= s.len() {
        false
    } else {
        match step(s, i) {
            StepModel::Tokens(_, j) => verbatim_closed_at(s, i) || (i < j <= s.len() && closes_verbatim(
                s,
                j,
            )),
            _ => false,
        }
    }
}

proof fn lemma_tokens_source_add(a: Seq<TokenModel>, b: Seq<TokenModel>)
    ensures
        tokens_source(a + b) == tokens_source(a) + tokens_source(b),
    decreases b.len(),
{
    if b.len() == 0 {
        assert(a + b =~= a);
        assert(tokens_source(a) + seq![] =~= tokens_source(a));
    } else {
        lemma_tokens_source_add(a, b.drop_last());
        assert((a + b).drop_last() =~= a + b.drop_last());
        assert((a + b).last() == b.last());
        assert(tokens_source(a + b) =~= tokens_source(a) + tokens_source(b));
    }
}

proof fn lemma_variable_close_bounds(s: Seq<char>, i: int, q: Option<char>)
    ensures
        variable_close(s, i, q) matches Some(j) ==> i <= j && j + 1 < s.len(),
    decreases s.len() - i,
{
    if 0 <= i < s.len() {
        match q {
            Some(qc) => if s[i] == '\\' {
                lemma_variable_close_bounds(s, if i + 1 < s.len() { i + 2 } else { i + 1 }, q);
            } else if s[i] == qc {
                lemma_variable_close_bounds(s, i + 1, None);
            } else {
                lemma_variable_close_bounds(s, i + 1, q);
            },
            None => if is_quote(s[i]) {
                lemma_variable_close_bounds(s, i + 1, Some(s[i]));
            } else if s[i] == '}' && i + 1 < s.len() && s[i + 1] == '}' {
            } else {
                lemma_variable_close_bounds(s, i + 1, None);
            },
        }
    }
}

proof fn lemma_verbatim_end_bounds(s: Seq<char>, q: int)
    requires
        0 <= q <= s.len(),
    ensures
        q <= verbatim_end(s, q).0 <= verbatim_end(s, q).1 <= s.len(),
        verbatim_end(s, q).0 == verbatim_end(s, q).1 ==> verbatim_end(s, q).1 == s.len(),
    decreases s.len() - q,
{
    if q + 1 >= s.len() {
    } else if s[q] == '{' && s[q + 1] == '%' {
        lemma_find_from_bounds(s, close_block(), q + 2);
        match find_from(s, close_block(), q + 2) {
            Some(e) => if trim(s.subrange(q + 2, e)) == "endverbatim"@ {
            } else {
                lemma_verbatim_end_bounds(s, q + 1);
            },
            None => lemma_verbatim_end_bounds(s, q + 1),
        }
    } else {
        lemma_verbatim_end_bounds(s, q + 1);
    }
}

/// One step of the lexer moves forward and its tokens stand for exactly the
/// text it passed, unless it opens a closed verbatim block.
proof fn lemma_step_source(s: Seq<char>, i: int)
    requires
        0 <= i < s.len(),
        !verbatim_closed_at(s, i),
    ensures
        step(s, i) matches StepModel::Tokens(t, j) ==> i < j <= s.len() && tokens_source(t)
            == s.subrange(i, j),
{
    if s[i] == '{' && i + 1 < s.len() && s[i + 1] == '{' {
        lemma_variable_close_bounds(s, i + 2, None);
        match variable_close(s, i + 2, None) {
            Some(j) => {
                let t = seq![TokenModel::Variable {
                    raw: s.subrange(i, j + 2),
                    expression: trim(s.subrange(i + 2, j)),
                    filters: filters_spec(trim(s.subrange(i + 2, j)))->Some_0,
                }];
                assert(t.drop_last() =~= Seq::<TokenModel>::empty());
                assert(tokens_source(t.drop_last()) == Seq::<char>::empty());
                assert(tokens_source(t) =~= s.subrange(i, j + 2));
            },
            None => {},
        }
    } else if s[i] == '{' && i + 1 < s.len() && s[i + 1] == '%' {
        lemma_find_from_bounds(s, close_block(), i + 2);
        match find_from(s, close_block(), i + 2) {
            Some(e) => {
                let raw = s.subrange(i, e + 2);
                let content = trim(s.subrange(i + 2, e));
                if is_verbatim_open(content) {
                    lemma_verbatim_end_bounds(s, e + 2);
                    let (body_end, resume) = verbatim_end(s, e + 2);
                    let t = seq![
                        TokenModel::BlockStart { raw, tag: "verbatim"@, content },
                        TokenModel::Text(s.subrange(e + 2, body_end)),
                    ];
                    assert(t.drop_last().drop_last() =~= Seq::<TokenModel>::empty());
                    assert(t.drop_last() =~= seq![t[0]]);
                    assert(tokens_source(t.drop_last().drop_last()) == Seq::<char>::empty());
                    assert(tokens_source(t.drop_last()) =~= raw);
                    assert(body_end == resume && resume == s.len());
                    assert(tokens_source(t) =~= raw + s.subrange(e + 2, body_end));
                    assert(tokens_source(t) =~= s.subrange(i, resume));
                } else if has_prefix(content, "end"@) {
                    let t = seq![TokenModel::BlockEnd { tag: first_word(strip_all(content, "end"@)), raw }];
                    assert(t.drop_last() =~= Seq::<TokenModel>::empty());
                    assert(tokens_source(t.drop_last()) == Seq::<char>::empty());
                    assert(tokens_source(t) =~= raw);
                } else {
                    let t = seq![TokenModel::BlockStart { raw, tag: first_word(content), content }];
                    assert(t.drop_last() =~= Seq::<TokenModel>::empty());
                    assert(tokens_source(t.drop_last()) == Seq::<char>::empty());
                    assert(tokens_source(t) =~= raw);
                }
            },
            None => {},
        }
    } else if s[i] == '{' && i + 1 < s.len() && s[i + 1] == '#' {
        lemma_find_from_bounds(s, close_comment(), i + 2);
        match find_from(s, close_comment(), i + 2) {
            Some(e) => {
                let t = seq![TokenModel::Comment(s.subrange(i + 2, e))];
                assert(t.drop_last() =~= Seq::<TokenModel>::empty());
                assert(tokens_source(t.drop_last()) == Seq::<char>::empty());
                assert(s.subrange(e, e + 2) == close_comment());
                assert(tokens_source(t) =~= seq!['{', '#'] + s.subrange(i + 2, e) + close_comment());
                assert(tokens_source(t) =~= s.subrange(i, e + 2));
            },
            None => {},
        }
    } else {
        assert(!opens_tag(s, i));
        lemma_text_end_bounds(s, i + 1);
        let j = text_end(s, i);
        let t = seq![TokenModel::Text(s.subrange(i, j))];
        assert(t.drop_last() =~= Seq::<TokenModel>::empty());
        assert(tokens_source(t.drop_last()) == Seq::<char>::empty());
        assert(tokens_source(t) =~= s.subrange(i, j));
    }
}

proof fn lemma_lex_source(s: Seq<char>, i: int, count: nat)
    requires
        0 <= i <= s.len(),
        lex_from(s, i, count) is Done,
        !closes_verbatim(s, i),
    ensures
        tokens_source(lex_from(s, i, count)->Done_0) == s.subrange(i, s.len() as int),
    decreases s.len() - i,
{
    if i == s.len() {
        assert(s.subrange(i, s.len() as int) =~= Seq::<char>::empty());
    } else {
        lemma_step_source(s, i);
        match step(s, i) {
            StepModel::Tokens(t, j) => {
                lemma_lex_source(s, j, count + t.len());
                let rest = lex_from(s, j, count + t.len())->Done_0;
                lemma_tokens_source_add(t, rest);
                assert(s.subrange(i, j) + s.subrange(j, s.len() as int) =~= s.subrange(
                    i,
                    s.len() as int,
                ));
            },
            _ => {},
        }
    }
}

/// Lexing loses nothing but the end tags of closed verbatim blocks: on a
/// template without one, the source texts of the tokens spell the template.
pub proof fn law_tokens_spell_template(s: Seq<char>)
    requires
        tokenize_spec(s) is Done,
        !closes_verbatim(s, 0),
    ensures
        tokens_source(tokenize_spec(s)->Done_0) == s,
{
    lemma_lex_source(s, 0, 0);
    let t = lex_from(s, 0, 0)->Done_0;
    assert(t.push(TokenModel::Eof).drop_last() =~= t);
    assert(tokens_source(t) + seq![] =~= tokens_source(t));
    assert(s.subrange(0, s.len() as int) =~= s);
}

/// Whether `t` is a text token with no text.
pub open spec fn empty_text(t: TokenModel) -> bool {
    t matches TokenModel::Text(c) && c.len() == 0
}

/// Whether `t` opens a `verbatim` block.
pub open spec fn opens_verbatim(t: TokenModel) -> bool {
    t matches TokenModel::BlockStart { tag, .. } && tag == "verbatim"@
}

/// The shape of a token list: no end marker, and an empty text only as the
/// body right after a `verbatim` tag.
pub open spec fn well_shaped(ts: Seq<TokenModel>) -> bool {
    &&& forall|i: int| 0 <= i < ts.len() ==> !((#[trigger] ts[i]) is Eof)
    &&& forall|i: int|
        0 <= i < ts.len() && empty_text(#[trigger] ts[i]) ==> i > 0
            && opens_verbatim(ts[i - 1])
}

proof fn lemma_well_shaped_add(a: Seq<TokenModel>, b: Seq<TokenModel>)
    requires
        well_shaped(a),
        well_shaped(b),
    ensures
        well_shaped(a + b),
{
    let c = a + b;
    assert forall|i: int| 0 <= i < c.len() implies !((#[trigger] c[i]) is Eof) by {
        if i < a.len() {
            assert(c[i] == a[i]);
        } else {
            assert(c[i] == b[i - a.len()]);
        }
    }
    assert forall|i: int|
        0 <= i < c.len() && empty_text(#[trigger] c[i]) implies i > 0
            && opens_verbatim(c[i - 1]) by {
        if i < a.len() {
            assert(c[i] == a[i]);
            assert(c[i - 1] == a[i - 1]);
        } else {
            assert(c[i] == b[i - a.len()]);
            assert(c[i - 1] == b[i - 1 - a.len()]);
        }
    }
}

proof fn lemma_step_shaped(s: Seq<char>, i: int)
    requires
        0 <= i < s.len(),
    ensures
        step(s, i) matches StepModel::Tokens(t, j) ==> well_shaped(t),
{
    if s[i] == '{' && i + 1 < s.len() && s[i + 1] == '{' {
    } else if s[i] == '{' && i + 1 < s.len() && s[i + 1] == '%' {
        match find_from(s, close_block(), i + 2) {
            Some(e) => {
                let content = trim(s.subrange(i + 2, e));
                if is_verbatim_open(content) {
                    reveal_strlit("verbatim");
                }
            },
            None => {},
        }
    } else if s[i] == '{' && i + 1 < s.len() && s[i + 1] == '#' {
    } else {
        assert(!opens_tag(s, i));
        lemma_text_end_bounds(s, i + 1);
    }
}

proof fn lemma_lex_shaped(s: Seq<char>, i: int, count: nat)
    requires
        0 <= i <= s.len(),
        lex_from(s, i, count) is Done,
    ensures
        well_shaped(lex_from(s, i, count)->Done_0),
    decreases s.len() - i,
{
    if i < s.len() && count < TOKEN_COUNT_MAX {
        lemma_step_shaped(s, i);
        match step(s, i) {
            StepModel::Tokens(t, j) => {
                if count + t.len() <= TOKEN_COUNT_MAX && i < j <= s.len() {
                    lemma_lex_shaped(s, j, count + t.len());
                    lemma_well_shaped_add(t, lex_from(s, j, count + t.len())->Done_0);
                }
            },
            _ => {},
        }
    }
}

/// A lexed template ends with the end marker and holds it nowhere else, and
/// holds no empty text but the empty body of a `verbatim` block.
pub proof fn law_token_stream_shape(s: Seq<char>)
    requires
        tokenize_spec(s) is Done,
    ensures
        ({
            let ts = tokenize_spec(s)->Done_0;
            &&& ts.len() > 0 && ts.last() is Eof
            &&& forall|i: int| 0 <= i < ts.len() - 1 ==> !((#[trigger] ts[i]) is Eof)
            &&& forall|i: int|
                0 <= i < ts.len() && empty_text(#[trigger] ts[i]) ==> i > 0
                    && opens_verbatim(ts[i - 1])
        }),
{
    lemma_lex_shaped(s, 0, 0);
    let t = lex_from(s, 0, 0)->Done_0;
    let ts = t.push(TokenModel::Eof);
    assert forall|i: int| 0 <= i < ts.len() - 1 implies !((#[trigger] ts[i]) is Eof) by {
        assert(ts[i] == t[i]);
    }
    assert forall|i: int|
        0 <= i < ts.len() && empty_text(#[trigger] ts[i]) implies i > 0
            && opens_verbatim(ts[i - 1]) by {
        assert(ts[i] == t[i]);
        assert(ts[i - 1] == t[i - 1]);
    }
}

} // verus!
