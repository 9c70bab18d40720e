//! Small grammar units: each one recognises a piece at the start of a text
//! and reports the span it covers. Offsets and sizes count characters.
use vstd::prelude::*;
use crate::text::{chars_of, push_char, push_chars, push_decimal, string_of};

verus! {

/// Why a unit did not match, and where.
#[derive(Debug, PartialEq)]
pub struct ParseError {
    pub message: String,
    pub start: usize,
    pub end: usize,
}

pub type ParseResult<T> = Result<T, ParseError>;

/// A piece of grammar that can be recognised at the start of a text.
pub trait GrammarUnit: Sized {
    /// Recognises `Self` at the start of `content`, which begins at `offset`
    /// in the whole text; on success also returns how much was consumed.
    fn try_match(content: &str, offset: usize) -> ParseResult<(Self, usize)>
        requires
            offset + content@.len() < usize::MAX,
    ;

    /// The span `(start, end)` that the unit covers in the whole text.
    fn range(&self) -> (usize, usize);
}

impl ParseError {
    pub fn new(message: String, start: usize, end: usize) -> (r: ParseError)
        ensures
            r.message@ == message@,
            r.start == start,
            r.end == end,
    {
        ParseError { message, start, end }
    }

    /// The error drawn under the line of `content` where it starts: a blank
    /// gutter line, the numbered source line, and a line of carets with the
    /// message.
    pub fn render(&self, content: &str) -> (r: String)
        requires
            content@.len() + 4 < usize::MAX,
        ensures
            r@ == rendered(self.message@, self.start as int, self.end as int, content@),
    {
        let s = chars_of(content);
        let pos: usize = if self.start < s.len() { self.start } else { s.len() };
        let (ls, le, line) = locate_line(&s, pos);
        let mut number = String::new();
        push_decimal(&mut number, line);
        assert(number@ =~= crate::text::decimal(line as nat));
        proof {
            lemma_decimal_len(line as nat);
        }
        let digits = chars_of(number.as_str());
        let width = digits.len() + 2;
        let stop: usize = if self.end < le { self.end } else { le };
        let carets: usize = if stop > pos { stop - pos } else { 1 };
        let mut r = String::new();
        push_char(&mut r, '\n');
        assert(r@ =~= seq!['\n']);
        let mut gutter = String::new();
        push_spaces(&mut gutter, width);
        push_char(&mut gutter, '|');
        push_char(&mut gutter, '\n');
        assert(gutter@ =~= gutter_line(width as nat));
        push_chars(&mut r, &chars_of(gutter.as_str()));
        let mut source = String::new();
        push_chars(&mut source, &digits);
        push_spaces(&mut source, 2);
        push_char(&mut source, '|');
        push_range(&mut source, &s, ls, le);
        push_char(&mut source, '\n');
        assert(source@ =~= source_line(digits@, s@.subrange(ls as int, le as int)));
        push_chars(&mut r, &chars_of(source.as_str()));
        let mut marker = String::new();
        push_spaces(&mut marker, width);
        push_char(&mut marker, '|');
        push_spaces(&mut marker, pos - ls);
        push_repeat(&mut marker, '^', carets);
        push_char(&mut marker, ' ');
        push_chars(&mut marker, &chars_of(self.message.as_str()));
        push_char(&mut marker, '\n');
        assert(marker@ =~= marker_line(width as nat, (pos - ls) as nat, carets as nat, self.message@));
        push_chars(&mut r, &chars_of(marker.as_str()));
        r
    }
}

proof fn lemma_decimal_len(n: nat)
    ensures
        crate::text::decimal(n).len() <= n + 1,
    decreases n,
{
    if n >= 10 {
        lemma_decimal_len(n / 10);
    }
}

/// Bounds of the line that holds `pos`, and its number counted from one.
fn locate_line(s: &Vec<char>, pos: usize) -> (r: (usize, usize, u128))
    requires
        pos <= s@.len(),
    ensures
        r.0 == line_start(s@, pos as int),
        r.1 == line_end(s@, pos as int),
        r.0 <= pos <= r.1 <= s@.len(),
        r.2 == count_newlines(s@.subrange(0, pos as int)) + 1,
        r.2 <= pos + 1,
{
    let mut ls: usize = pos;
    while ls > 0 && s[ls - 1] != '\n'
        invariant
            ls <= pos <= s@.len(),
            line_start(s@, pos as int) == line_start(s@, ls as int),
        decreases ls,
    {
        ls = ls - 1;
    }
    let mut le: usize = pos;
    while le < s.len() && s[le] != '\n'
        invariant
            pos <= le <= s@.len(),
            line_end(s@, pos as int) == line_end(s@, le as int),
        decreases s@.len() - le,
    {
        le = le + 1;
    }
    let mut line: u128 = 1;
    let mut i: usize = 0;
    while i < pos
        invariant
            i <= pos <= s@.len(),
            line == count_newlines(s@.subrange(0, i as int)) + 1,
            line <= i + 1,
        decreases pos - i,
    {
        assert(s@.subrange(0, i + 1).drop_last() =~= s@.subrange(0, i as int));
        if s[i] == '\n' {
            line = line + 1;
        }
        i = i + 1;
    }
    (ls, le, line)
}

fn push_range(r: &mut String, s: &Vec<char>, lo: usize, hi: usize)
    requires
        lo <= hi <= s@.len(),
    ensures
        final(r)@ == old(r)@ + s@.subrange(lo as int, hi as int),
{
    let mut k: usize = lo;
    while k < hi
        invariant
            lo <= k <= hi <= s@.len(),
            r@ == old(r)@ + s@.subrange(lo as int, k as int),
        decreases hi - k,
    {
        push_char(r, s[k]);
        k = k + 1;
        assert(r@ =~= old(r)@ + s@.subrange(lo as int, k as int));
    }
}

/// Index where the line holding `pos` starts.
pub open spec fn line_start(s: Seq<char>, pos: int) -> int
    decreases pos,
{
    if pos <= 0 || s[pos - 1] == '\n' {
        pos
    } else {
        line_start(s, pos - 1)
    }
}

/// Index where the line holding `pos` ends (its newline, or the end of text).
pub open spec fn line_end(s: Seq<char>, pos: int) -> int
    decreases s.len() - pos,
{
    if pos >= s.len() || s[pos] == '\n' {
        pos
    } else {
        line_end(s, pos + 1)
    }
}

/// How many newlines `s` holds.
pub open spec fn count_newlines(s: Seq<char>) -> nat
    decreases s.len(),
{
    if s.len() == 0 {
        0
    } else {
        count_newlines(s.drop_last()) + if s.last() == '\n' { 1nat } else { 0nat }
    }
}

/// `n` copies of `c`.
pub open spec fn repeat(c: char, n: nat) -> Seq<char> {
    Seq::new(n, |i: int| c)
}

pub open spec fn spaces(n: nat) -> Seq<char> {
    repeat(' ', n)
}

/// The blank gutter line: `width` spaces and a bar.
pub open spec fn gutter_line(width: nat) -> Seq<char> {
    spaces(width) + seq!['|', '\n']
}

/// The numbered line of text.
pub open spec fn source_line(number: Seq<char>, text: Seq<char>) -> Seq<char> {
    number + spaces(2) + seq!['|'] + text + seq!['\n']
}

/// The line that points at the error and gives its message.
pub open spec fn marker_line(width: nat, column: nat, carets: nat, message: Seq<char>) -> Seq<char> {
    spaces(width) + seq!['|'] + spaces(column) + repeat('^', carets) + seq![' '] + message + seq!['\n']
}

/// The drawing of an error with `message` over `start..end` in `s`: the line
/// that holds `start` (or the last line, where `start` lies past the end),
/// numbered from one, with carets under `start..end` (at least one, and not
/// past the end of that line).
pub open spec fn rendered(message: Seq<char>, start: int, end: int, s: Seq<char>) -> Seq<char> {
    let pos = if start < s.len() { start } else { s.len() as int };
    let ls = line_start(s, pos);
    let le = line_end(s, pos);
    let number = crate::text::decimal(count_newlines(s.subrange(0, pos)) + 1);
    let width = (number.len() + 2) as nat;
    let stop = if end < le { end } else { le };
    let carets = if stop > pos { (stop - pos) as nat } else { 1nat };
    seq!['\n'] + gutter_line(width) + source_line(number, s.subrange(ls, le)) + marker_line(
        width,
        (pos - ls) as nat,
        carets,
        message,
    )
}

fn push_repeat(r: &mut String, c: char, n: usize)
    ensures
        final(r)@ == old(r)@ + repeat(c, n as nat),
{
    let mut i: usize = 0;
    while i < n
        invariant
            i <= n,
            r@ == old(r)@ + repeat(c, i as nat),
        decreases n - i,
    {
        push_char(r, c);
        i = i + 1;
        assert(r@ =~= old(r)@ + repeat(c, i as nat));
    }
}

fn push_spaces(r: &mut String, n: usize)
    ensures
        final(r)@ == old(r)@ + spaces(n as nat),
{
    push_repeat(r, ' ', n);
}

/// Whether `c` has Unicode's White_Space property: the controls from tab to
/// carriage return, space, next line, no-break space, ogham space mark, the
/// spaces from en quad to hair space, the line and paragraph separators, the
/// narrow no-break space, the medium mathematical space and the ideographic
/// space.
pub open spec fn is_space(c: char) -> bool {
    ||| ('\u{9}' <= c && c <= '\u{d}')
    ||| c == ' '
    ||| c == '\u{85}'
    ||| c == '\u{a0}'
    ||| c == '\u{1680}'
    ||| ('\u{2000}' <= c && c <= '\u{200a}')
    ||| c == '\u{2028}'
    ||| c == '\u{2029}'
    ||| c == '\u{202f}'
    ||| c == '\u{205f}'
    ||| c == '\u{3000}'
}

/// Whether `c` is alphabetic or numeric in Unicode's sense (named after
/// `char::is_alphanumeric`).
pub uninterp spec fn is_alnum(c: char) -> bool;

/// Whether `c` is numeric in Unicode's sense (named after `char::is_numeric`).
pub uninterp spec fn is_numeral(c: char) -> bool;

/// Relies on char::is_whitespace: true exactly for the characters with the
/// White_Space property.
#[verifier::external_body]
fn char_is_whitespace(c: char) -> (r: bool)
    ensures
        r == is_space(c),
{
    c.is_whitespace()
}

/// Relies on char::is_alphanumeric: the answer depends on the character alone.
#[verifier::external_body]
fn char_is_alphanumeric(c: char) -> (r: bool)
    ensures
        r == is_alnum(c),
{
    c.is_alphanumeric()
}

/// Relies on char::is_numeric: the answer depends on the character alone.
#[verifier::external_body]
fn char_is_numeric(c: char) -> (r: bool)
    ensures
        r == is_numeral(c),
{
    c.is_numeric()
}

/// The characters that a run of one kind of unit may hold.
pub enum CharClass {
    Space,
    Word,
    IntegerText,
}

pub open spec fn class_has(class: CharClass, c: char) -> bool {
    match class {
        CharClass::Space => is_space(c),
        CharClass::Word => is_alnum(c) || c == '_',
        CharClass::IntegerText => is_numeral(c) || c == '-' || c == '+',
    }
}

/// How many characters at the start of `s` belong to `class`.
pub open spec fn run_len(s: Seq<char>, class: CharClass) -> nat
    decreases s.len(),
{
    if s.len() > 0 && class_has(class, s[0]) {
        1 + run_len(s.drop_first(), class)
    } else {
        0
    }
}

proof fn lemma_run_len_from(s: Seq<char>, class: CharClass, i: int)
    requires
        0 <= i <= s.len(),
        forall|k: int| 0 <= k < i ==> class_has(class, #[trigger] s[k]),
    ensures
        run_len(s, class) == i + run_len(s.subrange(i, s.len() as int), class),
    decreases i,
{
    if i > 0 {
        lemma_run_len_from(s.drop_first(), class, i - 1);
        assert(s.drop_first().subrange(i - 1, s.len() - 1) =~= s.subrange(i, s.len() as int));
    } else {
        assert(s.subrange(0, s.len() as int) =~= s);
    }
}

fn class_test(class: &CharClass, c: char) -> (r: bool)
    ensures
        r == class_has(*class, c),
{
    match class {
        CharClass::Space => char_is_whitespace(c),
        CharClass::Word => char_is_alphanumeric(c) || c == '_',
        CharClass::IntegerText => char_is_numeric(c) || c == '-' || c == '+',
    }
}

/// The length of the run of `class` characters that starts `s`.
fn leading_run(s: &Vec<char>, class: CharClass) -> (n: usize)
    ensures
        n == run_len(s@, class),
{
    let mut i: usize = 0;
    while i < s.len() && class_test(&class, s[i])
        invariant
            i <= s@.len(),
            forall|k: int| 0 <= k < i ==> class_has(class, #[trigger] s@[k]),
        decreases s@.len() - i,
    {
        i = i + 1;
    }
    proof {
        lemma_run_len_from(s@, class, i as int);
    }
    i
}

/// Where the body of a quoted string that opens before `p` ends: at the first
/// `"` not preceded by a backslash that the scan has taken, or at the end.
pub open spec fn quote_body_end(s: Seq<char>, p: int) -> int
    decreases s.len() - p,
{
    if p < 0 || p >= s.len() {
        s.len() as int
    } else if p + 1 < s.len() && s[p] == '\\' && s[p + 1] == '"' {
        quote_body_end(s, p + 2)
    } else if s[p] == '"' {
        p
    } else {
        quote_body_end(s, p + 1)
    }
}

/// The text of that body from `p` on, with each `\"` read as `"`.
pub open spec fn quote_value(s: Seq<char>, p: int) -> Seq<char>
    decreases s.len() - p,
{
    if p < 0 || p >= s.len() {
        Seq::empty()
    } else if p + 1 < s.len() && s[p] == '\\' && s[p + 1] == '"' {
        seq!['"'] + quote_value(s, p + 2)
    } else if s[p] == '"' {
        Seq::empty()
    } else {
        seq![s[p]] + quote_value(s, p + 1)
    }
}

/// A string in double quotes, in which `\"` stands for a quote.
#[derive(Debug, PartialEq)]
pub struct QuotedString {
    pub value: String,
    start: usize,
    end: usize,
}

/// A run of letters, digits and underscores.
#[derive(Debug, PartialEq)]
pub struct BareWord {
    start: usize,
    end: usize,
}

/// A run of white space.
#[derive(Debug, PartialEq)]
pub struct Whitespace {
    start: usize,
    end: usize,
}

/// A decimal integer with an optional sign.
#[derive(Debug, PartialEq)]
pub struct Integer {
    pub value: i64,
    start: usize,
    end: usize,
}

/// An error with the given message over `start..end`.
pub open spec fn error_is(e: ParseError, message: Seq<char>, start: int, end: int) -> bool {
    e.message@ == message && e.start == start && e.end == end
}

impl QuotedString {
    pub closed spec fn span(&self) -> (usize, usize) {
        (self.start, self.end)
    }

    /// The string's contents, quotes taken off and escapes read.
    pub closed spec fn text(&self) -> Seq<char> {
        self.value@
    }

    /// Recognises a quoted string at the start of `content`. It fails where
    /// `content` does not open with `"`, and where no closing quote follows.
    pub fn try_match(content: &str, offset: usize) -> (r: ParseResult<(QuotedString, usize)>)
        requires
            offset + content@.len() < usize::MAX,
        ensures
            ({
                let s = content@;
                let q = quote_body_end(s, 1);
                if s.len() == 0 || s[0] != '"' {
                    r matches Err(e) && error_is(e, "expected quoted string"@, offset as int, offset + 1)
                } else if q < s.len() {
                    r matches Ok((u, took)) && took == q + 1 && u.text() == quote_value(s, 1)
                        && u.span() == (offset, (offset + q + 1) as usize)
                } else {
                    r matches Err(e) && error_is(e, "unterminated quoted string"@, offset as int, offset + q + 1)
                }
            }),
    {
        let s = chars_of(content);
        if s.len() == 0 || s[0] != '"' {
            return Err(ParseError::new(string_of(&chars_of("expected quoted string")), offset, offset + 1));
        }
        let mut p: usize = 1;
        let mut value: Vec<char> = Vec::new();
        while p < s.len() && s[p] != '"'
            invariant
                1 <= p <= s@.len(),
                s@[0] == '"',
                quote_body_end(s@, 1) == quote_body_end(s@, p as int),
                quote_value(s@, 1) == value@ + quote_value(s@, p as int),
            decreases s@.len() - p,
        {
            if p + 1 < s.len() && s[p] == '\\' && s[p + 1] == '"' {
                value.push('"');
                assert(value@ + quote_value(s@, p + 2) =~= value@.drop_last() + quote_value(s@, p as int));
                p = p + 2;
            } else {
                value.push(s[p]);
                assert(value@ + quote_value(s@, p + 1) =~= value@.drop_last() + quote_value(s@, p as int));
                p = p + 1;
            }
        }
        assert(value@ + quote_value(s@, p as int) =~= value@);
        if p < s.len() {
            let end = p + 1;
            Ok((QuotedString { value: string_of(&value), start: offset, end: offset + end }, end))
        } else {
            Err(ParseError::new(string_of(&chars_of("unterminated quoted string")), offset, offset + p + 1))
        }
    }

    pub fn range(&self) -> (r: (usize, usize))
        ensures
            r == self.span(),
    {
        (self.start, self.end)
    }
}

impl Whitespace {
    pub closed spec fn span(&self) -> (usize, usize) {
        (self.start, self.end)
    }

    /// Recognises a run of white space at the start of `content`; fails where
    /// the run is empty.
    pub fn try_match(content: &str, offset: usize) -> (r: ParseResult<(Whitespace, usize)>)
        requires
            offset + content@.len() < usize::MAX,
        ensures
            ({
                let n = run_len(content@, CharClass::Space);
                if n == 0 {
                    r matches Err(e) && error_is(e, "expected whitespace"@, offset as int, offset + 1)
                } else {
                    r matches Ok((u, took)) && took == n && u.span() == (offset, (offset + n) as usize)
                }
            }),
    {
        let s = chars_of(content);
        let n = leading_run(&s, CharClass::Space);
        proof {
            lemma_run_len_bound(s@, CharClass::Space);
        }
        Whitespace::from_run(n, offset)
    }

    /// The outcome for a run of `n` white-space characters at `offset`: an
    /// error where the run is empty, else the run itself.
    pub fn from_run(n: usize, offset: usize) -> (r: ParseResult<(Whitespace, usize)>)
        requires
            offset + n < usize::MAX,
        ensures
            n == 0 ==> (r matches Err(e) && error_is(e, "expected whitespace"@, offset as int, offset + 1)),
            n > 0 ==> (r matches Ok((u, took)) && took == n && u.span() == (offset, (offset + n) as usize)),
    {
        if n == 0 {
            return Err(ParseError::new(string_of(&chars_of("expected whitespace")), offset, offset + 1));
        }
        Ok((Whitespace { start: offset, end: offset + n }, n))
    }

    pub fn range(&self) -> (r: (usize, usize))
        ensures
            r == self.span(),
    {
        (self.start, self.end)
    }
}

impl BareWord {
    pub closed spec fn span(&self) -> (usize, usize) {
        (self.start, self.end)
    }

    /// Recognises a run of letters, digits and underscores at the start of
    /// `content`; fails where the run is empty.
    pub fn try_match(content: &str, offset: usize) -> (r: ParseResult<(BareWord, usize)>)
        requires
            offset + content@.len() < usize::MAX,
        ensures
            ({
                let n = run_len(content@, CharClass::Word);
                if n == 0 {
                    r matches Err(e) && error_is(e, "expected bare word"@, offset as int, offset + 1)
                } else {
                    r matches Ok((u, took)) && took == n && u.span() == (offset, (offset + n) as usize)
                }
            }),
    {
        let s = chars_of(content);
        let n = leading_run(&s, CharClass::Word);
        proof {
            lemma_run_len_bound(s@, CharClass::Word);
        }
        BareWord::from_run(n, offset)
    }

    /// The outcome for a run of `n` word characters at `offset`: an error
    /// where the run is empty, else the run itself.
    pub fn from_run(n: usize, offset: usize) -> (r: ParseResult<(BareWord, usize)>)
        requires
            offset + n < usize::MAX,
        ensures
            n == 0 ==> (r matches Err(e) && error_is(e, "expected bare word"@, offset as int, offset + 1)),
            n > 0 ==> (r matches Ok((u, took)) && took == n && u.span() == (offset, (offset + n) as usize)),
    {
        if n == 0 {
            return Err(ParseError::new(string_of(&chars_of("expected bare word")), offset, offset + 1));
        }
        Ok((BareWord { start: offset, end: offset + n }, n))
    }

    pub fn range(&self) -> (r: (usize, usize))
        ensures
            r == self.span(),
    {
        (self.start, self.end)
    }
}

proof fn lemma_run_len_bound(s: Seq<char>, class: CharClass)
    ensures
        run_len(s, class) <= s.len(),
    decreases s.len(),
{
    if s.len() > 0 {
        lemma_run_len_bound(s.drop_first(), class);
    }
}

/// Whether `c` is an ASCII decimal digit.
pub open spec fn is_digit(c: char) -> bool {
    '0' <= c && c <= '9'
}

/// The value of a run of decimal digits.
pub open spec fn digits_value(s: Seq<char>) -> int
    decreases s.len(),
{
    if s.len() == 0 {
        0
    } else {
        digits_value(s.drop_last()) * 10 + (s.last() as int - '0' as int)
    }
}

pub open spec fn all_digits(s: Seq<char>) -> bool {
    s.len() > 0 && forall|i: int| 0 <= i < s.len() ==> is_digit(#[trigger] s[i])
}

/// The integer that `s` spells: an optional `+` or `-` and at least one digit.
pub open spec fn integer_text_value(s: Seq<char>) -> Option<int> {
    if s.len() > 0 && s[0] == '-' {
        if all_digits(s.drop_first()) {
            Some(-digits_value(s.drop_first()))
        } else {
            None
        }
    } else if s.len() > 0 && s[0] == '+' {
        if all_digits(s.drop_first()) {
            Some(digits_value(s.drop_first()))
        } else {
            None
        }
    } else if all_digits(s) {
        Some(digits_value(s))
    } else {
        None
    }
}

/// The `i64` that `s` spells, where it spells one in range.
pub open spec fn parsed_i64(s: Seq<char>) -> Option<i64> {
    match integer_text_value(s) {
        Some(v) => if i64::MIN <= v <= i64::MAX {
            Some(v as i64)
        } else {
            None
        },
        None => None,
    }
}

/// Relies on `str::parse::<i64>`: an optional sign and decimal digits, within
/// the range of `i64`; anything else is an error.
#[verifier::external_body]
fn parse_i64(s: &str) -> (r: Option<i64>)
    ensures
        r == parsed_i64(s@),
{
    match s.parse::<i64>() {
        Ok(v) => Some(v),
        Err(_) => None,
    }
}

impl Integer {
    pub closed spec fn span(&self) -> (usize, usize) {
        (self.start, self.end)
    }

    pub closed spec fn number(&self) -> i64 {
        self.value
    }

    /// Recognises an integer at the start of `content`: the run of numeric
    /// characters and signs there must spell an `i64`.
    pub fn try_match(content: &str, offset: usize) -> (r: ParseResult<(Integer, usize)>)
        requires
            offset + content@.len() < usize::MAX,
        ensures
            ({
                let n = run_len(content@, CharClass::IntegerText);
                let v = parsed_i64(content@.subrange(0, n as int));
                if n == 0 {
                    r matches Err(e) && error_is(e, "expected integer"@, offset as int, offset + 1)
                } else if v is Some {
                    r matches Ok((u, took)) && took == n && u.span() == (offset, (offset + n) as usize)
                        && u.number() == v->0
                } else {
                    r matches Err(e) && error_is(e, "unable to parse integer"@, offset as int, offset + n)
                }
            }),
    {
        let s = chars_of(content);
        let n = leading_run(&s, CharClass::IntegerText);
        proof {
            lemma_run_len_bound(s@, CharClass::IntegerText);
        }
        if n == 0 {
            return Integer::from_run(0, None, offset);
        }
        Integer::from_run(n, parse_i64(content.substring_char(0, n)), offset)
    }

    /// The outcome for a run of `n` integer characters at `offset` that
    /// reads as `parsed`: an error where the run is empty or does not read
    /// as an `i64`, else the integer.
    pub fn from_run(n: usize, parsed: Option<i64>, offset: usize) -> (r: ParseResult<(Integer, usize)>)
        requires
            offset + n < usize::MAX,
        ensures
            n == 0 ==> (r matches Err(e) && error_is(e, "expected integer"@, offset as int, offset + 1)),
            n > 0 && parsed is Some ==> (r matches Ok((u, took)) && took == n && u.span() == (
                offset,
                (offset + n) as usize,
            ) && u.number() == parsed->0),
            n > 0 && parsed is None ==> (r matches Err(e) && error_is(
                e,
                "unable to parse integer"@,
                offset as int,
                offset + n,
            )),
    {
        if n == 0 {
            return Err(ParseError::new(string_of(&chars_of("expected integer")), offset, offset + 1));
        }
        match parsed {
            Some(value) => Ok((Integer { value, start: offset, end: offset + n }, n)),
            None => Err(ParseError::new(string_of(&chars_of("unable to parse integer")), offset, offset + n)),
        }
    }

    pub fn range(&self) -> (r: (usize, usize))
        ensures
            r == self.span(),
    {
        (self.start, self.end)
    }
}

impl GrammarUnit for QuotedString {
    fn try_match(content: &str, offset: usize) -> ParseResult<(Self, usize)> {
        QuotedString::try_match(content, offset)
    }

    fn range(&self) -> (usize, usize) {
        QuotedString::range(self)
    }
}

impl GrammarUnit for Whitespace {
    fn try_match(content: &str, offset: usize) -> ParseResult<(Self, usize)> {
        Whitespace::try_match(content, offset)
    }

    fn range(&self) -> (usize, usize) {
        Whitespace::range(self)
    }
}

impl GrammarUnit for BareWord {
    fn try_match(content: &str, offset: usize) -> ParseResult<(Self, usize)> {
        BareWord::try_match(content, offset)
    }

    fn range(&self) -> (usize, usize) {
        BareWord::range(self)
    }
}

impl GrammarUnit for Integer {
    fn try_match(content: &str, offset: usize) -> ParseResult<(Self, usize)> {
        Integer::try_match(content, offset)
    }

    fn range(&self) -> (usize, usize) {
        Integer::range(self)
    }
}

/// An optional unit always matches: where the unit is absent it takes
/// nothing, and its range is `(0, 0)`.
impl<T: GrammarUnit> GrammarUnit for Option<T> {
    fn try_match(content: &str, offset: usize) -> ParseResult<(Self, usize)> {
        match T::try_match(content, offset) {
            Ok((unit, took)) => Ok((Some(unit), took)),
            Err(_) => Ok((None, 0)),
        }
    }

    fn range(&self) -> (usize, usize) {
        match self {
            Some(unit) => unit.range(),
            None => (0, 0),
        }
    }
}

} // verus!
