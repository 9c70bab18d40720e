use weld_repo::grammar::{
    BareWord, GrammarUnit, Integer, ParseError, ParseResult, QuotedString, Whitespace,
};

fn assert_range<G: GrammarUnit>(content: &str, expected: &str) {
    let result = match G::try_match(content, 0) {
        Ok((g, _)) => g,
        Err(_) => {
            if expected.is_empty() {
                return;
            } else {
                panic!("{} didn't match!", content);
            }
        }
    };
    let (start, end) = result.range();
    assert_eq!(
        expected,
        format!("{}{}", " ".repeat(start), "^".repeat(end - start))
    );
}

fn span_text(range: (usize, usize)) -> String {
    let (start, end) = range;
    format!("{}{}", " ".repeat(start), "^".repeat(end - start))
}

#[derive(Debug, PartialEq)]
pub struct StringWithWhitespace {
    _ws1: Whitespace,
    string: QuotedString,
    _ws2: Whitespace,
    _start: usize,
    _end: usize,
}

impl GrammarUnit for StringWithWhitespace {
    fn try_match(content: &str, offset: usize) -> ParseResult<(Self, usize)> {
        let mut taken = 0;
        let mut remaining = content;
        let (_ws1, took) = Whitespace::try_match(remaining, offset + taken)?;
        taken += took;
        remaining = &remaining[took..];
        let (string, took) = QuotedString::try_match(remaining, offset + taken)?;
        taken += took;
        remaining = &remaining[took..];
        let (_ws2, took) = Whitespace::try_match(remaining, offset + taken)?;
        taken += took;
        Ok((
            StringWithWhitespace {
                _ws1,
                string,
                _ws2,
                _start: offset,
                _end: offset + taken,
            },
            taken,
        ))
    }

    fn range(&self) -> (usize, usize) {
        (self._start, self._end)
    }
}

#[derive(Debug, PartialEq)]
pub enum StringOrWhitespace {
    QuotedString(QuotedString),
    Whitespace(Whitespace),
}

impl GrammarUnit for StringOrWhitespace {
    fn try_match(content: &str, offset: usize) -> ParseResult<(Self, usize)> {
        if let Ok((unit, took)) = QuotedString::try_match(content, offset) {
            return Ok((StringOrWhitespace::QuotedString(unit), took));
        }
        if let Ok((unit, took)) = Whitespace::try_match(content, offset) {
            return Ok((StringOrWhitespace::Whitespace(unit), took));
        }
        Err(ParseError::new(
            String::from("expected one of (...)"),
            offset,
            offset + 1,
        ))
    }

    fn range(&self) -> (usize, usize) {
        match self {
            Self::QuotedString(x) => x.range(),
            Self::Whitespace(x) => x.range(),
        }
    }
}

#[derive(Debug, PartialEq)]
pub enum Term {
    QuotedString(QuotedString),
    BareWord(BareWord),
}

impl GrammarUnit for Term {
    fn try_match(content: &str, offset: usize) -> ParseResult<(Self, usize)> {
        if let Ok((unit, took)) = QuotedString::try_match(content, offset) {
            return Ok((Term::QuotedString(unit), took));
        }
        if let Ok((unit, took)) = BareWord::try_match(content, offset) {
            return Ok((Term::BareWord(unit), took));
        }
        Err(ParseError::new(
            String::from("expected one of (...)"),
            offset,
            offset + 1,
        ))
    }

    fn range(&self) -> (usize, usize) {
        match self {
            Self::QuotedString(x) => x.range(),
            Self::BareWord(x) => x.range(),
        }
    }
}

#[derive(Debug, PartialEq)]
pub struct PaddedTerm {
    _prefix: Whitespace,
    term: Term,
    _suffix: Whitespace,
    _start: usize,
    _end: usize,
}

impl GrammarUnit for PaddedTerm {
    fn try_match(content: &str, offset: usize) -> ParseResult<(Self, usize)> {
        let mut taken = 0;
        let mut remaining = content;
        let (_prefix, took) = <Whitespace as GrammarUnit>::try_match(remaining, offset + taken)?;
        taken += took;
        remaining = &remaining[took..];
        let (term, took) = Term::try_match(remaining, offset + taken)?;
        taken += took;
        remaining = &remaining[took..];
        let (_suffix, took) = <Whitespace as GrammarUnit>::try_match(remaining, offset + taken)?;
        taken += took;
        Ok((
            PaddedTerm {
                _prefix,
                term,
                _suffix,
                _start: offset,
                _end: offset + taken,
            },
            taken,
        ))
    }

    fn range(&self) -> (usize, usize) {
        (self._start, self._end)
    }
}

#[derive(Debug, PartialEq)]
pub struct MaybePaddedTerm {
    _prefix: Option<Whitespace>,
    term: Term,
    _suffix: Option<Whitespace>,
    _start: usize,
    _end: usize,
}

impl GrammarUnit for MaybePaddedTerm {
    fn try_match(content: &str, offset: usize) -> ParseResult<(Self, usize)> {
        let mut taken = 0;
        let mut remaining = content;
        let (_prefix, took) = <Option<Whitespace>>::try_match(remaining, offset + taken)?;
        taken += took;
        remaining = &remaining[took..];
        let (term, took) = Term::try_match(remaining, offset + taken)?;
        taken += took;
        remaining = &remaining[took..];
        let (_suffix, took) = <Option<Whitespace>>::try_match(remaining, offset + taken)?;
        taken += took;
        Ok((
            MaybePaddedTerm {
                _prefix,
                term,
                _suffix,
                _start: offset,
                _end: offset + taken,
            },
            taken,
        ))
    }

    fn range(&self) -> (usize, usize) {
        (self._start, self._end)
    }
}

#[derive(Debug, PartialEq)]
pub struct Colin {
    _prefix: Option<Whitespace>,
    _suffix: Option<Whitespace>,
    _start: usize,
    _end: usize,
}

impl GrammarUnit for Colin {
    fn try_match(content: &str, offset: usize) -> ParseResult<(Self, usize)> {
        let mut taken = 0;
        let mut remaining = content;
        let (_prefix, took) = <Option<Whitespace>>::try_match(remaining, offset + taken)?;
        taken += took;
        remaining = &remaining[took..];
        if remaining.starts_with("colin") {
            taken += "colin".len();
            remaining = &remaining["colin".len()..];
        } else {
            return Err(ParseError::new(
                format!("expected {}", "colin"),
                offset + taken,
                offset + taken + 1,
            ));
        }
        let (_suffix, took) = <Option<Whitespace>>::try_match(remaining, offset + taken)?;
        taken += took;
        Ok((
            Colin {
                _prefix,
                _suffix,
                _start: offset,
                _end: offset + taken,
            },
            taken,
        ))
    }

    fn range(&self) -> (usize, usize) {
        (self._start, self._end)
    }
}

#[derive(Debug, PartialEq)]
pub struct BooleanTrue {
    _start: usize,
    _end: usize,
}

impl GrammarUnit for BooleanTrue {
    fn try_match(content: &str, offset: usize) -> ParseResult<(Self, usize)> {
        if !content.starts_with("true") {
            return Err(ParseError::new(
                format!("expected `{}`", "true"),
                offset,
                offset + 1,
            ));
        }
        Ok((
            BooleanTrue {
                _start: offset,
                _end: offset + "true".len(),
            },
            "true".len(),
        ))
    }

    fn range(&self) -> (usize, usize) {
        (self._start, self._end)
    }
}

#[derive(Debug, PartialEq)]
pub struct BooleanFalse {
    _start: usize,
    _end: usize,
}

impl GrammarUnit for BooleanFalse {
    fn try_match(content: &str, offset: usize) -> ParseResult<(Self, usize)> {
        if !content.starts_with("false") {
            return Err(ParseError::new(
                format!("expected `{}`", "false"),
                offset,
                offset + 1,
            ));
        }
        Ok((
            BooleanFalse {
                _start: offset,
                _end: offset + "false".len(),
            },
            "false".len(),
        ))
    }

    fn range(&self) -> (usize, usize) {
        (self._start, self._end)
    }
}

#[derive(Debug, PartialEq)]
pub enum Boolean {
    True(BooleanTrue),
    False(BooleanFalse),
}

impl GrammarUnit for Boolean {
    fn try_match(content: &str, offset: usize) -> ParseResult<(Self, usize)> {
        if let Ok((unit, took)) = BooleanTrue::try_match(content, offset) {
            return Ok((Boolean::True(unit), took));
        }
        if let Ok((unit, took)) = BooleanFalse::try_match(content, offset) {
            return Ok((Boolean::False(unit), took));
        }
        Err(ParseError::new(
            String::from("expected one of (...)"),
            offset,
            offset + 1,
        ))
    }

    fn range(&self) -> (usize, usize) {
        match self {
            Self::True(x) => x.range(),
            Self::False(x) => x.range(),
        }
    }
}

#[test]
fn test_quoted_string_match() {
    let (qs, took) = QuotedString::try_match(r#""hello, world" test"#, 0).unwrap();
    assert_eq!(took, 14);
    assert_eq!(&qs.value, "hello, world");

    assert!(QuotedString::try_match("", 0).is_err());
    let (qs, took) = QuotedString::try_match(r#""my ' string \" test""#, 0).unwrap();
    assert_eq!(took, 21);
    assert_eq!(&qs.value, "my ' string \" test");

    assert_range::<QuotedString>(r#""hello, world" test"#, r#"^^^^^^^^^^^^^^"#)
}

#[test]
fn test_whitespace_match() {
    let content = r#""hello, world"   test"#;
    let (_, took) = QuotedString::try_match(content, 0).unwrap();
    assert_eq!(took, 14);

    let remaining = &content[took..];

    let (_, took) = Whitespace::try_match(remaining, took).unwrap();

    assert_eq!(took, 3);

    assert_range::<Whitespace>("     test", "^^^^^")
}

#[test]
fn test_sequence() {
    let (unit, _) = StringWithWhitespace::try_match(r#"    "grammar"  "#, 0).unwrap();
    assert_eq!(span_text(unit.range()), r#"^^^^^^^^^^^^^^^"#);
    assert_eq!(span_text(unit.string.range()), r#"    ^^^^^^^^^"#);
    assert_eq!(unit.string.value, "grammar");
}

#[test]
fn test_one_of() {
    let (unit, _) = StringOrWhitespace::try_match("   xyz", 0).unwrap();
    assert_eq!(span_text(unit.range()), "^^^");
}

#[test]
fn test_combinators() {
    let (unit, _) = PaddedTerm::try_match("   xyz  ", 0).unwrap();
    assert_eq!(span_text(unit.term.range()), "   ^^^");

    let (unit, _) = PaddedTerm::try_match(r#"   "term"  "#, 0).unwrap();
    assert_eq!(span_text(unit.term.range()), r#"   ^^^^^^"#);
}

#[test]
fn test_optional() {
    let (unit, _) = MaybePaddedTerm::try_match("xyz", 0).unwrap();
    assert_eq!(span_text(unit.term.range()), "^^^");

    let (unit, _) = MaybePaddedTerm::try_match("   xyz", 0).unwrap();
    assert_eq!(span_text(unit.term.range()), "   ^^^");

    let (unit, _) = MaybePaddedTerm::try_match("xyz   ", 0).unwrap();
    assert_eq!(span_text(unit.term.range()), "^^^");

    let (unit, _) = MaybePaddedTerm::try_match("   xyz   ", 0).unwrap();
    assert_eq!(span_text(unit.term.range()), "   ^^^");
}

#[test]
fn test_sequence_literal() {
    assert!(Colin::try_match("   colin   ", 0).is_ok());

    let content = "   ballin   ";
    let expected = r#"
   |
1  |   ballin   
   |   ^ expected colin
"#;
    let fail = Colin::try_match(content, 0);
    assert!(fail.is_err());
    let got = fail.unwrap_err().render(content);
    if got.trim() != expected.trim() {
        println!("got:\n\n{}\n", got.trim_matches('\n'));
        println!("expected:\n\n{}\n", expected.trim_matches('\n'));
        panic!("got != expected");
    }
}

#[test]
fn test_unit_literal() {
    assert!(Boolean::try_match("true", 0).is_ok());
    assert!(Boolean::try_match("false", 0).is_ok());
}

#[test]
fn quoted_string_errors_name_their_span() {
    let e = QuotedString::try_match("abc", 4).unwrap_err();
    assert_eq!(e.message, "expected quoted string");
    assert_eq!((e.start, e.end), (4, 5));
    let e = QuotedString::try_match("\"abc", 0).unwrap_err();
    assert_eq!(e.message, "unterminated quoted string");
    assert_eq!((e.start, e.end), (0, 5));
}

#[test]
fn bare_word_and_whitespace_fail_on_empty_runs() {
    let e = BareWord::try_match(" x", 2).unwrap_err();
    assert_eq!(e.message, "expected bare word");
    assert_eq!((e.start, e.end), (2, 3));
    let e = Whitespace::try_match("x", 0).unwrap_err();
    assert_eq!(e.message, "expected whitespace");
    let (w, took) = BareWord::try_match("ab_9 c", 1).unwrap();
    assert_eq!(took, 4);
    assert_eq!(w.range(), (1, 5));
}

#[test]
fn integer_parses_signed_values() {
    let (n, took) = Integer::try_match("-42 rest", 3).unwrap();
    assert_eq!(n.value, -42);
    assert_eq!(took, 3);
    assert_eq!(n.range(), (3, 6));
    let (n, _) = Integer::try_match("+7", 0).unwrap();
    assert_eq!(n.value, 7);
    let e = Integer::try_match("x1", 0).unwrap_err();
    assert_eq!(e.message, "expected integer");
    let e = Integer::try_match("1-2", 0).unwrap_err();
    assert_eq!(e.message, "unable to parse integer");
    assert_eq!((e.start, e.end), (0, 3));
    let e = Integer::try_match("99999999999999999999", 0).unwrap_err();
    assert_eq!(e.message, "unable to parse integer");
}

#[test]
fn render_points_at_the_second_line() {
    let e = ParseError::new(String::from("bad"), 6, 8);
    let got = e.render("ab\ncd efg\n");
    assert_eq!(got, "\n   |\n2  |cd efg\n   |   ^^ bad\n");
}

#[test]
fn run_outcomes_follow_their_inputs() {
    let e = Whitespace::from_run(0, 3).unwrap_err();
    assert_eq!((e.start, e.end), (3, 4));
    let (w, took) = Whitespace::from_run(2, 3).unwrap();
    assert_eq!(took, 2);
    assert_eq!(w.range(), (3, 5));
    let (b, _) = BareWord::from_run(4, 0).unwrap();
    assert_eq!(b.range(), (0, 4));
    let (n, took) = Integer::from_run(2, Some(12), 1).unwrap();
    assert_eq!((n.value, took, n.range()), (12, 2, (1, 3)));
    let e = Integer::from_run(2, None, 1).unwrap_err();
    assert_eq!(e.message, "unable to parse integer");
    assert_eq!((e.start, e.end), (1, 3));
}

#[test]
fn whitespace_follows_the_unicode_set() {
    let (_, took) = Whitespace::try_match("\u{3000}\u{85}\t x", 0).unwrap();
    assert_eq!(took, 4);
    assert!(Whitespace::try_match("\u{180e}", 0).is_err());
    assert!(Whitespace::try_match("\u{200b}", 0).is_err());
}
