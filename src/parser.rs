//! The log grammar: a character cursor with line and column tracking, and
//! the recursive-descent parser built on it.
use vstd::prelude::*;
use crate::ast::{DayRecord, Duration, Event, EventInfo, File, Tag, Tags};
use crate::calendar::{days_from_ce, is_calendar_date, Date, Time};
use crate::settings::{settings_from_toml, settings_of_text, Settings, SettingsError};

verus! {

/// Why a parse failed.
#[derive(Debug)]
pub enum ParseErrorKind {
    /// The next character is none of `expected`.
    ExpectedChars { expected: Vec<char>, found: char },
    /// The input ended where more was needed.
    UnexpectedEof,
    /// A date names no calendar day.
    InvalidDate,
    /// A start time or a duration is malformed.
    InvalidDurationFormat,
    /// The settings block was refused.
    TomlError(SettingsError),
}

/// A failure and the 1-based line and column where the cursor stood.
#[derive(Debug)]
pub struct ParseError {
    pub kind: ParseErrorKind,
    pub line: usize,
    pub column: usize,
}

impl ParseError {
    pub fn new(kind: ParseErrorKind, line: usize, column: usize) -> (r: Self)
        ensures
            r.kind == kind,
            r.line == line,
            r.column == column,
    {
        ParseError { kind, line, column }
    }
}

pub open spec fn is_digit(c: char) -> bool {
    '0' <= c && c <= '9'
}

/// Unicode's White_Space characters.
pub open spec fn is_white_space(c: char) -> bool {
    ('\u{9}' <= c && c <= '\u{d}') || c == ' ' || c == '\u{85}' || c == '\u{a0}' || c == '\u{1680}'
        || ('\u{2000}' <= c && c <= '\u{200a}') || c == '\u{2028}' || c == '\u{2029}' || c
        == '\u{202f}' || c == '\u{205f}' || c == '\u{3000}'
}

/// Whitespace that a cursor may skip: any but a line feed.
pub open spec fn is_blank(c: char) -> bool {
    is_white_space(c) && c != '\n'
}

/// The 1-based line on which index `i` of `s` stands.
pub open spec fn line_at(s: Seq<char>, i: int) -> int
    decreases i,
{
    if i <= 0 {
        1
    } else {
        line_at(s, i - 1) + if s[i - 1] == '\n' {
            1int
        } else {
            0int
        }
    }
}

/// The 1-based column at which index `i` of `s` stands.
pub open spec fn column_at(s: Seq<char>, i: int) -> int
    decreases i,
{
    if i <= 0 {
        1
    } else if s[i - 1] == '\n' {
        1
    } else {
        column_at(s, i - 1) + 1
    }
}

/// The first index from `i` on that holds no character satisfying `f`.
pub open spec fn run_end(s: Seq<char>, i: int, f: spec_fn(char) -> bool) -> int
    decreases s.len() - i,
{
    if 0 <= i < s.len() && f(s[i]) {
        run_end(s, i + 1, f)
    } else {
        i
    }
}

pub open spec fn not_char(c: char) -> spec_fn(char) -> bool {
    |x: char| x != c
}

pub open spec fn digit_char() -> spec_fn(char) -> bool {
    |x: char| is_digit(x)
}

pub open spec fn blank_char() -> spec_fn(char) -> bool {
    |x: char| is_blank(x)
}

/// What a tag title may hold: no whitespace, `]` or `(`.
pub open spec fn title_char() -> spec_fn(char) -> bool {
    |x: char| !is_white_space(x) && x != ']' && x != '('
}

pub open spec fn digit_value(c: char) -> int {
    (c as int) - ('0' as int)
}

/// The number that a run of decimal digits spells.
pub open spec fn digits_value(s: Seq<char>) -> int
    decreases s.len(),
{
    if s.len() == 0 {
        0
    } else {
        digits_value(s.drop_last()) * 10 + digit_value(s.last())
    }
}

proof fn lemma_position_bounds(s: Seq<char>, i: int)
    requires
        0 <= i,
    ensures
        1 <= line_at(s, i) <= i + 1,
        1 <= column_at(s, i) <= i + 1,
    decreases i,
{
    if i > 0 {
        lemma_position_bounds(s, i - 1);
    }
}

proof fn lemma_run_end_bounds(s: Seq<char>, i: int, f: spec_fn(char) -> bool)
    requires
        0 <= i <= s.len(),
    ensures
        i <= run_end(s, i, f) <= s.len(),
        forall|k: int| i <= k < run_end(s, i, f) ==> f(#[trigger] s[k]),
        run_end(s, i, f) < s.len() ==> !f(s[run_end(s, i, f)]),
    decreases s.len() - i,
{
    if i < s.len() && f(s[i]) {
        lemma_run_end_bounds(s, i + 1, f);
    }
}

/// Relies on std's `FromIterator<char>` for `String`: the characters of
/// `v[from..to]` in order.
#[verifier::external_body]
fn string_of_chars(v: &Vec<char>, from: usize, to: usize) -> (r: String)
    requires
        from <= to <= v@.len(),
    ensures
        r@ == v@.subrange(from as int, to as int),
{
    v[from..to].iter().collect()
}

/// A cursor over the characters of a log, with the mark where the pending
/// lexeme started.
#[derive(Clone, Debug)]
pub struct Parser {
    source: Vec<char>,
    start: usize,
    current: usize,
    line: usize,
    column: usize,
}

impl Parser {
    pub closed spec fn src(&self) -> Seq<char> {
        self.source@
    }

    pub closed spec fn pos(&self) -> int {
        self.current as int
    }

    pub closed spec fn mark(&self) -> int {
        self.start as int
    }

    pub closed spec fn wf(&self) -> bool {
        &&& self.source@.len() < usize::MAX
        &&& self.start <= self.current <= self.source@.len()
        &&& self.line == line_at(self.source@, self.current as int)
        &&& self.column == column_at(self.source@, self.current as int)
    }

    /// The character under the cursor, if any.
    pub closed spec fn next_char(&self) -> Option<char> {
        if self.current < self.source@.len() {
            Some(self.source@[self.current as int])
        } else {
            None
        }
    }

    /// `e` reports the cursor's line and column.
    pub closed spec fn error_here(&self, e: ParseError) -> bool {
        e.line == self.line && e.column == self.column
    }

    /// A cursor at the start of `source`.
    pub fn new(source: Vec<char>) -> (r: Self)
        requires
            source@.len() < usize::MAX,
        ensures
            r.wf(),
            r.src() == source@,
            r.pos() == 0,
            r.mark() == 0,
    {
        Parser { source, start: 0, current: 0, line: 1, column: 1 }
    }

    fn make_error(&self, kind: ParseErrorKind) -> (r: ParseError)
        ensures
            r.kind == kind,
            r.line == self.line,
            r.column == self.column,
    {
        ParseError::new(kind, self.line, self.column)
    }

    fn peek(&self) -> (r: Option<char>)
        requires
            self.wf(),
        ensures
            r == self.next_char(),
    {
        if self.current < self.source.len() {
            Some(self.source[self.current])
        } else {
            None
        }
    }

    /// Consumes the character under the cursor, if any, and returns it.
    fn advance(&mut self) -> (r: Option<char>)
        requires
            old(self).wf(),
        ensures
            final(self).wf(),
            r == old(self).next_char(),
            final(self).src() == old(self).src(),
            final(self).mark() == old(self).mark(),
            final(self).pos() == old(self).pos() + if r.is_some() {
                1int
            } else {
                0int
            },
    {
        if self.current < self.source.len() {
            let c = self.source[self.current];
            proof {
                lemma_position_bounds(self.source@, self.current as int);
            }
            self.current = self.current + 1;
            if c == '\n' {
                self.line = self.line + 1;
                self.column = 1;
            } else {
                self.column = self.column + 1;
            }
            Some(c)
        } else {
            None
        }
    }

    /// Starts the pending lexeme at the cursor.
    fn clear(&mut self)
        requires
            old(self).wf(),
        ensures
            final(self).wf(),
            final(self).src() == old(self).src(),
            final(self).pos() == old(self).pos(),
            final(self).mark() == old(self).pos(),
    {
        self.start = self.current;
    }

    /// The pending lexeme; the next one starts at the cursor.
    fn collect(&mut self) -> (r: String)
        requires
            old(self).wf(),
        ensures
            final(self).wf(),
            final(self).src() == old(self).src(),
            final(self).pos() == old(self).pos(),
            final(self).mark() == old(self).pos(),
            r@ == old(self).src().subrange(old(self).mark(), old(self).pos()),
    {
        let r = string_of_chars(&self.source, self.start, self.current);
        self.clear();
        r
    }

    /// Moves the cursor over the characters of class `class`.
    fn advance_over(&mut self, class: CharClass)
        requires
            old(self).wf(),
        ensures
            final(self).wf(),
            final(self).src() == old(self).src(),
            final(self).mark() == old(self).mark(),
            final(self).pos() == run_end(old(self).src(), old(self).pos(), class.pred()),
            old(self).pos() <= final(self).pos() <= final(self).src().len(),
    {
        proof {
            lemma_run_end_bounds(self.source@, self.current as int, class.pred());
        }
        loop
            invariant
                self.wf(),
                self.src() == old(self).src(),
                self.mark() == old(self).mark(),
                old(self).pos() <= self.pos() <= run_end(old(self).src(), old(self).pos(), class.pred()),
                run_end(self.src(), self.pos(), class.pred()) == run_end(old(self).src(), old(self).pos(), class.pred()),
            ensures
                self.pos() == run_end(old(self).src(), old(self).pos(), class.pred()),
            decreases self.src().len() - self.pos(),
        {
            match self.peek() {
                Some(current) => {
                    if !class.holds(current) {
                        assert(run_end(self.src(), self.pos(), class.pred()) == self.pos());
                        break;
                    }
                    proof {
                        lemma_run_end_bounds(self.src(), self.pos() + 1, class.pred());
                        assert(run_end(self.src(), self.pos(), class.pred()) == run_end(self.src(), self.pos() + 1, class.pred()));
                    }
                    self.advance();
                },
                None => {
                    assert(run_end(self.src(), self.pos(), class.pred()) == self.pos());
                    break;
                },
            }
        }
    }

    /// Moves the cursor until it stands on `c` or at the end.
    fn extract_until(&mut self, c: char)
        requires
            old(self).wf(),
        ensures
            final(self).wf(),
            final(self).src() == old(self).src(),
            final(self).mark() == old(self).mark(),
            final(self).pos() == run_end(old(self).src(), old(self).pos(), not_char(c)),
            old(self).pos() <= final(self).pos() <= final(self).src().len(),
    {
        self.advance_over(CharClass::Except(c));
    }

    /// Skips whitespace other than line feeds; the next lexeme starts after it.
    fn skip_space(&mut self)
        requires
            old(self).wf(),
        ensures
            final(self).wf(),
            final(self).src() == old(self).src(),
            final(self).pos() == run_end(old(self).src(), old(self).pos(), blank_char()),
            final(self).mark() == final(self).pos(),
            old(self).pos() <= final(self).pos() <= final(self).src().len(),
    {
        self.advance_over(CharClass::Blank);
        self.clear();
    }

    /// Consumes a run of decimal digits, possibly empty, and returns the
    /// pending lexeme, which ends with it.
    fn extract_num(&mut self) -> (r: String)
        requires
            old(self).wf(),
        ensures
            final(self).wf(),
            final(self).src() == old(self).src(),
            final(self).pos() == run_end(old(self).src(), old(self).pos(), digit_char()),
            final(self).mark() == final(self).pos(),
            r@ == old(self).src().subrange(old(self).mark(), final(self).pos()),
            old(self).pos() <= final(self).pos() <= final(self).src().len(),
    {
        proof {
            lemma_run_end_bounds(self.source@, self.current as int, digit_char());
        }
        self.advance_over(CharClass::Digit);
        self.collect()
    }

    /// Consumes a run of decimal digits and returns the number it spells,
    /// or `None` where the run is empty or the number exceeds `limit`.
    fn extract_number(&mut self, limit: u64) -> (r: Option<u64>)
        requires
            old(self).wf(),
        ensures
            final(self).wf(),
            final(self).src() == old(self).src(),
            final(self).pos() == run_end(old(self).src(), old(self).pos(), digit_char()),
            final(self).mark() == final(self).pos(),
            r == number_in(old(self).src(), old(self).pos(), final(self).pos(), limit),
            old(self).pos() <= final(self).pos() <= final(self).src().len(),
    {
        let from = self.current;
        self.clear();
        self.extract_num();
        proof {
            lemma_run_end_bounds(self.source@, from as int, digit_char());
        }
        self.number_between(from, self.current, limit)
    }

    fn number_between(&self, from: usize, to: usize, limit: u64) -> (r: Option<u64>)
        requires
            self.wf(),
            from <= to <= self.src().len(),
            forall|k: int| from <= k < to ==> is_digit(#[trigger] self.src()[k]),
        ensures
            r == number_in(self.src(), from as int, to as int, limit),
            r matches Some(v) ==> v <= limit && v as int == digits_value(self.src().subrange(from as int, to as int)),
    {
        if from == to {
            return None;
        }
        let mut value: u64 = 0;
        let mut i: usize = from;
        while i < to
            invariant
                self.wf(),
                from <= i <= to <= self.src().len(),
                forall|k: int| from <= k < to ==> is_digit(#[trigger] self.src()[k]),
                value as int == digits_value(self.src().subrange(from as int, i as int)),
                value <= limit,
            decreases to - i,
        {
            let d: u64 = (self.source[i] as u32 - '0' as u32) as u64;
            proof {
                lemma_digits_step(self.src(), from as int, i as int);
            }
            if d > limit || value > (limit - d) / 10 {
                proof {
                    lemma_digits_grow(self.src(), from as int, i as int + 1, to as int);
                    lemma_digits_nonneg(self.src(), from as int, i as int);
                    if d <= limit {
                        assert(value * 10 + d > limit) by (nonlinear_arith)
                            requires value > (limit - d) / 10, d <= limit;
                    }
                }
                return None;
            }
            assert(value * 10 + d <= limit) by (nonlinear_arith)
                requires value <= (limit - d) / 10, d <= limit;
            value = value * 10 + d;
            i = i + 1;
        }
        Some(value)
    }

    /// Consumes the next character if it is one of `chars`.
    fn expect_chars(&mut self, chars: Vec<char>) -> (r: Result<(), ParseError>)
        requires
            old(self).wf(),
        ensures
            final(self).wf(),
            final(self).src() == old(self).src(),
            final(self).mark() == old(self).mark(),
            match old(self).next_char() {
                None => r matches Err(e) && e.kind is UnexpectedEof && old(self).error_here(e)
                    && final(self).pos() == old(self).pos(),
                Some(c) => if chars@.contains(c) {
                    r is Ok && final(self).pos() == old(self).pos() + 1
                } else {
                    r matches Err(e) && old(self).error_here(e) && final(self).pos() == old(self).pos()
                        && e.kind == (ParseErrorKind::ExpectedChars { expected: chars, found: c })
                },
            },
    {
        match self.peek() {
            Some(c) => {
                let mut i: usize = 0;
                while i < chars.len()
                    invariant
                        *self == *old(self),
                        self.wf(),
                        old(self).next_char() == Some(c),
                        i <= chars@.len(),
                        forall|k: int| 0 <= k < i ==> chars@[k] != c,
                    decreases chars@.len() - i,
                {
                    if chars[i] == c {
                        self.advance();
                        return Ok(());
                    }
                    i = i + 1;
                }
                Err(self.make_error(ParseErrorKind::ExpectedChars { expected: chars, found: c }))
            },
            None => Err(self.make_error(ParseErrorKind::UnexpectedEof)),
        }
    }

    /// Consumes the next character if it is `c`.
    fn expect_char(&mut self, c: char) -> (r: Result<(), ParseError>)
        requires
            old(self).wf(),
        ensures
            final(self).wf(),
            final(self).src() == old(self).src(),
            final(self).mark() == old(self).mark(),
            r is Ok <==> old(self).next_char() == Some(c),
            r is Ok ==> final(self).pos() == old(self).pos() + 1,
            r matches Err(e) ==> old(self).error_here(e) && final(self).pos() == old(self).pos(),
            old(self).next_char() is None ==> (r matches Err(e) && e.kind is UnexpectedEof),
            old(self).next_char() is Some && old(self).next_char() != Some(c) ==> (r matches Err(e) && e.kind matches
                ParseErrorKind::ExpectedChars { expected, found } && expected@ == seq![c] && Some(found)
                == old(self).next_char()),
    {
        let r = self.expect_chars(vec![c]);
        proof {
            if old(self).next_char() == Some(c) {
                assert(seq![c].contains(c)) by { assert(seq![c][0] == c); }
            }
        }
        r
    }

    /// Consumes the characters of `s`, failing at the first that differs.
    fn expect_string(&mut self, s: &[char]) -> (r: Result<(), ParseError>)
        requires
            old(self).wf(),
        ensures
            final(self).wf(),
            final(self).src() == old(self).src(),
            final(self).mark() == old(self).mark(),
            r is Ok <==> old(self).pos() + s@.len() <= old(self).src().len()
                && old(self).src().subrange(old(self).pos(), old(self).pos() + s@.len()) == s@,
            r is Ok ==> final(self).pos() == old(self).pos() + s@.len(),
            r matches Err(e) ==> final(self).error_here(e),
            old(self).pos() <= final(self).pos() <= final(self).src().len(),
            r matches Err(e) ==> final(self).pos() - old(self).pos() < s@.len() && old(self).src().subrange(
                old(self).pos(), final(self).pos()) == s@.subrange(0, final(self).pos() - old(self).pos()),
            r matches Err(e) ==> (final(self).pos() == final(self).src().len() ==> e.kind is UnexpectedEof),
            r is Err ==> (final(self).pos() == final(self).src().len() <==> cut_short(old(self).src(), old(self).pos(), s@)),
            r matches Err(e) ==> (final(self).pos() < final(self).src().len() ==> (e.kind matches
                ParseErrorKind::ExpectedChars { expected, found } && expected@ == seq![s@[final(self).pos()
                - old(self).pos()]] && found == final(self).src()[final(self).pos()] && found != s@[final(self).pos()
                - old(self).pos()])),
    {
        let mut i: usize = 0;
        while i < s.len()
            invariant
                self.wf(),
                self.src() == old(self).src(),
                self.mark() == old(self).mark(),
                i <= s@.len(),
                self.pos() == old(self).pos() + i,
                self.pos() <= self.src().len(),
                self.src().subrange(old(self).pos(), self.pos()) == s@.subrange(0, i as int),
            decreases s@.len() - i,
        {
            let r = self.expect_char(s[i]);
            match r {
                Ok(()) => {
                    assert(self.src().subrange(old(self).pos(), self.pos()) =~= s@.subrange(0, i + 1));
                    i = i + 1;
                },
                Err(e) => {
                    proof {
                        let src = old(self).src();
                        let q = old(self).pos();
                        if self.pos() < src.len() && cut_short(src, q, s@) {
                            assert(src.subrange(q, src.len() as int)[i as int] == s@.subrange(0, src.len() - q)[i as int]);
                        }
                        if self.pos() == src.len() {
                            assert(src.subrange(q, src.len() as int) =~= s@.subrange(0, src.len() - q));
                        }
                        if old(self).pos() + s@.len() <= old(self).src().len() {
                            assert(old(self).src().subrange(old(self).pos(), old(self).pos() + s@.len())[i as int]
                                == old(self).src()[old(self).pos() + i]);
                        }
                    }
                    return Err(e);
                },
            }
        }
        assert(s@.subrange(0, i as int) =~= s@);
        Ok(())
    }

    /// Reads `Y-M-D`: three runs of decimal digits joined by dashes, naming
    /// a calendar day.
    fn parse_date(&mut self) -> (r: Result<Date, ParseError>)
        requires
            old(self).wf(),
        ensures
            final(self).wf(),
            final(self).src() == old(self).src(),
            old(self).pos() <= final(self).pos(),
            r matches Err(e) ==> final(self).error_here(e),
            r matches Ok(d) ==> date_shape(old(self).src(), old(self).pos())
                && final(self).pos() == date_end(old(self).src(), old(self).pos())
                && is_calendar_date(date_year(old(self).src(), old(self).pos()),
                    date_month(old(self).src(), old(self).pos()), date_day(old(self).src(), old(self).pos()))
                && d.days == days_from_ce(date_year(old(self).src(), old(self).pos()),
                    date_month(old(self).src(), old(self).pos()), date_day(old(self).src(), old(self).pos())),
            date_shape(old(self).src(), old(self).pos()) ==> (r is Ok <==> is_calendar_date(
                date_year(old(self).src(), old(self).pos()),
                date_month(old(self).src(), old(self).pos()), date_day(old(self).src(), old(self).pos()))),
            date_shape(old(self).src(), old(self).pos()) && r is Err ==> (r matches Err(e) && e.kind is InvalidDate),
            date_shape(old(self).src(), old(self).pos()) ==> final(self).pos() == date_end(old(self).src(), old(self).pos()),
    {
        let ghost s = self.src();
        let ghost p = self.pos();
        proof {
            lemma_run_end_bounds(s, p, digit_char());
        }
        let y_from = self.current;
        let year = self.extract_number(i32::MAX as u64);
        let ghost y_end = self.pos();
        proof {
            lemma_digits_nonneg(s, p, y_end);
        }
        assert(year matches Some(y) ==> y as int == digits_value(s.subrange(p, y_end)));
        assert(y_end == year_end(s, p));
        if self.current == y_from {
            return Err(self.make_error(ParseErrorKind::UnexpectedEof));
        }
        self.expect_char('-')?;
        self.clear();
        proof {
            lemma_run_end_bounds(s, self.pos(), digit_char());
        }
        let m_from = self.current;
        let month = self.extract_number(u32::MAX as u64);
        let ghost m_end = self.pos();
        proof {
            lemma_digits_nonneg(s, y_end + 1, m_end);
        }
        assert(month matches Some(m) ==> m as int == digits_value(s.subrange(y_end + 1, m_end)));
        assert(m_end == month_end(s, p));
        if self.current == m_from {
            return Err(self.make_error(ParseErrorKind::UnexpectedEof));
        }
        self.expect_char('-')?;
        self.clear();
        proof {
            lemma_run_end_bounds(s, self.pos(), digit_char());
        }
        let d_from = self.current;
        let day = self.extract_number(u32::MAX as u64);
        let ghost d_end = self.pos();
        proof {
            lemma_digits_nonneg(s, m_end + 1, d_end);
        }
        if self.current == d_from {
            return Err(self.make_error(ParseErrorKind::UnexpectedEof));
        }
        self.clear();
        assert(date_shape(s, p));
        assert(self.pos() == date_end(s, p));
        let ghost (yv, mv, dv) = (date_year(s, p), date_month(s, p), date_day(s, p));
        let date = match (year, month, day) {
            (Some(y), Some(m), Some(d)) => {
                assert(y as int == yv);
                assert(m as int == mv);
                assert(d as int == dv);
                Date::from_ymd(y as i32, m as u32, d as u32)
            },
            _ => {
                assert(!is_calendar_date(yv, mv, dv));
                None
            },
        };
        match date {
            Some(date) => Ok(date),
            None => Err(self.make_error(ParseErrorKind::InvalidDate)),
        }
    }

    /// Reads one tag: a title, then an optional detail in parentheses.
    fn parse_tag(&mut self) -> (r: Result<Tag, ParseError>)
        requires
            old(self).wf(),
        ensures
            final(self).wf(),
            final(self).src() == old(self).src(),
            old(self).pos() <= final(self).pos(),
            r is Ok <==> tag_starts(old(self).src(), old(self).pos()),
            r matches Err(e) ==> final(self).error_here(e) && final(self).pos() == title_start(old(self).src(), old(self).pos()),
            r matches Err(e) ==> (final(self).pos() == final(self).src().len() ==> e.kind is UnexpectedEof),
            r matches Err(e) ==> (final(self).pos() < final(self).src().len() ==> (e.kind matches
                ParseErrorKind::ExpectedChars { expected, found } && expected@.len() == 0
                && found == final(self).src()[final(self).pos()])),
            r matches Ok(t) ==> t.title@.len() > 0
                && forall|k: int| 0 <= k < t.title@.len() ==> title_char()(#[trigger] t.title@[k]),
            r matches Ok(t) ==> final(self).mark() == final(self).pos()
                && t.title@ == old(self).src().subrange(title_start(old(self).src(), old(self).pos()),
                title_end(old(self).src(), old(self).pos()))
                && (t.detail is Some <==> tag_has_detail(old(self).src(), old(self).pos()))
                && (t.detail matches Some(d) ==> d@ == old(self).src().subrange(
                title_end(old(self).src(), old(self).pos()) + 1, detail_end(old(self).src(), old(self).pos())))
                && old(self).pos() < final(self).pos()
                && final(self).pos() == tag_after(old(self).src(), old(self).pos())
                && tag_view(t) == tag_at(old(self).src(), old(self).pos()),
    {
        let ghost s = self.src();
        let ghost p = self.pos();
        let ghost a = run_end(s, p, blank_char());
        proof {
            lemma_run_end_bounds(s, p, blank_char());
            lemma_run_end_bounds(s, a, title_char());
        }
        self.skip_space();
        match self.peek() {
            Some(c) => {
                if !CharClass::Title.holds(c) {
                    return Err(self.make_error(ParseErrorKind::ExpectedChars { expected: Vec::new(), found: c }));
                }
            },
            None => {
                return Err(self.make_error(ParseErrorKind::UnexpectedEof));
            },
        }
        proof {
            lemma_run_end_bounds(s, a + 1, title_char());
            assert(run_end(s, a, title_char()) == run_end(s, a + 1, title_char()));
        }
        self.advance_over(CharClass::Title);
        let title = self.collect();
        let detail = match self.peek() {
            Some(c) => {
                if c == '(' {
                    self.advance();
                    self.clear();
                    proof {
                        lemma_run_end_bounds(s, self.pos(), not_char(')'));
                    }
                    self.extract_until(')');
                    let d = self.collect();
                    self.advance();
                    self.clear();
                    Some(d)
                } else {
                    None
                }
            },
            None => None,
        };
        proof {
            assert forall|k: int| 0 <= k < title@.len() implies title_char()(#[trigger] title@[k]) by {
                assert(title@[k] == s[a + k]);
            }
        }
        Ok(Tag { title, detail })
    }

    /// Reads `[`, tags separated by blanks on one line, and `]`.
    fn parse_tags(&mut self) -> (r: Result<Tags, ParseError>)
        requires
            old(self).wf(),
        ensures
            final(self).wf(),
            final(self).src() == old(self).src(),
            old(self).pos() <= final(self).pos(),
            r matches Err(e) ==> final(self).error_here(e),
            r is Ok ==> old(self).next_char() == Some('[') && final(self).pos() > old(self).pos(),
            old(self).next_char() == Some('[') ==> (r is Ok <==> tags_close(old(self).src(), old(self).pos() + 1)),
            r matches Ok(t) ==> t.tags@.map_values(|x: Tag| tag_view(x)) == tags_from(old(self).src(), old(self).pos() + 1)
                && final(self).pos() == tags_stop(old(self).src(), old(self).pos() + 1) + 1,
            old(self).next_char() == Some('[') && tags_stop(old(self).src(), old(self).pos() + 1) >= old(self).src().len()
                ==> (r matches Err(e) && e.kind is UnexpectedEof && final(self).pos() == final(self).src().len()),
    {
        self.expect_char('[')?;
        self.clear();
        let mut tags: Vec<Tag> = Vec::new();
        let ghost s = self.src();
        let ghost first = self.pos();
        proof {
            assert(tags@.map_values(|x: Tag| tag_view(x)) + tags_from(s, first) =~= tags_from(s, first));
        }
        loop
            invariant
                self.wf(),
                self.src() == old(self).src(),
                s == old(self).src(),
                first == old(self).pos() + 1,
                first <= self.pos(),
                old(self).next_char() == Some('['),
                tags@.map_values(|x: Tag| tag_view(x)) + tags_from(s, self.pos()) == tags_from(s, first),
                tags_stop(s, self.pos()) == tags_stop(s, first),
            ensures
                tags@.map_values(|x: Tag| tag_view(x)) == tags_from(s, first),
                self.pos() == tags_stop(s, first),
            decreases self.src().len() - self.pos(),
        {
            let ghost before = self.pos();
            proof {
                lemma_run_end_bounds(s, before, blank_char());
            }
            self.skip_space();
            let go = match self.peek() {
                Some(c) => CharClass::Title.holds(c),
                None => false,
            };
            if !go {
                assert(tags_from(s, before) =~= Seq::empty());
                assert(tags@.map_values(|x: Tag| tag_view(x)) + tags_from(s, before) =~= tags@.map_values(|x: Tag| tag_view(x)));
                break;
            }
            let ghost old_tags = tags@;
            let ghost at = self.pos();
            let tag = self.parse_tag()?;
            tags.push(tag);
            proof {
                assert(tags_from(s, before) == seq![tag_at(s, at)] + tags_from(s, self.pos()));
                assert(tags@.map_values(|x: Tag| tag_view(x)) =~= old_tags.map_values(|x: Tag| tag_view(x)).push(tag_view(tag)));
                assert(tags@.map_values(|x: Tag| tag_view(x)) + tags_from(s, self.pos()) =~= old_tags.map_values(|x: Tag| tag_view(x)) + tags_from(s, before));
            }
        }
        self.expect_char(']')?;
        self.clear();
        Ok(Tags { tags })
    }

    /// Reads `H:M - D`: a start time and a duration of up to three parts
    /// among `<n>h`, `<n>m` and `<n>s`, in that order.
    fn parse_event_info(&mut self) -> (r: Result<EventInfo, ParseError>)
        requires
            old(self).wf(),
        ensures
            final(self).wf(),
            final(self).src() == old(self).src(),
            old(self).pos() <= final(self).pos(),
            r matches Err(e) ==> final(self).error_here(e),
            r is Ok ==> old(self).pos() < final(self).pos(),
            r matches Ok(info) ==> info.time.wf() && info.time.nanos == 0 && clock_shape(old(self).src(), old(self).pos())
                && info.time.secs == clock_hour(old(self).src(), old(self).pos()) * 3600 + clock_minute(
                old(self).src(), old(self).pos()) * 60,
            !is_digit_at(old(self).src(), old(self).pos()) ==> (r matches Err(e) && e.kind is UnexpectedEof),
            r matches Ok(info) ==> info_ok(old(self).src(), old(self).pos()) && info_view(info) == info_val(
                old(self).src(), old(self).pos()) && final(self).pos() == info_end(old(self).src(), old(self).pos()),
            clock_then_dash(old(self).src(), old(self).pos()) ==> match scan_duration(old(self).src(),
                duration_start(old(self).src(), old(self).pos()), 0, 0, false) {
                DurationScan::Eof => r matches Err(e) && e.kind is UnexpectedEof,
                DurationScan::Invalid => r matches Err(e) && e.kind is InvalidDurationFormat,
                DurationScan::Read { secs, any, end } => if !any || clock_hour(old(self).src(), old(self).pos()) >= 24
                    || clock_minute(old(self).src(), old(self).pos()) >= 60 {
                    r matches Err(e) && e.kind is InvalidDurationFormat
                } else {
                    r matches Ok(info) && info.duration.secs == secs && final(self).pos() == end
                },
            },
    {
        proof {
            if !is_digit_at(self.src(), self.pos()) {
                assert(run_end(self.src(), self.pos(), digit_char()) == self.pos());
            }
        }
        let ghost s = self.src();
        let ghost p = self.pos();
        proof {
            lemma_run_end_bounds(s, p, digit_char());
        }
        let hours = self.extract_number(u32::MAX as u64);
        proof {
            lemma_digits_nonneg(s, p, self.pos());
        }
        let hours = match hours {
            Some(h) => h as u32,
            None => return Err(self.make_error(ParseErrorKind::UnexpectedEof)),
        };
        self.expect_char(':')?;
        self.clear();
        let ghost m_from = self.pos();
        proof {
            lemma_run_end_bounds(s, m_from, digit_char());
        }
        let minutes = self.extract_number(u32::MAX as u64);
        proof {
            lemma_digits_nonneg(s, m_from, self.pos());
        }
        let minutes = match minutes {
            Some(m) => m as u32,
            None => return Err(self.make_error(ParseErrorKind::UnexpectedEof)),
        };
        assert(clock_shape(s, p));
        assert(hours as int == clock_hour(s, p));
        assert(minutes as int == clock_minute(s, p));
        self.skip_space();
        self.expect_char('-')?;
        self.skip_space();

        let ghost q = self.pos();
        let ghost scan = scan_duration(s, q, 0, 0, false);
        assert(clock_then_dash(s, p) ==> q == duration_start(s, p));
        let mut secs: u128 = 0;
        let mut any = false;
        let mut i: usize = 0;
        loop
            invariant
                self.wf(),
                self.src() == s,
                s == old(self).src(),
                p == old(self).pos(),
                old(self).pos() < self.pos(),
                is_digit_at(s, p),
                clock_shape(s, p),
                hours as int == clock_hour(s, p),
                minutes as int == clock_minute(s, p),
                clock_then_dash(s, p) ==> q == duration_start(s, p),
                scan == scan_duration(s, q, 0, 0, false),
                i <= 3,
                i == 0 ==> secs == 0,
                i == 1 ==> secs <= 3600 * (i64::MAX as int),
                i == 2 ==> secs <= 3660 * (i64::MAX as int),
                secs <= 3661 * (i64::MAX as int),
                !any ==> secs == 0 && i == 0,
                scan == scan_duration(s, self.pos(), i as int, secs as int, any),
            ensures
                scan == (DurationScan::Read { secs: secs as int, any, end: self.pos() }),
                self.wf(),
                self.src() == s,
                old(self).pos() < self.pos(),
            decreases 3 - i,
        {
            proof {
                lemma_run_end_bounds(s, self.pos(), digit_char());
                lemma_digits_nonneg(s, self.pos(), run_end(s, self.pos(), digit_char()));
            }
            let from = self.current;
            let num = self.extract_number(i64::MAX as u64);
            if self.current == from {
                break;
            }
            if i >= 3 {
                return Err(self.make_error(ParseErrorKind::InvalidDurationFormat));
            }
            let num = match num {
                Some(n) => n,
                None => return Err(self.make_error(ParseErrorKind::InvalidDurationFormat)),
            };
            let unit = match self.advance() {
                Some(u) => u,
                None => return Err(self.make_error(ParseErrorKind::UnexpectedEof)),
            };
            let n_unit: usize = if unit == 'h' {
                0
            } else if unit == 'm' {
                1
            } else if unit == 's' {
                2
            } else {
                return Err(self.make_error(ParseErrorKind::InvalidDurationFormat));
            };
            self.clear();
            if n_unit < i {
                return Err(self.make_error(ParseErrorKind::InvalidDurationFormat));
            }
            let unit_len: u128 = if n_unit == 0 {
                3600
            } else if n_unit == 1 {
                60
            } else {
                1
            };
            proof {
                assert(num * unit_len <= unit_len * (i64::MAX as int)) by (nonlinear_arith)
                    requires
                        num <= i64::MAX,
                        0 <= unit_len;
            }
            secs = secs + num as u128 * unit_len;
            any = true;
            i = n_unit + 1;
        }
        if !any {
            return Err(self.make_error(ParseErrorKind::InvalidDurationFormat));
        }
        let time = match Time::from_hms(hours, minutes, 0) {
            Some(t) => t,
            None => return Err(self.make_error(ParseErrorKind::InvalidDurationFormat)),
        };
        let duration = Duration { secs };
        Ok(EventInfo { time, duration })
    }

    /// Reads an optional tag group and one or more comma-separated
    /// intervals of one line, with its line feed.
    fn parse_event(&mut self) -> (r: Result<Event, ParseError>)
        requires
            old(self).wf(),
        ensures
            old(self).next_char() == Some('\n') ==> (r matches Err(e) && e.kind matches
                ParseErrorKind::ExpectedChars { expected, found } && found == '\n' && final(self).pos() == old(self).pos()),
            old(self).next_char() is None ==> (r matches Err(e) && e.kind is UnexpectedEof
                && final(self).pos() == old(self).pos()),
            final(self).wf(),
            final(self).src() == old(self).src(),
            old(self).pos() < final(self).pos() || r is Err,
            old(self).pos() <= final(self).pos(),
            r matches Err(e) ==> final(self).error_here(e),
            r matches Ok(ev) ==> ev.info@.len() > 0,
            r matches Ok(ev) ==> event_at(old(self).src(), old(self).pos()) == Some((event_view(ev).0, event_view(ev).1,
                final(self).pos() as int)),
            old(self).next_char() == Some('[') && tags_stop(old(self).src(), old(self).pos() + 1) >= old(self).src().len()
                ==> (r matches Err(e) && e.kind is UnexpectedEof && final(self).pos() == final(self).src().len()),
            event_at(old(self).src(), old(self).pos()) matches Some((t, xs, e)) ==> (r matches Ok(ev)
                && event_view(ev) == (t, xs) && final(self).pos() == e),
    {
        let ghost s = self.src();
        let ghost p = self.pos();
        let tags = match self.peek() {
            Some(c) => {
                if c == '[' {
                    Some(self.parse_tags()?)
                } else {
                    None
                }
            },
            None => None,
        };
        let ghost start = self.pos();
        let ghost target = infos_from(s, start);
        proof {
            if event_at(s, p) is Some {
                assert(start == event_infos_start(s, p));
                assert(tags_view_opt(tags) == event_at(s, p).unwrap().0);
            }
        }
        let mut info: Vec<EventInfo> = Vec::new();
        loop
            invariant_except_break
                target == prepend(info@.map_values(|x: EventInfo| info_view(x)), infos_from(s, self.pos())),
                target is Some ==> infos_from(s, self.pos()) is Some && info@.map_values(|x: EventInfo| info_view(x))
                    + infos_from(s, self.pos()).unwrap().0 == target.unwrap().0 && infos_from(s, self.pos()).unwrap().1
                    == target.unwrap().1,
            invariant
                self.wf(),
                self.src() == s,
                s == old(self).src(),
                p == old(self).pos(),
                p <= start <= self.pos(),
                tags is Some ==> p < start,
                tags is None ==> start == p,
                info@.len() == 0 ==> self.pos() == start,
                old(self).next_char() == Some('\n') || old(self).next_char() is None ==> info@.len() == 0 && self.pos() == p,
                info@.len() > 0 ==> start < self.pos(),
                target == infos_from(s, start),
                event_at(s, p) is Some ==> start == event_infos_start(s, p) && tags_view_opt(tags) == event_at(s, p).unwrap().0,
                !(old(self).next_char() == Some('[') && tags_stop(s, p + 1) >= s.len()),
                tags matches Some(t) ==> old(self).next_char() == Some('[') && tags_close(s, p + 1)
                    && t.tags@.map_values(|x: Tag| tag_view(x)) == tags_from(s, p + 1) && start == tags_stop(s, p + 1) + 1,
                tags is None ==> old(self).next_char() != Some('['),
            ensures
                target == Some((info@.map_values(|x: EventInfo| info_view(x)), self.pos() as int)),
                info@.len() > 0,
                start < self.pos(),
                target is Some ==> info@.map_values(|x: EventInfo| info_view(x)) == target.unwrap().0
                    && self.pos() == target.unwrap().1,
            decreases self.src().len() - self.pos(),
        {
            let ghost q = self.pos();
            match self.peek() {
                Some(c) => {
                    if c == '\n' {
                        if info.len() == 0 {
                            return Err(self.make_error(ParseErrorKind::ExpectedChars {
                                expected: vec!['0', '1', '2', '3', '4', '5', '6', '7', '8', '9'],
                                found: c,
                            }));
                        }
                        self.advance();
                        self.clear();
                        proof {
                            assert(info@.map_values(|x: EventInfo| info_view(x)) + Seq::<(int, int)>::empty()
                                =~= info@.map_values(|x: EventInfo| info_view(x)));
                            assert(infos_from(s, q) == Some((Seq::<(int, int)>::empty(), q + 1)));
                        }
                        break;
                    }
                    proof {
                        lemma_run_end_bounds(s, q, blank_char());
                    }
                    self.skip_space();
                    let ghost a = self.pos();
                    let item = self.parse_event_info()?;
                    let ghost old_info = info@;
                    info.push(item);
                    proof {
                        lemma_run_end_bounds(s, self.pos(), blank_char());
                    }
                    self.skip_space();
                    if self.peek() == Some(',') {
                        self.advance();
                        self.clear();
                    }
                    proof {
                        assert(info@.map_values(|x: EventInfo| info_view(x)) =~= old_info.map_values(
                            |x: EventInfo| info_view(x)).push(info_view(item)));
                        assert(info_ok(s, a));
                        assert(self.pos() == info_next(s, a));
                        assert(infos_from(s, q) == prepend(seq![info_val(s, a)], infos_from(s, self.pos())));
                        lemma_prepend_twice(old_info.map_values(|x: EventInfo| info_view(x)), seq![info_val(s, a)],
                            infos_from(s, self.pos()));
                        assert(old_info.map_values(|x: EventInfo| info_view(x)) + seq![info_val(s, a)]
                            =~= info@.map_values(|x: EventInfo| info_view(x)));
                        if target is Some {
                            assert(info_view(item) == info_val(s, a));
                            assert(self.pos() == info_next(s, a));
                            assert(infos_from(s, q) == Some((seq![info_val(s, a)] + infos_from(s, self.pos()).unwrap().0,
                                infos_from(s, self.pos()).unwrap().1)));
                            assert(info@.map_values(|x: EventInfo| info_view(x)) + infos_from(s, self.pos()).unwrap().0
                                =~= old_info.map_values(|x: EventInfo| info_view(x)) + infos_from(s, q).unwrap().0);
                        }
                    }
                },
                None => {
                    if info.len() == 0 {
                        return Err(self.make_error(ParseErrorKind::UnexpectedEof));
                    }
                    proof {
                        assert(infos_from(s, q) == Some((Seq::<(int, int)>::empty(), q)));
                        assert(info@.map_values(|x: EventInfo| info_view(x)) + Seq::<(int, int)>::empty()
                            =~= info@.map_values(|x: EventInfo| info_view(x)));
                    }
                    break;
                },
            }
        }
        proof {
            assert(event_infos_start(s, p) == start);
        }
        Ok(Event { tags, info })
    }

    /// Reads a date line and the events under it, up to a blank line or
    /// the end.
    fn parse_day_record(&mut self) -> (r: Result<DayRecord, ParseError>)
        requires
            old(self).wf(),
        ensures
            final(self).wf(),
            final(self).src() == old(self).src(),
            old(self).pos() <= final(self).pos(),
            r matches Err(e) ==> final(self).error_here(e),
            r is Ok ==> old(self).pos() < final(self).pos(),
            r matches Ok(rec) ==> date_shape(old(self).src(), old(self).pos()) && rec.date.days
                == days_from_ce(date_year(old(self).src(), old(self).pos()),
                date_month(old(self).src(), old(self).pos()), date_day(old(self).src(), old(self).pos())),
            date_shape(old(self).src(), old(self).pos()) && !is_calendar_date(
                date_year(old(self).src(), old(self).pos()),
                date_month(old(self).src(), old(self).pos()), date_day(old(self).src(), old(self).pos()))
                ==> (r matches Err(e) && e.kind is InvalidDate),
            lone_date_line(old(self).src(), old(self).pos()) && is_calendar_date(
                date_year(old(self).src(), old(self).pos()),
                date_month(old(self).src(), old(self).pos()), date_day(old(self).src(), old(self).pos()))
                ==> (r matches Ok(rec) && rec.events@.len() == 0),
            lone_date_line(old(self).src(), old(self).pos()) && run_end(old(self).src(), date_end(
                old(self).src(), old(self).pos()), blank_char()) + 1 == old(self).src().len()
                && r is Ok ==> final(self).pos() == final(self).src().len(),
            r matches Ok(rec) ==> record_at(old(self).src(), old(self).pos()) == Some((record_view(rec).0,
                record_view(rec).1, final(self).pos() as int)),
            record_opens_tags(old(self).src(), old(self).pos()) ==> (r matches Err(e) && e.kind is UnexpectedEof
                && final(self).pos() == final(self).src().len()),
            record_at(old(self).src(), old(self).pos()) matches Some((days, evs, e)) ==> (r matches Ok(rec)
                && record_view(rec) == (days, evs) && final(self).pos() == e),
            date_shape(old(self).src(), old(self).pos()) && is_calendar_date(
                date_year(old(self).src(), old(self).pos()),
                date_month(old(self).src(), old(self).pos()), date_day(old(self).src(), old(self).pos()))
                && run_end(old(self).src(), date_end(old(self).src(), old(self).pos()), blank_char())
                >= old(self).src().len() ==> (r matches Err(e) && e.kind is UnexpectedEof && final(self).pos()
                == final(self).src().len()),
            date_shape(old(self).src(), old(self).pos()) && !is_calendar_date(
                date_year(old(self).src(), old(self).pos()),
                date_month(old(self).src(), old(self).pos()), date_day(old(self).src(), old(self).pos()))
                ==> final(self).pos() == date_end(old(self).src(), old(self).pos()),
    {
        let ghost s = self.src();
        let ghost p = self.pos();
        let date = self.parse_date()?;
        proof {
            lemma_run_end_bounds(old(self).src(), self.pos(), blank_char());
        }
        self.skip_space();
        self.expect_char('\n')?;
        self.clear();
        let ghost start = self.pos();
        let ghost target = events_from(s, start);
        let ghost lone = lone_date_line(old(self).src(), old(self).pos());
        let ghost at_end = lone && run_end(old(self).src(), date_end(old(self).src(), old(self).pos()), blank_char()) + 1
            == old(self).src().len();
        let mut events: Vec<Event> = Vec::new();
        proof {
            assert(events@.map_values(|x: Event| event_view(x)) + target.unwrap().0 =~= target.unwrap().0);
        }
        loop
            invariant_except_break
                lone ==> (self.next_char() is None || self.next_char() == Some('\n')),
                at_end ==> self.pos() == self.src().len(),
                target == prepend(events@.map_values(|x: Event| event_view(x)), events_from(s, self.pos())),
                target is Some ==> events_from(s, self.pos()) is Some && events@.map_values(|x: Event| event_view(x))
                    + events_from(s, self.pos()).unwrap().0 == target.unwrap().0 && events_from(s, self.pos()).unwrap().1
                    == target.unwrap().1,
            invariant
                s == old(self).src(),
                p == old(self).pos(),
                target == events_from(s, start),
                start <= self.pos(),
                run_end(s, date_end(s, p), blank_char()) < s.len(),
                start == run_end(s, date_end(s, p), blank_char()) + 1 && s[start - 1] == '\n',
                date.days == days_from_ce(date_year(s, p), date_month(s, p), date_day(s, p)),
                record_opens_tags(s, p) ==> self.pos() == start && start == run_end(s, date_end(s, p), blank_char()) + 1,
                record_at(s, p) is Some ==> start == run_end(s, date_end(s, p), blank_char()) + 1
                    && date.days == record_at(s, p).unwrap().0,
                self.wf(),
                self.src() == old(self).src(),
                old(self).pos() < self.pos(),
                lone ==> events@.len() == 0,
                lone == lone_date_line(old(self).src(), old(self).pos()),
                at_end == (lone && run_end(old(self).src(), date_end(old(self).src(), old(self).pos()), blank_char()) + 1
                    == old(self).src().len()),
                date_shape(old(self).src(), old(self).pos()) && is_calendar_date(
                    date_year(old(self).src(), old(self).pos()),
                    date_month(old(self).src(), old(self).pos()), date_day(old(self).src(), old(self).pos())),
            ensures
                target == Some((events@.map_values(|x: Event| event_view(x)), self.pos() as int)),
                !record_opens_tags(s, p),
                at_end ==> self.pos() == self.src().len(),
                target is Some ==> events@.map_values(|x: Event| event_view(x)) == target.unwrap().0
                    && self.pos() == target.unwrap().1,
            decreases self.src().len() - self.pos(),
        {
            let ghost q = self.pos();
            match self.peek() {
                Some(c) => {
                    if c == '\n' {
                        self.advance();
                        self.clear();
                        proof {
                            assert(events_from(s, q) == Some((Seq::<(Option<Seq<(Seq<char>, Option<Seq<char>>)>>, Seq<(int, int)>)>::empty(), q + 1)));
                            assert(events@.map_values(|x: Event| event_view(x)) + Seq::<(Option<Seq<(Seq<char>, Option<Seq<char>>)>>, Seq<(int, int)>)>::empty()
                                =~= events@.map_values(|x: Event| event_view(x)));
                        }
                        break;
                    }
                    let ghost old_events = events@;
                    let ev = self.parse_event()?;
                    events.push(ev);
                    proof {
                        assert(events@.map_values(|x: Event| event_view(x)) =~= old_events.map_values(
                            |x: Event| event_view(x)).push(event_view(ev)));
                        assert(events_from(s, q) == prepend(seq![event_view(ev)], events_from(s, self.pos())));
                        lemma_prepend_twice(old_events.map_values(|x: Event| event_view(x)), seq![event_view(ev)],
                            events_from(s, self.pos()));
                        assert(old_events.map_values(|x: Event| event_view(x)) + seq![event_view(ev)]
                            =~= events@.map_values(|x: Event| event_view(x)));
                        if target is Some {
                            assert(events@.map_values(|x: Event| event_view(x)) + events_from(s, self.pos()).unwrap().0
                                =~= old_events.map_values(|x: Event| event_view(x)) + events_from(s, q).unwrap().0);
                        }
                    }
                },
                None => {
                    proof {
                        assert(events_from(s, q) == Some((Seq::<(Option<Seq<(Seq<char>, Option<Seq<char>>)>>, Seq<(int, int)>)>::empty(), q)));
                        assert(events@.map_values(|x: Event| event_view(x)) + Seq::<(Option<Seq<(Seq<char>, Option<Seq<char>>)>>, Seq<(int, int)>)>::empty()
                            =~= events@.map_values(|x: Event| event_view(x)));
                    }
                    break;
                },
            }
        }
        Ok(DayRecord { date, events })
    }

    /// Reads a settings block: a `---` line, TOML lines, and a closing
    /// `---` line, the first line that starts with `-`.
    fn parse_settings(&mut self) -> (r: Result<Settings, ParseError>)
        requires
            old(self).wf(),
        ensures
            final(self).wf(),
            final(self).src() == old(self).src(),
            old(self).pos() <= final(self).pos(),
            r matches Err(e) ==> final(self).error_here(e),
            r is Ok ==> old(self).pos() < final(self).pos(),
            r matches Ok(st) ==> st.wf(),
            !text_at(old(self).src(), old(self).pos(), delimiter()) ==> r is Err,
            text_at(old(self).src(), old(self).pos(), delimiter()) && block_end(old(self).src(), old(self).pos() + 4)
                is None ==> (r matches Err(e) && e.kind is UnexpectedEof && final(self).pos() == final(self).src().len()),
            text_at(old(self).src(), old(self).pos(), delimiter()) ==> match block_end(old(self).src(), old(self).pos() + 4) {
                Some(b) => if text_at(old(self).src(), b, delimiter()) {
                    (r is Ok <==> settings_of_text(old(self).src().subrange(old(self).pos() + 4, b)) is Some)
                    && (r matches Ok(st) ==> Some(st) == settings_of_text(old(self).src().subrange(old(self).pos() + 4, b))
                        && final(self).pos() == b + 4)
                    && (r matches Err(e) ==> e.kind is TomlError)
                } else {
                    r matches Err(e) && (cut_short(old(self).src(), b, delimiter()) ==> e.kind is UnexpectedEof)
                        && (!cut_short(old(self).src(), b, delimiter()) ==> e.kind is ExpectedChars)
                },
                None => true,
            },
    {
        let delim = ['-', '-', '-', '\n'];
        assert(delim@ == delimiter());
        self.expect_string(&delim)?;
        self.clear();
        let ghost s = self.src();
        let ghost start = self.pos();
        loop
            invariant
                self.wf(),
                self.src() == s,
                s == old(self).src(),
                start == old(self).pos() + 4,
                self.mark() == start,
                start <= self.pos(),
                block_end(s, self.pos()) == block_end(s, start),
            ensures
                self.wf(),
                self.src() == s,
                self.mark() == start,
                start <= self.pos(),
                block_end(s, start) == Some(self.pos() as int),
            decreases self.src().len() - self.pos(),
        {
            match self.peek() {
                Some(c) => {
                    if c == '-' {
                        break;
                    }
                },
                None => {
                    return Err(self.make_error(ParseErrorKind::UnexpectedEof));
                },
            }
            let ghost at = self.pos();
            proof {
                lemma_run_end_bounds(s, at, not_char('\n'));
            }
            self.extract_until('\n');
            self.expect_char('\n')?;
        }
        let text = self.collect();
        self.expect_string(&delim)?;
        match settings_from_toml(text.as_str()) {
            Ok(st) => Ok(st),
            Err(e) => Err(self.make_error(ParseErrorKind::TomlError(e))),
        }
    }

    /// Skips line feeds and carriage returns; the next lexeme starts after them.
    fn skip_line_breaks(&mut self)
        requires
            old(self).wf(),
        ensures
            final(self).wf(),
            final(self).src() == old(self).src(),
            old(self).pos() <= final(self).pos(),
            final(self).mark() == final(self).pos(),
            final(self).next_char() matches Some(c) ==> c != '\n' && c != '\r',
            (old(self).next_char() matches Some(c) && c != '\n' && c != '\r') ==> final(self).pos() == old(self).pos(),
            old(self).next_char() is None ==> final(self).pos() == old(self).pos(),
            final(self).pos() == run_end(old(self).src(), old(self).pos(), break_char()),
    {
        loop
            invariant
                self.wf(),
                self.src() == old(self).src(),
                old(self).pos() <= self.pos(),
                run_end(self.src(), self.pos(), break_char()) == run_end(old(self).src(), old(self).pos(), break_char()),
                (old(self).next_char() matches Some(c) && c != '\n' && c != '\r') ==> self.pos() == old(self).pos(),
                old(self).next_char() is None ==> self.pos() == old(self).pos(),
            ensures
                self.next_char() matches Some(c) ==> c != '\n' && c != '\r',
                self.pos() == run_end(old(self).src(), old(self).pos(), break_char()),
            decreases self.src().len() - self.pos(),
        {
            match self.peek() {
                Some(c) => {
                    if c != '\n' && c != '\r' {
                        assert(run_end(self.src(), self.pos(), break_char()) == self.pos());
                        break;
                    }
                    assert(run_end(self.src(), self.pos(), break_char()) == run_end(self.src(), self.pos() + 1, break_char()));
                    self.advance();
                },
                None => {
                    assert(run_end(self.src(), self.pos(), break_char()) == self.pos());
                    break;
                },
            }
        }
        self.clear();
    }

    /// Reads a whole log: optional settings, then day records separated by
    /// blank lines.
    pub fn parse_file(&mut self) -> (r: Result<File, ParseError>)
        requires
            old(self).wf(),
        ensures
            final(self).wf(),
            final(self).src() == old(self).src(),
            r is Ok ==> final(self).pos() == final(self).src().len(),
            r matches Ok(f) ==> (f.settings matches Some(st) ==> st.wf()),
            r matches Err(e) ==> e.line as int == line_at(final(self).src(), final(self).pos())
                && e.column as int == column_at(final(self).src(), final(self).pos()),
            old(self).pos() == 0 && single_date_line(old(self).src()) ==> (is_calendar_date(
                date_year(old(self).src(), 0), date_month(old(self).src(), 0), date_day(old(self).src(), 0))
                <==> r is Ok),
            old(self).pos() == 0 && single_date_line(old(self).src()) && !is_calendar_date(
                date_year(old(self).src(), 0), date_month(old(self).src(), 0), date_day(old(self).src(), 0))
                ==> (r matches Err(e) && e.kind is InvalidDate),
            old(self).pos() == 0 && single_date_line(old(self).src()) && !is_calendar_date(
                date_year(old(self).src(), 0), date_month(old(self).src(), 0), date_day(old(self).src(), 0))
                ==> final(self).pos() == date_end(old(self).src(), 0),
            file_at(old(self).src(), old(self).pos()) matches Some((st, rs)) ==> (r matches Ok(f) && f.settings == st
                && f.records@.map_values(|x: DayRecord| record_view(x)) == rs),
            r matches Ok(f) ==> (f.settings is Some <==> settings_lead(old(self).src(), old(self).pos())),
            r matches Ok(f) ==> file_at(old(self).src(), old(self).pos()) == Some((f.settings, f.records@.map_values(
                |x: DayRecord| record_view(x)))),
            !settings_lead(old(self).src(), old(self).pos()) && record_opens_tags(old(self).src(), run_end(
                old(self).src(), run_end(old(self).src(), old(self).pos(), blank_char()), break_char()))
                ==> (r matches Err(e) && e.kind is UnexpectedEof && final(self).pos() == final(self).src().len()),
            old(self).pos() == 0 && single_date_line(old(self).src()) ==> (r matches Ok(f) ==> f.settings is None
                && f.records@.len() == 1 && f.records@[0].events@.len() == 0
                && f.records@[0].date.days == days_from_ce(date_year(old(self).src(), 0),
                date_month(old(self).src(), 0), date_day(old(self).src(), 0))),
    {
        let ghost single = old(self).pos() == 0 && single_date_line(old(self).src());
        proof {
            if single {
                assert(is_digit(self.src()[0]));
                assert(run_end(self.src(), 0, blank_char()) == 0);
            }
        }
        let ghost s = self.src();
        let ghost p = self.pos();
        proof {
            lemma_run_end_bounds(s, p, blank_char());
        }
        self.skip_space();
        let settings = if self.peek() == Some('-') {
            Some(self.parse_settings()?)
        } else {
            None
        };
        let ghost q0 = self.pos();
        let ghost target = records_from(s, q0);
        proof {
            assert(file_at(s, p) == prepend_all(settings, Seq::empty(), target)) by {
                if let Some(rs) = target {
                    assert(Seq::empty() + rs =~= rs);
                }
            }
            if file_at(s, p) is Some {
                assert(target == Some(file_at(s, p).unwrap().1));
                assert(settings == file_at(s, p).unwrap().0);
            }
            lemma_run_end_bounds(s, q0, break_char());
        }
        self.skip_line_breaks();
        let mut records: Vec<DayRecord> = Vec::new();
        proof {
            if target is Some {
                assert(records_from(s, self.pos()) == target);
                assert(records@.map_values(|x: DayRecord| record_view(x)) + target.unwrap() =~= target.unwrap());
            }
        }
        while self.peek().is_some()
            invariant
                self.wf(),
                self.src() == old(self).src(),
                s == old(self).src(),
                p == old(self).pos(),
                settings is Some <==> settings_lead(s, p),
                file_at(s, p) is Some ==> target == Some(file_at(s, p).unwrap().1) && settings == file_at(s, p).unwrap().0,
                !settings_lead(s, p) && record_opens_tags(s, run_end(s, run_end(s, p, blank_char()), break_char()))
                    ==> self.pos() == run_end(s, run_end(s, p, blank_char()), break_char()),
                self.next_char() matches Some(c) ==> c != '\n' && c != '\r',
                file_at(s, p) == prepend_all(settings, Seq::empty(), target),
                prepend_all(settings, Seq::empty(), target) == prepend_all(settings, records@.map_values(
                    |x: DayRecord| record_view(x)), records_from(s, self.pos())),
                target is Some ==> records_from(s, self.pos()) is Some && records@.map_values(|x: DayRecord| record_view(x))
                    + records_from(s, self.pos()).unwrap() == target.unwrap(),
                settings matches Some(st) ==> st.wf(),
                single == (old(self).pos() == 0 && single_date_line(old(self).src())),
                single ==> settings is None,
                single ==> (records@.len() == 0 && self.pos() == 0) || (records@.len() == 1 && self.pos()
                    == self.src().len() && records@[0].events@.len() == 0 && is_calendar_date(
                    date_year(old(self).src(), 0), date_month(old(self).src(), 0), date_day(old(self).src(), 0))
                    && records@[0].date.days == days_from_ce(
                    date_year(old(self).src(), 0), date_month(old(self).src(), 0), date_day(old(self).src(), 0))),
            decreases self.src().len() - self.pos(),
        {
            let ghost q = self.pos();
            let ghost old_records = records@;
            proof {
                assert(run_end(s, q, break_char()) == q);
            }
            let rec = self.parse_day_record()?;
            records.push(rec);
            let ghost e = self.pos();
            proof {
                lemma_run_end_bounds(s, e, break_char());
            }
            self.skip_line_breaks();
            proof {
                assert(run_end(s, self.pos(), break_char()) == self.pos());
                assert(records_from(s, e) == records_from(s, self.pos()));
                assert(records_from(s, q) == match records_from(s, self.pos()) {
                    Some(ys) => Some(seq![record_view(rec)] + ys),
                    None => None,
                });
                lemma_prepend_all_twice(settings, old_records.map_values(|x: DayRecord| record_view(x)),
                    record_view(rec), records_from(s, self.pos()));
                assert(old_records.map_values(|x: DayRecord| record_view(x)).push(record_view(rec))
                    =~= records@.map_values(|x: DayRecord| record_view(x)));
                assert(records@.map_values(|x: DayRecord| record_view(x)) =~= old_records.map_values(
                    |x: DayRecord| record_view(x)).push(record_view(rec)));
                if target is Some {
                    assert(records_from(s, e) == records_from(s, self.pos()));
                    assert(records@.map_values(|x: DayRecord| record_view(x)) + records_from(s, self.pos()).unwrap()
                        =~= old_records.map_values(|x: DayRecord| record_view(x)) + records_from(s, q).unwrap());
                }
            }
        }
        proof {
            assert(run_end(s, self.pos(), break_char()) == self.pos());
            assert(records_from(s, self.pos()) == Some(Seq::<(int, Seq<(Option<Seq<(Seq<char>, Option<Seq<char>>)>>, Seq<(int, int)>)>)>::empty()));
            assert(records@.map_values(|x: DayRecord| record_view(x)) + Seq::<(int, Seq<(Option<Seq<(Seq<char>, Option<Seq<char>>)>>, Seq<(int, int)>)>)>::empty()
                =~= records@.map_values(|x: DayRecord| record_view(x)));
            if target is Some {
                assert(records_from(s, self.pos()).unwrap() =~= Seq::<(int, Seq<(Option<Seq<(Seq<char>, Option<Seq<char>>)>>, Seq<(int, int)>)>)>::empty());
                assert(records@.map_values(|x: DayRecord| record_view(x)) + records_from(s, self.pos()).unwrap()
                    =~= records@.map_values(|x: DayRecord| record_view(x)));
            }
        }
        Ok(File { settings, records })
    }
}

/// The digit that stands for `n`, for `n` below ten.
pub open spec fn digit_of(n: nat) -> char {
    if n == 0 {
        '0'
    } else if n == 1 {
        '1'
    } else if n == 2 {
        '2'
    } else if n == 3 {
        '3'
    } else if n == 4 {
        '4'
    } else if n == 5 {
        '5'
    } else if n == 6 {
        '6'
    } else if n == 7 {
        '7'
    } else if n == 8 {
        '8'
    } else {
        '9'
    }
}

/// `n` written in decimal, without leading zeros.
pub open spec fn decimal(n: nat) -> Seq<char>
    decreases n,
{
    if n < 10 {
        seq![digit_of(n)]
    } else {
        decimal(n / 10).push(digit_of(n % 10))
    }
}

/// The line `Y-M-D` and a line feed, each number in decimal.
pub open spec fn date_line_text(y: nat, m: nat, d: nat) -> Seq<char> {
    decimal(y) + seq!['-'] + decimal(m) + seq!['-'] + decimal(d) + seq!['\n']
}

proof fn lemma_decimal(n: nat)
    ensures
        decimal(n).len() >= 1,
        forall|k: int| 0 <= k < decimal(n).len() ==> is_digit(#[trigger] decimal(n)[k]),
        digits_value(decimal(n)) == n,
    decreases n,
{
    if n < 10 {
        assert(decimal(n).drop_last() =~= Seq::<char>::empty());
        assert(digit_value(digit_of(n)) == n);
        assert(digits_value(Seq::<char>::empty()) == 0);
        assert(decimal(n).last() == digit_of(n));
        assert(digits_value(decimal(n)) == digits_value(decimal(n).drop_last()) * 10 + digit_value(decimal(n).last()));
    } else {
        lemma_decimal(n / 10);
        let c = digit_of(n % 10);
        assert(decimal(n).drop_last() =~= decimal(n / 10));
        assert(digit_value(c) == n % 10);
        assert(decimal(n).last() == c);
        assert((n / 10) * 10 + n % 10 == n) by (nonlinear_arith);
        assert(digits_value(decimal(n)) == digits_value(decimal(n).drop_last()) * 10 + digit_value(decimal(n).last()));
        assert forall|k: int| 0 <= k < decimal(n).len() implies is_digit(#[trigger] decimal(n)[k]) by {
            if k < decimal(n / 10).len() {
                assert(decimal(n)[k] == decimal(n / 10)[k]);
            }
        }
    }
}

proof fn lemma_run_over_digits(s: Seq<char>, i: int, j: int)
    requires
        0 <= i <= j <= s.len(),
        forall|k: int| i <= k < j ==> is_digit(#[trigger] s[k]),
        j == s.len() || !is_digit(s[j]),
    ensures
        run_end(s, i, digit_char()) == j,
    decreases j - i,
{
    if i < j {
        lemma_run_over_digits(s, i + 1, j);
    }
}

/// A line `Y-M-D` written in decimal reads back as Y, M and D: it is a
/// whole date line whose three numbers are those. With the contract of
/// `Parser::parse_file`, such a text parses to one record of day (Y, M, D)
/// without events when that is a calendar day, and fails with
/// `InvalidDate` when it is not.
pub proof fn lemma_date_line_reads_back(y: nat, m: nat, d: nat)
    ensures
        single_date_line(date_line_text(y, m, d)),
        date_year(date_line_text(y, m, d), 0) == y,
        date_month(date_line_text(y, m, d), 0) == m,
        date_day(date_line_text(y, m, d), 0) == d,
{
    let t = date_line_text(y, m, d);
    let (dy, dm, dd) = (decimal(y), decimal(m), decimal(d));
    lemma_decimal(y);
    lemma_decimal(m);
    lemma_decimal(d);
    let a = dy.len() as int;
    let b = a + 1 + dm.len();
    let c = b + 1 + dd.len();
    assert(t.len() == c + 1);
    assert(t.subrange(0, a) =~= dy);
    assert(t.subrange(a + 1, b) =~= dm);
    assert(t.subrange(b + 1, c) =~= dd);
    assert(t[a] == '-' && t[b] == '-' && t[c] == '\n');
    assert forall|k: int| 0 <= k < a implies is_digit(#[trigger] t[k]) by {
        assert(t[k] == t.subrange(0, a)[k]);
    }
    assert forall|k: int| a + 1 <= k < b implies is_digit(#[trigger] t[k]) by {
        assert(t[k] == t.subrange(a + 1, b)[k - (a + 1)]);
    }
    assert forall|k: int| b + 1 <= k < c implies is_digit(#[trigger] t[k]) by {
        assert(t[k] == t.subrange(b + 1, c)[k - (b + 1)]);
    }
    lemma_run_over_digits(t, 0, a);
    lemma_run_over_digits(t, a + 1, b);
    lemma_run_over_digits(t, b + 1, c);
    assert(run_end(t, c, blank_char()) == c);
}

/// A tag written back as text: its title, then its detail in parentheses.
pub open spec fn render_tag(t: (Seq<char>, Option<Seq<char>>)) -> Seq<char> {
    match t.1 {
        Some(d) => t.0 + seq!['('] + d + seq![')'],
        None => t.0,
    }
}

/// Tags written back as text, separated by single spaces.
pub open spec fn render_tags(ts: Seq<(Seq<char>, Option<Seq<char>>)>) -> Seq<char>
    decreases ts.len(),
{
    if ts.len() == 0 {
        Seq::empty()
    } else if ts.len() == 1 {
        render_tag(ts[0])
    } else {
        render_tag(ts[0]) + seq![' '] + render_tags(ts.drop_first())
    }
}

/// A tag that can be written back: a non-empty title of title characters
/// and a detail without `)`.
pub open spec fn tag_writable(t: (Seq<char>, Option<Seq<char>>)) -> bool {
    &&& t.0.len() > 0
    &&& forall|k: int| 0 <= k < t.0.len() ==> title_char()(#[trigger] t.0[k])
    &&& t.1 matches Some(d) ==> forall|k: int| 0 <= k < d.len() ==> #[trigger] d[k] != ')'
}

proof fn lemma_tags_read_back(s: Seq<char>, q: int, ts: Seq<(Seq<char>, Option<Seq<char>>)>)
    requires
        0 <= q,
        q + render_tags(ts).len() < s.len(),
        s.subrange(q, q + render_tags(ts).len()) == render_tags(ts),
        s[q + render_tags(ts).len()] == ']',
        forall|k: int| 0 <= k < ts.len() ==> tag_writable(#[trigger] ts[k]),
    ensures
        tags_from(s, q) == ts,
        tags_stop(s, q) == q + render_tags(ts).len(),
    decreases ts.len(),
{
    let r = render_tags(ts);
    if ts.len() == 0 {
        assert(run_end(s, q, blank_char()) == q);
        assert(ts =~= Seq::empty());
    } else {
        let t = ts[0];
        assert(tag_writable(t));
        let rt = render_tag(t);
        let n = t.0.len() as int;
        assert forall|k: int| 0 <= k < rt.len() implies s[q + k] == #[trigger] rt[k] by {
            assert(r[k] == rt[k]);
            assert(s.subrange(q, q + r.len())[k] == r[k]);
        }
        let after_char = s[q + rt.len()];
        if ts.len() == 1 {
            assert(r == rt);
        } else {
            assert(r[rt.len() as int] == ' ');
            assert(s.subrange(q, q + r.len())[rt.len() as int] == r[rt.len() as int]);
        }
        assert(after_char == ' ' || after_char == ']');
        assert(rt[0] == t.0[0]);
        assert(title_char()(s[q]));
        assert(run_end(s, q, blank_char()) == q);
        assert forall|k: int| q <= k < q + n implies title_char()(#[trigger] s[k]) by {
            assert(rt[k - q] == t.0[k - q]);
        }
        match t.1 {
            Some(d) => {
                assert(rt[n] == '(');
                assert(s[q + n] == '(');
            },
            None => {
                assert(rt == t.0);
            },
        }
        assert(!title_char()(s[q + n]));
        lemma_run_over(s, q, q + n, title_char());
        assert(title_end(s, q) == q + n);
        assert(s.subrange(q, q + n) =~= t.0);
        match t.1 {
            Some(d) => {
                let m = d.len() as int;
                assert(rt[n] == '(');
                assert(s[q + n] == '(');
                assert forall|k: int| q + n + 1 <= k < q + n + 1 + m implies not_char(')')(#[trigger] s[k]) by {
                    assert(rt[k - q] == d[k - q - n - 1]);
                }
                assert(rt[n + 1 + m] == ')');
                lemma_run_over(s, q + n + 1, q + n + 1 + m, not_char(')'));
                assert forall|k: int| 0 <= k < m implies #[trigger] s.subrange(q + n + 1, q + n + 1 + m)[k] == d[k] by {
                    assert(rt[n + 1 + k] == d[k]);
                    assert(s[q + n + 1 + k] == rt[n + 1 + k]);
                }
                assert(s.subrange(q + n + 1, q + n + 1 + m) =~= d);
            },
            None => {
                assert(rt == t.0);
            },
        }
        assert(tag_at(s, q) == t);
        assert(tag_after(s, q) == q + rt.len());
        assert(rt.len() <= r.len()) by {
            if ts.len() > 1 {
                assert(r =~= rt + seq![' '] + render_tags(ts.drop_first()));
            }
        }
        assert(tags_from(s, q) == seq![t] + tags_from(s, q + rt.len()));
        assert(tags_stop(s, q) == tags_stop(s, q + rt.len()));
        if ts.len() == 1 {
            assert(run_end(s, q + rt.len(), blank_char()) == q + rt.len());
            assert(tags_from(s, q + rt.len()) =~= Seq::empty());
            assert(ts =~= seq![t]);
        } else {
            let rest = ts.drop_first();
            let q2 = q + rt.len() + 1;
            assert(r =~= rt + seq![' '] + render_tags(rest));
            assert forall|k: int| 0 <= k < rest.len() implies tag_writable(#[trigger] rest[k]) by {
                assert(rest[k] == ts[k + 1]);
            }
            assert(s.subrange(q2, q2 + render_tags(rest).len()) =~= render_tags(rest)) by {
                assert forall|k: int| 0 <= k < render_tags(rest).len() implies s.subrange(q2, q2 + render_tags(rest).len())[k]
                    == #[trigger] render_tags(rest)[k] by {
                    assert(r[rt.len() + 1 + k] == render_tags(rest)[k]);
                    assert(s.subrange(q, q + r.len())[rt.len() + 1 + k] == r[rt.len() + 1 + k]);
                }
            }
            lemma_tags_read_back(s, q2, rest);
            assert(render_tags(rest).len() > 0);
            assert(render_tags(rest)[0] == rest[0].0[0]) by {
                assert(tag_writable(rest[0]));
                if rest.len() == 1 {
                } else {
                }
            }
            assert(s[q2] == render_tags(rest)[0]) by {
                assert(s.subrange(q2, q2 + render_tags(rest).len())[0] == render_tags(rest)[0]);
            }
            assert(run_end(s, q2, blank_char()) == q2);
            assert(run_end(s, q + rt.len(), blank_char()) == q2);
            assert(tags_from(s, q + rt.len()) == tags_from(s, q2));
            assert(tags_stop(s, q + rt.len()) == tags_stop(s, q2));
            assert(ts =~= seq![t] + rest);
        }
    }
}

proof fn lemma_run_over(s: Seq<char>, i: int, j: int, f: spec_fn(char) -> bool)
    requires
        0 <= i <= j < s.len(),
        forall|k: int| i <= k < j ==> f(#[trigger] s[k]),
        !f(s[j]),
    ensures
        run_end(s, i, f) == j,
    decreases j - i,
{
    if i < j {
        lemma_run_over(s, i + 1, j, f);
    }
}

/// Writable tags written as `[t1 t2(detail) ...]` read back as the same
/// tags: the group is closed, and `Parser::parse_tags` returns exactly them.
pub proof fn lemma_tag_group_round_trip(ts: Seq<(Seq<char>, Option<Seq<char>>)>)
    requires
        forall|k: int| 0 <= k < ts.len() ==> tag_writable(#[trigger] ts[k]),
    ensures
        tags_close(seq!['['] + render_tags(ts) + seq![']'], 1),
        tags_from(seq!['['] + render_tags(ts) + seq![']'], 1) == ts,
{
    let s = seq!['['] + render_tags(ts) + seq![']'];
    let n = render_tags(ts).len() as int;
    assert(s.subrange(1, 1 + n) =~= render_tags(ts));
    assert(s[1 + n] == ']');
    lemma_tags_read_back(s, 1, ts);
}

/// Sets of characters that the cursor moves over.
#[derive(Clone, Copy)]
enum CharClass {
    Blank,
    Digit,
    Title,
    Except(char),
}

impl CharClass {
    spec fn pred(self) -> spec_fn(char) -> bool {
        match self {
            CharClass::Blank => blank_char(),
            CharClass::Digit => digit_char(),
            CharClass::Title => title_char(),
            CharClass::Except(c) => not_char(c),
        }
    }

    fn holds(self, c: char) -> (r: bool)
        ensures
            r == self.pred()(c),
    {
        match self {
            CharClass::Blank => is_whitespace(c) && c != '\n',
            CharClass::Digit => '0' <= c && c <= '9',
            CharClass::Title => !is_whitespace(c) && c != ']' && c != '(',
            CharClass::Except(x) => c != x,
        }
    }
}

fn is_whitespace(c: char) -> (r: bool)
    ensures
        r == is_white_space(c),
{
    ('\u{9}' <= c && c <= '\u{d}') || c == ' ' || c == '\u{85}' || c == '\u{a0}' || c == '\u{1680}'
        || ('\u{2000}' <= c && c <= '\u{200a}') || c == '\u{2028}' || c == '\u{2029}' || c
        == '\u{202f}' || c == '\u{205f}' || c == '\u{3000}'
}

/// What a tag holds: its title and, if any, its detail.
pub open spec fn tag_view(t: Tag) -> (Seq<char>, Option<Seq<char>>) {
    (t.title@, match t.detail {
        Some(d) => Some(d@),
        None => None,
    })
}

/// The tag read from `p`: the title after blanks, and the detail between
/// `(` and the next `)` (or the end) if a `(` follows the title.
pub open spec fn tag_at(s: Seq<char>, p: int) -> (Seq<char>, Option<Seq<char>>) {
    (s.subrange(title_start(s, p), title_end(s, p)), if tag_has_detail(s, p) {
        Some(s.subrange(title_end(s, p) + 1, detail_end(s, p)))
    } else {
        None
    })
}

/// Where reading a tag from `p` stops: after the `)` of its detail, or
/// after its title when it has none.
pub open spec fn tag_after(s: Seq<char>, p: int) -> int {
    if tag_has_detail(s, p) {
        if detail_end(s, p) < s.len() {
            detail_end(s, p) + 1
        } else {
            s.len() as int
        }
    } else {
        title_end(s, p)
    }
}

/// After blanks from `p` stands a title character: a tag starts there.
pub open spec fn tag_starts(s: Seq<char>, p: int) -> bool {
    run_end(s, p, blank_char()) < s.len() && title_char()(s[run_end(s, p, blank_char())])
}

/// The tags read one after another from `q`, each after blanks, while a
/// title character follows.
pub open spec fn tags_from(s: Seq<char>, q: int) -> Seq<(Seq<char>, Option<Seq<char>>)>
    decreases s.len() - q,
{
    let a = run_end(s, q, blank_char());
    if 0 <= q <= a < s.len() && title_char()(s[a]) && a < tag_after(s, a) <= s.len() {
        seq![tag_at(s, a)] + tags_from(s, tag_after(s, a))
    } else {
        Seq::empty()
    }
}

/// Where the tags read from `q` stop: after the last tag and its blanks.
pub open spec fn tags_stop(s: Seq<char>, q: int) -> int
    decreases s.len() - q,
{
    let a = run_end(s, q, blank_char());
    if 0 <= q <= a < s.len() && title_char()(s[a]) && a < tag_after(s, a) <= s.len() {
        tags_stop(s, tag_after(s, a))
    } else {
        a
    }
}

/// The tags read from `q` are closed by `]`.
pub open spec fn tags_close(s: Seq<char>, q: int) -> bool {
    tags_stop(s, q) < s.len() && s[tags_stop(s, q)] == ']'
}

/// The log with settings `st` whose records are `xs` ahead of those `o` read.
pub open spec fn prepend_all(
    st: Option<Settings>,
    xs: Seq<(int, Seq<(Option<Seq<(Seq<char>, Option<Seq<char>>)>>, Seq<(int, int)>)>)>,
    o: Option<Seq<(int, Seq<(Option<Seq<(Seq<char>, Option<Seq<char>>)>>, Seq<(int, int)>)>)>>,
) -> Option<(Option<Settings>, Seq<(int, Seq<(Option<Seq<(Seq<char>, Option<Seq<char>>)>>, Seq<(int, int)>)>)>)> {
    match o {
        Some(ys) => Some((st, xs + ys)),
        None => None,
    }
}

proof fn lemma_prepend_all_twice(
    st: Option<Settings>,
    xs: Seq<(int, Seq<(Option<Seq<(Seq<char>, Option<Seq<char>>)>>, Seq<(int, int)>)>)>,
    x: (int, Seq<(Option<Seq<(Seq<char>, Option<Seq<char>>)>>, Seq<(int, int)>)>),
    o: Option<Seq<(int, Seq<(Option<Seq<(Seq<char>, Option<Seq<char>>)>>, Seq<(int, int)>)>)>>,
)
    ensures
        prepend_all(st, xs, match o {
            Some(ys) => Some(seq![x] + ys),
            None => None,
        }) == prepend_all(st, xs.push(x), o),
{
    if let Some(ys) = o {
        assert(xs + (seq![x] + ys) =~= xs.push(x) + ys);
    }
}

/// `xs` ahead of what `o` read, with the same end.
pub open spec fn prepend<A>(xs: Seq<A>, o: Option<(Seq<A>, int)>) -> Option<(Seq<A>, int)> {
    match o {
        Some((ys, e)) => Some((xs + ys, e)),
        None => None,
    }
}

proof fn lemma_prepend_twice<A>(xs: Seq<A>, ys: Seq<A>, o: Option<(Seq<A>, int)>)
    ensures
        prepend(xs, prepend(ys, o)) == prepend(xs + ys, o),
{
    if let Some((zs, e)) = o {
        assert(xs + (ys + zs) =~= xs + ys + zs);
    }
}

/// What an interval holds: its start as seconds since midnight, and its
/// length in seconds.
pub open spec fn info_view(i: EventInfo) -> (int, int) {
    (i.time.secs as int, i.duration.secs as int)
}

/// A well-formed interval `H:M - D` stands at `a`.
pub open spec fn info_ok(s: Seq<char>, a: int) -> bool {
    &&& clock_then_dash(s, a)
    &&& clock_hour(s, a) < 24 && clock_minute(s, a) < 60
    &&& scan_duration(s, duration_start(s, a), 0, 0, false) matches DurationScan::Read { secs, any, end } && any
}

pub open spec fn info_val(s: Seq<char>, a: int) -> (int, int) {
    (clock_hour(s, a) * 3600 + clock_minute(s, a) * 60, match scan_duration(s, duration_start(s, a), 0, 0, false) {
        DurationScan::Read { secs, .. } => secs,
        _ => 0,
    })
}

/// Where the duration of the interval at `a` ends.
pub open spec fn info_end(s: Seq<char>, a: int) -> int {
    match scan_duration(s, duration_start(s, a), 0, 0, false) {
        DurationScan::Read { end, .. } => end,
        _ => a,
    }
}

/// Where the interval at `a` ends, with the blanks after it and a comma.
pub open spec fn info_next(s: Seq<char>, a: int) -> int {
    let b = run_end(s, info_end(s, a), blank_char());
    if b < s.len() && s[b] == ',' {
        b + 1
    } else {
        b
    }
}

/// The intervals of a line read from `q`, and where reading stops (after the
/// line feed, or at the end); `None` if an interval is malformed.
pub open spec fn infos_from(s: Seq<char>, q: int) -> Option<(Seq<(int, int)>, int)>
    decreases s.len() - q,
{
    if q < 0 || q > s.len() {
        None
    } else if q == s.len() {
        Some((Seq::empty(), q))
    } else if s[q] == '\n' {
        Some((Seq::empty(), q + 1))
    } else {
        let a = run_end(s, q, blank_char());
        if !info_ok(s, a) || info_next(s, a) <= q || info_next(s, a) > s.len() {
            None
        } else {
            match infos_from(s, info_next(s, a)) {
                Some((xs, e)) => Some((seq![info_val(s, a)] + xs, e)),
                None => None,
            }
        }
    }
}

pub open spec fn tags_view_opt(t: Option<Tags>) -> Option<Seq<(Seq<char>, Option<Seq<char>>)>> {
    match t {
        Some(t) => Some(t.tags@.map_values(|x: Tag| tag_view(x))),
        None => None,
    }
}

/// What an event holds: its tags, if any, and its intervals.
pub open spec fn event_view(ev: Event) -> (Option<Seq<(Seq<char>, Option<Seq<char>>)>>, Seq<(int, int)>) {
    (tags_view_opt(ev.tags), ev.info@.map_values(|x: EventInfo| info_view(x)))
}

/// Where the intervals of an event read from `p` start: after its tag group.
pub open spec fn event_infos_start(s: Seq<char>, p: int) -> int {
    if 0 <= p < s.len() && s[p] == '[' {
        tags_stop(s, p + 1) + 1
    } else {
        p
    }
}

/// The event that the line at `p` spells, and where it ends: an optional
/// closed tag group, then at least one interval.
pub open spec fn event_at(s: Seq<char>, p: int) -> Option<(Option<Seq<(Seq<char>, Option<Seq<char>>)>>, Seq<(int, int)>, int)> {
    let tags = if 0 <= p < s.len() && s[p] == '[' {
        Some(tags_from(s, p + 1))
    } else {
        None
    };
    if 0 <= p < s.len() && s[p] == '[' && !tags_close(s, p + 1) {
        None
    } else {
        match infos_from(s, event_infos_start(s, p)) {
            Some((xs, e)) => if xs.len() > 0 {
                Some((tags, xs, e))
            } else {
                None
            },
            None => None,
        }
    }
}

/// The events of the lines read from `q`, up to a blank line (after its
/// line feed) or the end; `None` if a line is no event.
pub open spec fn events_from(s: Seq<char>, q: int) -> Option<(Seq<(Option<Seq<(Seq<char>, Option<Seq<char>>)>>, Seq<(int, int)>)>, int)>
    decreases s.len() - q,
{
    if q < 0 || q > s.len() {
        None
    } else if q == s.len() {
        Some((Seq::empty(), q))
    } else if s[q] == '\n' {
        Some((Seq::empty(), q + 1))
    } else {
        match event_at(s, q) {
            Some((t, xs, e)) => if q < e <= s.len() {
                match events_from(s, e) {
                    Some((evs, f)) => Some((seq![(t, xs)] + evs, f)),
                    None => None,
                }
            } else {
                None
            },
            None => None,
        }
    }
}

/// What a day record holds: its day number and its events.
pub open spec fn record_view(r: DayRecord) -> (int, Seq<(Option<Seq<(Seq<char>, Option<Seq<char>>)>>, Seq<(int, int)>)>) {
    (r.date.days as int, r.events@.map_values(|x: Event| event_view(x)))
}

/// The day record that the text from `p` spells, and where it ends: a
/// calendar date, blanks, a line feed, then events.
pub open spec fn record_at(s: Seq<char>, p: int) -> Option<(int, Seq<(Option<Seq<(Seq<char>, Option<Seq<char>>)>>, Seq<(int, int)>)>, int)> {
    let d = run_end(s, date_end(s, p), blank_char());
    if date_shape(s, p) && is_calendar_date(date_year(s, p), date_month(s, p), date_day(s, p)) && d < s.len()
        && s[d] == '\n' {
        match events_from(s, d + 1) {
            Some((evs, e)) => Some((days_from_ce(date_year(s, p), date_month(s, p), date_day(s, p)), evs, e)),
            None => None,
        }
    } else {
        None
    }
}

/// The records read from `q` on, each after line breaks, to the end.
pub open spec fn records_from(s: Seq<char>, q: int) -> Option<Seq<(int, Seq<(Option<Seq<(Seq<char>, Option<Seq<char>>)>>, Seq<(int, int)>)>)>>
    decreases s.len() - q,
{
    let a = run_end(s, q, break_char());
    if q < 0 || q > s.len() || a < q {
        None
    } else if a >= s.len() {
        Some(Seq::empty())
    } else {
        match record_at(s, a) {
            Some((d, evs, e)) => if a < e <= s.len() {
                match records_from(s, e) {
                    Some(rs) => Some(seq![(d, evs)] + rs),
                    None => None,
                }
            } else {
                None
            },
            None => None,
        }
    }
}

/// The first character from `p` on that is no blank is `-`: the log opens
/// with a settings block.
pub open spec fn settings_lead(s: Seq<char>, p: int) -> bool {
    run_end(s, p, blank_char()) < s.len() && s[run_end(s, p, blank_char())] == '-'
}

/// The log that the text from `p` spells: optional settings, then the day
/// records; `None` where the text is no well-formed log.
pub open spec fn file_at(s: Seq<char>, p: int) -> Option<(Option<Settings>, Seq<(int, Seq<(Option<Seq<(Seq<char>, Option<Seq<char>>)>>, Seq<(int, int)>)>)>)> {
    let a = run_end(s, p, blank_char());
    if settings_lead(s, p) {
        match block_end(s, a + 4) {
            Some(b) => if text_at(s, a, delimiter()) && text_at(s, b, delimiter())
                && settings_of_text(s.subrange(a + 4, b)) is Some {
                match records_from(s, b + 4) {
                    Some(rs) => Some((settings_of_text(s.subrange(a + 4, b)), rs)),
                    None => None,
                }
            } else {
                None
            },
            None => None,
        }
    } else {
        match records_from(s, a) {
            Some(rs) => Some((None, rs)),
            None => None,
        }
    }
}

pub open spec fn break_char() -> spec_fn(char) -> bool {
    |x: char| x == '\n' || x == '\r'
}

/// From `p` stands a date line whose first event opens a tag group that the
/// input ends inside.
pub open spec fn record_opens_tags(s: Seq<char>, p: int) -> bool {
    let d = run_end(s, date_end(s, p), blank_char());
    &&& date_shape(s, p) && is_calendar_date(date_year(s, p), date_month(s, p), date_day(s, p))
    &&& d + 1 < s.len() && s[d] == '\n' && s[d + 1] == '['
    &&& tags_stop(s, d + 2) >= s.len()
}

/// The line that opens and closes a settings block.
pub open spec fn delimiter() -> Seq<char> {
    seq!['-', '-', '-', '\n']
}

/// The input ends inside `t`, which stands in `s` from `q` up to the end.
pub open spec fn cut_short(s: Seq<char>, q: int, t: Seq<char>) -> bool {
    0 <= q <= s.len() && q + t.len() > s.len() && s.subrange(q, s.len() as int) == t.subrange(0, s.len() - q)
}

/// `t` stands in `s` from `q` on.
pub open spec fn text_at(s: Seq<char>, q: int, t: Seq<char>) -> bool {
    0 <= q && q + t.len() <= s.len() && s.subrange(q, q + t.len()) == t
}

/// Where the body of a settings block whose lines start at `q` ends: at
/// the first line that starts with `-`; `None` if the input ends first.
pub open spec fn block_end(s: Seq<char>, q: int) -> Option<int>
    decreases s.len() - q,
{
    if q < 0 || q >= s.len() {
        None
    } else if s[q] == '-' {
        Some(q)
    } else if run_end(s, q, not_char('\n')) >= s.len() || run_end(s, q, not_char('\n')) < q {
        None
    } else {
        block_end(s, run_end(s, q, not_char('\n')) + 1)
    }
}

/// From `p` stands a date line (a date, blanks, a line feed) followed by
/// the end of the input or a blank line.
pub open spec fn lone_date_line(s: Seq<char>, p: int) -> bool {
    let e = run_end(s, date_end(s, p), blank_char());
    &&& date_shape(s, p)
    &&& e < s.len() && s[e] == '\n'
    &&& (e + 1 == s.len() || s[e + 1] == '\n')
}

/// The whole of `s` is one date line: a date, blanks and a line feed.
pub open spec fn single_date_line(s: Seq<char>) -> bool {
    lone_date_line(s, 0) && run_end(s, date_end(s, 0), blank_char()) + 1 == s.len()
}

/// What reading the parts of a duration from `q` comes to, when the units
/// from `unit` on may still follow, `acc` seconds were read so far and `any`
/// tells whether a part was read.
pub enum DurationScan {
    /// The parts end at `end`: the duration holds `secs` seconds.
    Read { secs: int, any: bool, end: int },
    /// The input ends after a number, before its unit.
    Eof,
    /// A unit is unknown, repeated or out of order, or a number exceeds
    /// `i64::MAX`.
    Invalid,
}

/// The position of a unit letter: `h` before `m` before `s`; -1 for others.
pub open spec fn unit_index(c: char) -> int {
    if c == 'h' {
        0
    } else if c == 'm' {
        1
    } else if c == 's' {
        2
    } else {
        -1
    }
}

pub open spec fn unit_secs(n: int) -> int {
    if n == 0 {
        3600
    } else if n == 1 {
        60
    } else {
        1
    }
}

/// Reads `<n><unit>` parts from `q`: the duration ends where no digit
/// stands; a unit must be `h`, `m` or `s` and come after the units already
/// read, so that no digit may follow an `s` part.
pub open spec fn scan_duration(s: Seq<char>, q: int, unit: int, acc: int, any: bool) -> DurationScan
    decreases 3 - unit,
{
    let e = run_end(s, q, digit_char());
    let n = digits_value(s.subrange(q, e));
    if e <= q {
        DurationScan::Read { secs: acc, any, end: q }
    } else if unit >= 3 || unit < 0 || n > i64::MAX {
        DurationScan::Invalid
    } else if e >= s.len() {
        DurationScan::Eof
    } else if unit_index(s[e]) < unit {
        DurationScan::Invalid
    } else {
        scan_duration(s, e + 1, unit_index(s[e]) + 1, acc + n * unit_secs(unit_index(s[e])), true)
    }
}

/// Where the clock time read from `p` ends.
pub open spec fn clock_end(s: Seq<char>, p: int) -> int {
    run_end(s, run_end(s, p, digit_char()) + 1, digit_char())
}

/// From `p` stand `H:M`, blanks and a dash, with H and M fitting a `u32`.
pub open spec fn clock_then_dash(s: Seq<char>, p: int) -> bool {
    let d = run_end(s, clock_end(s, p), blank_char());
    &&& clock_shape(s, p)
    &&& clock_hour(s, p) <= u32::MAX && clock_minute(s, p) <= u32::MAX
    &&& d < s.len() && s[d] == '-'
}

/// Where the duration after the dash of an interval read from `p` starts.
pub open spec fn duration_start(s: Seq<char>, p: int) -> int {
    run_end(s, run_end(s, clock_end(s, p), blank_char()) + 1, blank_char())
}

/// The text from `p` starts with `H:M`, two non-empty digit runs.
pub open spec fn clock_shape(s: Seq<char>, p: int) -> bool {
    &&& p < run_end(s, p, digit_char()) < s.len() && s[run_end(s, p, digit_char())] == ':'
    &&& run_end(s, p, digit_char()) + 1 < run_end(s, run_end(s, p, digit_char()) + 1, digit_char())
}

pub open spec fn clock_hour(s: Seq<char>, p: int) -> int {
    digits_value(s.subrange(p, run_end(s, p, digit_char())))
}

pub open spec fn clock_minute(s: Seq<char>, p: int) -> int {
    digits_value(s.subrange(run_end(s, p, digit_char()) + 1, run_end(s, run_end(s, p, digit_char()) + 1, digit_char())))
}

pub open spec fn is_digit_at(s: Seq<char>, p: int) -> bool {
    0 <= p < s.len() && is_digit(s[p])
}

/// Where the title of a tag read from `p` starts: after blanks.
pub open spec fn title_start(s: Seq<char>, p: int) -> int {
    run_end(s, p, blank_char())
}

pub open spec fn title_end(s: Seq<char>, p: int) -> int {
    run_end(s, title_start(s, p), title_char())
}

pub open spec fn tag_has_detail(s: Seq<char>, p: int) -> bool {
    title_end(s, p) < s.len() && s[title_end(s, p)] == '('
}

/// Where the detail of a tag read from `p` ends: at the first `)` or the end.
pub open spec fn detail_end(s: Seq<char>, p: int) -> int {
    run_end(s, title_end(s, p) + 1, not_char(')'))
}

/// The three ends of the digit runs of a date written from `p`.
pub open spec fn year_end(s: Seq<char>, p: int) -> int {
    run_end(s, p, digit_char())
}

pub open spec fn month_end(s: Seq<char>, p: int) -> int {
    run_end(s, year_end(s, p) + 1, digit_char())
}

pub open spec fn date_end(s: Seq<char>, p: int) -> int {
    run_end(s, month_end(s, p) + 1, digit_char())
}

/// The text from `p` has the shape `Y-M-D` with three non-empty digit runs.
pub open spec fn date_shape(s: Seq<char>, p: int) -> bool {
    &&& p < year_end(s, p) < s.len() && s[year_end(s, p)] == '-'
    &&& year_end(s, p) + 1 < month_end(s, p) < s.len() && s[month_end(s, p)] == '-'
    &&& month_end(s, p) + 1 < date_end(s, p)
}

pub open spec fn date_year(s: Seq<char>, p: int) -> int {
    digits_value(s.subrange(p, year_end(s, p)))
}

pub open spec fn date_month(s: Seq<char>, p: int) -> int {
    digits_value(s.subrange(year_end(s, p) + 1, month_end(s, p)))
}

pub open spec fn date_day(s: Seq<char>, p: int) -> int {
    digits_value(s.subrange(month_end(s, p) + 1, date_end(s, p)))
}

/// The number spelled by the digits `s[from..to]`, if there is at least one
/// and the number does not exceed `limit`.
pub open spec fn number_in(s: Seq<char>, from: int, to: int, limit: u64) -> Option<u64> {
    if from < to && digits_value(s.subrange(from, to)) <= limit {
        Some(digits_value(s.subrange(from, to)) as u64)
    } else {
        None
    }
}

proof fn lemma_digits_step(s: Seq<char>, from: int, i: int)
    requires
        0 <= from <= i < s.len(),
    ensures
        digits_value(s.subrange(from, i + 1)) == digits_value(s.subrange(from, i)) * 10 + digit_value(s[i]),
{
    assert(s.subrange(from, i + 1).drop_last() =~= s.subrange(from, i));
}

proof fn lemma_digits_grow(s: Seq<char>, from: int, i: int, to: int)
    requires
        0 <= from <= i <= to <= s.len(),
        forall|k: int| from <= k < to ==> is_digit(#[trigger] s[k]),
    ensures
        digits_value(s.subrange(from, to)) >= digits_value(s.subrange(from, i)),
    decreases to - i,
{
    if i < to {
        lemma_digits_grow(s, from, i + 1, to);
        lemma_digits_step(s, from, i);
        assert(is_digit(s[i]));
        assert(digits_value(s.subrange(from, i)) >= 0) by {
            lemma_digits_nonneg(s, from, i);
        }
    }
}

proof fn lemma_digits_nonneg(s: Seq<char>, from: int, i: int)
    requires
        0 <= from <= i <= s.len(),
        forall|k: int| from <= k < i ==> is_digit(#[trigger] s[k]),
    ensures
        digits_value(s.subrange(from, i)) >= 0,
    decreases i - from,
{
    if from < i {
        lemma_digits_nonneg(s, from, i - 1);
        lemma_digits_step(s, from, i - 1);
        assert(is_digit(s[i - 1]));
    }
}

} // verus!
