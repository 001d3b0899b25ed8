//! The scanner: from the characters of a line to its tokens.

use vstd::prelude::*;
use crate::error::Error;
use crate::text::{
    all_digits, chars_of, decimal_nat, is_digit, lemma_decimal_nat, number, parse_int, parsed,
    push_char, spec_is_digit,
};
use crate::token::{Span, Token};

verus! {

/// Where the run of characters that satisfy `pred` and begins at `pos` ends:
/// the first position from `pos` on whose character does not satisfy it, or
/// the end of `chars`.
pub open spec fn run_end(chars: Seq<char>, pos: int, pred: spec_fn(char) -> bool) -> int
    decreases chars.len() - pos,
{
    if 0 <= pos < chars.len() && pred(chars[pos]) {
        run_end(chars, pos + 1, pred)
    } else {
        pos
    }
}

/// The predicate that holds of the space character only.
pub open spec fn space() -> spec_fn(char) -> bool {
    |c: char| c == ' '
}

/// The predicate that holds of the ten digits.
pub open spec fn digit() -> spec_fn(char) -> bool {
    |c: char| spec_is_digit(c)
}

/// The token that a single character stands for, if it stands for one.
pub open spec fn symbol(c: char) -> Option<Token> {
    if c == '+' {
        Some(Token::Add)
    } else if c == '-' {
        Some(Token::Sub)
    } else if c == '*' {
        Some(Token::Mul)
    } else if c == '/' {
        Some(Token::Div)
    } else if c == '^' {
        Some(Token::Pow)
    } else if c == '(' {
        Some(Token::LeftParen)
    } else if c == ')' {
        Some(Token::RightParen)
    } else {
        None
    }
}

/// One step of scanning: what was found, and the position after it.
pub struct Scan {
    pub result: Result<Option<Token>, Error>,
    pub end: int,
}

/// Scans the number whose first digit is at `start`: the longest run of
/// digits, and if a `.` follows, the point and the longest run of digits
/// after it. With a point it is a `Float` that spans the whole literal;
/// without one it is the `Int` that the digits write, or an error at the
/// first digit if that is more than an `i32` holds.
pub open spec fn scan_number(chars: Seq<char>, start: int) -> Scan {
    let whole = run_end(chars, start, digit());
    if whole < chars.len() && chars[whole] == '.' {
        let end = run_end(chars, whole + 1, digit());
        Scan {
            result: Ok(Some(Token::Float(Span { start: start as usize, end: end as usize }))),
            end,
        }
    } else {
        match parsed(chars.subrange(start, whole)) {
            Some(v) => Scan { result: Ok(Some(Token::Int(v))), end: whole },
            None => Scan { result: Err(Error::UnexpectedCharacter(chars[start])), end: whole },
        }
    }
}

/// Scans from `pos`: skips spaces, then yields nothing at the end of the
/// line, the token of a symbol, a number, or an error at any other
/// character, which is not consumed.
pub open spec fn scan(chars: Seq<char>, pos: int) -> Scan {
    let start = run_end(chars, pos, space());
    if start >= chars.len() {
        Scan { result: Ok(None), end: start }
    } else {
        match symbol(chars[start]) {
            Some(t) => Scan { result: Ok(Some(t)), end: start + 1 },
            None => if spec_is_digit(chars[start]) {
                scan_number(chars, start)
            } else {
                Scan { result: Err(Error::UnexpectedCharacter(chars[start])), end: start }
            },
        }
    }
}

/// A run ends within the line, holds only characters that satisfy the
/// predicate, and stops at one that does not.
pub proof fn lemma_run_end(chars: Seq<char>, pos: int, pred: spec_fn(char) -> bool)
    requires
        0 <= pos <= chars.len(),
    ensures
        pos <= run_end(chars, pos, pred) <= chars.len(),
        forall|i: int| pos <= i < run_end(chars, pos, pred) ==> pred(#[trigger] chars[i]),
        run_end(chars, pos, pred) < chars.len() ==> !pred(chars[run_end(chars, pos, pred)]),
    decreases chars.len() - pos,
{
    if pos < chars.len() && pred(chars[pos]) {
        lemma_run_end(chars, pos + 1, pred);
    }
}

/// The end of a run is the only position with the properties of
/// `lemma_run_end`.
pub proof fn lemma_run_end_unique(chars: Seq<char>, pos: int, end: int, pred: spec_fn(char) -> bool)
    requires
        0 <= pos <= end <= chars.len(),
        forall|i: int| pos <= i < end ==> pred(#[trigger] chars[i]),
        end < chars.len() ==> !pred(chars[end]),
    ensures
        run_end(chars, pos, pred) == end,
    decreases end - pos,
{
    if pos < end {
        lemma_run_end_unique(chars, pos + 1, end, pred);
    }
}

/// Scanning never moves backwards or past the end, and a token takes at
/// least one character.
pub proof fn lemma_scan_bounds(chars: Seq<char>, pos: int)
    requires
        0 <= pos <= chars.len(),
    ensures
        pos <= scan(chars, pos).end <= chars.len(),
        scan(chars, pos).result matches Ok(Some(_)) ==> pos < scan(chars, pos).end,
{
    lemma_run_end(chars, pos, space());
    let start = run_end(chars, pos, space());
    if start < chars.len() && symbol(chars[start]) is None && spec_is_digit(chars[start]) {
        lemma_run_end(chars, start, digit());
        let whole = run_end(chars, start, digit());
        assert(whole > start);
        if whole < chars.len() && chars[whole] == '.' {
            lemma_run_end(chars, whole + 1, digit());
        }
    }
}

/// All the tokens of the line from `pos` on, or the first scanning failure.
pub open spec fn tokens(chars: Seq<char>, pos: int) -> Result<Seq<Token>, Error>
    decreases chars.len() - pos,
    when 0 <= pos <= chars.len()
    via tokens_decreases
{
    let s = scan(chars, pos);
    match s.result {
        Err(e) => Err(e),
        Ok(None) => Ok(Seq::empty()),
        Ok(Some(t)) => match tokens(chars, s.end) {
            Err(e) => Err(e),
            Ok(rest) => Ok(seq![t] + rest),
        },
    }
}

#[via_fn]
proof fn tokens_decreases(chars: Seq<char>, pos: int) {
    lemma_scan_bounds(chars, pos);
}

/// Spaces ahead of a token change nothing: scanning from a position and
/// scanning from the end of the spaces that begin there give the same.
pub proof fn lemma_spaces_skipped(chars: Seq<char>, pos: int)
    requires
        0 <= pos <= chars.len(),
    ensures
        scan(chars, pos) == scan(chars, run_end(chars, pos, space())),
        tokens(chars, pos) == tokens(chars, run_end(chars, pos, space())),
{
    lemma_run_end(chars, pos, space());
    let start = run_end(chars, pos, space());
    assert(run_end(chars, start, space()) == start);
}

/// Whether `text` is a numeral: one digit or more, and then possibly a point
/// and any number of digits.
pub open spec fn numeral(text: Seq<char>) -> bool {
    let whole = run_end(text, 0, digit());
    whole > 0 && (whole == text.len() || (text[whole] == '.' && run_end(
        text,
        whole + 1,
        digit(),
    ) == text.len()))
}

/// Whether a numeral is written with a point.
pub open spec fn pointed(text: Seq<char>) -> bool {
    run_end(text, 0, digit()) < text.len()
}

/// The token that the numeral `text` makes where it begins at `pos`: with a
/// point a `Float` at the place of the numeral, without one the `Int` that
/// it writes.
pub open spec fn numeral_token(text: Seq<char>, pos: int) -> Token {
    if pointed(text) {
        Token::Float(Span { start: pos as usize, end: (pos + text.len()) as usize })
    } else {
        Token::Int(number(text) as i32)
    }
}

/// A numeral scans as its token, wherever it stands in a line, provided
/// that no digit follows it and, if it has no point, no point does, and
/// that without a point it writes no more than an `i32` holds.
pub proof fn lemma_scan_numeral(chars: Seq<char>, pos: int, text: Seq<char>)
    requires
        0 <= pos,
        pos + text.len() <= chars.len(),
        chars.subrange(pos, pos + text.len()) == text,
        numeral(text),
        !pointed(text) ==> number(text) <= i32::MAX,
        pos + text.len() < chars.len() ==> !spec_is_digit(chars[pos + text.len()]),
        pos + text.len() < chars.len() && !pointed(text) ==> chars[pos + text.len()] != '.',
    ensures
        scan(chars, pos).result == Ok::<Option<Token>, Error>(Some(numeral_token(text, pos))),
        scan(chars, pos).end == pos + text.len(),
{
    let end = pos + text.len();
    let whole = run_end(text, 0, digit());
    assert forall|i: int| 0 <= i < text.len() implies chars[pos + i] == #[trigger] text[i] by {
        assert(text[i] == chars.subrange(pos, end)[i]);
    }
    lemma_run_end(text, 0, digit());
    assert forall|i: int| pos <= i < pos + whole implies spec_is_digit(#[trigger] chars[i]) by {
        assert(chars[i] == text[i - pos]);
    }
    assert(spec_is_digit(chars[pos])) by {
        assert(chars[pos] == text[0]);
    }
    assert(run_end(chars, pos, space()) == pos);
    if pointed(text) {
        assert(chars[pos + whole] == text[whole]);
        lemma_run_end_unique(chars, pos, pos + whole, digit());
        lemma_run_end(text, whole + 1, digit());
        assert forall|i: int| pos + whole + 1 <= i < end implies spec_is_digit(
            #[trigger] chars[i],
        ) by {
            assert(chars[i] == text[i - pos]);
        }
        lemma_run_end_unique(chars, pos + whole + 1, end, digit());
    } else {
        lemma_run_end_unique(chars, pos, end, digit());
        assert(all_digits(text));
        assert(spec_is_digit(text[0]));
    }
}

/// A numeral with a point scans as a `Float` whose place holds the numeral,
/// character for character.
pub proof fn lemma_literal_kept(text: Seq<char>)
    requires
        numeral(text),
        pointed(text),
        text.len() <= usize::MAX,
    ensures
        scan(text, 0).result matches Ok(Some(Token::Float(place))) && place.cut(text) == Some(
            text,
        ),
        scan(text, 0).end == text.len(),
{
    assert(text.subrange(0, text.len() as int) =~= text);
    lemma_scan_numeral(text, 0, text);
}

/// The base-ten writing of a number is a numeral without a point.
pub proof fn lemma_decimal_numeral(n: nat)
    ensures
        numeral(decimal_nat(n)),
        !pointed(decimal_nat(n)),
        number(decimal_nat(n)) == n,
{
    let text = decimal_nat(n);
    lemma_decimal_nat(n);
    lemma_run_end_unique(text, 0, text.len() as int, digit());
}

/// A forward-only reader of tokens over the characters of one line.
pub struct TokenStream {
    chars: Vec<char>,
    pos: usize,
}

impl TokenStream {
    #[verifier::type_invariant]
    spec fn within(&self) -> bool {
        self.pos <= self.chars.len()
    }

    /// The characters of the line.
    pub closed spec fn source(&self) -> Seq<char> {
        self.chars@
    }

    /// How many characters have been consumed.
    pub closed spec fn offset(&self) -> int {
        self.pos as int
    }

    /// How many characters have been consumed: at most the whole line.
    pub fn position(&self) -> (consumed: usize)
        ensures
            consumed == self.offset(),
            consumed <= self.source().len(),
    {
        proof {
            use_type_invariant(self);
        }
        self.pos
    }

    pub fn new(input: &String) -> (stream: TokenStream)
        ensures
            stream.source() == input@,
            stream.offset() == 0,
    {
        TokenStream { chars: chars_of(input.as_str()), pos: 0 }
    }

    /// Consumes characters for as long as `condition` accepts them, and
    /// returns them.
    pub fn read_while(&mut self, condition: impl Fn(char) -> bool) -> (value: String)
        requires
            forall|c: char| call_requires(condition, (c,)),
        ensures
            final(self).source() == old(self).source(),
            0 <= old(self).offset() <= final(self).offset() <= old(self).source().len(),
            value@ == old(self).source().subrange(old(self).offset(), final(self).offset()),
            forall|i: int|
                old(self).offset() <= i < final(self).offset() ==> call_ensures(
                    condition,
                    (#[trigger] old(self).source()[i],),
                    true,
                ),
            final(self).offset() < old(self).source().len() ==> call_ensures(
                condition,
                (old(self).source()[final(self).offset()],),
                false,
            ),
    {
        proof {
            use_type_invariant(&*self);
        }
        let mut value = String::new();
        let ghost begin = self.pos as int;
        assert(value@ =~= self.chars@.subrange(begin, begin));
        while self.pos < self.chars.len()
            invariant
                self.chars == old(self).chars,
                begin == old(self).pos,
                begin <= self.pos <= self.chars.len(),
                value@ == self.chars@.subrange(begin, self.pos as int),
                forall|c: char| call_requires(condition, (c,)),
                forall|i: int|
                    begin <= i < self.pos ==> call_ensures(
                        condition,
                        (#[trigger] self.chars@[i],),
                        true,
                    ),
            ensures
                begin <= self.pos <= self.chars.len(),
                self.chars == old(self).chars,
                value@ == self.chars@.subrange(begin, self.pos as int),
                forall|i: int|
                    begin <= i < self.pos ==> call_ensures(
                        condition,
                        (#[trigger] self.chars@[i],),
                        true,
                    ),
                self.pos < self.chars.len() ==> call_ensures(
                    condition,
                    (self.chars@[self.pos as int],),
                    false,
                ),
            decreases self.chars.len() - self.pos,
        {
            let current = self.chars[self.pos];
            if condition(current) {
                push_char(&mut value, current);
                assert(self.chars@.subrange(begin, self.pos as int).push(current)
                    =~= self.chars@.subrange(begin, self.pos + 1));
                self.pos = self.pos + 1;
            } else {
                break;
            }
        }
        value
    }

    /// Consumes the longest run of digits at the current position.
    pub fn get_digits(&mut self) -> (digits: String)
        ensures
            final(self).source() == old(self).source(),
            0 <= old(self).offset() <= old(self).source().len(),
            final(self).offset() == run_end(old(self).source(), old(self).offset(), digit()),
            digits@ == old(self).source().subrange(old(self).offset(), final(self).offset()),
    {
        let digits = self.read_while(|x: char| -> (yes: bool)
            ensures
                yes == spec_is_digit(x),
            { is_digit(x) });
        proof {
            lemma_run_end_unique(old(self).source(), old(self).offset(), self.offset(), digit());
        }
        digits
    }

    /// Reads the number that begins at the current position.
    fn read_number(&mut self) -> (r: Result<Token, Error>)
        requires
            0 <= old(self).offset() < old(self).source().len(),
            spec_is_digit(old(self).source()[old(self).offset()]),
        ensures
            final(self).source() == old(self).source(),
            final(self).offset() == scan_number(old(self).source(), old(self).offset()).end,
            match r {
                Ok(t) => scan_number(old(self).source(), old(self).offset()).result == Ok::<
                    Option<Token>,
                    Error,
                >(Some(t)),
                Err(e) => scan_number(old(self).source(), old(self).offset()).result == Err::<
                    Option<Token>,
                    Error,
                >(e),
            },
    {
        let start = self.pos;
        let integer_part = self.get_digits();
        proof {
            use_type_invariant(&*self);
        }
        if self.pos < self.chars.len() && self.chars[self.pos] == '.' {
            self.pos = self.pos + 1;
            let _fraction = self.get_digits();
            Ok(Token::Float(Span { start, end: self.pos }))
        } else {
            match parse_int(&integer_part) {
                Some(v) => Ok(Token::Int(v)),
                None => Err(Error::UnexpectedCharacter(self.chars[start])),
            }
        }
    }

    /// Reads the next token: `Ok(None)` when the line is exhausted.
    pub fn read(&mut self) -> (r: Result<Option<Token>, Error>)
        ensures
            final(self).source() == old(self).source(),
            0 <= old(self).offset() <= final(self).offset() <= old(self).source().len(),
            r == scan(old(self).source(), old(self).offset()).result,
            final(self).offset() == scan(old(self).source(), old(self).offset()).end,
    {
        let _spaces = self.read_while(|x: char| -> (yes: bool)
            ensures
                yes == (x == ' '),
            { x == ' ' });
        proof {
            use_type_invariant(&*self);
            lemma_run_end_unique(old(self).source(), old(self).offset(), self.offset(), space());
            lemma_scan_bounds(old(self).source(), old(self).offset());
        }
        if self.pos >= self.chars.len() {
            return Ok(None);
        }
        let current = self.chars[self.pos];
        if current == '+' {
            self.pos = self.pos + 1;
            Ok(Some(Token::Add))
        } else if current == '-' {
            self.pos = self.pos + 1;
            Ok(Some(Token::Sub))
        } else if current == '*' {
            self.pos = self.pos + 1;
            Ok(Some(Token::Mul))
        } else if current == '/' {
            self.pos = self.pos + 1;
            Ok(Some(Token::Div))
        } else if current == '^' {
            self.pos = self.pos + 1;
            Ok(Some(Token::Pow))
        } else if current == '(' {
            self.pos = self.pos + 1;
            Ok(Some(Token::LeftParen))
        } else if current == ')' {
            self.pos = self.pos + 1;
            Ok(Some(Token::RightParen))
        } else if is_digit(current) {
            match self.read_number() {
                Ok(t) => Ok(Some(t)),
                Err(e) => Err(e),
            }
        } else {
            Err(Error::UnexpectedCharacter(current))
        }
    }

    /// All the tokens that are left, in order, or the first failure.
    pub fn collect(self) -> (r: Result<Vec<Token>, Error>)
        ensures
            0 <= self.offset() <= self.source().len(),
            match r {
                Ok(found) => tokens(self.source(), self.offset()) == Ok::<Seq<Token>, Error>(
                    found@,
                ),
                Err(e) => tokens(self.source(), self.offset()) == Err::<Seq<Token>, Error>(e),
            },
    {
        let mut stream = self;
        let mut found: Vec<Token> = Vec::new();
        let _start = stream.position();
        assert(found@ + tokens(self.source(), self.offset())->Ok_0 =~= tokens(
            self.source(),
            self.offset(),
        )->Ok_0);
        loop
            invariant
                stream.source() == self.source(),
                0 <= self.offset() <= stream.offset() <= stream.source().len(),
                match tokens(stream.source(), stream.offset()) {
                    Ok(rest) => tokens(self.source(), self.offset()) == Ok::<Seq<Token>, Error>(
                        found@ + rest,
                    ),
                    Err(e) => tokens(self.source(), self.offset()) == Err::<Seq<Token>, Error>(e),
                },
            decreases stream.source().len() - stream.offset(),
        {
            let ghost before = stream.offset();
            proof {
                lemma_scan_bounds(stream.source(), before);
            }
            match stream.read() {
                Err(e) => {
                    return Err(e);
                },
                Ok(None) => {
                    assert(found@ + Seq::<Token>::empty() =~= found@);
                    return Ok(found);
                },
                Ok(Some(t)) => {
                    let ghost so_far = found@;
                    found.push(t);
                    proof {
                        match tokens(stream.source(), stream.offset()) {
                            Ok(rest) => {
                                assert(so_far + (seq![t] + rest) =~= found@ + rest);
                            },
                            Err(e) => {},
                        }
                    }
                },
            }
        }
    }

    /// The next token, as an iterator would give it: the same as `read`.
    pub fn next(&mut self) -> (r: Result<Option<Token>, Error>)
        ensures
            final(self).source() == old(self).source(),
            0 <= old(self).offset() <= final(self).offset() <= old(self).source().len(),
            r == scan(old(self).source(), old(self).offset()).result,
            final(self).offset() == scan(old(self).source(), old(self).offset()).end,
    {
        self.read()
    }
}

} // verus!
