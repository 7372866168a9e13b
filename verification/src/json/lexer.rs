//! Streaming JSON lexer.
//!
//! The lexer owns an in-memory byte buffer, a cursor into it, and at most one
//! pushed-back character.  [`JsonLexer::next_token`] returns the next token.
//! Its exact behaviour — which token a given state yields, which states fail,
//! and where the cursor stands afterwards — is given by the functional model
//! [`spec_next_token`] over [`LexerModel`].
//!
//! Only byte-level decode failures (malformed UTF-8, and a string cut off by
//! the end of input) abort lexing with an error.  Unrecognized input and a
//! misspelled keyword literal instead yield a token of kind
//! [`JsonTokenType::NoToken`] carrying a diagnostic lexeme; such a token matches
//! no grammar rule, so the parser reports its own, grammar-level error for
//! it.

use vstd::prelude::*;

verus! {

use vstd::string::StringExecFns;

use crate::utf8::spec_next_codepoint;

broadcast use vstd::seq::group_seq_axioms;

/// The kind of a token.
#[derive(Clone, Copy, Debug, PartialEq, Eq, Structural)]
pub enum JsonTokenType {
    LeftBrace,
    RightBrace,
    LeftBracket,
    RightBracket,
    Comma,
    Colon,
    String,
    Number,
    Boolean,
    Null,
    EOF,
    /// Sentinel: an unfilled lookahead slot, or unrecognized input whose
    /// diagnostic is carried in the lexeme.  Matches no grammar rule.
    NoToken,
}

/// A token: the raw lexeme text and the token kind.
#[derive(Debug)]
pub struct Token(pub String, pub JsonTokenType);

impl Token {
    /// Pair a lexeme with its kind.
    pub fn new(s: String, t: JsonTokenType) -> (r: Self)
        ensures
            r.0 == s,
            r.1 == t,
    {
        Token(s, t)
    }
}

/// Mathematical state of a lexer: the whole input, the cursor, and the
/// pushed-back character, if any.
pub struct LexerModel {
    pub bytes: Seq<u8>,
    pub pos: int,
    pub putback: Option<char>,
}

impl LexerModel {
    /// The cursor stays within the input.
    pub open spec fn wf(self) -> bool {
        0 <= self.pos <= self.bytes.len()
    }

    /// Upper bound on the characters still to come; decreases with every
    /// consumed character except the end-of-input sentinel.  A pushed-back
    /// sentinel costs nothing, so pushing the sentinel back never raises the
    /// bound.
    pub open spec fn fuel(self) -> int {
        self.bytes.len() - self.pos + if self.putback is Some && self.putback != Some('\0') {
            1int
        } else {
            0int
        }
    }

    /// This state with `c` pushed back.
    pub open spec fn with_putback(self, c: char) -> LexerModel {
        LexerModel { bytes: self.bytes, pos: self.pos, putback: Some(c) }
    }
}

/// Characters skipped between tokens: the Unicode white space set.
pub open spec fn is_json_whitespace(c: char) -> bool {
    let u = c as u32;
    ||| (0x09 <= u <= 0x0d)
    ||| u == 0x20
    ||| u == 0x85
    ||| u == 0xa0
    ||| u == 0x1680
    ||| (0x2000 <= u <= 0x200a)
    ||| u == 0x2028
    ||| u == 0x2029
    ||| u == 0x202f
    ||| u == 0x205f
    ||| u == 0x3000
}

/// An ASCII decimal digit.
pub open spec fn is_ascii_digit_char(c: char) -> bool {
    '0' <= c && c <= '9'
}

/// ASCII punctuation other than what the grammar knows.
pub open spec fn is_ascii_punctuation_char(c: char) -> bool {
    let u = c as u32;
    ||| (0x21 <= u <= 0x2f)
    ||| (0x3a <= u <= 0x40)
    ||| (0x5b <= u <= 0x60)
    ||| (0x7b <= u <= 0x7e)
}

fn is_whitespace_char(c: char) -> (r: bool)
    ensures
        r == is_json_whitespace(c),
{
    let u = c as u32;
    (0x09 <= u && u <= 0x0d) || u == 0x20 || u == 0x85 || u == 0xa0 || u == 0x1680 || (0x2000 <= u
        && u <= 0x200a) || u == 0x2028 || u == 0x2029 || u == 0x202f || u == 0x205f || u == 0x3000
}

fn is_digit_char(c: char) -> (r: bool)
    ensures
        r == is_ascii_digit_char(c),
{
    let u = c as u32;
    0x30 <= u && u <= 0x39
}

fn is_punctuation_char(c: char) -> (r: bool)
    ensures
        r == is_ascii_punctuation_char(c),
{
    let u = c as u32;
    (0x21 <= u && u <= 0x2f) || (0x3a <= u && u <= 0x40) || (0x5b <= u && u <= 0x60) || (0x7b <= u
        && u <= 0x7e)
}

/// One character step: the pushed-back character if one exists, the
/// end-of-input sentinel `'\0'` once the buffer is exhausted, or one decoded
/// codepoint; `None` on a decode failure.
pub open spec fn spec_next_char(m: LexerModel) -> Option<(char, LexerModel)> {
    match m.putback {
        Some(c) => Some((c, LexerModel { bytes: m.bytes, pos: m.pos, putback: Option::None })),
        Option::None => {
            if m.pos >= m.bytes.len() {
                Some(('\0', m))
            } else {
                match spec_next_codepoint(m.bytes, m.pos) {
                    Some((c, p2)) => Some(
                        (c, LexerModel { bytes: m.bytes, pos: p2, putback: Option::None }),
                    ),
                    Option::None => Option::None,
                }
            }
        }
    }
}

/// A character step keeps the input, clears the pushback, and spends fuel
/// whenever it yields anything but the sentinel.
pub proof fn lemma_next_char(m: LexerModel)
    requires
        m.wf(),
    ensures
        spec_next_char(m) matches Some((c, m2)) ==> m2.wf() && m2.bytes == m.bytes && m2.putback
            is None && m2.fuel() <= m.fuel() && (c != '\0' ==> m2.fuel() < m.fuel()),
{
}

/// Outcome of lexing one token: the lexeme, the kind, and the state after
/// it; or the message of a decode failure that aborts lexing.
pub enum LexResult {
    Token(Seq<char>, JsonTokenType, LexerModel),
    Error(Seq<char>),
}

/// `r` with `pre` prepended to its lexeme.
pub open spec fn lex_append(pre: Seq<char>, r: LexResult) -> LexResult {
    match r {
        LexResult::Token(lex, k, m) => LexResult::Token(pre + lex, k, m),
        LexResult::Error(e) => LexResult::Error(e),
    }
}

/// `r` with the single character `c` prepended to its lexeme.
pub open spec fn lex_prepend(c: char, r: LexResult) -> LexResult {
    match r {
        LexResult::Token(lex, k, m) => LexResult::Token(seq![c] + lex, k, m),
        LexResult::Error(e) => LexResult::Error(e),
    }
}

pub proof fn lemma_lex_append_empty(r: LexResult)
    ensures
        lex_append(Seq::empty(), r) == r,
{
    match r {
        LexResult::Token(lex, k, m) => {
            assert(Seq::empty() + lex =~= lex);
        }
        LexResult::Error(_) => {}
    }
}

pub proof fn lemma_lex_append_step(pre: Seq<char>, c: char, r: LexResult)
    ensures
        lex_append(pre, lex_prepend(c, r)) == lex_append(pre.push(c), r),
{
    match r {
        LexResult::Token(lex, k, m) => {
            assert(pre + (seq![c] + lex) =~= pre.push(c) + lex);
        }
        LexResult::Error(_) => {}
    }
}

pub proof fn lemma_lex_append_token(pre: Seq<char>, k: JsonTokenType, m: LexerModel)
    ensures
        lex_append(pre, LexResult::Token(Seq::empty(), k, m)) == LexResult::Token(pre, k, m),
{
    assert(pre + Seq::<char>::empty() =~= pre);
}

/// Lexing the body of a string after its opening quote: raw characters
/// accumulate until the next quote; the end-of-input sentinel inside a
/// string aborts with an error, as does a decode failure.
pub open spec fn spec_lex_string(m: LexerModel) -> LexResult
    decreases m.fuel(),
    when m.wf()
{
    match spec_next_char(m) {
        Option::None => LexResult::Error("Invalid UTF-8"@),
        Some((c, m2)) => {
            if c == '\0' {
                LexResult::Error("unexpected EOF"@)
            } else if c == '"' {
                LexResult::Token(Seq::empty(), JsonTokenType::String, m2)
            } else {
                proof {
                    lemma_next_char(m);
                }
                lex_prepend(c, spec_lex_string(m2))
            }
        }
    }
}

/// Lexing the digits of a number: consecutive ASCII digits accumulate; the
/// first non-digit is pushed back and ends the token.
pub open spec fn spec_digits(m: LexerModel) -> LexResult
    decreases m.fuel(),
    when m.wf()
{
    match spec_next_char(m) {
        Option::None => LexResult::Error("Invalid UTF-8"@),
        Some((c, m2)) => {
            if is_ascii_digit_char(c) {
                proof {
                    lemma_next_char(m);
                }
                lex_prepend(c, spec_digits(m2))
            } else {
                LexResult::Token(Seq::empty(), JsonTokenType::Number, m2.with_putback(c))
            }
        }
    }
}

/// Matching the remaining characters `rest` of a keyword literal whose
/// first character was already consumed: on full match the token is
/// `(lexeme, kind)`; the first mismatched character is pushed back and the
/// token is the diagnostic `fail` with kind `None`.
pub open spec fn spec_lex_keyword(
    m: LexerModel,
    rest: Seq<char>,
    lexeme: Seq<char>,
    kind: JsonTokenType,
    fail: Seq<char>,
) -> LexResult
    decreases rest.len(),
    when m.wf()
{
    if rest.len() == 0 {
        LexResult::Token(lexeme, kind, m)
    } else {
        match spec_next_char(m) {
            Option::None => LexResult::Error("Invalid UTF-8"@),
            Some((c, m2)) => {
                if c == rest[0] {
                    spec_lex_keyword(m2, rest.drop_first(), lexeme, kind, fail)
                } else {
                    LexResult::Token(fail, JsonTokenType::NoToken, m2.with_putback(c))
                }
            }
        }
    }
}

/// One unfolding of [`spec_lex_keyword`] while characters remain to match.
pub proof fn lemma_keyword_step(
    m: LexerModel,
    rest: Seq<char>,
    lexeme: Seq<char>,
    kind: JsonTokenType,
    fail: Seq<char>,
)
    requires
        m.wf(),
        rest.len() > 0,
    ensures
        match spec_next_char(m) {
            Option::None => spec_lex_keyword(m, rest, lexeme, kind, fail) == LexResult::Error(
                "Invalid UTF-8"@,
            ),
            Some((c, m2)) => spec_lex_keyword(m, rest, lexeme, kind, fail) == (if c == rest[0] {
                spec_lex_keyword(m2, rest.drop_first(), lexeme, kind, fail)
            } else {
                LexResult::Token(fail, JsonTokenType::NoToken, m2.with_putback(c))
            }),
        },
{
}

/// Dispatch on the first character of a token, after whitespace and the
/// sentinel have been dealt with.
pub open spec fn spec_token_after_char(c: char, m: LexerModel) -> LexResult
    decreases m.fuel(), 1int,
    when m.wf() && c != '\0'
{
    if c == '{' {
        LexResult::Token("{"@, JsonTokenType::LeftBrace, m)
    } else if c == '}' {
        LexResult::Token("}"@, JsonTokenType::RightBrace, m)
    } else if c == '[' {
        LexResult::Token("["@, JsonTokenType::LeftBracket, m)
    } else if c == ']' {
        LexResult::Token("]"@, JsonTokenType::RightBracket, m)
    } else if c == ',' {
        LexResult::Token(","@, JsonTokenType::Comma, m)
    } else if c == ':' {
        LexResult::Token(":"@, JsonTokenType::Colon, m)
    } else if c == '"' {
        spec_lex_string(m)
    } else if is_ascii_digit_char(c) {
        lex_prepend(c, spec_digits(m))
    } else if c == 't' {
        spec_lex_keyword(m, "rue"@, "true"@, JsonTokenType::Boolean, "expected true"@)
    } else if c == 'f' {
        spec_lex_keyword(m, "alse"@, "false"@, JsonTokenType::Boolean, "expected false"@)
    } else if c == 'n' {
        spec_lex_keyword(m, "ull"@, "null"@, JsonTokenType::Null, "expected null"@)
    } else if is_json_whitespace(c) {
        spec_next_token(m)
    } else if is_ascii_punctuation_char(c) {
        LexResult::Token("unexpected punctuation"@, JsonTokenType::NoToken, m)
    } else {
        LexResult::Token("unexpected character"@, JsonTokenType::NoToken, m)
    }
}

/// The next token from state `m`: skip whitespace, map the end-of-input
/// sentinel to an `EOF` token, and otherwise dispatch on the first
/// character.
pub open spec fn spec_next_token(m: LexerModel) -> LexResult
    decreases m.fuel(), 0int,
    when m.wf()
{
    match spec_next_char(m) {
        Option::None => LexResult::Error("Invalid UTF-8"@),
        Some((c, m2)) => {
            if c == '\0' {
                LexResult::Token(Seq::empty(), JsonTokenType::EOF, m2)
            } else {
                proof {
                    lemma_next_char(m);
                }
                spec_token_after_char(c, m2)
            }
        }
    }
}

/// [`spec_next_token`] after its first character has been consumed.
pub open spec fn spec_dispatch(c: char, m: LexerModel) -> LexResult {
    if c == '\0' {
        LexResult::Token(Seq::empty(), JsonTokenType::EOF, m)
    } else {
        spec_token_after_char(c, m)
    }
}

/// Relies on `String::push`: it appends the given character to the string.
pub assume_specification[ std::string::String::push ](s: &mut std::string::String, ch: char)
    ensures
        final(s)@ == old(s)@.push(ch),
;

/// The streaming lexer: an in-memory byte buffer, a cursor, and one slot of
/// character pushback.
pub struct JsonLexer {
    bytes: Vec<u8>,
    pos: usize,
    putback: char,
    has_putback: bool,
}

impl View for JsonLexer {
    type V = LexerModel;

    closed spec fn view(&self) -> LexerModel {
        LexerModel {
            bytes: self.bytes@,
            pos: self.pos as int,
            putback: if self.has_putback {
                Some(self.putback)
            } else {
                Option::None
            },
        }
    }
}

impl JsonLexer {
    /// A lexer over the given bytes, cursor at the start, nothing pushed
    /// back.
    pub fn new_from_bytes(bytes: Vec<u8>) -> (l: Self)
        ensures
            l@ == (LexerModel { bytes: bytes@, pos: 0, putback: Option::None }),
    {
        JsonLexer { bytes, pos: 0, putback: '\0', has_putback: false }
    }

    /// A lexer over the UTF-8 bytes of the given text.
    pub fn new_from_string(s: &String) -> (l: Self)
        ensures
            l@ == (LexerModel {
                bytes: vstd::utf8::encode_utf8(s@),
                pos: 0,
                putback: Option::None,
            }),
    {
        JsonLexer::new_from_bytes(vstd::slice::slice_to_vec(s.as_str().as_bytes()))
    }

    /// One character: the pushback if set, else one decoded codepoint, else
    /// the sentinel `'\0'` at end of input.
    fn next_char(&mut self) -> (r: Result<char, &'static str>)
        requires
            old(self)@.wf(),
        ensures
            final(self)@.wf(),
            final(self)@.bytes == old(self)@.bytes,
            match spec_next_char(old(self)@) {
                Some((c, m2)) => r == Ok::<char, &'static str>(c) && final(self)@ == m2,
                Option::None => r matches Err(e) && e@ == "Invalid UTF-8"@,
            },
    {
        if self.has_putback {
            self.has_putback = false;
            Ok(self.putback)
        } else if self.pos >= self.bytes.len() {
            Ok('\0')
        } else {
            match crate::utf8::next_codepoint(&self.bytes, &mut self.pos) {
                Some(c) => Ok(c),
                Option::None => Err("Invalid UTF-8"),
            }
        }
    }

    /// Un-read one character.  At most one character of pushback may exist
    /// at a time; a second is a programming error, ruled out by contract.
    fn putback(&mut self, ch: char)
        requires
            old(self)@.wf(),
            old(self)@.putback is None,
        ensures
            final(self)@ == old(self)@.with_putback(ch),
            final(self)@.wf(),
    {
        self.putback = ch;
        self.has_putback = true;
    }

    /// Consume the next character if it equals `ch`; push it back otherwise.
    fn try_match_char(&mut self, ch: char) -> (r: Result<bool, &'static str>)
        requires
            old(self)@.wf(),
        ensures
            final(self)@.wf(),
            final(self)@.bytes == old(self)@.bytes,
            match spec_next_char(old(self)@) {
                Some((c, m2)) => final(self)@ == (if c == ch {
                    m2
                } else {
                    m2.with_putback(c)
                }) && r == Ok::<bool, &'static str>(c == ch),
                Option::None => r matches Err(e) && e@ == "Invalid UTF-8"@,
            },
    {
        let c = match self.next_char() {
            Ok(c) => c,
            Err(e) => {
                return Err(e);
            }
        };
        if c == ch {
            Ok(true)
        } else {
            self.putback(c);
            Ok(false)
        }
    }

    /// The next token, or the message of the decode failure that stopped
    /// lexing.  The result and the state afterwards are exactly those of
    /// [`spec_next_token`] on the state before.
    pub fn next_token(&mut self) -> (r: Result<Token, &'static str>)
        requires
            old(self)@.wf(),
        ensures
            final(self)@.wf(),
            final(self)@.bytes == old(self)@.bytes,
            match spec_next_token(old(self)@) {
                LexResult::Token(lex, k, m2) => (r matches Ok(t) && t.0@ == lex && t.1 == k)
                    && final(self)@ == m2,
                LexResult::Error(e) => r matches Err(msg) && msg@ == e,
            },
    {
        let mut ch = match self.next_char() {
            Ok(c) => c,
            Err(e) => {
                return Err(e);
            }
        };
        loop
            invariant
                self@.wf(),
                self@.bytes == old(self)@.bytes,
                spec_next_token(old(self)@) == spec_dispatch(ch, self@),
            ensures
                self@.wf(),
                self@.bytes == old(self)@.bytes,
                spec_next_token(old(self)@) == spec_dispatch(ch, self@),
                !is_json_whitespace(ch),
            decreases self@.fuel() + if ch == '\0' {
                0int
            } else {
                1int
            },
        {
            if !is_whitespace_char(ch) {
                break ;
            }
            proof {
                lemma_next_char(self@);
            }
            ch = match self.next_char() {
                Ok(c) => c,
                Err(e) => {
                    return Err(e);
                }
            };
        }
        if ch == '{' {
            Ok(Token(String::from_str("{"), JsonTokenType::LeftBrace))
        } else if ch == '}' {
            Ok(Token(String::from_str("}"), JsonTokenType::RightBrace))
        } else if ch == '[' {
            Ok(Token(String::from_str("["), JsonTokenType::LeftBracket))
        } else if ch == ']' {
            Ok(Token(String::from_str("]"), JsonTokenType::RightBracket))
        } else if ch == ',' {
            Ok(Token(String::from_str(","), JsonTokenType::Comma))
        } else if ch == ':' {
            Ok(Token(String::from_str(":"), JsonTokenType::Colon))
        } else if ch == '"' {
            let mut s = String::new();
            proof {
                lemma_lex_append_empty(spec_lex_string(self@));
            }
            loop
                invariant
                    self@.wf(),
                    self@.bytes == old(self)@.bytes,
                    spec_next_token(old(self)@) == lex_append(s@, spec_lex_string(self@)),
                decreases self@.fuel(),
            {
                let ghost m_pre = self@;
                let c = match self.next_char() {
                    Ok(c) => c,
                    Err(e) => {
                        return Err(e);
                    }
                };
                proof {
                    lemma_next_char(m_pre);
                }
                if c == '\0' {
                    return Err("unexpected EOF");
                }
                if c == '"' {
                    proof {
                        lemma_lex_append_token(s@, JsonTokenType::String, self@);
                    }
                    return Ok(Token(s, JsonTokenType::String));
                }
                proof {
                    lemma_lex_append_step(s@, c, spec_lex_string(self@));
                }
                s.push(c);
            }
        } else if is_digit_char(ch) {
            let mut s = String::new();
            proof {
                lemma_lex_append_empty(lex_prepend(ch, spec_digits(self@)));
                lemma_lex_append_step(Seq::empty(), ch, spec_digits(self@));
            }
            s.push(ch);
            loop
                invariant
                    self@.wf(),
                    self@.bytes == old(self)@.bytes,
                    spec_next_token(old(self)@) == lex_append(s@, spec_digits(self@)),
                decreases self@.fuel(),
            {
                let ghost m_pre = self@;
                let c = match self.next_char() {
                    Ok(c) => c,
                    Err(e) => {
                        return Err(e);
                    }
                };
                proof {
                    lemma_next_char(m_pre);
                }
                if is_digit_char(c) {
                    proof {
                        lemma_lex_append_step(s@, c, spec_digits(self@));
                    }
                    s.push(c);
                } else {
                    self.putback(c);
                    proof {
                        lemma_lex_append_token(s@, JsonTokenType::Number, self@);
                    }
                    return Ok(Token(s, JsonTokenType::Number));
                }
            }
        } else if ch == 't' {
            proof {
                reveal_strlit("rue");
            }
            proof {
                lemma_keyword_step(self@, "rue"@, "true"@, JsonTokenType::Boolean, "expected true"@);
            }
            if !(match self.try_match_char('r') {
                Ok(b) => b,
                Err(e) => {
                    return Err(e);
                }
            }) {
                return Ok(Token(String::from_str("expected true"), JsonTokenType::NoToken));
            }
            proof {
                lemma_keyword_step(self@, "rue"@.drop_first(), "true"@, JsonTokenType::Boolean, "expected true"@);
            }
            if !(match self.try_match_char('u') {
                Ok(b) => b,
                Err(e) => {
                    return Err(e);
                }
            }) {
                return Ok(Token(String::from_str("expected true"), JsonTokenType::NoToken));
            }
            proof {
                lemma_keyword_step(self@, "rue"@.drop_first().drop_first(), "true"@, JsonTokenType::Boolean, "expected true"@);
            }
            if !(match self.try_match_char('e') {
                Ok(b) => b,
                Err(e) => {
                    return Err(e);
                }
            }) {
                return Ok(Token(String::from_str("expected true"), JsonTokenType::NoToken));
            }
            proof {
                assert(spec_lex_keyword(
                    self@,
                    "rue"@.drop_first().drop_first().drop_first(),
                    "true"@,
                    JsonTokenType::Boolean,
                    "expected true"@,
                ) == LexResult::Token("true"@, JsonTokenType::Boolean, self@));
            }
            Ok(Token(String::from_str("true"), JsonTokenType::Boolean))
        } else if ch == 'f' {
            proof {
                reveal_strlit("alse");
            }
            proof {
                lemma_keyword_step(self@, "alse"@, "false"@, JsonTokenType::Boolean, "expected false"@);
            }
            if !(match self.try_match_char('a') {
                Ok(b) => b,
                Err(e) => {
                    return Err(e);
                }
            }) {
                return Ok(Token(String::from_str("expected false"), JsonTokenType::NoToken));
            }
            proof {
                lemma_keyword_step(self@, "alse"@.drop_first(), "false"@, JsonTokenType::Boolean, "expected false"@);
            }
            if !(match self.try_match_char('l') {
                Ok(b) => b,
                Err(e) => {
                    return Err(e);
                }
            }) {
                return Ok(Token(String::from_str("expected false"), JsonTokenType::NoToken));
            }
            proof {
                lemma_keyword_step(self@, "alse"@.drop_first().drop_first(), "false"@, JsonTokenType::Boolean, "expected false"@);
            }
            if !(match self.try_match_char('s') {
                Ok(b) => b,
                Err(e) => {
                    return Err(e);
                }
            }) {
                return Ok(Token(String::from_str("expected false"), JsonTokenType::NoToken));
            }
            proof {
                lemma_keyword_step(self@, "alse"@.drop_first().drop_first().drop_first(), "false"@, JsonTokenType::Boolean, "expected false"@);
            }
            if !(match self.try_match_char('e') {
                Ok(b) => b,
                Err(e) => {
                    return Err(e);
                }
            }) {
                return Ok(Token(String::from_str("expected false"), JsonTokenType::NoToken));
            }
            proof {
                assert(spec_lex_keyword(
                    self@,
                    "alse"@.drop_first().drop_first().drop_first().drop_first(),
                    "false"@,
                    JsonTokenType::Boolean,
                    "expected false"@,
                ) == LexResult::Token("false"@, JsonTokenType::Boolean, self@));
            }
            Ok(Token(String::from_str("false"), JsonTokenType::Boolean))
        } else if ch == 'n' {
            proof {
                reveal_strlit("ull");
            }
            proof {
                lemma_keyword_step(self@, "ull"@, "null"@, JsonTokenType::Null, "expected null"@);
            }
            if !(match self.try_match_char('u') {
                Ok(b) => b,
                Err(e) => {
                    return Err(e);
                }
            }) {
                return Ok(Token(String::from_str("expected null"), JsonTokenType::NoToken));
            }
            proof {
                lemma_keyword_step(self@, "ull"@.drop_first(), "null"@, JsonTokenType::Null, "expected null"@);
            }
            if !(match self.try_match_char('l') {
                Ok(b) => b,
                Err(e) => {
                    return Err(e);
                }
            }) {
                return Ok(Token(String::from_str("expected null"), JsonTokenType::NoToken));
            }
            proof {
                lemma_keyword_step(self@, "ull"@.drop_first().drop_first(), "null"@, JsonTokenType::Null, "expected null"@);
            }
            if !(match self.try_match_char('l') {
                Ok(b) => b,
                Err(e) => {
                    return Err(e);
                }
            }) {
                return Ok(Token(String::from_str("expected null"), JsonTokenType::NoToken));
            }
            proof {
                assert(spec_lex_keyword(
                    self@,
                    "ull"@.drop_first().drop_first().drop_first(),
                    "null"@,
                    JsonTokenType::Null,
                    "expected null"@,
                ) == LexResult::Token("null"@, JsonTokenType::Null, self@));
            }
            Ok(Token(String::from_str("null"), JsonTokenType::Null))
        } else if ch == '\0' {
            Ok(Token(String::new(), JsonTokenType::EOF))
        } else if is_punctuation_char(ch) {
            Ok(Token(String::from_str("unexpected punctuation"), JsonTokenType::NoToken))
        } else {
            Ok(Token(String::from_str("unexpected character"), JsonTokenType::NoToken))
        }
    }
}

/// A string token leaves a well-formed state over the same input and
/// strictly spends fuel (at least the closing quote is consumed).
pub proof fn lemma_lex_string_fuel(m: LexerModel)
    requires
        m.wf(),
    ensures
        spec_lex_string(m) matches LexResult::Token(lex, k, m2) ==> k == JsonTokenType::String
            && m2.wf() && m2.bytes == m.bytes && m2.fuel() < m.fuel(),
    decreases m.fuel(), 0int,
{
    lemma_next_char(m);
    match spec_next_char(m) {
        Option::None => {}
        Some((c, m2)) => {
            if c != '\0' && c != '"' {
                lemma_lex_string_fuel(m2);
            }
        }
    }
}

/// A number token leaves a well-formed state over the same input without
/// gaining fuel; the pushed-back terminator repays the character that found
/// it.
pub proof fn lemma_digits_fuel(m: LexerModel)
    requires
        m.wf(),
    ensures
        spec_digits(m) matches LexResult::Token(lex, k, m2) ==> k == JsonTokenType::Number
            && m2.wf() && m2.bytes == m.bytes && m2.fuel() <= m.fuel(),
    decreases m.fuel(), 0int,
{
    lemma_next_char(m);
    match spec_next_char(m) {
        Option::None => {}
        Some((c, m2)) => {
            if is_ascii_digit_char(c) {
                lemma_digits_fuel(m2);
            }
        }
    }
}

/// A keyword token leaves a well-formed state over the same input without
/// gaining fuel.
pub proof fn lemma_keyword_fuel(
    m: LexerModel,
    rest: Seq<char>,
    lexeme: Seq<char>,
    kind: JsonTokenType,
    fail: Seq<char>,
)
    requires
        m.wf(),
    ensures
        spec_lex_keyword(m, rest, lexeme, kind, fail) matches LexResult::Token(lex, k, m2)
            ==> m2.wf() && m2.bytes == m.bytes && m2.fuel() <= m.fuel(),
    decreases rest.len(),
{
    if rest.len() > 0 {
        lemma_next_char(m);
        match spec_next_char(m) {
            Option::None => {}
            Some((c, m2)) => {
                if c == rest[0] {
                    lemma_keyword_fuel(m2, rest.drop_first(), lexeme, kind, fail);
                }
            }
        }
    }
}

/// Dispatching on a consumed character leaves a well-formed state over the
/// same input without gaining fuel.
pub proof fn lemma_after_char_fuel(c: char, m: LexerModel)
    requires
        m.wf(),
        c != '\0',
    ensures
        spec_token_after_char(c, m) matches LexResult::Token(lex, k, m2) ==> m2.wf()
            && m2.bytes == m.bytes && m2.fuel() <= m.fuel(),
    decreases m.fuel(), 1int,
{
    if c == '{' || c == '}' || c == '[' || c == ']' || c == ',' || c == ':' {
    } else if c == '"' {
        lemma_lex_string_fuel(m);
    } else if is_ascii_digit_char(c) {
        lemma_digits_fuel(m);
    } else if c == 't' {
        lemma_keyword_fuel(m, "rue"@, "true"@, JsonTokenType::Boolean, "expected true"@);
    } else if c == 'f' {
        lemma_keyword_fuel(m, "alse"@, "false"@, JsonTokenType::Boolean, "expected false"@);
    } else if c == 'n' {
        lemma_keyword_fuel(m, "ull"@, "null"@, JsonTokenType::Null, "expected null"@);
    } else if is_json_whitespace(c) {
        lemma_next_token_fuel(m);
    } else {
    }
}

/// A token step preserves well-formedness and the input, never gains fuel,
/// and strictly spends fuel unless the token is `EOF`.
pub proof fn lemma_next_token_fuel(m: LexerModel)
    requires
        m.wf(),
    ensures
        spec_next_token(m) matches LexResult::Token(lex, k, m2) ==> m2.wf() && m2.bytes == m.bytes
            && m2.fuel() <= m.fuel() && (k != JsonTokenType::EOF ==> m2.fuel() < m.fuel()),
    decreases m.fuel(), 0int,
{
    lemma_next_char(m);
    match spec_next_char(m) {
        Option::None => {}
        Some((c, m2)) => {
            if c != '\0' {
                lemma_after_char_fuel(c, m2);
            }
        }
    }
}

/// Whitespace between tokens changes nothing: consuming any whitespace
/// character before a token leaves exactly the token that lexing the rest
/// of the input yields, in the very same state.
pub proof fn lemma_whitespace_skipped(c: char, m: LexerModel)
    requires
        m.wf(),
        is_json_whitespace(c),
    ensures
        spec_token_after_char(c, m) == spec_next_token(m),
{
}

/// The bytes not yet consumed.
pub open spec fn rest_of(m: LexerModel) -> Seq<u8> {
    m.bytes.skip(m.pos)
}

/// Two states that agree on the unconsumed bytes and on the pushback.
pub open spec fn same_rest(m1: LexerModel, m2: LexerModel) -> bool {
    m1.putback == m2.putback && rest_of(m1) == rest_of(m2)
}

/// A character step depends only on the unconsumed bytes and the pushback:
/// two states that agree on those yield the same character or the same
/// failure, and agree again afterwards.
pub proof fn lemma_next_char_sim(m1: LexerModel, m2: LexerModel)
    requires
        m1.wf(),
        m2.wf(),
        same_rest(m1, m2),
    ensures
        match (spec_next_char(m1), spec_next_char(m2)) {
            (Some((c1, n1)), Some((c2, n2))) => c1 == c2 && n1.wf() && n2.wf() && same_rest(
                n1,
                n2,
            ),
            (Option::None, Option::None) => true,
            _ => false,
        },
{
    lemma_next_char(m1);
    lemma_next_char(m2);
    let r = rest_of(m1);
    match m1.putback {
        Some(_) => {}
        Option::None => {
            assert(m1.pos >= m1.bytes.len() <==> r.len() == 0);
            assert(m2.pos >= m2.bytes.len() <==> r.len() == 0);
            if r.len() > 0 {
                let h = r[0];
                assert(m1.bytes[m1.pos] == h);
                assert(m2.bytes[m2.pos] == h);
                let w = crate::utf8::head_width(h);
                if w > 0 {
                    assert(m1.pos + 1 + (w - 1) > m1.bytes.len() <==> w > r.len());
                    assert(m2.pos + 1 + (w - 1) > m2.bytes.len() <==> w > r.len());
                    if w <= r.len() {
                        let s1 = m1.bytes.subrange(m1.pos + 1, m1.pos + w);
                        let s2 = m2.bytes.subrange(m2.pos + 1, m2.pos + w);
                        assert forall|i: int| 0 <= i < w - 1 implies #[trigger] s1[i] == s2[i] by {
                            assert(m1.bytes[m1.pos + 1 + i] == r[1 + i]);
                            assert(m2.bytes[m2.pos + 1 + i] == r[1 + i]);
                        }
                        assert(s1 =~= s2);
                        let t1 = rest_of(
                            LexerModel { bytes: m1.bytes, pos: m1.pos + w, putback: Option::None },
                        );
                        let t2 = rest_of(
                            LexerModel { bytes: m2.bytes, pos: m2.pos + w, putback: Option::None },
                        );
                        assert forall|i: int| 0 <= i < r.len() - w implies #[trigger] t1[i]
                            == t2[i] by {
                            assert(m1.bytes[m1.pos + w + i] == r[w + i]);
                            assert(m2.bytes[m2.pos + w + i] == r[w + i]);
                        }
                        assert(t1 =~= t2);
                    }
                }
            }
        }
    }
}

/// String lexing depends only on the unconsumed bytes and the pushback.
pub proof fn lemma_lex_string_sim(m1: LexerModel, m2: LexerModel)
    requires
        m1.wf(),
        m2.wf(),
        same_rest(m1, m2),
    ensures
        match (spec_lex_string(m1), spec_lex_string(m2)) {
            (LexResult::Token(l1, k1, n1), LexResult::Token(l2, k2, n2)) => l1 == l2 && k1 == k2
                && same_rest(n1, n2),
            (LexResult::Error(e1), LexResult::Error(e2)) => e1 == e2,
            _ => false,
        },
    decreases m1.fuel(),
{
    lemma_next_char(m1);
    lemma_next_char(m2);
    lemma_next_char_sim(m1, m2);
    match (spec_next_char(m1), spec_next_char(m2)) {
        (Some((c, n1)), Some((c2, n2))) => {
            if c != '\0' && c != '"' {
                lemma_lex_string_sim(n1, n2);
            }
        }
        _ => {}
    }
}

/// Digit lexing depends only on the unconsumed bytes and the pushback.
pub proof fn lemma_digits_sim(m1: LexerModel, m2: LexerModel)
    requires
        m1.wf(),
        m2.wf(),
        same_rest(m1, m2),
    ensures
        match (spec_digits(m1), spec_digits(m2)) {
            (LexResult::Token(l1, k1, n1), LexResult::Token(l2, k2, n2)) => l1 == l2 && k1 == k2
                && same_rest(n1, n2),
            (LexResult::Error(e1), LexResult::Error(e2)) => e1 == e2,
            _ => false,
        },
    decreases m1.fuel(),
{
    lemma_next_char(m1);
    lemma_next_char(m2);
    lemma_next_char_sim(m1, m2);
    match (spec_next_char(m1), spec_next_char(m2)) {
        (Some((c, n1)), Some((c2, n2))) => {
            if is_ascii_digit_char(c) {
                lemma_digits_sim(n1, n2);
            }
        }
        _ => {}
    }
}

/// Keyword matching depends only on the unconsumed bytes and the pushback.
pub proof fn lemma_keyword_sim(
    m1: LexerModel,
    m2: LexerModel,
    rest: Seq<char>,
    lexeme: Seq<char>,
    kind: JsonTokenType,
    fail: Seq<char>,
)
    requires
        m1.wf(),
        m2.wf(),
        same_rest(m1, m2),
    ensures
        match (spec_lex_keyword(m1, rest, lexeme, kind, fail), spec_lex_keyword(
            m2,
            rest,
            lexeme,
            kind,
            fail,
        )) {
            (LexResult::Token(l1, k1, n1), LexResult::Token(l2, k2, n2)) => l1 == l2 && k1 == k2
                && same_rest(n1, n2),
            (LexResult::Error(e1), LexResult::Error(e2)) => e1 == e2,
            _ => false,
        },
    decreases rest.len(),
{
    if rest.len() > 0 {
        lemma_next_char(m1);
        lemma_next_char(m2);
        lemma_next_char_sim(m1, m2);
        match (spec_next_char(m1), spec_next_char(m2)) {
            (Some((c, n1)), Some((c2, n2))) => {
                if c == rest[0] {
                    lemma_keyword_sim(n1, n2, rest.drop_first(), lexeme, kind, fail);
                }
            }
            _ => {}
        }
    }
}

/// Token dispatch depends only on the unconsumed bytes and the pushback.
pub proof fn lemma_after_char_sim(c: char, m1: LexerModel, m2: LexerModel)
    requires
        m1.wf(),
        m2.wf(),
        same_rest(m1, m2),
        c != '\0',
    ensures
        match (spec_token_after_char(c, m1), spec_token_after_char(c, m2)) {
            (LexResult::Token(l1, k1, n1), LexResult::Token(l2, k2, n2)) => l1 == l2 && k1 == k2
                && same_rest(n1, n2),
            (LexResult::Error(e1), LexResult::Error(e2)) => e1 == e2,
            _ => false,
        },
    decreases m1.fuel(), 1int,
{
    if c == '{' || c == '}' || c == '[' || c == ']' || c == ',' || c == ':' {
    } else if c == '"' {
        lemma_lex_string_sim(m1, m2);
    } else if is_ascii_digit_char(c) {
        lemma_digits_sim(m1, m2);
    } else if c == 't' {
        lemma_keyword_sim(m1, m2, "rue"@, "true"@, JsonTokenType::Boolean, "expected true"@);
    } else if c == 'f' {
        lemma_keyword_sim(m1, m2, "alse"@, "false"@, JsonTokenType::Boolean, "expected false"@);
    } else if c == 'n' {
        lemma_keyword_sim(m1, m2, "ull"@, "null"@, JsonTokenType::Null, "expected null"@);
    } else if is_json_whitespace(c) {
        lemma_next_token_sim(m1, m2);
    } else {
    }
}

/// The token stream depends only on the unconsumed bytes and the pushback:
/// two lexer states that agree on those yield the same token (lexeme and
/// kind) or the same error, and agree again after it.
pub proof fn lemma_next_token_sim(m1: LexerModel, m2: LexerModel)
    requires
        m1.wf(),
        m2.wf(),
        same_rest(m1, m2),
    ensures
        match (spec_next_token(m1), spec_next_token(m2)) {
            (LexResult::Token(l1, k1, n1), LexResult::Token(l2, k2, n2)) => l1 == l2 && k1 == k2
                && same_rest(n1, n2),
            (LexResult::Error(e1), LexResult::Error(e2)) => e1 == e2,
            _ => false,
        },
    decreases m1.fuel(), 0int,
{
    lemma_next_char(m1);
    lemma_next_char(m2);
    lemma_next_char_sim(m1, m2);
    match (spec_next_char(m1), spec_next_char(m2)) {
        (Some((c, n1)), Some((c2, n2))) => {
            if c != '\0' {
                lemma_after_char_sim(c, n1, n2);
            }
        }
        _ => {}
    }
}

/// Whitespace between tokens never changes the token stream: inserting an
/// ASCII whitespace byte where the lexer stands changes neither the next
/// token nor the bytes that remain after it, and a failure stays the same
/// failure.
pub proof fn lemma_whitespace_insertion(m: LexerModel, b: u8)
    requires
        m.wf(),
        m.putback is None,
        b < 0x80,
        is_json_whitespace(b as char),
    ensures
        ({
            let padded = LexerModel {
                bytes: m.bytes.take(m.pos) + seq![b] + m.bytes.skip(m.pos),
                pos: m.pos,
                putback: Option::None,
            };
            match (spec_next_token(padded), spec_next_token(m)) {
                (LexResult::Token(l1, k1, n1), LexResult::Token(l2, k2, n2)) => l1 == l2 && k1
                    == k2 && same_rest(n1, n2),
                (LexResult::Error(e1), LexResult::Error(e2)) => e1 == e2,
                _ => false,
            }
        }),
{
    let padded = LexerModel {
        bytes: m.bytes.take(m.pos) + seq![b] + m.bytes.skip(m.pos),
        pos: m.pos,
        putback: Option::None,
    };
    assert(padded.bytes.len() == m.bytes.len() + 1);
    assert(padded.wf());
    assert(padded.bytes[m.pos] == b);
    assert(vstd::utf8::is_leading_byte_width_1(b));
    assert(crate::utf8::head_width(b) == 1);
    assert(b & 0x7f == b) by (bit_vector)
        requires
            b < 0x80,
    ;
    let cp = vstd::utf8::leading_bits_width_1(b);
    assert(vstd::utf8::is_scalar(cp));
    let c = cp as char;
    assert(c as u32 == b as u32);
    assert((b as char) as u32 == b as u32);
    assert(is_json_whitespace(c));
    assert(c != '\0');
    match spec_next_char(padded) {
        Some((c1, stepped)) => {
            assert(c1 == c);
            assert(stepped == LexerModel {
                bytes: padded.bytes,
                pos: m.pos + 1,
                putback: Option::None,
            });
            assert(rest_of(stepped) =~= rest_of(m)) by {
                assert(forall|i: int|
                    0 <= i < m.bytes.len() - m.pos ==> #[trigger] padded.bytes[m.pos + 1 + i]
                        == m.bytes[m.pos + i]);
            }
            lemma_next_char(padded);
            assert(spec_next_token(padded) == spec_token_after_char(c, stepped));
            assert(spec_token_after_char(c, stepped) == spec_next_token(stepped));
            lemma_next_token_sim(stepped, m);
        }
        Option::None => {
            assert(false);
        }
    }
}

} // verus!
