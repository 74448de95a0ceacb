use vstd::prelude::*;
use vstd::utf8::{decode_utf8, encode_utf8, is_ascii_chars, valid_utf8};

verus! {

broadcast use vstd::utf8::group_utf8_lib;

/// The lexical category of a token, without the text that identifiers and
/// integer literals carry.
#[derive(Clone, Copy, Debug, PartialEq, Eq, Structural)]
pub enum TokenKind {
    Identifier,
    Int,
    Illegal,
    EoF,
    Assign,
    Plus,
    Minus,
    Bang,
    Asterisk,
    Slash,
    Comma,
    LT,
    GT,
    Eq,
    NotEq,
    Semicolon,
    LParen,
    RParen,
    LSquigly,
    RSquigly,
    Function,
    Let,
    If,
    Else,
    Return,
    True,
    False,
}

#[derive(Debug, PartialEq, Eq, Clone)]
pub enum Token {
    Identifier(String),
    Int(String),
    Illegal,
    EoF,
    Assign,
    Plus,
    Minus,
    Bang,
    Asterisk,
    Slash,
    Comma,
    LT,
    GT,
    Eq,
    NotEq,
    Semicolon,
    LParen,
    RParen,
    LSquigly,
    RSquigly,
    Function,
    Let,
    If,
    Else,
    Return,
    True,
    False,
}

/// A token as a value: its category and the text it carries (empty for
/// every category but identifiers and integer literals).
pub struct TokenView {
    pub kind: TokenKind,
    pub text: Seq<char>,
}

impl Token {
    pub open spec fn spec_kind(&self) -> TokenKind {
        match self {
            Token::Identifier(_) => TokenKind::Identifier,
            Token::Int(_) => TokenKind::Int,
            Token::Illegal => TokenKind::Illegal,
            Token::EoF => TokenKind::EoF,
            Token::Assign => TokenKind::Assign,
            Token::Plus => TokenKind::Plus,
            Token::Minus => TokenKind::Minus,
            Token::Bang => TokenKind::Bang,
            Token::Asterisk => TokenKind::Asterisk,
            Token::Slash => TokenKind::Slash,
            Token::Comma => TokenKind::Comma,
            Token::LT => TokenKind::LT,
            Token::GT => TokenKind::GT,
            Token::Eq => TokenKind::Eq,
            Token::NotEq => TokenKind::NotEq,
            Token::Semicolon => TokenKind::Semicolon,
            Token::LParen => TokenKind::LParen,
            Token::RParen => TokenKind::RParen,
            Token::LSquigly => TokenKind::LSquigly,
            Token::RSquigly => TokenKind::RSquigly,
            Token::Function => TokenKind::Function,
            Token::Let => TokenKind::Let,
            Token::If => TokenKind::If,
            Token::Else => TokenKind::Else,
            Token::Return => TokenKind::Return,
            Token::True => TokenKind::True,
            Token::False => TokenKind::False,
        }
    }

    pub open spec fn spec_text(&self) -> Seq<char> {
        match self {
            Token::Identifier(s) => s@,
            Token::Int(s) => s@,
            _ => seq![],
        }
    }

    /// The category of this token, ignoring any text it carries.
    #[verifier::when_used_as_spec(spec_kind)]
    pub fn kind(&self) -> (k: TokenKind)
        ensures
            k == self.spec_kind(),
    {
        match self {
            Token::Identifier(_) => TokenKind::Identifier,
            Token::Int(_) => TokenKind::Int,
            Token::Illegal => TokenKind::Illegal,
            Token::EoF => TokenKind::EoF,
            Token::Assign => TokenKind::Assign,
            Token::Plus => TokenKind::Plus,
            Token::Minus => TokenKind::Minus,
            Token::Bang => TokenKind::Bang,
            Token::Asterisk => TokenKind::Asterisk,
            Token::Slash => TokenKind::Slash,
            Token::Comma => TokenKind::Comma,
            Token::LT => TokenKind::LT,
            Token::GT => TokenKind::GT,
            Token::Eq => TokenKind::Eq,
            Token::NotEq => TokenKind::NotEq,
            Token::Semicolon => TokenKind::Semicolon,
            Token::LParen => TokenKind::LParen,
            Token::RParen => TokenKind::RParen,
            Token::LSquigly => TokenKind::LSquigly,
            Token::RSquigly => TokenKind::RSquigly,
            Token::Function => TokenKind::Function,
            Token::Let => TokenKind::Let,
            Token::If => TokenKind::If,
            Token::Else => TokenKind::Else,
            Token::Return => TokenKind::Return,
            Token::True => TokenKind::True,
            Token::False => TokenKind::False,
        }
    }
}

impl Token {
    /// This token as a diagnostic shows it.
    pub fn describe(&self) -> (r: String)
        ensures
            r@ == describe(self@),
    {
        let mut r = String::from_str(self.kind().name());
        match self {
            Token::Identifier(text) => {
                r.append("(\"");
                r.append(text.as_str());
                r.append("\")");
            },
            Token::Int(text) => {
                r.append("(\"");
                r.append(text.as_str());
                r.append("\")");
            },
            _ => {},
        }
        r
    }
}

impl View for Token {
    type V = TokenView;

    open spec fn view(&self) -> TokenView {
        TokenView { kind: self.spec_kind(), text: self.spec_text() }
    }
}

impl TokenKind {
    /// The name of the category as it appears in diagnostics.
    pub open spec fn spec_name(&self) -> Seq<char> {
        match self {
            TokenKind::Identifier => "Identifier"@,
            TokenKind::Int => "Int"@,
            TokenKind::Illegal => "Illegal"@,
            TokenKind::EoF => "EoF"@,
            TokenKind::Assign => "Assign"@,
            TokenKind::Plus => "Plus"@,
            TokenKind::Minus => "Minus"@,
            TokenKind::Bang => "Bang"@,
            TokenKind::Asterisk => "Asterisk"@,
            TokenKind::Slash => "Slash"@,
            TokenKind::Comma => "Comma"@,
            TokenKind::LT => "LT"@,
            TokenKind::GT => "GT"@,
            TokenKind::Eq => "Eq"@,
            TokenKind::NotEq => "NotEq"@,
            TokenKind::Semicolon => "Semicolon"@,
            TokenKind::LParen => "LParen"@,
            TokenKind::RParen => "RParen"@,
            TokenKind::LSquigly => "LSquigly"@,
            TokenKind::RSquigly => "RSquigly"@,
            TokenKind::Function => "Function"@,
            TokenKind::Let => "Let"@,
            TokenKind::If => "If"@,
            TokenKind::Else => "Else"@,
            TokenKind::Return => "Return"@,
            TokenKind::True => "True"@,
            TokenKind::False => "False"@,
        }
    }

    pub fn name(&self) -> (r: &'static str)
        ensures
            r@ == self.spec_name(),
    {
        match self {
            TokenKind::Identifier => "Identifier",
            TokenKind::Int => "Int",
            TokenKind::Illegal => "Illegal",
            TokenKind::EoF => "EoF",
            TokenKind::Assign => "Assign",
            TokenKind::Plus => "Plus",
            TokenKind::Minus => "Minus",
            TokenKind::Bang => "Bang",
            TokenKind::Asterisk => "Asterisk",
            TokenKind::Slash => "Slash",
            TokenKind::Comma => "Comma",
            TokenKind::LT => "LT",
            TokenKind::GT => "GT",
            TokenKind::Eq => "Eq",
            TokenKind::NotEq => "NotEq",
            TokenKind::Semicolon => "Semicolon",
            TokenKind::LParen => "LParen",
            TokenKind::RParen => "RParen",
            TokenKind::LSquigly => "LSquigly",
            TokenKind::RSquigly => "RSquigly",
            TokenKind::Function => "Function",
            TokenKind::Let => "Let",
            TokenKind::If => "If",
            TokenKind::Else => "Else",
            TokenKind::Return => "Return",
            TokenKind::True => "True",
            TokenKind::False => "False",
        }
    }
}

/// How a token reads in a diagnostic: the category's name, followed by the
/// quoted text for identifiers and integer literals.
pub open spec fn describe(t: TokenView) -> Seq<char> {
    if t.kind == TokenKind::Identifier || t.kind == TokenKind::Int {
        t.kind.spec_name() + "(\""@ + t.text + "\")"@
    } else {
        t.kind.spec_name()
    }
}

/// A token that carries no text.
pub open spec fn plain(k: TokenKind) -> TokenView {
    TokenView { kind: k, text: seq![] }
}

/// The byte at `i`, or the zero sentinel past either end of the buffer.
pub open spec fn byte_at(s: Seq<u8>, i: int) -> u8 {
    if 0 <= i < s.len() {
        s[i]
    } else {
        0
    }
}

/// Space, tab, newline and carriage return.
pub open spec fn is_blank(b: u8) -> bool {
    // ' ', '\t', '\n', '\r'
    b == 0x20 || b == 0x09 || b == 0x0a || b == 0x0d
}

/// An ASCII letter or an underscore.
pub open spec fn is_letter_byte(b: u8) -> bool {
    // 'A'..='Z', 'a'..='z', '_'
    (0x41 <= b <= 0x5a) || (0x61 <= b <= 0x7a) || b == 0x5f
}

pub open spec fn is_digit_byte(b: u8) -> bool {
    // '0'..='9'
    0x30 <= b <= 0x39
}

/// The first position at or after `p` that does not hold a blank.
pub open spec fn skip_blanks(s: Seq<u8>, p: int) -> int
    decreases s.len() - p,
{
    if 0 <= p < s.len() && is_blank(s[p]) {
        skip_blanks(s, p + 1)
    } else {
        p
    }
}

/// The end of the run of letters that starts at `p`.
pub open spec fn letters_end(s: Seq<u8>, p: int) -> int
    decreases s.len() - p,
{
    if 0 <= p < s.len() && is_letter_byte(s[p]) {
        letters_end(s, p + 1)
    } else {
        p
    }
}

/// The end of the run of digits that starts at `p`.
pub open spec fn digits_end(s: Seq<u8>, p: int) -> int
    decreases s.len() - p,
{
    if 0 <= p < s.len() && is_digit_byte(s[p]) {
        digits_end(s, p + 1)
    } else {
        p
    }
}

/// ASCII bytes read as characters.
pub open spec fn ascii_text(b: Seq<u8>) -> Seq<char> {
    b.map_values(|x: u8| x as char)
}

/// The keyword spelled by `w`, if any; the match is exact and case-sensitive.
pub open spec fn keyword(w: Seq<char>) -> Option<TokenKind> {
    if w == seq!['f', 'n'] {
        Some(TokenKind::Function)
    } else if w == seq!['l', 'e', 't'] {
        Some(TokenKind::Let)
    } else if w == seq!['i', 'f'] {
        Some(TokenKind::If)
    } else if w == seq!['e', 'l', 's', 'e'] {
        Some(TokenKind::Else)
    } else if w == seq!['r', 'e', 't', 'u', 'r', 'n'] {
        Some(TokenKind::Return)
    } else if w == seq!['t', 'r', 'u', 'e'] {
        Some(TokenKind::True)
    } else if w == seq!['f', 'a', 'l', 's', 'e'] {
        Some(TokenKind::False)
    } else {
        None
    }
}

/// The operators and delimiters that are always one byte long.
pub open spec fn single_byte_kind(b: u8) -> Option<TokenKind> {
    if b == 0x2b {  // '+'
        Some(TokenKind::Plus)
    } else if b == 0x2d {  // '-'
        Some(TokenKind::Minus)
    } else if b == 0x2f {  // '/'
        Some(TokenKind::Slash)
    } else if b == 0x2a {  // '*'
        Some(TokenKind::Asterisk)
    } else if b == 0x3c {  // '<'
        Some(TokenKind::LT)
    } else if b == 0x3e {  // '>'
        Some(TokenKind::GT)
    } else if b == 0x2c {  // ','
        Some(TokenKind::Comma)
    } else if b == 0x3b {  // ';'
        Some(TokenKind::Semicolon)
    } else if b == 0x28 {  // '('
        Some(TokenKind::LParen)
    } else if b == 0x29 {  // ')'
        Some(TokenKind::RParen)
    } else if b == 0x7b {  // '{'
        Some(TokenKind::LSquigly)
    } else if b == 0x7d {  // '}'
        Some(TokenKind::RSquigly)
    } else {
        None
    }
}

/// The token that the scanner reads from position `p` of `s`, and the
/// position just past its lexeme.
pub open spec fn scan(s: Seq<u8>, p: int) -> (TokenView, int) {
    let q = skip_blanks(s, p);
    let c = byte_at(s, q);
    if c == 0x3d {  // '='
        if byte_at(s, q + 1) == 0x3d {
            (plain(TokenKind::Eq), q + 2)
        } else {
            (plain(TokenKind::Assign), q + 1)
        }
    } else if c == 0x21 {  // '!'
        if byte_at(s, q + 1) == 0x3d {
            (plain(TokenKind::NotEq), q + 2)
        } else {
            (plain(TokenKind::Bang), q + 1)
        }
    } else if single_byte_kind(c) is Some {
        (plain(single_byte_kind(c)->0), q + 1)
    } else if is_letter_byte(c) {
        let e = letters_end(s, q);
        let w = ascii_text(s.subrange(q, e));
        match keyword(w) {
            Some(k) => (plain(k), e),
            None => (TokenView { kind: TokenKind::Identifier, text: w }, e),
        }
    } else if is_digit_byte(c) {
        let e = digits_end(s, q);
        (TokenView { kind: TokenKind::Int, text: ascii_text(s.subrange(q, e)) }, e)
    } else if c == 0 {
        (plain(TokenKind::EoF), q)
    } else {
        (plain(TokenKind::Illegal), q + 1)
    }
}

/// The runs of blanks, letters and digits that start inside the buffer end
/// inside it.
pub proof fn lemma_runs_bounded(s: Seq<u8>, p: int)
    requires
        0 <= p <= s.len(),
    ensures
        p <= skip_blanks(s, p) <= s.len(),
        p <= letters_end(s, p) <= s.len(),
        p <= digits_end(s, p) <= s.len(),
    decreases s.len() - p,
{
    if p < s.len() {
        lemma_runs_bounded(s, p + 1);
    }
}

/// A scan from inside the buffer ends inside it, and moves forward unless it
/// reads the end of input.
pub proof fn lemma_scan_bounds(s: Seq<u8>, p: int)
    requires
        0 <= p <= s.len(),
    ensures
        p <= scan(s, p).1 <= s.len(),
        scan(s, p).0.kind != TokenKind::EoF ==> p < scan(s, p).1,
{
    lemma_runs_bounded(s, p);
    let q = skip_blanks(s, p);
    lemma_runs_bounded(s, q);
    if q < s.len() {
        lemma_runs_bounded(s, q + 1);
    }
}

/// Once the scanner reads end-of-input, reading again yields end-of-input
/// again, at the same position: the cursor never runs past the buffer.
pub proof fn lemma_scan_end_stays(s: Seq<u8>, p: int)
    requires
        0 <= p <= s.len(),
        scan(s, p).0.kind == TokenKind::EoF,
    ensures
        scan(s, scan(s, p).1) == scan(s, p),
{
    lemma_runs_bounded(s, p);
    let q = skip_blanks(s, p);
    assert(skip_blanks(s, q) == q);
}

proof fn lemma_skip_blanks_idempotent(s: Seq<u8>, p: int)
    requires
        0 <= p <= s.len(),
    ensures
        skip_blanks(s, skip_blanks(s, p)) == skip_blanks(s, p),
        skip_blanks(s, p) < s.len() ==> !is_blank(s[skip_blanks(s, p)]),
        forall|i: int| p <= i < skip_blanks(s, p) ==> is_blank(#[trigger] s[i]),
    decreases s.len() - p,
{
    if p < s.len() && is_blank(s[p]) {
        lemma_skip_blanks_idempotent(s, p + 1);
    }
}

/// Blanks between tokens never reach the output: reading from the start of a
/// run of blanks gives the same token, the same end position and the same
/// remaining stream as reading from the first byte after the run.
pub proof fn lemma_blanks_skipped(s: Seq<u8>, p: int)
    requires
        0 <= p <= s.len(),
    ensures
        scan(s, p) == scan(s, skip_blanks(s, p)),
        tokens(s, p) == tokens(s, skip_blanks(s, p)),
        forall|i: int| p <= i < skip_blanks(s, p) ==> is_blank(#[trigger] s[i]),
{
    lemma_runs_bounded(s, p);
    lemma_skip_blanks_idempotent(s, p);
}

/// Two-byte operators are read whole: `==` is one equality token and `!=`
/// one inequality token, while `=` or `!` not followed by `=` is read alone.
pub proof fn lemma_operators_maximal(s: Seq<u8>, q: int)
    requires
        0 <= q < s.len(),
    ensures
        s[q] == 0x3d && byte_at(s, q + 1) == 0x3d ==> scan(s, q) == (plain(TokenKind::Eq), q + 2),
        s[q] == 0x3d && byte_at(s, q + 1) != 0x3d ==> scan(s, q) == (
            plain(TokenKind::Assign),
            q + 1,
        ),
        s[q] == 0x21 && byte_at(s, q + 1) == 0x3d ==> scan(s, q) == (
            plain(TokenKind::NotEq),
            q + 2,
        ),
        s[q] == 0x21 && byte_at(s, q + 1) != 0x3d ==> scan(s, q) == (plain(TokenKind::Bang), q + 1),
{
}

proof fn lemma_letters_end_at(s: Seq<u8>, q: int, e: int)
    requires
        0 <= q <= e <= s.len(),
        forall|i: int| q <= i < e ==> is_letter_byte(#[trigger] s[i]),
        !is_letter_byte(byte_at(s, e)),
    ensures
        letters_end(s, q) == e,
    decreases e - q,
{
    if q < e {
        lemma_letters_end_at(s, q + 1, e);
    }
}

/// A run of letters and underscores, as long as it goes, reads as the keyword
/// it spells (an exact, case-sensitive match) or else as an identifier that
/// carries exactly its text.
pub proof fn lemma_word_token(s: Seq<u8>, q: int, e: int)
    requires
        0 <= q < e <= s.len(),
        forall|i: int| q <= i < e ==> is_letter_byte(#[trigger] s[i]),
        !is_letter_byte(byte_at(s, e)),
    ensures
        scan(s, q) == (
            match keyword(ascii_text(s.subrange(q, e))) {
                Some(k) => plain(k),
                None => TokenView { kind: TokenKind::Identifier, text: ascii_text(s.subrange(q, e)) },
            },
            e,
        ),
{
    assert(is_letter_byte(s[q]));
    lemma_letters_end_at(s, q, e);
}

/// The operators and delimiters that can be one byte long.
pub open spec fn punctuation_kind(b: u8) -> Option<TokenKind> {
    if b == 0x3d {  // '='
        Some(TokenKind::Assign)
    } else if b == 0x21 {  // '!'
        Some(TokenKind::Bang)
    } else {
        single_byte_kind(b)
    }
}

/// Input made only of one-byte operators and delimiters, with no `=` or `!`
/// followed by `=`, reads as one token per byte, in order, and then
/// end-of-input.
pub proof fn lemma_punctuation_tokens(s: Seq<u8>, p: int)
    requires
        0 <= p <= s.len(),
        forall|i: int| 0 <= i < s.len() ==> #[trigger] punctuation_kind(s[i]) is Some,
        forall|i: int|
            0 <= i < s.len() - 1 && (s[i] == 0x3d || s[i] == 0x21) ==> #[trigger] s[i + 1]
                != 0x3d,
    ensures
        tokens(s, p) == s.skip(p).map_values(|b: u8| plain(punctuation_kind(b)->0)) + seq![
            plain(TokenKind::EoF),
        ],
    decreases s.len() - p,
{
    let f = |b: u8| plain(punctuation_kind(b)->0);
    if p == s.len() {
        assert(s.skip(p).map_values(f) =~= seq![]);
        assert(tokens(s, p) =~= seq![plain(TokenKind::EoF)]);
    } else {
        assert(punctuation_kind(s[p]) is Some);
        if p + 1 < s.len() {
            assert(punctuation_kind(s[p + 1]) is Some);
        }
        assert(scan(s, p) == (f(s[p]), p + 1));
        lemma_punctuation_tokens(s, p + 1);
        assert(s.skip(p).map_values(f) =~= seq![f(s[p])] + s.skip(p + 1).map_values(f));
        assert(tokens(s, p) == seq![f(s[p])] + tokens(s, p + 1));
        assert(tokens(s, p) =~= s.skip(p).map_values(f) + seq![plain(TokenKind::EoF)]);
    }
}

/// The whole token stream from position `p`, up to and including the first
/// end-of-input token.
pub open spec fn tokens(s: Seq<u8>, p: int) -> Seq<TokenView>
    decreases s.len() - p,
    when 0 <= p <= s.len()
    via tokens_decreases
{
    let (t, n) = scan(s, p);
    if t.kind == TokenKind::EoF {
        seq![t]
    } else {
        seq![t] + tokens(s, n)
    }
}

#[via_fn]
proof fn tokens_decreases(s: Seq<u8>, p: int) {
    lemma_scan_bounds(s, p);
}

/// Bytes that are all ASCII letters, underscores or digits form valid UTF-8,
/// which decodes to the same characters.
proof fn lemma_ascii_decodes(b: Seq<u8>)
    requires
        forall|i: int| 0 <= i < b.len() ==> #[trigger] b[i] < 0x80,
    ensures
        valid_utf8(b),
        decode_utf8(b) == ascii_text(b),
{
    let c = ascii_text(b);
    assert(is_ascii_chars(c));
    assert(encode_utf8(c) =~= b);
}

/// The seven reserved words, in order, each with its token.
pub open spec fn is_keyword_table(table: Seq<(String, Token)>) -> bool {
    &&& table.len() == 7
    &&& table[0].0@ == seq!['f', 'n'] && table[0].1 == Token::Function
    &&& table[1].0@ == seq!['l', 'e', 't'] && table[1].1 == Token::Let
    &&& table[2].0@ == seq!['i', 'f'] && table[2].1 == Token::If
    &&& table[3].0@ == seq!['e', 'l', 's', 'e'] && table[3].1 == Token::Else
    &&& table[4].0@ == seq!['r', 'e', 't', 'u', 'r', 'n'] && table[4].1 == Token::Return
    &&& table[5].0@ == seq!['t', 'r', 'u', 'e'] && table[5].1 == Token::True
    &&& table[6].0@ == seq!['f', 'a', 'l', 's', 'e'] && table[6].1 == Token::False
}

/// Relies on `String::from_utf8_lossy`: bytes that form valid UTF-8 come back
/// as the characters they encode.
#[verifier::external_body]
fn text_of(bytes: &Vec<u8>, start: usize, end: usize) -> (r: String)
    requires
        start <= end <= bytes@.len(),
    ensures
        valid_utf8(bytes@.subrange(start as int, end as int)) ==> r@ == decode_utf8(
            bytes@.subrange(start as int, end as int),
        ),
{
    String::from_utf8_lossy(&bytes[start..end]).into_owned()
}

/// A single-pass scanner over a byte buffer.
pub struct Lexer {
    input: Vec<u8>,
    ch: u8,
    position: usize,
    read_position: usize,
}

impl Lexer {
    /// The bytes being scanned.
    pub closed spec fn source(&self) -> Seq<u8> {
        self.input@
    }

    /// The position of the current byte.
    pub closed spec fn pos(&self) -> int {
        self.position as int
    }

    /// The cursors agree with each other and with the buffer.
    pub closed spec fn wf(&self) -> bool {
        &&& self.input@.len() < usize::MAX
        &&& self.position <= self.input@.len()
        &&& self.read_position == self.position + 1
        &&& self.ch == byte_at(self.input@, self.position as int)
    }

    pub proof fn lemma_pos_in_bounds(&self)
        requires
            self.wf(),
        ensures
            0 <= self.pos() <= self.source().len(),
    {
    }

    /// A scanner positioned at the first byte of `input`'s UTF-8 encoding.
    pub fn new(input: String) -> (l: Lexer)
        requires
            encode_utf8(input@).len() < usize::MAX,
        ensures
            l.wf(),
            l.source() == encode_utf8(input@),
            l.pos() == 0,
    {
        let bytes = input.as_str().as_bytes_vec();
        let mut l = Lexer { input: bytes, ch: 0, position: 0, read_position: 0 };
        l.read_char();
        l
    }

    fn is_letter(c: u8) -> (r: bool)
        ensures
            r == is_letter_byte(c),
    {
        // 'a'..='z', 'A'..='Z', '_'
        (0x61 <= c && c <= 0x7a) || (0x41 <= c && c <= 0x5a) || c == 0x5f
    }

    fn skip_whitespace(&mut self)
        requires
            old(self).wf(),
        ensures
            final(self).wf(),
            final(self).input@ == old(self).input@,
            final(self).pos() == skip_blanks(old(self).input@, old(self).pos()),
    {
        let ghost s = self.input@;
        let ghost start = self.position as int;
        // ' ', '\t', '\n', '\r'
        while self.ch == 0x20 || self.ch == 0x09 || self.ch == 0x0a || self.ch == 0x0d
            invariant
                self.wf(),
                self.input@ == s,
                skip_blanks(s, self.position as int) == skip_blanks(s, start),
            decreases s.len() - self.position,
        {
            self.read_char();
        }
    }

    fn peek_char(&self) -> (c: u8)
        requires
            self.wf(),
        ensures
            c == byte_at(self.input@, self.position + 1),
    {
        if self.read_position >= self.input.len() {
            0
        } else {
            self.input[self.read_position]
        }
    }

    fn read_char(&mut self)
        requires
            old(self).input@.len() < usize::MAX,
            old(self).read_position <= old(self).input@.len(),
        ensures
            final(self).wf(),
            final(self).input@ == old(self).input@,
            final(self).position == old(self).read_position,
    {
        if self.read_position >= self.input.len() {
            self.ch = 0;
        } else {
            self.ch = self.input[self.read_position];
        }
        self.position = self.read_position;
        self.read_position = self.read_position + 1;
    }

    fn read_identifier(&mut self) -> (r: String)
        requires
            old(self).wf(),
        ensures
            final(self).wf(),
            final(self).input@ == old(self).input@,
            final(self).pos() == letters_end(old(self).input@, old(self).pos()),
            r@ == ascii_text(old(self).input@.subrange(old(self).pos(), final(self).pos())),
    {
        let ghost s = self.input@;
        let start = self.position;
        while Lexer::is_letter(self.ch)
            invariant
                self.wf(),
                self.input@ == s,
                start <= self.position,
                letters_end(s, self.position as int) == letters_end(s, start as int),
                forall|i: int| start <= i < self.position ==> is_letter_byte(#[trigger] s[i]),
            decreases s.len() - self.position,
        {
            self.read_char();
        }
        proof {
            let w = s.subrange(start as int, self.position as int);
            assert forall|j: int| 0 <= j < w.len() implies #[trigger] w[j] < 0x80 by {
                assert(is_letter_byte(s[start + j]));
            }
            lemma_ascii_decodes(w);
        }
        text_of(&self.input, start, self.position)
    }

    fn read_int(&mut self) -> (r: String)
        requires
            old(self).wf(),
        ensures
            final(self).wf(),
            final(self).input@ == old(self).input@,
            final(self).pos() == digits_end(old(self).input@, old(self).pos()),
            r@ == ascii_text(old(self).input@.subrange(old(self).pos(), final(self).pos())),
    {
        let ghost s = self.input@;
        let start = self.position;
        // '0'..='9'
        while 0x30 <= self.ch && self.ch <= 0x39
            invariant
                self.wf(),
                self.input@ == s,
                start <= self.position,
                digits_end(s, self.position as int) == digits_end(s, start as int),
                forall|i: int| start <= i < self.position ==> is_digit_byte(#[trigger] s[i]),
            decreases s.len() - self.position,
        {
            self.read_char();
        }
        proof {
            let w = s.subrange(start as int, self.position as int);
            assert forall|j: int| 0 <= j < w.len() implies #[trigger] w[j] < 0x80 by {
                assert(is_digit_byte(s[start + j]));
            }
            lemma_ascii_decodes(w);
        }
        text_of(&self.input, start, self.position)
    }

    /// The keyword table: each reserved word with its token.
    fn keywords() -> (table: Vec<(String, Token)>)
        ensures
            is_keyword_table(table@),
    {
        proof {
            reveal_strlit("fn");
            reveal_strlit("let");
            reveal_strlit("if");
            reveal_strlit("else");
            reveal_strlit("return");
            reveal_strlit("true");
            reveal_strlit("false");
        }
        let table = vec![
            (String::from_str("fn"), Token::Function),
            (String::from_str("let"), Token::Let),
            (String::from_str("if"), Token::If),
            (String::from_str("else"), Token::Else),
            (String::from_str("return"), Token::Return),
            (String::from_str("true"), Token::True),
            (String::from_str("false"), Token::False),
        ];
        assert(table@[0].0@ =~= seq!['f', 'n']);
        assert(table@[1].0@ =~= seq!['l', 'e', 't']);
        assert(table@[2].0@ =~= seq!['i', 'f']);
        assert(table@[3].0@ =~= seq!['e', 'l', 's', 'e']);
        assert(table@[4].0@ =~= seq!['r', 'e', 't', 'u', 'r', 'n']);
        assert(table@[5].0@ =~= seq!['t', 'r', 'u', 'e']);
        assert(table@[6].0@ =~= seq!['f', 'a', 'l', 's', 'e']);
        table
    }

    /// The keyword token spelled by `identifier`, if it is one.
    fn lookup_identifier(identifier: &String) -> (r: Option<Token>)
        ensures
            r is Some <==> keyword(identifier@) is Some,
            r is Some ==> r->0@ == plain(keyword(identifier@)->0),
    {
        let mut table = Lexer::keywords();
        let ghost full = table@;
        let mut i: usize = 0;
        while i < table.len()
            invariant
                table@ == full,
                is_keyword_table(full),
                i <= 7,
                forall|j: int| 0 <= j < i ==> full[j].0@ != identifier@,
            decreases 7 - i,
        {
            if table[i].0 == *identifier {
                assert(i == 0 || i == 1 || i == 2 || i == 3 || i == 4 || i == 5 || i == 6);
                let (_, token) = table.remove(i);
                return Some(token);
            }
            i = i + 1;
        }
        None
    }

    /// Reads the next token and moves past its lexeme. At the end of the
    /// input it returns end-of-input and stays where it is.
    pub fn next_token(&mut self) -> (t: Token)
        requires
            old(self).wf(),
        ensures
            final(self).wf(),
            final(self).source() == old(self).source(),
            (t@, final(self).pos()) == scan(old(self).source(), old(self).pos()),
    {
        self.skip_whitespace();
        let token = match self.ch {
            0x3d => {  // '='
                if self.peek_char() == 0x3d {
                    self.read_char();
                    Token::Eq
                } else {
                    Token::Assign
                }
            },
            0x21 => {  // '!'
                if self.peek_char() == 0x3d {
                    self.read_char();
                    Token::NotEq
                } else {
                    Token::Bang
                }
            },
            0x2b => Token::Plus,  // '+'
            0x2d => Token::Minus,  // '-'
            0x2f => Token::Slash,  // '/'
            0x2a => Token::Asterisk,  // '*'
            0x3c => Token::LT,  // '<'
            0x3e => Token::GT,  // '>'
            0x2c => Token::Comma,  // ','
            0x3b => Token::Semicolon,  // ';'
            0x28 => Token::LParen,  // '('
            0x29 => Token::RParen,  // ')'
            0x7b => Token::LSquigly,  // '{'
            0x7d => Token::RSquigly,  // '}'
            c if Lexer::is_letter(c) => {
                let identifier = self.read_identifier();
                return match Lexer::lookup_identifier(&identifier) {
                    Some(k) => k,
                    None => Token::Identifier(identifier),
                };
            },
            c if 0x30 <= c && c <= 0x39 => {  // a digit
                let value = self.read_int();
                return Token::Int(value);
            },
            0 => {
                return Token::EoF;
            },
            _ => Token::Illegal,
        };
        self.read_char();
        token
    }
}

} // verus!
