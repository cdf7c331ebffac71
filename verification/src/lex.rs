use crate::error::Error;
use vstd::prelude::*;
use vstd::string::StringSliceAdditionalSpecFns;

verus! {

/// `(`
pub const LEFT_PAREN: u8 = 40;

/// `)`
pub const RIGHT_PAREN: u8 = 41;

/// `*`
pub const STAR: u8 = 42;

/// `+`
pub const PLUS: u8 = 43;

/// `-`
pub const MINUS: u8 = 45;

/// `.`
pub const POINT: u8 = 46;

/// `/`
pub const SLASH: u8 = 47;

/// `0`
pub const DIGIT_ZERO: u8 = 48;

/// `1`
pub const DIGIT_ONE: u8 = 49;

/// `9`
pub const DIGIT_NINE: u8 = 57;

/// A space.
pub const SPACE: u8 = 32;

/// A horizontal tab.
pub const TAB: u8 = 9;

/// `c`, the constant of the pixel.
pub const NAME_C: u8 = 99;

/// `h`, the height of the image.
pub const NAME_H: u8 = 104;

/// `i`, the imaginary unit, and the mark of an imaginary literal.
pub const IMAGINARY_UNIT: u8 = 105;

/// `w`, the width of the image.
pub const NAME_W: u8 = 119;

/// `x`, the column of the pixel.
pub const NAME_X: u8 = 120;

/// `y`, the row of the pixel.
pub const NAME_Y: u8 = 121;

/// `z`, the running iterate.
pub const NAME_Z: u8 = 122;

/// The text of a numeric literal: decimal digits with at most one decimal
/// point among them, the first byte a digit. It denotes the decimal number
/// that the text spells.
#[derive(Debug, PartialEq, Eq)]
pub struct Literal {
    pub text: Vec<u8>,
}

impl View for Literal {
    type V = Seq<u8>;

    open spec fn view(&self) -> Seq<u8> {
        self.text@
    }
}

impl Clone for Literal {
    fn clone(&self) -> (r: Literal)
        ensures
            r@ == self@,
    {
        Literal { text: self.text.clone() }
    }
}

impl Literal {
    /// The literal `0`.
    pub fn zero() -> (r: Literal)
        ensures
            r@ == zero_text(),
    {
        let mut text: Vec<u8> = Vec::new();
        text.push(DIGIT_ZERO);
        assert(text@ =~= zero_text());
        Literal { text }
    }

    /// The literal `1`.
    pub fn one() -> (r: Literal)
        ensures
            r@ == one_text(),
    {
        let mut text: Vec<u8> = Vec::new();
        text.push(DIGIT_ONE);
        assert(text@ =~= one_text());
        Literal { text }
    }
}

/// A token with the 1-based offset of its first byte in the source text.
#[derive(Debug, PartialEq, Eq)]
pub struct Token {
    pub kind: TokenKind,
    pub position: usize,
}

#[derive(Debug, PartialEq, Eq)]
pub enum TokenKind {
    LParen,
    RParen,
    Add,
    Sub,
    Mul,
    Div,
    Ident(u8),
    Real(Literal),
    Imag(Literal),
}

/// What a `TokenKind` is in contracts: the same variants, a literal by its text.
pub enum SpecTokenKind {
    LParen,
    RParen,
    Add,
    Sub,
    Mul,
    Div,
    Ident(u8),
    Real(Seq<u8>),
    Imag(Seq<u8>),
}

/// What a `Token` is in contracts.
pub struct SpecToken {
    pub kind: SpecTokenKind,
    pub position: usize,
}

impl View for TokenKind {
    type V = SpecTokenKind;

    open spec fn view(&self) -> SpecTokenKind {
        match *self {
            TokenKind::LParen => SpecTokenKind::LParen,
            TokenKind::RParen => SpecTokenKind::RParen,
            TokenKind::Add => SpecTokenKind::Add,
            TokenKind::Sub => SpecTokenKind::Sub,
            TokenKind::Mul => SpecTokenKind::Mul,
            TokenKind::Div => SpecTokenKind::Div,
            TokenKind::Ident(name) => SpecTokenKind::Ident(name),
            TokenKind::Real(literal) => SpecTokenKind::Real(literal@),
            TokenKind::Imag(literal) => SpecTokenKind::Imag(literal@),
        }
    }
}

impl View for Token {
    type V = SpecToken;

    open spec fn view(&self) -> SpecToken {
        SpecToken { kind: self.kind@, position: self.position }
    }
}

impl Clone for TokenKind {
    fn clone(&self) -> (r: TokenKind)
        ensures
            r@ == self@,
    {
        match self {
            TokenKind::LParen => TokenKind::LParen,
            TokenKind::RParen => TokenKind::RParen,
            TokenKind::Add => TokenKind::Add,
            TokenKind::Sub => TokenKind::Sub,
            TokenKind::Mul => TokenKind::Mul,
            TokenKind::Div => TokenKind::Div,
            TokenKind::Ident(name) => TokenKind::Ident(*name),
            TokenKind::Real(literal) => TokenKind::Real(literal.clone()),
            TokenKind::Imag(literal) => TokenKind::Imag(literal.clone()),
        }
    }
}

impl Clone for Token {
    fn clone(&self) -> (r: Token)
        ensures
            r@ == self@,
    {
        Token { kind: self.kind.clone(), position: self.position }
    }
}

/// The views of a sequence of tokens, in order.
pub open spec fn token_views(tokens: Seq<Token>) -> Seq<SpecToken> {
    Seq::new(tokens.len(), |i: int| tokens[i]@)
}

/// The text of the literal `0`.
pub open spec fn zero_text() -> Seq<u8> {
    seq![DIGIT_ZERO]
}

/// The text of the literal `1`.
pub open spec fn one_text() -> Seq<u8> {
    seq![DIGIT_ONE]
}

/// A decimal digit.
pub open spec fn is_digit(b: u8) -> bool {
    DIGIT_ZERO <= b && b <= DIGIT_NINE
}

/// A space or a tab: what may stand between tokens.
pub open spec fn is_blank(b: u8) -> bool {
    b == SPACE || b == TAB
}

/// The six names that the language admits.
pub open spec fn is_name(b: u8) -> bool {
    b == NAME_W || b == NAME_H || b == NAME_X || b == NAME_Y || b == NAME_C || b == NAME_Z
}

/// Digits, then at most one decimal point with digits after it; at least one
/// digit comes first.
pub open spec fn is_numeral(text: Seq<u8>) -> bool {
    &&& text.len() > 0
    &&& is_digit(text[0])
    &&& forall|i: int| 0 <= i < text.len() ==> is_digit(#[trigger] text[i]) || text[i] == POINT
    &&& forall|i: int, j: int|
        0 <= i < j < text.len() && #[trigger] text[i] == POINT ==> #[trigger] text[j] != POINT
}

/// Where the run of digits that starts at `from` ends.
pub open spec fn digits_end(s: Seq<u8>, from: int) -> int
    decreases s.len() - from,
{
    if 0 <= from < s.len() && is_digit(s[from]) {
        digits_end(s, from + 1)
    } else {
        from
    }
}

/// Where the numeral that starts at `from` ends: after its digits, or after
/// the digits that follow its decimal point.
pub open spec fn numeral_end(s: Seq<u8>, from: int) -> int {
    let whole = digits_end(s, from);
    if whole < s.len() && s[whole] == POINT {
        digits_end(s, whole + 1)
    } else {
        whole
    }
}

/// The token that starts at byte `at`, with the offset of the byte after it;
/// `None` where no token starts with that byte.
pub open spec fn scan(s: Seq<u8>, at: int) -> Option<(SpecTokenKind, int)>
    recommends
        0 <= at < s.len(),
{
    let b = s[at];
    if b == LEFT_PAREN {
        Some((SpecTokenKind::LParen, at + 1))
    } else if b == RIGHT_PAREN {
        Some((SpecTokenKind::RParen, at + 1))
    } else if b == PLUS {
        Some((SpecTokenKind::Add, at + 1))
    } else if b == MINUS {
        Some((SpecTokenKind::Sub, at + 1))
    } else if b == STAR {
        Some((SpecTokenKind::Mul, at + 1))
    } else if b == SLASH {
        Some((SpecTokenKind::Div, at + 1))
    } else if is_name(b) {
        Some((SpecTokenKind::Ident(b), at + 1))
    } else if b == IMAGINARY_UNIT {
        Some((SpecTokenKind::Imag(one_text()), at + 1))
    } else if is_digit(b) {
        let end = numeral_end(s, at);
        let text = s.subrange(at, end);
        if end < s.len() && s[end] == IMAGINARY_UNIT {
            Some((SpecTokenKind::Imag(text), end + 1))
        } else {
            Some((SpecTokenKind::Real(text), end))
        }
    } else {
        None
    }
}

/// The tokens of `s` from byte `from` on: blanks are skipped, every other
/// byte starts a token or is an error at its 1-based offset.
pub open spec fn lex_from(s: Seq<u8>, from: int) -> Result<Seq<SpecToken>, Error>
    recommends
        s.len() <= usize::MAX,
    decreases s.len() - from,
{
    if from < 0 || from >= s.len() {
        Ok(Seq::empty())
    } else if is_blank(s[from]) {
        lex_from(s, from + 1)
    } else {
        match scan(s, from) {
            None => Err(Error { message: "unexpected character", position: (from + 1) as usize }),
            Some((kind, next)) => {
                proof {
                    lemma_scan_advances(s, from);
                }
                followed_by(
                    seq![SpecToken { kind, position: (from + 1) as usize }],
                    lex_from(s, next),
                )
            },
        }
    }
}

/// `tokens` in front of what `rest` holds; the error of `rest` where it is one.
pub open spec fn followed_by(tokens: Seq<SpecToken>, rest: Result<Seq<SpecToken>, Error>) -> Result<
    Seq<SpecToken>,
    Error,
> {
    match rest {
        Ok(more) => Ok(tokens + more),
        Err(e) => Err(e),
    }
}

/// The tokens of the source text `s`.
pub open spec fn lex(s: Seq<u8>) -> Result<Seq<SpecToken>, Error>
    recommends
        s.len() <= usize::MAX,
{
    lex_from(s, 0)
}

/// What the result of `tokenize` is in contracts.
pub open spec fn lexed_view(r: Result<Vec<Token>, Error>) -> Result<Seq<SpecToken>, Error> {
    match r {
        Ok(tokens) => Ok(token_views(tokens@)),
        Err(e) => Err(e),
    }
}

/// A run of digits ends at or after its start, within the text, at the first
/// byte that is no digit.
pub proof fn lemma_digits_end(s: Seq<u8>, from: int)
    requires
        0 <= from <= s.len(),
    ensures
        from <= digits_end(s, from) <= s.len(),
        forall|i: int| from <= i < digits_end(s, from) ==> is_digit(#[trigger] s[i]),
        digits_end(s, from) < s.len() ==> !is_digit(s[digits_end(s, from)]),
    decreases s.len() - from,
{
    if from < s.len() && is_digit(s[from]) {
        lemma_digits_end(s, from + 1);
    }
}

/// A token is at least one byte long and ends within the text.
pub proof fn lemma_scan_advances(s: Seq<u8>, at: int)
    requires
        0 <= at < s.len(),
    ensures
        scan(s, at) matches Some((_, next)) ==> at < next <= s.len(),
{
    if is_digit(s[at]) {
        lemma_digits_end(s, at);
        let whole = digits_end(s, at);
        if whole < s.len() && s[whole] == POINT {
            lemma_digits_end(s, whole + 1);
        }
    }
}

/// The text of the numeral that starts at a digit is a numeral.
pub proof fn lemma_numeral_text(s: Seq<u8>, at: int)
    requires
        0 <= at < s.len(),
        is_digit(s[at]),
    ensures
        at < numeral_end(s, at) <= s.len(),
        is_numeral(s.subrange(at, numeral_end(s, at))),
{
    lemma_digits_end(s, at);
    let whole = digits_end(s, at);
    if whole < s.len() && s[whole] == POINT {
        lemma_digits_end(s, whole + 1);
    }
    let end = numeral_end(s, at);
    let text = s.subrange(at, end);
    assert forall|i: int| 0 <= i < text.len() implies is_digit(#[trigger] text[i]) || text[i]
        == POINT by {
        assert(text[i] == s[at + i]);
    }
    assert forall|i: int, j: int|
        0 <= i < j < text.len() && #[trigger] text[i] == POINT implies #[trigger] text[j]
        != POINT by {
        assert(text[i] == s[at + i]);
        assert(text[j] == s[at + j]);
        assert(at + i == whole);
    }
}

/// Whether every literal among the tokens is a numeral and every identifier
/// one of the six names.
pub open spec fn well_formed(tokens: Seq<SpecToken>) -> bool {
    forall|k: int|
        0 <= k < tokens.len() ==> match (#[trigger] tokens[k]).kind {
            SpecTokenKind::Real(text) => is_numeral(text),
            SpecTokenKind::Imag(text) => is_numeral(text),
            SpecTokenKind::Ident(name) => is_name(name),
            _ => true,
        }
}

/// Whether the positions of the tokens strictly increase and each lies
/// after `floor` and within a text of `limit` bytes.
pub open spec fn ascending(tokens: Seq<SpecToken>, floor: int, limit: int) -> bool {
    &&& forall|k: int| 0 <= k < tokens.len() ==> floor < (#[trigger] tokens[k]).position <= limit
    &&& forall|j: int, k: int|
        0 <= j < k < tokens.len() ==> (#[trigger] tokens[j]).position < (
        #[trigger] tokens[k]).position
}

/// What holds of the tokens from `from` on: their positions strictly
/// increase from `from + 1` on, and each is well formed. An error lies at a
/// byte after `from` that is neither blank nor the start of a token.
pub proof fn lemma_lex_from(s: Seq<u8>, from: int)
    requires
        0 <= from,
        s.len() <= usize::MAX,
    ensures
        match lex_from(s, from) {
            Ok(tokens) => ascending(tokens, from, s.len() as int) && well_formed(tokens),
            Err(e) => {
                &&& e.message == "unexpected character"
                &&& from < e.position <= s.len()
                &&& !is_blank(s[e.position - 1])
                &&& scan(s, e.position - 1) is None
            },
        },
    decreases s.len() - from,
{
    if from >= s.len() {
    } else if is_blank(s[from]) {
        lemma_lex_from(s, from + 1);
    } else {
        match scan(s, from) {
            None => {},
            Some((kind, next)) => {
                lemma_scan_advances(s, from);
                lemma_lex_from(s, next);
                if is_digit(s[from]) {
                    lemma_numeral_text(s, from);
                }
                assert(is_numeral(one_text()));
                let first = SpecToken { kind, position: (from + 1) as usize };
                match lex_from(s, next) {
                    Ok(rest) => {
                        let tokens = seq![first] + rest;
                        assert forall|k: int| 0 <= k < tokens.len() implies from < (
                        #[trigger] tokens[k]).position <= s.len() by {
                            if k > 0 {
                                assert(tokens[k] == rest[k - 1]);
                            }
                        }
                        assert forall|j: int, k: int| 0 <= j < k < tokens.len() implies (
                        #[trigger] tokens[j]).position < (#[trigger] tokens[k]).position by {
                            assert(tokens[k] == rest[k - 1]);
                            if j > 0 {
                                assert(tokens[j] == rest[j - 1]);
                            }
                        }
                        assert forall|k: int| 0 <= k < tokens.len() implies match (
                        #[trigger] tokens[k]).kind {
                            SpecTokenKind::Real(text) => is_numeral(text),
                            SpecTokenKind::Imag(text) => is_numeral(text),
                            SpecTokenKind::Ident(name) => is_name(name),
                            _ => true,
                        } by {
                            if k > 0 {
                                assert(tokens[k] == rest[k - 1]);
                            }
                        }
                    },
                    Err(e) => {},
                }
            },
        }
    }
}

/// Lexing yields tokens whose positions strictly increase within the text,
/// with numerals for literals and the six names for identifiers, or it
/// yields an error at a byte that is neither blank nor the start of a
/// token.
pub proof fn lemma_lex(s: Seq<u8>)
    requires
        s.len() <= usize::MAX,
    ensures
        match lex(s) {
            Ok(tokens) => ascending(tokens, 0, s.len() as int) && well_formed(tokens),
            Err(e) => {
                &&& e.message == "unexpected character"
                &&& 0 < e.position <= s.len()
                &&& !is_blank(s[e.position - 1])
                &&& scan(s, e.position - 1) is None
            },
        },
{
    lemma_lex_from(s, 0);
}

/// The end of the run of digits that starts at `from`.
fn scan_digits(bytes: &[u8], from: usize) -> (end: usize)
    requires
        from <= bytes@.len(),
    ensures
        end == digits_end(bytes@, from as int),
        from <= end <= bytes@.len(),
{
    let mut end: usize = from;
    while end < bytes.len() && DIGIT_ZERO <= bytes[end] && bytes[end] <= DIGIT_NINE
        invariant
            from <= end <= bytes@.len(),
            digits_end(bytes@, from as int) == digits_end(bytes@, end as int),
        decreases bytes@.len() - end,
    {
        end += 1;
    }
    end
}

/// The bytes from `from` up to `to`.
fn copy_range(bytes: &[u8], from: usize, to: usize) -> (text: Vec<u8>)
    requires
        from <= to <= bytes@.len(),
    ensures
        text@ == bytes@.subrange(from as int, to as int),
{
    let mut text: Vec<u8> = Vec::new();
    let mut i: usize = from;
    while i < to
        invariant
            from <= i <= to <= bytes@.len(),
            text@ == bytes@.subrange(from as int, i as int),
        decreases to - i,
    {
        text.push(bytes[i]);
        i += 1;
        assert(text@ =~= bytes@.subrange(from as int, i as int));
    }
    text
}

/// The token that starts at byte `at`, with the offset of the byte after it.
fn scan_token(bytes: &[u8], at: usize) -> (r: Option<(TokenKind, usize)>)
    requires
        at < bytes@.len(),
    ensures
        match r {
            Some((kind, next)) => scan(bytes@, at as int) == Some((kind@, next as int)) && at
                < next <= bytes@.len(),
            None => scan(bytes@, at as int) is None,
        },
{
    let b = bytes[at];
    if b == LEFT_PAREN {
        Some((TokenKind::LParen, at + 1))
    } else if b == RIGHT_PAREN {
        Some((TokenKind::RParen, at + 1))
    } else if b == PLUS {
        Some((TokenKind::Add, at + 1))
    } else if b == MINUS {
        Some((TokenKind::Sub, at + 1))
    } else if b == STAR {
        Some((TokenKind::Mul, at + 1))
    } else if b == SLASH {
        Some((TokenKind::Div, at + 1))
    } else if b == NAME_W || b == NAME_H || b == NAME_X || b == NAME_Y || b == NAME_C || b
        == NAME_Z {
        Some((TokenKind::Ident(b), at + 1))
    } else if b == IMAGINARY_UNIT {
        Some((TokenKind::Imag(Literal::one()), at + 1))
    } else if DIGIT_ZERO <= b && b <= DIGIT_NINE {
        let whole = scan_digits(bytes, at);
        let end = if whole < bytes.len() && bytes[whole] == POINT {
            scan_digits(bytes, whole + 1)
        } else {
            whole
        };
        proof {
            lemma_numeral_text(bytes@, at as int);
        }
        let literal = Literal { text: copy_range(bytes, at, end) };
        if end < bytes.len() && bytes[end] == IMAGINARY_UNIT {
            Some((TokenKind::Imag(literal), end + 1))
        } else {
            Some((TokenKind::Real(literal), end))
        }
    } else {
        None
    }
}

/// Turns source text into its tokens, each with the 1-based offset of its
/// first byte. Fails at the first byte that is reached between tokens and
/// is neither blank nor the start of a token.
pub fn tokenize(input: &str) -> (r: Result<Vec<Token>, Error>)
    ensures
        lexed_view(r) == lex(input.spec_bytes()),
        r matches Ok(tokens) ==> ascending(
            token_views(tokens@),
            0,
            input.spec_bytes().len() as int,
        ) && well_formed(token_views(tokens@)),
{
    let bytes = input.as_bytes();
    let ghost s = bytes@;
    let mut tokens: Vec<Token> = Vec::new();
    let n = bytes.len();
    let mut i: usize = 0;
    assert(token_views(tokens@) =~= Seq::empty());
    while i < n
        invariant
            s == bytes@,
            s == input.spec_bytes(),
            n == s.len(),
            i <= n,
            lex(s) == followed_by(token_views(tokens@), lex_from(s, i as int)),
        decreases s.len() - i,
    {
        let b = bytes[i];
        if b == SPACE || b == TAB {
            i += 1;
        } else {
            match scan_token(bytes, i) {
                None => {
                    let e = Error { message: "unexpected character", position: i + 1 };
                    assert(lex_from(s, i as int) == Err::<Seq<SpecToken>, Error>(e));
                    return Err(e);
                },
                Some((kind, next)) => {
                    let ghost before = token_views(tokens@);
                    let token = Token { kind, position: i + 1 };
                    tokens.push(token);
                    proof {
                        let rest = lex_from(s, next as int);
                        assert(token_views(tokens@) =~= before + seq![token@]);
                        if let Ok(more) = rest {
                            assert(before + (seq![token@] + more) =~= (before + seq![token@])
                                + more);
                        }
                    }
                    i = next;
                },
            }
        }
    }
    proof {
        assert(token_views(tokens@) + Seq::<SpecToken>::empty() =~= token_views(tokens@));
        lemma_lex(s);
    }
    Ok(tokens)
}

} // verus!
