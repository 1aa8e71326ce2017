use vstd::prelude::*;
use vstd::string::StringSliceAdditionalSpecFns;

verus! {

/// The kind of a token, without its position and text.
#[derive(Debug, Clone, Copy, PartialEq, Eq, Structural)]
pub enum TokenKind {
    Plus,
    Minus,
    Times,
    GreaterThan,
    Equals,
    Colon,
    Comma,
    Arrow,
    FunctionDeclaration,
    VariableDeclaration,
    SemiColon,
    OpenBracket,
    CloseBracket,
    OpenCurly,
    CloseCurly,
    Space,
    Newline,
    NumericLiteral,
    Identifier,
    Unknown,
}

/// A token of the source buffer: its kind, with the byte offset at which it
/// starts and the text it stands for.
#[derive(Debug, Clone, Copy)]
pub enum Token<'buffer> {
    // --- Operators ---
    // Arithmetic Operators
    Plus(Inner<'buffer>),
    Minus(Inner<'buffer>),
    Times(Inner<'buffer>),
    // Comparison Operators
    GreaterThan(Inner<'buffer>),
    Equals(Inner<'buffer>),
    // Misc Operators
    Colon(Inner<'buffer>),
    Comma(Inner<'buffer>),
    Arrow(Inner<'buffer>),
    // --- Initial / Terminal tokens ---
    FunctionDeclaration(Inner<'buffer>),
    VariableDeclaration(Inner<'buffer>),
    SemiColon(Inner<'buffer>),
    OpenBracket(Inner<'buffer>),
    CloseBracket(Inner<'buffer>),
    OpenCurly(Inner<'buffer>),
    CloseCurly(Inner<'buffer>),
    // --- Whitespace ---
    Space(Inner<'buffer>),
    Newline(Inner<'buffer>),
    // --- Literals / Identifiers ---
    NumericLiteral(Inner<'buffer>),
    Identifier(Inner<'buffer>),
    Unknown(Inner<'buffer>),
}

/// The position and text of a token.
#[derive(Debug, Clone, Copy)]
pub struct Inner<'buffer> {
    pub loc: usize,
    pub slice: &'buffer str,
}

impl<'buffer> Inner<'buffer> {
    pub fn new(loc: usize, slice: &'buffer str) -> (r: Self)
        ensures
            r.loc == loc,
            r.slice == slice,
    {
        Self { loc, slice }
    }
}

/// The kind that a word of the source text is given: the reserved words
/// and symbols have a kind of their own, any other word is `Unknown`.
pub open spec fn word_kind(w: Seq<u8>) -> TokenKind {
    if w == seq![0x2Bu8] {
        TokenKind::Plus
    } else if w == seq![0x2Du8] {
        TokenKind::Minus
    } else if w == seq![0x2Au8] {
        TokenKind::Times
    } else if w == seq![0x3Eu8] {
        TokenKind::GreaterThan
    } else if w == seq![0x3Du8] {
        TokenKind::Equals
    } else if w == seq![0x3Au8] {
        TokenKind::Colon
    } else if w == seq![0x2Cu8] {
        TokenKind::Comma
    } else if w == seq![0x2Du8, 0x3Eu8] {
        TokenKind::Arrow
    } else if w == seq![0x66u8, 0x6Eu8] {
        TokenKind::FunctionDeclaration
    } else if w == seq![0x76u8, 0x61u8, 0x72u8] {
        TokenKind::VariableDeclaration
    } else if w == seq![0x3Bu8] {
        TokenKind::SemiColon
    } else if w == seq![0x28u8] {
        TokenKind::OpenBracket
    } else if w == seq![0x29u8] {
        TokenKind::CloseBracket
    } else if w == seq![0x7Bu8] {
        TokenKind::OpenCurly
    } else if w == seq![0x7Du8] {
        TokenKind::CloseCurly
    } else if w == seq![0x20u8] {
        TokenKind::Space
    } else if w == seq![0x0Au8] {
        TokenKind::Newline
    } else {
        TokenKind::Unknown
    }
}

/// The kind that a word lying between two boundaries of the source is
/// given: a reserved word keeps its kind, a word that starts with a decimal
/// digit is a numeric literal, any other word is an identifier.
pub open spec fn classify_word(w: Seq<u8>) -> TokenKind {
    let k = word_kind(w);
    if k != TokenKind::Unknown {
        k
    } else if w.len() > 0 && 0x30 <= w[0] <= 0x39 {
        TokenKind::NumericLiteral
    } else {
        TokenKind::Identifier
    }
}

/// The precedence pair (left, right) of a token kind.
pub open spec fn kind_precedence(k: TokenKind) -> (u8, u8) {
    match k {
        TokenKind::Plus | TokenKind::Minus => (3, 4),
        TokenKind::Times => (5, 6),
        TokenKind::Equals | TokenKind::OpenCurly => (3, 4),
        TokenKind::Colon => (5, 6),
        _ => (0, 0),
    }
}

pub open spec fn kind_is_operator(k: TokenKind) -> bool {
    match k {
        TokenKind::Plus | TokenKind::Minus | TokenKind::Times | TokenKind::GreaterThan
        | TokenKind::Equals | TokenKind::Colon | TokenKind::Comma | TokenKind::Arrow => true,
        _ => false,
    }
}

pub open spec fn kind_is_initial(k: TokenKind) -> bool {
    match k {
        TokenKind::FunctionDeclaration | TokenKind::VariableDeclaration
        | TokenKind::OpenBracket | TokenKind::OpenCurly => true,
        _ => false,
    }
}

pub open spec fn kind_is_terminal(k: TokenKind) -> bool {
    match k {
        TokenKind::SemiColon | TokenKind::CloseBracket | TokenKind::CloseCurly => true,
        _ => false,
    }
}

impl<'buffer> Token<'buffer> {
    /// The token of kind `k` that holds `inner`.
    pub open spec fn of_kind(k: TokenKind, inner: Inner<'buffer>) -> Token<'buffer> {
        match k {
            TokenKind::Plus => Token::Plus(inner),
            TokenKind::Minus => Token::Minus(inner),
            TokenKind::Times => Token::Times(inner),
            TokenKind::GreaterThan => Token::GreaterThan(inner),
            TokenKind::Equals => Token::Equals(inner),
            TokenKind::Colon => Token::Colon(inner),
            TokenKind::Comma => Token::Comma(inner),
            TokenKind::Arrow => Token::Arrow(inner),
            TokenKind::FunctionDeclaration => Token::FunctionDeclaration(inner),
            TokenKind::VariableDeclaration => Token::VariableDeclaration(inner),
            TokenKind::SemiColon => Token::SemiColon(inner),
            TokenKind::OpenBracket => Token::OpenBracket(inner),
            TokenKind::CloseBracket => Token::CloseBracket(inner),
            TokenKind::OpenCurly => Token::OpenCurly(inner),
            TokenKind::CloseCurly => Token::CloseCurly(inner),
            TokenKind::Space => Token::Space(inner),
            TokenKind::Newline => Token::Newline(inner),
            TokenKind::NumericLiteral => Token::NumericLiteral(inner),
            TokenKind::Identifier => Token::Identifier(inner),
            TokenKind::Unknown => Token::Unknown(inner),
        }
    }

    pub open spec fn kind(self) -> TokenKind {
        match self {
            Token::Plus(_) => TokenKind::Plus,
            Token::Minus(_) => TokenKind::Minus,
            Token::Times(_) => TokenKind::Times,
            Token::GreaterThan(_) => TokenKind::GreaterThan,
            Token::Equals(_) => TokenKind::Equals,
            Token::Colon(_) => TokenKind::Colon,
            Token::Comma(_) => TokenKind::Comma,
            Token::Arrow(_) => TokenKind::Arrow,
            Token::FunctionDeclaration(_) => TokenKind::FunctionDeclaration,
            Token::VariableDeclaration(_) => TokenKind::VariableDeclaration,
            Token::SemiColon(_) => TokenKind::SemiColon,
            Token::OpenBracket(_) => TokenKind::OpenBracket,
            Token::CloseBracket(_) => TokenKind::CloseBracket,
            Token::OpenCurly(_) => TokenKind::OpenCurly,
            Token::CloseCurly(_) => TokenKind::CloseCurly,
            Token::Space(_) => TokenKind::Space,
            Token::Newline(_) => TokenKind::Newline,
            Token::NumericLiteral(_) => TokenKind::NumericLiteral,
            Token::Identifier(_) => TokenKind::Identifier,
            Token::Unknown(_) => TokenKind::Unknown,
        }
    }

    pub open spec fn inner_of(self) -> Inner<'buffer> {
        match self {
            Token::Plus(i) => i,
            Token::Minus(i) => i,
            Token::Times(i) => i,
            Token::GreaterThan(i) => i,
            Token::Equals(i) => i,
            Token::Colon(i) => i,
            Token::Comma(i) => i,
            Token::Arrow(i) => i,
            Token::FunctionDeclaration(i) => i,
            Token::VariableDeclaration(i) => i,
            Token::SemiColon(i) => i,
            Token::OpenBracket(i) => i,
            Token::CloseBracket(i) => i,
            Token::OpenCurly(i) => i,
            Token::CloseCurly(i) => i,
            Token::Space(i) => i,
            Token::Newline(i) => i,
            Token::NumericLiteral(i) => i,
            Token::Identifier(i) => i,
            Token::Unknown(i) => i,
        }
    }

    /// The byte offset at which the token starts.
    pub open spec fn location(self) -> usize {
        self.inner_of().loc
    }

    /// The text of the token, as characters.
    pub open spec fn text(self) -> Seq<char> {
        self.inner_of().slice@
    }

    /// The text of the token, as UTF-8 bytes.
    pub open spec fn bytes(self) -> Seq<u8> {
        self.inner_of().slice.spec_bytes()
    }

    /// Space and newline tokens.
    pub open spec fn is_whitespace(self) -> bool {
        self is Space || self is Newline
    }


    /// The position and text of the token.
    pub fn inner(&self) -> (r: &Inner<'buffer>)
        ensures
            *r == self.inner_of(),
    {
        match self {
            Token::Plus(inner) => inner,
            Token::Minus(inner) => inner,
            Token::Times(inner) => inner,
            Token::GreaterThan(inner) => inner,
            Token::Equals(inner) => inner,
            Token::Colon(inner) => inner,
            Token::Comma(inner) => inner,
            Token::Arrow(inner) => inner,
            Token::FunctionDeclaration(inner) => inner,
            Token::VariableDeclaration(inner) => inner,
            Token::SemiColon(inner) => inner,
            Token::OpenBracket(inner) => inner,
            Token::CloseBracket(inner) => inner,
            Token::OpenCurly(inner) => inner,
            Token::CloseCurly(inner) => inner,
            Token::Space(inner) => inner,
            Token::Newline(inner) => inner,
            Token::NumericLiteral(inner) => inner,
            Token::Identifier(inner) => inner,
            Token::Unknown(inner) => inner,
        }
    }

    /// The position and text of the token, for writing.
    pub fn inner_mut(&mut self) -> (r: &mut Inner<'buffer>)
        ensures
            *r == old(self).inner_of(),
            *final(self) == Token::of_kind(old(self).kind(), *final(r)),
    {
        match self {
            Token::Plus(inner) => inner,
            Token::Minus(inner) => inner,
            Token::Times(inner) => inner,
            Token::GreaterThan(inner) => inner,
            Token::Equals(inner) => inner,
            Token::Colon(inner) => inner,
            Token::Comma(inner) => inner,
            Token::Arrow(inner) => inner,
            Token::FunctionDeclaration(inner) => inner,
            Token::VariableDeclaration(inner) => inner,
            Token::SemiColon(inner) => inner,
            Token::OpenBracket(inner) => inner,
            Token::CloseBracket(inner) => inner,
            Token::OpenCurly(inner) => inner,
            Token::CloseCurly(inner) => inner,
            Token::Space(inner) => inner,
            Token::Newline(inner) => inner,
            Token::NumericLiteral(inner) => inner,
            Token::Identifier(inner) => inner,
            Token::Unknown(inner) => inner,
        }
    }

    /// The byte offset at which the token starts.
    pub fn loc(&self) -> (r: usize)
        ensures
            r == self.location(),
    {
        self.inner().loc
    }

    /// The text of the token.
    pub fn as_str(&self) -> (r: &'buffer str)
        ensures
            r == self.inner_of().slice,
    {
        self.inner().slice
    }

    pub fn is_operator(&self) -> (r: bool)
        ensures
            r == kind_is_operator(self.kind()),
    {
        match self {
            Token::Plus(_) | Token::Minus(_) | Token::Times(_) | Token::GreaterThan(_)
            | Token::Equals(_) | Token::Colon(_) | Token::Comma(_) | Token::Arrow(_) => true,
            _ => false,
        }
    }

    pub fn is_initial(&self) -> (r: bool)
        ensures
            r == kind_is_initial(self.kind()),
    {
        match self {
            Token::FunctionDeclaration(_) | Token::VariableDeclaration(_)
            | Token::OpenBracket(_) | Token::OpenCurly(_) => true,
            _ => false,
        }
    }

    pub fn is_terminal(&self) -> (r: bool)
        ensures
            r == kind_is_terminal(self.kind()),
    {
        match self {
            Token::SemiColon(_) | Token::CloseBracket(_) | Token::CloseCurly(_) => true,
            _ => false,
        }
    }

    /// The (left, right) binding power of the token in an expression.
    pub fn precedence(&self) -> (r: (u8, u8))
        ensures
            r == kind_precedence(self.kind()),
    {
        match self {
            // Operators
            Token::Plus(_) | Token::Minus(_) => (3, 4),
            Token::Times(_) => (5, 6),
            Token::Equals(_) | Token::OpenCurly(_) => (3, 4),
            Token::Colon(_) => (5, 6),
            _ => (0, 0),
        }
    }

    /// The text of the token as an owned string.
    pub fn to_string(&self) -> (r: String)
        ensures
            r@ == self.text(),
    {
        String::from_str(self.as_str())
    }

    /// Builds the token that the word `slice`, found at byte offset `loc`, stands for.
    pub fn from(loc: usize, slice: &'buffer str) -> (t: Self)
        ensures
            t == Token::of_kind(word_kind(slice.spec_bytes()), Inner { loc, slice }),
    {
        let bytes = slice.as_bytes();
        let inner = Inner::new(loc, slice);
        let n = bytes.len();
        if n == 1 {
            let b = bytes[0];
            assert(slice.spec_bytes() == seq![b]);
            if b == 0x2B {
                Token::Plus(inner)
            } else if b == 0x2D {
                Token::Minus(inner)
            } else if b == 0x2A {
                Token::Times(inner)
            } else if b == 0x3E {
                Token::GreaterThan(inner)
            } else if b == 0x3D {
                Token::Equals(inner)
            } else if b == 0x3A {
                Token::Colon(inner)
            } else if b == 0x2C {
                Token::Comma(inner)
            } else if b == 0x3B {
                Token::SemiColon(inner)
            } else if b == 0x28 {
                Token::OpenBracket(inner)
            } else if b == 0x29 {
                Token::CloseBracket(inner)
            } else if b == 0x7B {
                Token::OpenCurly(inner)
            } else if b == 0x7D {
                Token::CloseCurly(inner)
            } else if b == 0x20 {
                Token::Space(inner)
            } else if b == 0x0A {
                Token::Newline(inner)
            } else {
                Token::Unknown(inner)
            }
        } else if n == 2 {
            let b0 = bytes[0];
            let b1 = bytes[1];
            assert(slice.spec_bytes() == seq![b0, b1]);
            if b0 == 0x2D && b1 == 0x3E {
                Token::Arrow(inner)
            } else if b0 == 0x66 && b1 == 0x6E {
                Token::FunctionDeclaration(inner)
            } else {
                Token::Unknown(inner)
            }
        } else if n == 3 {
            let b0 = bytes[0];
            let b1 = bytes[1];
            let b2 = bytes[2];
            assert(slice.spec_bytes() == seq![b0, b1, b2]);
            if b0 == 0x76 && b1 == 0x61 && b2 == 0x72 {
                Token::VariableDeclaration(inner)
            } else {
                Token::Unknown(inner)
            }
        } else {
            Token::Unknown(inner)
        }
    }
}

impl<'buffer> Default for Token<'buffer> {
    fn default() -> (t: Self)
        ensures
            t is Unknown,
            t.location() == 0,
            t.text() == "default"@,
    {
        Self::Unknown(Inner { loc: 0, slice: "default" })
    }
}

impl<'buffer> Token<'buffer> {
    /// Builds the token for a word found between two boundaries of the source
    /// at byte offset `loc`: reserved words as `from` gives them, numbers as
    /// numeric literals, other words as identifiers.
    pub fn from_word(loc: usize, slice: &'buffer str) -> (t: Self)
        ensures
            t == Token::of_kind(classify_word(slice.spec_bytes()), Inner { loc, slice }),
    {
        let t = Token::from(loc, slice);
        match t {
            Token::Unknown(inner) => {
                let bytes = slice.as_bytes();
                if bytes.len() > 0 && 0x30 <= bytes[0] && bytes[0] <= 0x39 {
                    Token::NumericLiteral(inner)
                } else {
                    Token::Identifier(inner)
                }
            },
            _ => t,
        }
    }
}

/// A token is a kind together with a position and a text, and the
/// accessors give back what built it: the token of kind `k` built on `inner`
/// has kind `k`, offset `inner.loc` and text `inner.slice`; every token is
/// the token of its own kind built on its own position and text; and giving
/// a token another position and text keeps its kind and gives back the new
/// ones.
pub proof fn law_token_round_trip<'b>(k: TokenKind, inner: Inner<'b>, t: Token<'b>, other: Inner<'b>)
    ensures
        Token::of_kind(k, inner).kind() == k,
        Token::of_kind(k, inner).inner_of() == inner,
        Token::of_kind(k, inner).location() == inner.loc,
        Token::of_kind(k, inner).inner_of().slice == inner.slice,
        Token::of_kind(t.kind(), t.inner_of()) == t,
        Token::of_kind(t.kind(), other).kind() == t.kind(),
        Token::of_kind(t.kind(), other).location() == other.loc,
        Token::of_kind(t.kind(), other).inner_of().slice == other.slice,
{
}

/// Words are told apart by their first byte: a word that starts with a
/// decimal digit `0`..`9` is a numeric literal, and a word that starts with
/// an ASCII letter or `_` is an identifier, except the reserved words `fn`
/// and `var`.
pub proof fn law_word_classes(w: Seq<u8>)
    requires
        w.len() > 0,
    ensures
        0x30 <= w[0] <= 0x39 ==> classify_word(w) == TokenKind::NumericLiteral,
        (0x41 <= w[0] <= 0x5A || 0x61 <= w[0] <= 0x7A || w[0] == 0x5F) && w != seq![0x66u8, 0x6Eu8]
            && w != seq![0x76u8, 0x61u8, 0x72u8] ==> classify_word(w) == TokenKind::Identifier,
{
    let b = w[0];
    if 0x30 <= b <= 0x39 || 0x41 <= b <= 0x5A || 0x61 <= b <= 0x7A || b == 0x5F {
        assert(word_kind(w) == TokenKind::Unknown || word_kind(w) == TokenKind::FunctionDeclaration
            || word_kind(w) == TokenKind::VariableDeclaration) by {
            if w.len() == 1 {
                assert(w =~= seq![b]);
            }
            assert(forall|x: u8| w == seq![x] ==> w[0] == x);
        }
        if 0x30 <= b <= 0x39 {
            assert(w != seq![0x66u8, 0x6Eu8]) by {
                assert(seq![0x66u8, 0x6Eu8][0] == 0x66u8);
            }
            assert(w != seq![0x76u8, 0x61u8, 0x72u8]) by {
                assert(seq![0x76u8, 0x61u8, 0x72u8][0] == 0x76u8);
            }
        }
    }
}

} // verus!
