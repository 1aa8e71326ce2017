use vstd::prelude::*;
use vstd::string::StringSliceAdditionalSpecFns;
use vstd::utf8::*;

use crate::text::substr;
use crate::token::{classify_word, word_kind, Inner, Token, TokenKind};

verus! {

/// A lexer for source text whose delimiters are ASCII characters.
pub struct AsciiLexer;

/// The characters at which a word of the source ends.
pub open spec fn word_boundary(c: char) -> bool {
    c == '\n' || c == ' ' || c == '"' || c == '#' || c == '%' || c == '&' || c == '\''
        || c == '(' || c == ')' || c == '*' || c == '+' || c == ',' || c == '-' || c == '.'
        || c == '/' || c == ':' || c == ';' || c == '<' || c == '=' || c == '>' || c == '?'
        || c == '`' || c == '{' || c == '}'
}

/// A byte of the source that ends a word.
pub open spec fn boundary_byte(b: u8) -> bool {
    word_boundary(b as char)
}

/// What the lexer records of a token: its kind, its byte offset and its text.
pub type Lexeme = (TokenKind, usize, Seq<u8>);

pub open spec fn lexeme(t: Token) -> Lexeme {
    (t.kind(), t.location(), t.bytes())
}

pub open spec fn lexemes(ts: Seq<Token>) -> Seq<Lexeme> {
    ts.map_values(|t: Token| lexeme(t))
}

/// The text of the arrow token.
pub open spec fn arrow_bytes() -> Seq<u8> {
    seq![0x2Du8, 0x3Eu8]
}

/// The state of the lexer once it has read the first `n` bytes of `bytes`:
/// the tokens so far, the kind of the last boundary token, and the offset
/// at which the current word started.
///
/// At a boundary byte, the word since the previous boundary (if any) becomes
/// a token, then the boundary byte itself: a `>` right after a `-`, with
/// nothing between them, joins it into an arrow that replaces the `-`;
/// spaces and newlines are boundaries that give no token. A word after the
/// last boundary gives no token.
pub open spec fn lex_prefix(bytes: Seq<u8>, n: nat) -> (Seq<Lexeme>, TokenKind, nat)
    decreases n,
{
    if n == 0 || n > bytes.len() {
        (seq![], TokenKind::Unknown, 0)
    } else {
        let prev = lex_prefix(bytes, (n - 1) as nat);
        let toks = prev.0;
        let last = prev.1;
        let last_idx = prev.2;
        let idx = (n - 1) as nat;
        let b = bytes[idx as int];
        if !boundary_byte(b) {
            prev
        } else {
            let toks1 = if last_idx != idx {
                let w = bytes.subrange(last_idx as int, idx as int);
                toks.push((classify_word(w), last_idx as usize, w))
            } else {
                toks
            };
            let k = word_kind(seq![b]);
            if k == TokenKind::GreaterThan && last == TokenKind::Minus && last_idx == idx {
                (
                    toks1.drop_last().push((TokenKind::Arrow, (idx - 1) as usize, arrow_bytes())),
                    TokenKind::Arrow,
                    n,
                )
            } else if k == TokenKind::Space || k == TokenKind::Newline {
                (toks1, k, n)
            } else {
                (toks1.push((k, idx as usize, seq![b])), k, n)
            }
        }
    }
}

/// The tokens of the whole of `bytes`.
pub open spec fn lex(bytes: Seq<u8>) -> Seq<Lexeme> {
    lex_prefix(bytes, bytes.len()).0
}

proof fn lemma_arrow_bytes()
    ensures
        "->".spec_bytes() == arrow_bytes(),
{
    reveal_strlit("->");
    let c = "->"@;
    assert(c.len() == 2);
    assert(c[0] == '-' && c[1] == '>');
    assert((0x2Du32 & 0x7Fu32) as u8 == 0x2Du8) by (bit_vector);
    assert((0x3Eu32 & 0x7Fu32) as u8 == 0x3Eu8) by (bit_vector);
    reveal_with_fuel(encode_utf8, 3);
    assert(c.drop_first().drop_first().len() == 0);
    assert(encode_utf8(c.drop_first()) =~= seq![0x3Eu8]);
    assert(encode_utf8(c) =~= arrow_bytes());
}

/// The tokens of a prefix: each is a nonempty run of the source bytes at its
/// location, ending at or before the start of the current word; each ends at
/// or before the next one starts; none is a space or a newline; and when the
/// last boundary was a `-`, the last token is that `-`.
proof fn lemma_lex_prefix_shape(bytes: Seq<u8>, n: nat)
    requires
        n <= bytes.len(),
        bytes.len() <= usize::MAX,
    ensures
        lex_prefix(bytes, n).2 <= n,
        lex_prefix(bytes, n).2 > 0 ==> boundary_byte(bytes[lex_prefix(bytes, n).2 - 1]),
        forall|k: int| lex_prefix(bytes, n).2 <= k < n ==> !boundary_byte(#[trigger] bytes[k]),
        lex_prefix(bytes, n).1 == TokenKind::Minus ==> {
            let toks = lex_prefix(bytes, n).0;
            &&& lex_prefix(bytes, n).2 > 0
            &&& toks.len() > 0
            &&& toks.last().1 + 1 == lex_prefix(bytes, n).2
            &&& bytes[lex_prefix(bytes, n).2 - 1] == 0x2Du8
        },
        forall|i: int, j: int|
            0 <= i < j < lex_prefix(bytes, n).0.len() ==> (#[trigger] lex_prefix(bytes, n).0[i]).1
                + lex_prefix(bytes, n).0[i].2.len() <= (#[trigger] lex_prefix(bytes, n).0[j]).1,
        forall|i: int|
            0 <= i < lex_prefix(bytes, n).0.len() ==> {
                let l = #[trigger] lex_prefix(bytes, n).0[i];
                &&& l.1 + l.2.len() <= lex_prefix(bytes, n).2
                &&& l.2.len() > 0
                &&& l.2 == bytes.subrange(l.1 as int, l.1 + l.2.len())
                &&& l.0 != TokenKind::Space && l.0 != TokenKind::Newline
            },
    decreases n,
{
    if n > 0 {
        let m = (n - 1) as nat;
        lemma_lex_prefix_shape(bytes, m);
        let prev = lex_prefix(bytes, m);
        let toks = prev.0;
        let last_idx = prev.2;
        let idx = m;
        let b = bytes[idx as int];
        if boundary_byte(b) {
            let w = bytes.subrange(last_idx as int, idx as int);
            let toks1 = if last_idx != idx {
                toks.push((classify_word(w), last_idx as usize, w))
            } else {
                toks
            };
            if last_idx != idx {
                assert(!boundary_byte(bytes[last_idx as int]));
                assert(word_kind(w) != TokenKind::Space) by {
                    if word_kind(w) == TokenKind::Space {
                        assert(w[0] == 0x20u8);
                        assert(w[0] == bytes[last_idx as int]);
                    }
                }
                assert(word_kind(w) != TokenKind::Newline) by {
                    if word_kind(w) == TokenKind::Newline {
                        assert(w[0] == 0x0Au8);
                        assert(w[0] == bytes[last_idx as int]);
                    }
                }
            }
            assert forall|i: int, j: int|
                0 <= i < j < toks1.len() implies (#[trigger] toks1[i]).1 + toks1[i].2.len() <= (
                #[trigger] toks1[j]).1 by {
                assert(toks1[i] == toks[i]);
                if j < toks.len() {
                    assert(toks1[j] == toks[j]);
                }
            }
            assert forall|i: int| 0 <= i < toks1.len() implies {
                let l = #[trigger] toks1[i];
                &&& l.1 + l.2.len() <= idx
                &&& l.2.len() > 0
                &&& l.2 == bytes.subrange(l.1 as int, l.1 + l.2.len())
                &&& l.0 != TokenKind::Space && l.0 != TokenKind::Newline
            } by {
                if i < toks.len() {
                    assert(toks1[i] == toks[i]);
                }
            }
            let k = word_kind(seq![b]);
            if k == TokenKind::GreaterThan && prev.1 == TokenKind::Minus && last_idx == idx {
                let toks2 = toks1.drop_last();
                let r = toks2.push((TokenKind::Arrow, (idx - 1) as usize, arrow_bytes()));
                assert(lex_prefix(bytes, n).0 == r);
                assert(b == 0x3Eu8) by {
                    assert(seq![b][0] == b);
                }
                assert(arrow_bytes() =~= bytes.subrange(idx - 1, idx + 1int));
                assert forall|i: int, j: int| 0 <= i < j < r.len() implies (#[trigger] r[i]).1
                    + r[i].2.len() <= (#[trigger] r[j]).1 by {
                    assert(r[i] == toks1[i]);
                    if j < toks2.len() {
                        assert(r[j] == toks1[j]);
                    } else {
                        assert(toks1[i].1 + toks1[i].2.len() <= toks1[toks1.len() - 1].1);
                    }
                }
                assert forall|i: int| 0 <= i < r.len() implies {
                    let l = #[trigger] r[i];
                    &&& l.1 + l.2.len() <= n
                    &&& l.2.len() > 0
                    &&& l.2 == bytes.subrange(l.1 as int, l.1 + l.2.len())
                    &&& l.0 != TokenKind::Space && l.0 != TokenKind::Newline
                } by {
                    if i < toks2.len() {
                        assert(r[i] == toks1[i]);
                    }
                }
            } else if k == TokenKind::Space || k == TokenKind::Newline {
                assert(lex_prefix(bytes, n).0 == toks1);
            } else {
                let r = toks1.push((k, idx as usize, seq![b]));
                assert(lex_prefix(bytes, n).0 == r);
                assert(seq![b] =~= bytes.subrange(idx as int, idx + 1 as int));
                if k == TokenKind::Minus {
                    assert(b == 0x2Du8) by {
                        assert(seq![b][0] == b);
                    }
                }
                assert forall|i: int, j: int| 0 <= i < j < r.len() implies (#[trigger] r[i]).1
                    + r[i].2.len() <= (#[trigger] r[j]).1 by {
                    assert(r[i] == toks1[i]);
                    if j < toks1.len() {
                        assert(r[j] == toks1[j]);
                    }
                }
                assert forall|i: int| 0 <= i < r.len() implies {
                    let l = #[trigger] r[i];
                    &&& l.1 + l.2.len() <= n
                    &&& l.2.len() > 0
                    &&& l.2 == bytes.subrange(l.1 as int, l.1 + l.2.len())
                    &&& l.0 != TokenKind::Space && l.0 != TokenKind::Newline
                } by {
                    if i < toks1.len() {
                        assert(r[i] == toks1[i]);
                    }
                }
            }
        }
    }
}

/// The texts of `ls`, one after another.
pub open spec fn lexeme_bytes(ls: Seq<Lexeme>) -> Seq<u8>
    decreases ls.len(),
{
    if ls.len() == 0 {
        seq![]
    } else {
        lexeme_bytes(ls.drop_last()) + ls.last().2
    }
}

/// `bytes` without its spaces and newlines.
pub open spec fn drop_blanks(bytes: Seq<u8>) -> Seq<u8> {
    bytes.filter(|b: u8| b != 0x20u8 && b != 0x0Au8)
}

/// Where the lexer stops taking bytes in: just after the last boundary byte.
pub open spec fn lex_end(bytes: Seq<u8>) -> nat {
    lex_prefix(bytes, bytes.len()).2
}

proof fn lemma_drop_blanks_push(bytes: Seq<u8>, b: u8)
    ensures
        drop_blanks(bytes.push(b)) == if b != 0x20u8 && b != 0x0Au8 {
            drop_blanks(bytes).push(b)
        } else {
            drop_blanks(bytes)
        },
{
    bytes.lemma_filter_push(b, |b: u8| b != 0x20u8 && b != 0x0Au8);
}

/// A word has no spaces or newlines (they are boundaries), so it keeps all
/// its bytes.
proof fn lemma_drop_blanks_word(w: Seq<u8>)
    requires
        forall|i: int| 0 <= i < w.len() ==> !boundary_byte(#[trigger] w[i]),
    ensures
        drop_blanks(w) == w,
    decreases w.len(),
{
    if w.len() > 0 {
        lemma_drop_blanks_word(w.drop_last());
        assert(!boundary_byte(w[w.len() - 1]));
        lemma_drop_blanks_push(w.drop_last(), w.last());
        assert(w.drop_last().push(w.last()) =~= w);
    } else {
        assert(drop_blanks(w) =~= w) by {
            reveal(Seq::filter);
        }
    }
}

/// Up to a boundary, the bytes without blanks are those up to the start of
/// the word before it, without blanks, then that word.
proof fn lemma_drop_blanks_split(bytes: Seq<u8>, start: int, end: int)
    requires
        0 <= start <= end <= bytes.len(),
        forall|k: int| start <= k < end ==> !boundary_byte(#[trigger] bytes[k]),
    ensures
        drop_blanks(bytes.subrange(0, end)) == drop_blanks(bytes.subrange(0, start))
            + bytes.subrange(start, end),
{
    let w = bytes.subrange(start, end);
    assert forall|i: int| 0 <= i < w.len() implies !boundary_byte(#[trigger] w[i]) by {
        assert(w[i] == bytes[start + i]);
    }
    lemma_drop_blanks_word(w);
    assert(bytes.subrange(0, end) =~= bytes.subrange(0, start) + w);
    Seq::filter_distributes_over_add(
        bytes.subrange(0, start),
        w,
        |b: u8| b != 0x20u8 && b != 0x0Au8,
    );
}

/// No byte of the source is lost or repeated: the tokens' texts, one after
/// another, are the bytes up to the end of the last boundary, without spaces
/// and newlines.
#[verifier::rlimit(60)]
#[verifier::spinoff_prover]
proof fn lemma_lex_prefix_bytes(bytes: Seq<u8>, n: nat)
    requires
        n <= bytes.len(),
        bytes.len() <= usize::MAX,
    ensures
        lexeme_bytes(lex_prefix(bytes, n).0) == drop_blanks(
            bytes.subrange(0, lex_prefix(bytes, n).2 as int),
        ),
    decreases n,
{
    if n == 0 {
        assert(drop_blanks(bytes.subrange(0, 0)) =~= Seq::<u8>::empty()) by {
            reveal(Seq::filter);
        }
    } else {
        let m = (n - 1) as nat;
        lemma_lex_prefix_bytes(bytes, m);
        lemma_lex_prefix_shape(bytes, m);
        let prev = lex_prefix(bytes, m);
        let toks = prev.0;
        let last_idx = prev.2;
        let idx = m;
        let b = bytes[idx as int];
        if boundary_byte(b) {
            let w = bytes.subrange(last_idx as int, idx as int);
            let toks1 = if last_idx != idx {
                toks.push((classify_word(w), last_idx as usize, w))
            } else {
                toks
            };
            lemma_drop_blanks_split(bytes, last_idx as int, idx as int);
            assert(toks.push((classify_word(w), last_idx as usize, w)).drop_last() =~= toks);
            assert(lexeme_bytes(toks1) =~= drop_blanks(bytes.subrange(0, idx as int)));
            assert(bytes.subrange(0, n as int) =~= bytes.subrange(0, idx as int).push(b));
            lemma_drop_blanks_push(bytes.subrange(0, idx as int), b);
            let k = word_kind(seq![b]);
            if k == TokenKind::GreaterThan && prev.1 == TokenKind::Minus && last_idx == idx {
                let last = toks.last();
                assert(last.2.len() == 1);
                assert(last.2 =~= seq![0x2Du8]);
                assert(b == 0x3Eu8) by {
                    assert(seq![b][0] == b);
                }
                let r = toks.drop_last().push((TokenKind::Arrow, (idx - 1) as usize, arrow_bytes()));
                assert(r.drop_last() =~= toks.drop_last());
                assert(toks.drop_last().push(last) =~= toks);
                assert(lexeme_bytes(r) =~= lexeme_bytes(toks).push(b));
            } else if k == TokenKind::Space || k == TokenKind::Newline {
                assert(b == 0x20u8 || b == 0x0Au8) by {
                    assert(seq![b][0] == b);
                }
            } else {
                assert(b != 0x20u8) by {
                    if b == 0x20u8 {
                        assert(seq![b][0] == b && seq![b].len() == 1);
                    }
                }
                assert(b != 0x0Au8) by {
                    if b == 0x0Au8 {
                        assert(seq![b][0] == b && seq![b].len() == 1);
                    }
                }
                let r = toks1.push((k, idx as usize, seq![b]));
                assert(r.drop_last() =~= toks1);
                assert(lexeme_bytes(r) =~= lexeme_bytes(toks1).push(b));
            }
        }
    }
}

/// Every byte that ends a word is ASCII.
proof fn lemma_boundary_ascii(b: u8)
    requires
        boundary_byte(b),
    ensures
        b < 0x80,
{
}

impl AsciiLexer {
    pub fn new() -> Self {
        AsciiLexer
    }
}

impl<'a> AsciiLexer {
    /// Splits `buf` into tokens: at each boundary byte, the word since the
    /// previous boundary, then the boundary itself (see `lex_prefix`).
    pub fn tokenize(&mut self, buf: &'a String) -> (tokens: Vec<Token<'a>>)
        ensures
            lexemes(tokens@) == lex(encode_utf8(buf@)),
            lexeme_bytes(lexemes(tokens@)) == drop_blanks(
                encode_utf8(buf@).subrange(0, lex_end(encode_utf8(buf@)) as int),
            ),
            forall|k: int|
                lex_end(encode_utf8(buf@)) <= k < encode_utf8(buf@).len() ==> !boundary_byte(
                    #[trigger] encode_utf8(buf@)[k],
                ),
            forall|i: int, j: int|
                0 <= i < j < tokens.len() ==> (#[trigger] tokens@[i]).location() + tokens@[i].bytes().len()
                    <= (#[trigger] tokens@[j]).location(),
            forall|i: int| 0 <= i < tokens.len() ==> !(#[trigger] tokens@[i]).is_whitespace(),
            forall|i: int|
                0 <= i < tokens.len() ==> {
                    let t = #[trigger] tokens@[i];
                    &&& t.bytes().len() > 0
                    &&& t.location() + t.bytes().len() <= encode_utf8(buf@).len()
                    &&& t.bytes() == encode_utf8(buf@).subrange(
                        t.location() as int,
                        t.location() + t.bytes().len(),
                    )
                },
    {
        let s: &'a str = buf.as_str();
        let bytes = s.as_bytes();
        let ghost bs = bytes@;
        let mut tokens: Vec<Token<'a>> = Vec::new();

        let mut last_token = Token::Unknown(Inner::new(0, ""));
        let mut last_idx: usize = 0;
        let mut idx: usize = 0;

        while idx < bytes.len()
            invariant
                bs == s.spec_bytes(),
                bs == bytes@,
                idx <= bytes.len(),
                lexemes(tokens@) == lex_prefix(bs, idx as nat).0,
                last_token.kind() == lex_prefix(bs, idx as nat).1,
                last_idx == lex_prefix(bs, idx as nat).2,
            decreases bytes.len() - idx,
        {
            proof {
                lemma_lex_prefix_shape(bs, idx as nat);
                if last_idx > 0 {
                    lemma_boundary_ascii(bs[last_idx - 1]);
                }
            }
            let byte = bytes[idx];
            let c: char = byte as char;

            if is_word_boundary(c) {
                proof {
                    lemma_boundary_ascii(byte);
                }
                let ghost toks0 = tokens@;
                // There might be a word between us and the previous boundary
                if last_idx != idx {
                    let word: &'a str = substr(s, last_idx, idx);
                    let word_token = Token::from_word(last_idx, word);
                    tokens.push(word_token);
                }
                let ghost toks1 = tokens@;
                assert(lexemes(toks1) == if last_idx != idx {
                    lexemes(toks0).push((classify_word(bs.subrange(last_idx as int, idx as int)), last_idx, bs.subrange(last_idx as int, idx as int)))
                } else {
                    lexemes(toks0)
                });

                let word: &'a str = substr(s, idx, idx + 1);
                assert(word.spec_bytes() =~= seq![byte]);
                // Store the boundary token
                let token = Token::from(idx, word);

                // Look behind to see if this is a two character boundary token
                match token {
                    Token::GreaterThan(_) => {
                        // Only a `-` right before the `>`, with no word
                        // between them, makes the two an arrow
                        let joins = match last_token {
                            Token::Minus(_) => last_idx == idx,
                            _ => false,
                        };
                        if joins {
                            tokens.pop();
                            proof {
                                lemma_arrow_bytes();
                            }
                            let token = Token::Arrow(Inner::new(idx - 1, "->"));
                            last_token = token;
                            tokens.push(token);
                        } else {
                            last_token = token;
                            tokens.push(token);
                        }
                    },
                    // Whitespace only separates words
                    Token::Space(_) | Token::Newline(_) => {
                        last_token = token;
                    },
                    _ => {
                        last_token = token;
                        tokens.push(token);
                    },
                }
                last_idx = idx + 1;
            }
            idx += 1;
        }
        proof {
            lemma_lex_prefix_shape(bs, idx as nat);
            lemma_lex_prefix_bytes(bs, idx as nat);
            assert forall|i: int, j: int|
                0 <= i < j < tokens.len() implies (#[trigger] tokens@[i]).location() + tokens@[i].bytes().len()
                    <= (#[trigger] tokens@[j]).location() by {
                assert(lexemes(tokens@)[i] == lexeme(tokens@[i]));
                assert(lexemes(tokens@)[j] == lexeme(tokens@[j]));
            }
            assert forall|i: int| 0 <= i < tokens.len() implies !(#[trigger] tokens@[i]).is_whitespace() by {
                assert(lexemes(tokens@)[i] == lexeme(tokens@[i]));
            }
            assert forall|i: int| 0 <= i < tokens.len() implies {
                let t = #[trigger] tokens@[i];
                &&& t.bytes().len() > 0
                &&& t.location() + t.bytes().len() <= encode_utf8(buf@).len()
                &&& t.bytes() == encode_utf8(buf@).subrange(
                    t.location() as int,
                    t.location() + t.bytes().len(),
                )
            } by {
                assert(lexemes(tokens@)[i] == lexeme(tokens@[i]));
            }
        }
        tokens
    }
}

impl Default for AsciiLexer {
    fn default() -> Self {
        Self::new()
    }
}

/// Whether `word` ends a word of the source.
pub fn is_word_boundary(word: char) -> (r: bool)
    ensures
        r == word_boundary(word),
{
    matches!(
        word,
        '\n' | ' '
            | '"'
            | '#'
            | '%'
            | '&'
            | '\''
            | '('
            | ')'
            | '*'
            | '+'
            | ','
            | '-'
            | '.'
            | '/'
            | ':'
            | ';'
            | '<'
            | '='
            | '>'
            | '?'
            | '`'
            | '{'
            | '}'
    )
}

} // verus!
