use vstd::prelude::*;
use vstd::slice::slice_subrange;
use vstd::string::StringSliceAdditionalSpecFns;
use vstd::utf8::{encode_utf8, valid_utf8};

use crate::error::ParseError;

verus! {

/// A lexical token.
#[derive(PartialEq, Eq, Debug, Clone)]
pub enum Token {
    Illegal,
    EOF,
    Identifier(String),
    Assign,
    Select,
    Sigma,
    Comma,
    LParen,
    RParen,
    LBracket,
    RBracket,
}

/// The mathematical value of a token; an identifier is given by its bytes.
pub enum SpecToken {
    Illegal,
    EOF,
    Identifier(Seq<u8>),
    Assign,
    Select,
    Sigma,
    Comma,
    LParen,
    RParen,
    LBracket,
    RBracket,
}

impl View for Token {
    type V = SpecToken;

    open spec fn view(&self) -> SpecToken {
        match self {
            Token::Illegal => SpecToken::Illegal,
            Token::EOF => SpecToken::EOF,
            Token::Identifier(s) => SpecToken::Identifier(encode_utf8(s@)),
            Token::Assign => SpecToken::Assign,
            Token::Select => SpecToken::Select,
            Token::Sigma => SpecToken::Sigma,
            Token::Comma => SpecToken::Comma,
            Token::LParen => SpecToken::LParen,
            Token::RParen => SpecToken::RParen,
            Token::LBracket => SpecToken::LBracket,
            Token::RBracket => SpecToken::RBracket,
        }
    }
}

pub open spec fn token_values(ts: Seq<Token>) -> Seq<SpecToken> {
    ts.map_values(|t: Token| t@)
}

/// Space, tab, line feed or carriage return.
pub open spec fn is_space(b: u8) -> bool {
    b == 32 || b == 9 || b == 10 || b == 13
}

/// An ASCII letter.
pub open spec fn is_alpha(b: u8) -> bool {
    (65 <= b <= 90) || (97 <= b <= 122)
}

/// An ASCII digit.
pub open spec fn is_digit(b: u8) -> bool {
    48 <= b <= 57
}

/// A byte that may begin an identifier: a letter or `_`.
pub open spec fn is_ident_start(b: u8) -> bool {
    is_alpha(b) || b == 95
}

/// A byte that may continue an identifier: a letter, a digit or `_`.
pub open spec fn is_ident_char(b: u8) -> bool {
    is_ident_start(b) || is_digit(b)
}

/// One of `,` `(` `)` `]` `[`.
pub open spec fn is_punct(b: u8) -> bool {
    b == 44 || b == 40 || b == 41 || b == 93 || b == 91
}

/// `=` or `.`.
pub open spec fn is_operator(b: u8) -> bool {
    b == 61 || b == 46
}

/// A byte at which no token goes on: whitespace, punctuation or an operator.
pub open spec fn is_break(b: u8) -> bool {
    is_space(b) || is_punct(b) || is_operator(b)
}

/// The keyword `sigma`.
pub open spec fn sigma_word() -> Seq<u8> {
    seq![115u8, 105u8, 103u8, 109u8, 97u8]
}

pub open spec fn starts_with(s: Seq<u8>, p: Seq<u8>) -> bool {
    p.len() <= s.len() && s.subrange(0, p.len() as int) == p
}

/// The number of identifier bytes at the front of `s`.
pub open spec fn ident_run(s: Seq<u8>) -> nat
    decreases s.len(),
{
    if s.len() > 0 && is_ident_char(s[0]) {
        1 + ident_run(s.drop_first())
    } else {
        0
    }
}

/// How many bytes the token at the front of the non-empty `s` spans.
pub open spec fn token_len(s: Seq<u8>) -> nat {
    if is_punct(s[0]) {
        1
    } else if starts_with(s, sigma_word()) {
        5
    } else if is_operator(s[0]) {
        1
    } else if is_ident_start(s[0]) {
        1 + ident_run(s.drop_first())
    } else {
        1
    }
}

/// The token at the front of the non-empty `s`: punctuation, then the
/// keyword, then operators, then an identifier; any other byte is illegal.
pub open spec fn first_token(s: Seq<u8>) -> SpecToken {
    if s[0] == 44 {
        SpecToken::Comma
    } else if s[0] == 40 {
        SpecToken::LParen
    } else if s[0] == 41 {
        SpecToken::RParen
    } else if s[0] == 93 {
        SpecToken::RBracket
    } else if s[0] == 91 {
        SpecToken::LBracket
    } else if starts_with(s, sigma_word()) {
        SpecToken::Sigma
    } else if s[0] == 61 {
        SpecToken::Assign
    } else if s[0] == 46 {
        SpecToken::Select
    } else if is_ident_start(s[0]) {
        SpecToken::Identifier(s.subrange(0, token_len(s) as int))
    } else {
        SpecToken::Illegal
    }
}

pub proof fn lemma_ident_run_bound(s: Seq<u8>)
    ensures
        ident_run(s) <= s.len(),
        forall|k: int| 0 <= k < ident_run(s) ==> is_ident_char(#[trigger] s[k]),
    decreases s.len(),
{
    if s.len() > 0 && is_ident_char(s[0]) {
        lemma_ident_run_bound(s.drop_first());
        assert forall|k: int| 0 <= k < ident_run(s) implies is_ident_char(#[trigger] s[k]) by {
            if k > 0 {
                assert(s[k] == s.drop_first()[k - 1]);
            }
        }
    }
}

pub proof fn lemma_token_len_bound(s: Seq<u8>)
    requires
        s.len() > 0,
    ensures
        1 <= token_len(s) <= s.len(),
{
    lemma_ident_run_bound(s.drop_first());
}

/// The tokens of `s`, whitespace between them skipped; no end marker.
pub open spec fn tokens_of(s: Seq<u8>) -> Seq<SpecToken>
    decreases s.len(),
{
    if s.len() == 0 {
        seq![]
    } else if is_space(s[0]) {
        tokens_of(s.drop_first())
    } else {
        proof {
            lemma_token_len_bound(s);
        }
        seq![first_token(s)] + tokens_of(s.subrange(token_len(s) as int, s.len() as int))
    }
}

fn space_byte(b: u8) -> (r: bool)
    ensures
        r == is_space(b),
{
    b == 32 || b == 9 || b == 10 || b == 13
}

fn ident_start_byte(b: u8) -> (r: bool)
    ensures
        r == is_ident_start(b),
{
    (b >= 65 && b <= 90) || (b >= 97 && b <= 122) || b == 95
}

fn ident_char_byte(b: u8) -> (r: bool)
    ensures
        r == is_ident_char(b),
{
    ident_start_byte(b) || (b >= 48 && b <= 57)
}

/// Bytes below 0x80 are valid UTF-8, one character each.
proof fn lemma_ascii_valid_utf8(b: Seq<u8>)
    requires
        forall|k: int| 0 <= k < b.len() ==> #[trigger] b[k] <= 0x7f,
    ensures
        valid_utf8(b),
    decreases b.len(),
{
    if b.len() > 0 {
        let x = b[0];
        assert(x & 0x7f <= 0x7f) by (bit_vector);
        let rest = b.subrange(1, b.len() as int);
        assert forall|k: int| 0 <= k < rest.len() implies #[trigger] rest[k] <= 0x7f by {
            assert(rest[k] == b[k + 1]);
        }
        lemma_ascii_valid_utf8(rest);
    }
}

#[verifier::external_type_specification]
#[verifier::external_body]
pub struct ExUtf8Error(core::str::Utf8Error);

/// Relies on std::str::from_utf8: it succeeds exactly when the bytes are
/// valid UTF-8, and the str it returns holds those same bytes.
#[verifier::external_body]
fn complete_byte_slice_str_from_utf8(c: &[u8]) -> (r: Result<&str, core::str::Utf8Error>)
    ensures
        r is Ok <==> valid_utf8(c@),
        r is Ok ==> r->Ok_0.spec_bytes() == c@,
{
    std::str::from_utf8(c)
}

fn identifier(input: &[u8]) -> (r: Option<(&[u8], Token)>)
    ensures
        r is Some <==> (input@.len() > 0 && is_ident_start(input@[0])),
        r is Some ==> r->Some_0.0@ == input@.subrange(
            1 + ident_run(input@.drop_first()) as int,
            input@.len() as int,
        ),
        r is Some ==> r->Some_0.1@ == SpecToken::Identifier(
            input@.subrange(0, 1 + ident_run(input@.drop_first()) as int),
        ),
{
    if input.len() == 0 || !ident_start_byte(input[0]) {
        return None;
    }
    let mut j: usize = 1;
    assert(input@.drop_first() =~= input@.subrange(1, input@.len() as int));
    while j < input.len() && ident_char_byte(input[j])
        invariant
            1 <= j <= input@.len(),
            is_ident_start(input@[0]),
            forall|k: int| 1 <= k < j ==> is_ident_char(#[trigger] input@[k]),
            ident_run(input@.drop_first()) == (j - 1) + ident_run(
                input@.subrange(j as int, input@.len() as int),
            ),
        decreases input@.len() - j,
    {
        assert(input@.subrange(j as int, input@.len() as int).drop_first() =~= input@.subrange(
            j + 1,
            input@.len() as int,
        ));
        j += 1;
    }
    let word = slice_subrange(input, 0, j);
    proof {
        assert forall|k: int| 0 <= k < word@.len() implies #[trigger] word@[k] <= 0x7f by {
            assert(word@[k] == input@[k]);
        }
        lemma_ascii_valid_utf8(word@);
    }
    match complete_byte_slice_str_from_utf8(word) {
        Ok(text) => Some((slice_subrange(input, j, input.len()), Token::Identifier(text.to_owned()))),
        Err(_) => None,
    }
}

fn punctuation(input: &[u8]) -> (r: Option<(&[u8], Token)>)
    ensures
        r is Some <==> (input@.len() > 0 && is_punct(input@[0])),
        r is Some ==> r->Some_0.0@ == input@.subrange(1, input@.len() as int),
        r is Some ==> r->Some_0.1@ == first_token(input@),
{
    if input.len() == 0 {
        return None;
    }
    let t = match input[0] {
        44 => Token::Comma,
        40 => Token::LParen,
        41 => Token::RParen,
        93 => Token::RBracket,
        91 => Token::LBracket,
        _ => {
            return None;
        },
    };
    Some((slice_subrange(input, 1, input.len()), t))
}

fn keywords(input: &[u8]) -> (r: Option<(&[u8], Token)>)
    ensures
        r is Some <==> starts_with(input@, sigma_word()),
        r is Some ==> r->Some_0.0@ == input@.subrange(5, input@.len() as int),
        r is Some ==> r->Some_0.1@ == SpecToken::Sigma,
{
    if input.len() >= 5 && input[0] == 115 && input[1] == 105 && input[2] == 103 && input[3] == 109
        && input[4] == 97 {
        assert(input@.subrange(0, 5) =~= sigma_word());
        Some((slice_subrange(input, 5, input.len()), Token::Sigma))
    } else {
        proof {
            if starts_with(input@, sigma_word()) {
                assert(input@.subrange(0, 5)[1] == input@[1]);
                assert(input@.subrange(0, 5)[2] == input@[2]);
                assert(input@.subrange(0, 5)[3] == input@[3]);
                assert(input@.subrange(0, 5)[4] == input@[4]);
                assert(input@.subrange(0, 5)[0] == input@[0]);
            }
        }
        None
    }
}

fn operators(input: &[u8]) -> (r: Option<(&[u8], Token)>)
    ensures
        r is Some <==> (input@.len() > 0 && is_operator(input@[0])),
        r is Some ==> r->Some_0.0@ == input@.subrange(1, input@.len() as int),
        r is Some ==> r->Some_0.1@ == (if input@[0] == 61 {
            SpecToken::Assign
        } else {
            SpecToken::Select
        }),
{
    if input.len() == 0 {
        return None;
    }
    let t = match input[0] {
        61 => Token::Assign,
        46 => Token::Select,
        _ => {
            return None;
        },
    };
    Some((slice_subrange(input, 1, input.len()), t))
}

/// Takes any one byte as an illegal token; fails on empty input.
fn lex_illegal(input: &[u8]) -> (r: Option<(&[u8], Token)>)
    ensures
        r is Some <==> input@.len() > 0,
        r is Some ==> r->Some_0.0@ == input@.subrange(1, input@.len() as int),
        r is Some ==> r->Some_0.1@ == SpecToken::Illegal,
{
    if input.len() == 0 {
        return None;
    }
    Some((slice_subrange(input, 1, input.len()), Token::Illegal))
}

/// Recognizes the token at the front of the input; fails only on empty input.
fn lex_token(input: &[u8]) -> (r: Option<(&[u8], Token)>)
    ensures
        r is Some <==> input@.len() > 0,
        r is Some ==> r->Some_0.1@ == first_token(input@),
        r is Some ==> r->Some_0.0@ == input@.subrange(
            token_len(input@) as int,
            input@.len() as int,
        ),
{
    if let Some(res) = punctuation(input) {
        return Some(res);
    }
    if let Some(res) = keywords(input) {
        return Some(res);
    }
    if let Some(res) = operators(input) {
        return Some(res);
    }
    if let Some(res) = identifier(input) {
        return Some(res);
    }
    lex_illegal(input)
}

/// Skips leading whitespace.
fn multispace0(input: &[u8]) -> (r: &[u8])
    ensures
        tokens_of(r@) == tokens_of(input@),
        r@.len() <= input@.len(),
        r@ == input@.subrange(input@.len() - r@.len(), input@.len() as int),
        r@.len() > 0 ==> !is_space(r@[0]),
{
    let mut j: usize = 0;
    assert(input@.subrange(0, input@.len() as int) =~= input@);
    while j < input.len() && space_byte(input[j])
        invariant
            j <= input@.len(),
            tokens_of(input@.subrange(j as int, input@.len() as int)) == tokens_of(input@),
        decreases input@.len() - j,
    {
        assert(input@.subrange(j as int, input@.len() as int).drop_first() =~= input@.subrange(
            j + 1,
            input@.len() as int,
        ));
        j += 1;
    }
    slice_subrange(input, j, input.len())
}

/// Splits the whole input into tokens, skipping whitespace around them; any
/// byte that starts no token becomes `Illegal`, so this always succeeds. The
/// remaining input is empty, except for an input of whitespace alone, which is
/// handed back whole.
pub fn lex_tokens2(input: &[u8]) -> (r: Result<(&[u8], Vec<Token>), ParseError<&[u8]>>)
    ensures
        r is Ok,
        token_values(r->Ok_0.1@) == tokens_of(input@),
        r->Ok_0.0@ == (if tokens_of(input@).len() == 0 {
            input@
        } else {
            Seq::<u8>::empty()
        }),
{
    let mut rest = input;
    let mut out: Vec<Token> = Vec::new();
    loop
        invariant
            tokens_of(input@) == token_values(out@) + tokens_of(rest@),
        ensures
            rest@.len() == 0,
            tokens_of(input@) == token_values(out@) + tokens_of(rest@),
        decreases rest@.len(),
    {
        rest = multispace0(rest);
        let (next, t) = match lex_token(rest) {
            Some(res) => res,
            None => {
                break;
            },
        };
        proof {
            lemma_token_len_bound(rest@);
            assert(token_values(out@.push(t)) =~= token_values(out@).push(t@));
        }
        out.push(t);
        rest = next;
    }
    assert(token_values(out@) + tokens_of(rest@) =~= token_values(out@));
    if out.len() == 0 {
        Ok((input, out))
    } else {
        Ok((rest, out))
    }
}

/// The lexer's entry point.
pub struct Lexer;

impl Lexer {
    /// Tokenizes the whole input and appends one `EOF` marker.
    pub fn lex_tokens(bytes: &[u8]) -> (r: Result<(&[u8], Vec<Token>), ParseError<&[u8]>>)
        ensures
            r is Ok,
            token_values(r->Ok_0.1@) == tokens_of(bytes@).push(SpecToken::EOF),
            r->Ok_0.0@ == (if tokens_of(bytes@).len() == 0 {
                bytes@
            } else {
                Seq::<u8>::empty()
            }),
            r->Ok_0.1@.len() >= 1,
            r->Ok_0.1@.last()@ == SpecToken::EOF,
            forall|k: int|
                0 <= k < r->Ok_0.1@.len() - 1 ==> (#[trigger] r->Ok_0.1@[k])@ != SpecToken::EOF,
    {
        let (rest, mut tokens) = match lex_tokens2(bytes) {
            Ok(res) => res,
            Err(e) => {
                return Err(e);
            },
        };
        proof {
            lemma_tokens_have_no_eof(bytes@);
            assert(token_values(tokens@.push(Token::EOF)) =~= token_values(tokens@).push(
                SpecToken::EOF,
            ));
        }
        tokens.push(Token::EOF);
        proof {
            assert forall|k: int| 0 <= k < tokens@.len() - 1 implies (#[trigger] tokens@[k])@
                != SpecToken::EOF by {
                assert(token_values(tokens@)[k] == tokens@[k]@);
            }
        }
        Ok((rest, tokens))
    }
}

/// No end marker appears among the tokens of any input.
pub proof fn lemma_tokens_have_no_eof(s: Seq<u8>)
    ensures
        forall|k: int| 0 <= k < tokens_of(s).len() ==> #[trigger] tokens_of(s)[k] != SpecToken::EOF,
    decreases s.len(),
{
    if s.len() > 0 {
        if is_space(s[0]) {
            lemma_tokens_have_no_eof(s.drop_first());
        } else {
            lemma_token_len_bound(s);
            let rest = s.subrange(token_len(s) as int, s.len() as int);
            lemma_tokens_have_no_eof(rest);
            assert forall|k: int| 0 <= k < tokens_of(s).len() implies #[trigger] tokens_of(s)[k]
                != SpecToken::EOF by {
                if k > 0 {
                    assert(tokens_of(s)[k] == tokens_of(rest)[k - 1]);
                }
            }
        }
    }
}

/// The source text that a token stands for; an illegal token keeps none.
pub open spec fn token_text(t: SpecToken) -> Seq<u8> {
    match t {
        SpecToken::Illegal => seq![],
        SpecToken::EOF => seq![],
        SpecToken::Identifier(b) => b,
        SpecToken::Assign => seq![61u8],
        SpecToken::Select => seq![46u8],
        SpecToken::Sigma => sigma_word(),
        SpecToken::Comma => seq![44u8],
        SpecToken::LParen => seq![40u8],
        SpecToken::RParen => seq![41u8],
        SpecToken::LBracket => seq![91u8],
        SpecToken::RBracket => seq![93u8],
    }
}

/// The texts of the tokens, one after another.
pub open spec fn tokens_text(ts: Seq<SpecToken>) -> Seq<u8>
    decreases ts.len(),
{
    if ts.len() == 0 {
        seq![]
    } else {
        token_text(ts[0]) + tokens_text(ts.drop_first())
    }
}

/// `s` with its whitespace bytes taken out.
pub open spec fn without_spaces(s: Seq<u8>) -> Seq<u8>
    decreases s.len(),
{
    if s.len() == 0 {
        seq![]
    } else if is_space(s[0]) {
        without_spaces(s.drop_first())
    } else {
        seq![s[0]] + without_spaces(s.drop_first())
    }
}

/// A valid identifier: a letter or `_`, then letters, digits and `_`.
pub open spec fn is_identifier(w: Seq<u8>) -> bool {
    &&& w.len() > 0
    &&& is_ident_start(w[0])
    &&& forall|k: int| 0 <= k < w.len() ==> is_ident_char(#[trigger] w[k])
}

pub open spec fn has_no_illegal(ts: Seq<SpecToken>) -> bool {
    forall|k: int| 0 <= k < ts.len() ==> #[trigger] ts[k] != SpecToken::Illegal
}

pub open spec fn has_no_space(s: Seq<u8>) -> bool {
    forall|k: int| 0 <= k < s.len() ==> !is_space(#[trigger] s[k])
}

proof fn lemma_without_spaces_prefix(s: Seq<u8>, n: int)
    requires
        0 <= n <= s.len(),
        forall|k: int| 0 <= k < n ==> !is_space(#[trigger] s[k]),
    ensures
        without_spaces(s) == s.subrange(0, n) + without_spaces(s.subrange(n, s.len() as int)),
    decreases n,
{
    if n == 0 {
        assert(s.subrange(0, s.len() as int) =~= s);
        assert(s.subrange(0, 0) + without_spaces(s) =~= without_spaces(s));
    } else {
        let d = s.drop_first();
        assert forall|k: int| 0 <= k < n - 1 implies !is_space(#[trigger] d[k]) by {
            assert(d[k] == s[k + 1]);
        }
        lemma_without_spaces_prefix(d, n - 1);
        assert(d.subrange(n - 1, d.len() as int) =~= s.subrange(n, s.len() as int));
        assert(seq![s[0]] + d.subrange(0, n - 1) =~= s.subrange(0, n));
        assert(seq![s[0]] + (d.subrange(0, n - 1) + without_spaces(s.subrange(n, s.len() as int)))
            =~= s.subrange(0, n) + without_spaces(s.subrange(n, s.len() as int)));
    }
}

proof fn lemma_tokens_text_cons(t: SpecToken, ts: Seq<SpecToken>)
    ensures
        tokens_text(seq![t] + ts) == token_text(t) + tokens_text(ts),
{
    assert((seq![t] + ts).drop_first() =~= ts);
}

/// Lexing loses nothing but whitespace: wherever no byte is turned into an
/// illegal token, the texts of the tokens, put back together, are the input
/// with its whitespace taken out.
pub proof fn lemma_tokens_text_round_trip(s: Seq<u8>)
    requires
        has_no_illegal(tokens_of(s)),
    ensures
        tokens_text(tokens_of(s)) == without_spaces(s),
    decreases s.len(),
{
    if s.len() > 0 {
        if is_space(s[0]) {
            lemma_tokens_text_round_trip(s.drop_first());
        } else {
            lemma_token_len_bound(s);
            let n = token_len(s) as int;
            let rest = s.subrange(n, s.len() as int);
            let t = first_token(s);
            assert(tokens_of(s)[0] == t);
            assert forall|k: int| 0 <= k < tokens_of(rest).len() implies #[trigger] tokens_of(
                rest,
            )[k] != SpecToken::Illegal by {
                assert(tokens_of(rest)[k] == tokens_of(s)[k + 1]);
            }
            lemma_tokens_text_round_trip(rest);
            lemma_tokens_text_cons(t, tokens_of(rest));
            lemma_ident_run_bound(s.drop_first());
            assert forall|k: int| 0 <= k < n implies !is_space(#[trigger] s[k]) by {
                if k > 0 && !is_punct(s[0]) && !starts_with(s, sigma_word()) && !is_operator(
                    s[0],
                ) {
                    assert(s[k] == s.drop_first()[k - 1]);
                }
                if starts_with(s, sigma_word()) && !is_punct(s[0]) {
                    assert(s[k] == s.subrange(0, 5)[k]);
                }
            }
            lemma_without_spaces_prefix(s, n);
            assert(token_text(t) =~= s.subrange(0, n));
        }
    }
}

proof fn lemma_no_space_concat(a: Seq<u8>, b: Seq<u8>)
    requires
        has_no_space(a),
        has_no_space(b),
    ensures
        has_no_space(a + b),
{
    assert forall|k: int| 0 <= k < (a + b).len() implies !is_space(#[trigger] (a + b)[k]) by {
        if k >= a.len() {
            assert((a + b)[k] == b[k - a.len()]);
        }
    }
}

/// Whether an identifier lexes with no illegal token: each `sigma` at its
/// front is read as the keyword, and what then remains must be empty or begin
/// with a letter or `_`, not with a digit.
pub open spec fn no_digit_after_keyword(w: Seq<u8>) -> bool
    decreases w.len(),
{
    if starts_with(w, sigma_word()) {
        no_digit_after_keyword(w.subrange(5, w.len() as int))
    } else {
        w.len() == 0 || is_ident_start(w[0])
    }
}

proof fn lemma_ident_run_all(s: Seq<u8>)
    requires
        forall|k: int| 0 <= k < s.len() ==> is_ident_char(#[trigger] s[k]),
    ensures
        ident_run(s) == s.len(),
    decreases s.len(),
{
    if s.len() > 0 {
        let d = s.drop_first();
        assert forall|k: int| 0 <= k < d.len() implies is_ident_char(#[trigger] d[k]) by {
            assert(d[k] == s[k + 1]);
        }
        lemma_ident_run_all(d);
    }
}

proof fn lemma_ident_run_append(a: Seq<u8>, b: Seq<u8>)
    requires
        b.len() > 0,
        !is_ident_char(b[0]),
    ensures
        ident_run(a + b) == ident_run(a),
    decreases a.len(),
{
    if a.len() == 0 {
        assert(a + b =~= b);
    } else {
        assert((a + b)[0] == a[0]);
        assert((a + b).drop_first() =~= a.drop_first() + b);
        lemma_ident_run_append(a.drop_first(), b);
    }
}

/// Lexing splits at whitespace, punctuation or an operator: no token of
/// what comes before runs on past it.
proof fn lemma_tokens_of_append(a: Seq<u8>, b: Seq<u8>)
    requires
        b.len() > 0,
        is_break(b[0]),
    ensures
        tokens_of(a + b) == tokens_of(a) + tokens_of(b),
    decreases a.len(),
{
    let ab = a + b;
    if a.len() == 0 {
        assert(ab =~= b);
        assert(tokens_of(a) + tokens_of(b) =~= tokens_of(b));
    } else {
        assert(ab[0] == a[0]);
        if is_space(a[0]) {
            assert(ab.drop_first() =~= a.drop_first() + b);
            lemma_tokens_of_append(a.drop_first(), b);
            assert(tokens_of(ab) == tokens_of(a.drop_first() + b));
        } else {
            lemma_token_len_bound(a);
            lemma_token_len_bound(ab);
            if a.len() >= 5 {
                assert(ab.subrange(0, 5) =~= a.subrange(0, 5));
            } else if starts_with(ab, sigma_word()) {
                assert(ab[a.len() as int] == b[0]);
                assert(ab.subrange(0, 5)[a.len() as int] == ab[a.len() as int]);
            }
            lemma_ident_run_append(a.drop_first(), b);
            assert(ab.drop_first() =~= a.drop_first() + b);
            assert(token_len(ab) == token_len(a));
            let n = token_len(a) as int;
            assert(ab.subrange(0, n) =~= a.subrange(0, n));
            assert(first_token(ab) == first_token(a));
            let ra = a.subrange(n, a.len() as int);
            assert(ab.subrange(n, ab.len() as int) =~= ra + b);
            lemma_tokens_of_append(ra, b);
            assert(seq![first_token(a)] + (tokens_of(ra) + tokens_of(b)) =~= (seq![first_token(a)]
                + tokens_of(ra)) + tokens_of(b));
        }
    }
}

/// A byte of punctuation or an operator is a token of its own.
proof fn lemma_tokens_of_single(p: u8, r: Seq<u8>)
    requires
        is_punct(p) || is_operator(p),
    ensures
        tokens_of(seq![p] + r) == seq![first_token(seq![p] + r)] + tokens_of(r),
        first_token(seq![p] + r) != SpecToken::Illegal,
{
    let s = seq![p] + r;
    assert(s[0] == p);
    if s.len() >= 5 {
        assert(s.subrange(0, 5)[0] == p);
    }
    assert(s.subrange(1, s.len() as int) =~= r);
}

proof fn lemma_no_illegal_concat(x: Seq<SpecToken>, y: Seq<SpecToken>)
    requires
        has_no_illegal(x),
        has_no_illegal(y),
    ensures
        has_no_illegal(x + y),
{
    assert forall|k: int| 0 <= k < (x + y).len() implies #[trigger] (x + y)[k]
        != SpecToken::Illegal by {
        if k >= x.len() {
            assert((x + y)[k] == y[k - x.len()]);
        }
    }
}

proof fn lemma_identifier_has_no_illegal(w: Seq<u8>)
    requires
        forall|k: int| 0 <= k < w.len() ==> is_ident_char(#[trigger] w[k]),
        no_digit_after_keyword(w),
    ensures
        has_no_illegal(tokens_of(w)),
    decreases w.len(),
{
    if w.len() > 0 {
        lemma_token_len_bound(w);
        if starts_with(w, sigma_word()) {
            assert(w[0] == w.subrange(0, 5)[0]);
            let rest = w.subrange(5, w.len() as int);
            assert forall|k: int| 0 <= k < rest.len() implies is_ident_char(#[trigger] rest[k]) by {
                assert(rest[k] == w[k + 5]);
            }
            lemma_identifier_has_no_illegal(rest);
            assert(tokens_of(w) == seq![SpecToken::Sigma] + tokens_of(rest));
            lemma_no_illegal_concat(seq![SpecToken::Sigma], tokens_of(rest));
        } else {
            let d = w.drop_first();
            assert forall|k: int| 0 <= k < d.len() implies is_ident_char(#[trigger] d[k]) by {
                assert(d[k] == w[k + 1]);
            }
            lemma_ident_run_all(d);
            assert(!is_space(w[0]) && !is_punct(w[0]) && !is_operator(w[0]));
            assert(token_len(w) == w.len());
            assert(w.subrange(w.len() as int, w.len() as int) =~= Seq::<u8>::empty());
            assert(tokens_of(Seq::<u8>::empty()) =~= Seq::<SpecToken>::empty());
            assert(tokens_of(w) =~= seq![first_token(w)]);
        }
    }
}

proof fn lemma_single_keeps_no_illegal(p: u8, r: Seq<u8>)
    requires
        is_punct(p) || is_operator(p),
        has_no_illegal(tokens_of(r)),
    ensures
        has_no_illegal(tokens_of(seq![p] + r)),
{
    lemma_tokens_of_single(p, r);
    lemma_no_illegal_concat(seq![first_token(seq![p] + r)], tokens_of(r));
}

proof fn lemma_append_keeps_no_illegal(a: Seq<u8>, b: Seq<u8>)
    requires
        b.len() > 0,
        is_break(b[0]),
        has_no_illegal(tokens_of(a)),
        has_no_illegal(tokens_of(b)),
    ensures
        has_no_illegal(tokens_of(a + b)),
{
    lemma_tokens_of_append(a, b);
    lemma_no_illegal_concat(tokens_of(a), tokens_of(b));
}

proof fn lemma_keyword_has_no_illegal()
    ensures
        has_no_illegal(tokens_of(sigma_word())),
{
    let w = sigma_word();
    assert(w.subrange(0, 5) =~= w);
    assert(w.subrange(5, 5) =~= Seq::<u8>::empty());
    assert(tokens_of(Seq::<u8>::empty()) =~= Seq::<SpecToken>::empty());
    assert(tokens_of(w) =~= seq![SpecToken::Sigma]);
}

/// The tokens of a binding `[tag=sigma(var)expr]` hold no illegal token
/// where no identifier reads as the keyword followed by a digit.
pub proof fn lemma_binding_has_no_illegal(tag: Seq<u8>, var: Seq<u8>, expr: Seq<u8>)
    requires
        is_identifier(tag),
        is_identifier(var),
        is_identifier(expr),
        no_digit_after_keyword(tag),
        no_digit_after_keyword(var),
        no_digit_after_keyword(expr),
    ensures
        has_no_illegal(
            tokens_of(
                seq![91u8] + tag + seq![61u8, 115u8, 105u8, 103u8, 109u8, 97u8, 40u8] + var + seq![
                    41u8,
                ] + expr + seq![93u8],
            ),
        ),
{
    let e0 = Seq::<u8>::empty();
    assert(tokens_of(e0) =~= Seq::<SpecToken>::empty());
    let d = seq![93u8];
    lemma_single_keeps_no_illegal(93u8, e0);
    assert(seq![93u8] + e0 =~= d);
    lemma_identifier_has_no_illegal(expr);
    let e1 = expr + d;
    lemma_append_keeps_no_illegal(expr, d);
    let e2 = seq![41u8] + e1;
    lemma_single_keeps_no_illegal(41u8, e1);
    lemma_identifier_has_no_illegal(var);
    let e3 = var + e2;
    assert(e2[0] == 41u8);
    lemma_append_keeps_no_illegal(var, e2);
    let e4 = seq![40u8] + e3;
    lemma_single_keeps_no_illegal(40u8, e3);
    lemma_keyword_has_no_illegal();
    let e5 = sigma_word() + e4;
    assert(e4[0] == 40u8);
    lemma_append_keeps_no_illegal(sigma_word(), e4);
    let e6 = seq![61u8] + e5;
    lemma_single_keeps_no_illegal(61u8, e5);
    lemma_identifier_has_no_illegal(tag);
    let e7 = tag + e6;
    assert(e6[0] == 61u8);
    lemma_append_keeps_no_illegal(tag, e6);
    let e8 = seq![91u8] + e7;
    lemma_single_keeps_no_illegal(91u8, e7);
    assert(e8 =~= seq![91u8] + tag + seq![61u8, 115u8, 105u8, 103u8, 109u8, 97u8, 40u8] + var
        + seq![41u8] + expr + seq![93u8]);
}

/// The text of a binding `[tag=sigma(var)expr]` comes back whole from its
/// tokens. It fails, and is not claimed, where an identifier reads as the
/// keyword followed by a digit (`sigma1` lexes as `sigma` and an illegal byte).
pub proof fn lemma_binding_text_round_trip(tag: Seq<u8>, var: Seq<u8>, expr: Seq<u8>)
    requires
        is_identifier(tag),
        is_identifier(var),
        is_identifier(expr),
        no_digit_after_keyword(tag),
        no_digit_after_keyword(var),
        no_digit_after_keyword(expr),
    ensures
        tokens_text(
            tokens_of(
                seq![91u8] + tag + seq![61u8, 115u8, 105u8, 103u8, 109u8, 97u8, 40u8] + var + seq![
                    41u8,
                ] + expr + seq![93u8],
            ),
        ) == seq![91u8] + tag + seq![61u8, 115u8, 105u8, 103u8, 109u8, 97u8, 40u8] + var + seq![
            41u8,
        ] + expr + seq![93u8],
{
    let s = seq![91u8] + tag + seq![61u8, 115u8, 105u8, 103u8, 109u8, 97u8, 40u8] + var + seq![
        41u8,
    ] + expr + seq![93u8];
    lemma_binding_has_no_illegal(tag, var, expr);
    lemma_tokens_text_round_trip(s);
    let a = seq![91u8];
    let b = seq![61u8, 115u8, 105u8, 103u8, 109u8, 97u8, 40u8];
    let c = seq![41u8];
    let d = seq![93u8];
    assert(has_no_space(b)) by {
        assert forall|k: int| 0 <= k < b.len() implies !is_space(#[trigger] b[k]) by {
            assert(b[k] == 61u8 || b[k] == 115u8 || b[k] == 105u8 || b[k] == 103u8 || b[k]
                == 109u8 || b[k] == 97u8 || b[k] == 40u8);
        }
    }
    assert(has_no_space(a));
    assert(has_no_space(c));
    assert(has_no_space(d));
    lemma_no_space_concat(a, tag);
    lemma_no_space_concat(a + tag, b);
    lemma_no_space_concat(a + tag + b, var);
    lemma_no_space_concat(a + tag + b + var, c);
    lemma_no_space_concat(a + tag + b + var + c, expr);
    lemma_no_space_concat(a + tag + b + var + c + expr, d);
    lemma_without_spaces_prefix(s, s.len() as int);
    assert(s.subrange(0, s.len() as int) =~= s);
    assert(s.subrange(s.len() as int, s.len() as int) =~= Seq::<u8>::empty());
}

/// A digit never begins an identifier token: on its own it is illegal.
pub proof fn lemma_digit_starts_no_identifier(s: Seq<u8>)
    requires
        s.len() > 0,
        is_digit(s[0]),
    ensures
        first_token(s) == SpecToken::Illegal,
        token_len(s) == 1,
{
    if starts_with(s, sigma_word()) {
        assert(s[0] == s.subrange(0, 5)[0]);
    }
}

pub open spec fn all_spaces(w: Seq<u8>) -> bool {
    forall|k: int| 0 <= k < w.len() ==> is_space(#[trigger] w[k])
}

/// The end of a spaced binding, from the run before the expression on.
pub open spec fn spaced_tail(expr: Seq<u8>, w: Seq<Seq<u8>>) -> Seq<u8> {
    w[7] + (expr + (w[8] + (seq![93u8] + w[9])))
}

/// A spaced binding from the run before the bound variable on.
pub open spec fn spaced_var(var: Seq<u8>, expr: Seq<u8>, w: Seq<Seq<u8>>) -> Seq<u8> {
    w[5] + (var + (w[6] + (seq![41u8] + spaced_tail(expr, w))))
}

/// A spaced binding from the run before the keyword on.
pub open spec fn spaced_keyword(var: Seq<u8>, expr: Seq<u8>, w: Seq<Seq<u8>>) -> Seq<u8> {
    w[3] + (sigma_word() + (w[4] + (seq![40u8] + spaced_var(var, expr, w))))
}

/// A binding `[tag=sigma(var)expr]` with the whitespace runs `w[0]` to
/// `w[9]` before, between and after its parts.
pub open spec fn spaced_binding(tag: Seq<u8>, var: Seq<u8>, expr: Seq<u8>, w: Seq<Seq<u8>>) -> Seq<
    u8,
> {
    w[0] + (seq![91u8] + (w[1] + (tag + (w[2] + (seq![61u8] + spaced_keyword(var, expr, w))))))
}

proof fn lemma_spaces_before(w: Seq<u8>, x: Seq<u8>)
    requires
        all_spaces(w),
    ensures
        tokens_of(w + x) == tokens_of(x),
    decreases w.len(),
{
    if w.len() == 0 {
        assert(w + x =~= x);
    } else {
        assert((w + x)[0] == w[0]);
        assert((w + x).drop_first() =~= w.drop_first() + x);
        assert(all_spaces(w.drop_first())) by {
            assert forall|k: int| 0 <= k < w.drop_first().len() implies is_space(
                #[trigger] w.drop_first()[k],
            ) by {
                assert(w.drop_first()[k] == w[k + 1]);
            }
        }
        lemma_spaces_before(w.drop_first(), x);
    }
}

proof fn lemma_spaces_then(w: Seq<u8>, x: Seq<u8>)
    requires
        all_spaces(w),
        x.len() > 0,
        is_break(x[0]),
        has_no_illegal(tokens_of(x)),
    ensures
        (w + x).len() > 0,
        is_break((w + x)[0]),
        has_no_illegal(tokens_of(w + x)),
{
    lemma_spaces_before(w, x);
    if w.len() == 0 {
        assert(w + x =~= x);
    } else {
        assert((w + x)[0] == w[0]);
    }
}

proof fn lemma_single_then(p: u8, x: Seq<u8>)
    requires
        is_punct(p) || is_operator(p),
        has_no_illegal(tokens_of(x)),
    ensures
        (seq![p] + x).len() > 0,
        (seq![p] + x)[0] == p,
        has_no_illegal(tokens_of(seq![p] + x)),
{
    lemma_single_keeps_no_illegal(p, x);
}

/// Whitespace runs anywhere between the parts of a binding
/// `[tag=sigma(var)expr]` change nothing: its tokens hold no illegal token,
/// and their texts put back together are the input with its whitespace taken
/// out. It fails, and is not claimed, where an identifier reads as the
/// keyword followed by a digit (`sigma1` lexes as `sigma` and an illegal byte).
pub proof fn lemma_spaced_binding_round_trip(
    tag: Seq<u8>,
    var: Seq<u8>,
    expr: Seq<u8>,
    w: Seq<Seq<u8>>,
)
    requires
        is_identifier(tag),
        is_identifier(var),
        is_identifier(expr),
        no_digit_after_keyword(tag),
        no_digit_after_keyword(var),
        no_digit_after_keyword(expr),
        w.len() == 10,
        forall|i: int| 0 <= i < 10 ==> all_spaces(#[trigger] w[i]),
    ensures
        has_no_illegal(tokens_of(spaced_binding(tag, var, expr, w))),
        tokens_text(tokens_of(spaced_binding(tag, var, expr, w))) == without_spaces(
            spaced_binding(tag, var, expr, w),
        ),
{
    let e0 = Seq::<u8>::empty();
    assert(tokens_of(e0) =~= Seq::<SpecToken>::empty());
    assert(all_spaces(w[9]));
    lemma_spaces_before(w[9], e0);
    assert(w[9] + e0 =~= w[9]);
    let x8 = seq![93u8] + w[9];
    lemma_single_then(93u8, w[9]);
    assert(all_spaces(w[8]));
    lemma_spaces_then(w[8], x8);
    let x7 = w[8] + x8;
    lemma_identifier_has_no_illegal(expr);
    lemma_append_keeps_no_illegal(expr, x7);
    let x6 = expr + x7;
    assert(all_spaces(w[7]));
    lemma_spaces_before(w[7], x6);
    let x5 = w[7] + x6;
    assert(x5 == spaced_tail(expr, w));
    lemma_single_then(41u8, x5);
    let x4 = seq![41u8] + x5;
    assert(all_spaces(w[6]));
    lemma_spaces_then(w[6], x4);
    let x3 = w[6] + x4;
    lemma_identifier_has_no_illegal(var);
    lemma_append_keeps_no_illegal(var, x3);
    let x2 = var + x3;
    assert(all_spaces(w[5]));
    lemma_spaces_before(w[5], x2);
    let x1 = w[5] + x2;
    assert(x1 == spaced_var(var, expr, w));
    lemma_single_then(40u8, x1);
    let x0 = seq![40u8] + x1;
    assert(all_spaces(w[4]));
    lemma_spaces_then(w[4], x0);
    let y0 = w[4] + x0;
    lemma_keyword_has_no_illegal();
    lemma_append_keeps_no_illegal(sigma_word(), y0);
    let y1 = sigma_word() + y0;
    assert(all_spaces(w[3]));
    lemma_spaces_before(w[3], y1);
    let y2 = w[3] + y1;
    assert(y2 == spaced_keyword(var, expr, w));
    lemma_single_then(61u8, y2);
    let y3 = seq![61u8] + y2;
    assert(all_spaces(w[2]));
    lemma_spaces_then(w[2], y3);
    let y4 = w[2] + y3;
    lemma_identifier_has_no_illegal(tag);
    lemma_append_keeps_no_illegal(tag, y4);
    let y5 = tag + y4;
    assert(all_spaces(w[1]));
    lemma_spaces_before(w[1], y5);
    let y6 = w[1] + y5;
    lemma_single_then(91u8, y6);
    let y7 = seq![91u8] + y6;
    assert(all_spaces(w[0]));
    lemma_spaces_before(w[0], y7);
    assert(w[0] + y7 == spaced_binding(tag, var, expr, w));
    lemma_tokens_text_round_trip(spaced_binding(tag, var, expr, w));
}

} // verus!
