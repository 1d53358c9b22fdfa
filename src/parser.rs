use vstd::prelude::*;

use crate::error::{PResult, ParseError, Rule};

verus! {

/// The value of a rule's outcome: the remaining input and what was
/// recognized, or the remaining input where the failing rule was tried.
pub type SpecResult<V> = Result<(Seq<char>, V), (Seq<char>, Rule)>;

/// A binding as text: its tag, its bound variable and its expression.
pub type SpecBinding = (Seq<char>, Seq<char>, Seq<char>);

pub open spec fn outcome<'a, O: View>(r: PResult<&'a str, O>) -> SpecResult<O::V> {
    match r {
        Ok((rest, o)) => Ok((rest@, o@)),
        Err(e) => Err((e.input@, e.rule)),
    }
}

pub open spec fn bindings_view<'a>(v: Seq<(&'a str, &'a str, &'a str)>) -> Seq<SpecBinding> {
    v.map_values(|b: (&'a str, &'a str, &'a str)| b@)
}

/// An ASCII letter.
pub open spec fn is_alpha_char(c: char) -> bool {
    ('A' <= c <= 'Z') || ('a' <= c <= 'z')
}

/// A character that may begin an identifier: a letter or `_`.
pub open spec fn is_ident_start_char(c: char) -> bool {
    is_alpha_char(c) || c == '_'
}

/// A character that may continue an identifier: a letter, a digit or `_`.
pub open spec fn is_ident_char_char(c: char) -> bool {
    is_ident_start_char(c) || ('0' <= c <= '9')
}

/// The number of identifier characters at the front of `s`.
pub open spec fn ident_run_chars(s: Seq<char>) -> nat
    decreases s.len(),
{
    if s.len() > 0 && is_ident_char_char(s[0]) {
        1 + ident_run_chars(s.drop_first())
    } else {
        0
    }
}

/// `s` begins with `lit`, which is taken; otherwise `rule` fails.
pub open spec fn spec_literal(s: Seq<char>, lit: Seq<char>, rule: Rule) -> SpecResult<Seq<char>> {
    if lit.len() <= s.len() && s.subrange(0, lit.len() as int) == lit {
        Ok((s.subrange(lit.len() as int, s.len() as int), lit))
    } else {
        Err((s, rule))
    }
}

/// The longest identifier at the front of `s`: a letter or `_`, then
/// letters, digits and `_`.
pub open spec fn spec_identifier(s: Seq<char>) -> SpecResult<Seq<char>> {
    if s.len() > 0 && is_ident_start_char(s[0]) {
        let n = 1 + ident_run_chars(s.drop_first());
        Ok((s.subrange(n as int, s.len() as int), s.subrange(0, n as int)))
    } else {
        Err((s, Rule::Identifier))
    }
}

pub open spec fn sigma_chars() -> Seq<char> {
    seq!['s', 'i', 'g', 'm', 'a']
}

/// The expression rule is a placeholder: it always succeeds with the fixed
/// identifier `x`, taking the identifier at the front of `s` if there is one
/// and nothing otherwise.
pub open spec fn spec_expression(s: Seq<char>) -> SpecResult<Seq<char>> {
    match spec_identifier(s) {
        Ok((rest, _)) => Ok((rest, seq!['x'])),
        Err(_) => Ok((s, seq!['x'])),
    }
}

/// `tag = sigma ( var ) expr`, with no whitespace; the first rule that does
/// not match fails the whole binding.
pub open spec fn spec_nametag(s: Seq<char>) -> SpecResult<SpecBinding> {
    match spec_identifier(s) {
        Err(e) => Err(e),
        Ok((s1, tag)) => match spec_literal(s1, seq!['='], Rule::Equals) {
            Err(e) => Err(e),
            Ok((s2, _)) => match spec_literal(s2, sigma_chars(), Rule::Sigma) {
                Err(e) => Err(e),
                Ok((s3, _)) => match spec_literal(s3, seq!['('], Rule::BracketStart) {
                    Err(e) => Err(e),
                    Ok((s4, _)) => match spec_identifier(s4) {
                        Err(e) => Err(e),
                        Ok((s5, var)) => match spec_literal(s5, seq![')'], Rule::BracketEnd) {
                            Err(e) => Err(e),
                            Ok((s6, _)) => match spec_expression(s6) {
                                Err(e) => Err(e),
                                Ok((s7, expr)) => Ok((s7, (tag, var, expr))),
                            },
                        },
                    },
                },
            },
        },
    }
}

pub proof fn lemma_ident_run_chars_bound(s: Seq<char>)
    ensures
        ident_run_chars(s) <= s.len(),
    decreases s.len(),
{
    if s.len() > 0 && is_ident_char_char(s[0]) {
        lemma_ident_run_chars_bound(s.drop_first());
    }
}

/// A binding that matches takes at least one character.
pub proof fn lemma_nametag_consumes(s: Seq<char>)
    ensures
        spec_nametag(s) is Ok ==> spec_nametag(s)->Ok_0.0.len() < s.len(),
{
    lemma_ident_run_chars_bound(s.drop_first());
    if let Ok((s1, _)) = spec_identifier(s) {
        if let Ok((s2, _)) = spec_literal(s1, seq!['='], Rule::Equals) {
            if let Ok((s3, _)) = spec_literal(s2, sigma_chars(), Rule::Sigma) {
                if let Ok((s4, _)) = spec_literal(s3, seq!['('], Rule::BracketStart) {
                    lemma_ident_run_chars_bound(s4.drop_first());
                    if let Ok((s5, _)) = spec_identifier(s4) {
                        if let Ok((s6, _)) = spec_literal(s5, seq![')'], Rule::BracketEnd) {
                            lemma_ident_run_chars_bound(s6.drop_first());
                        }
                    }
                }
            }
        }
    }
}

/// Bindings one after another, as many as match; the first that does not
/// match ends the sequence and consumes nothing.
pub open spec fn spec_bindings(s: Seq<char>) -> (Seq<char>, Seq<SpecBinding>)
    decreases s.len(),
{
    match spec_nametag(s) {
        Ok((rest, b)) => {
            proof {
                lemma_nametag_consumes(s);
            }
            let (r, bs) = spec_bindings(rest);
            (r, seq![b] + bs)
        },
        Err(_) => (s, seq![]),
    }
}

/// `[`, zero or more bindings, `]`.
pub open spec fn spec_object(s: Seq<char>) -> SpecResult<Seq<SpecBinding>> {
    match spec_literal(s, seq!['['], Rule::ObjStart) {
        Err(e) => Err(e),
        Ok((s1, _)) => {
            let (s2, bs) = spec_bindings(s1);
            match spec_literal(s2, seq![']'], Rule::ObjEnd) {
                Err(e) => Err(e),
                Ok((s3, _)) => Ok((s3, bs)),
            }
        },
    }
}

/// Takes `lit` from the front of `input`, or fails with `rule`.
fn literal<'a>(input: &'a str, lit: &str, rule: Rule) -> (r: PResult<&'a str, &'a str>)
    ensures
        outcome(r) == spec_literal(input@, lit@, rule),
        r is Err ==> r->Err_0.input == input,
{
    let n = lit.unicode_len();
    let m = input.unicode_len();
    if n > m {
        return Err(ParseError { input, rule });
    }
    let mut i: usize = 0;
    while i < n
        invariant
            n == lit@.len(),
            m == input@.len(),
            n <= m,
            i <= n,
            forall|k: int| 0 <= k < i ==> input@[k] == lit@[k],
        decreases n - i,
    {
        if input.get_char(i) != lit.get_char(i) {
            assert(input@.subrange(0, n as int)[i as int] != lit@[i as int]);
            return Err(ParseError { input, rule });
        }
        i += 1;
    }
    assert(input@.subrange(0, n as int) =~= lit@);
    Ok((input.substring_char(n, m), input.substring_char(0, n)))
}

fn ident_start_char(c: char) -> (r: bool)
    ensures
        r == is_ident_start_char(c),
{
    (c >= 'A' && c <= 'Z') || (c >= 'a' && c <= 'z') || c == '_'
}

fn ident_char(c: char) -> (r: bool)
    ensures
        r == is_ident_char_char(c),
{
    ident_start_char(c) || (c >= '0' && c <= '9')
}

pub fn obj_start(i: &str) -> (r: PResult<&str, &str>)
    ensures
        outcome(r) == spec_literal(i@, seq!['['], Rule::ObjStart),
{
    proof {
        reveal_strlit("[");
        assert("["@ =~= seq!['[']);
    }
    literal(i, "[", Rule::ObjStart)
}

pub fn obj_end(i: &str) -> (r: PResult<&str, &str>)
    ensures
        outcome(r) == spec_literal(i@, seq![']'], Rule::ObjEnd),
{
    proof {
        reveal_strlit("]");
        assert("]"@ =~= seq![']']);
    }
    literal(i, "]", Rule::ObjEnd)
}

pub fn sigma(i: &str) -> (r: PResult<&str, &str>)
    ensures
        outcome(r) == spec_literal(i@, sigma_chars(), Rule::Sigma),
{
    proof {
        reveal_strlit("sigma");
        assert("sigma"@ =~= sigma_chars());
    }
    literal(i, "sigma", Rule::Sigma)
}

pub fn bracket_start(i: &str) -> (r: PResult<&str, &str>)
    ensures
        outcome(r) == spec_literal(i@, seq!['('], Rule::BracketStart),
{
    proof {
        reveal_strlit("(");
        assert("("@ =~= seq!['(']);
    }
    literal(i, "(", Rule::BracketStart)
}

pub fn bracket_end(i: &str) -> (r: PResult<&str, &str>)
    ensures
        outcome(r) == spec_literal(i@, seq![')'], Rule::BracketEnd),
{
    proof {
        reveal_strlit(")");
        assert(")"@ =~= seq![')']);
    }
    literal(i, ")", Rule::BracketEnd)
}

pub fn equals(i: &str) -> (r: PResult<&str, &str>)
    ensures
        outcome(r) == spec_literal(i@, seq!['='], Rule::Equals),
{
    proof {
        reveal_strlit("=");
        assert("="@ =~= seq!['=']);
    }
    literal(i, "=", Rule::Equals)
}

/// The longest identifier at the front of the input.
pub fn identifier(input: &str) -> (r: PResult<&str, &str>)
    ensures
        outcome(r) == spec_identifier(input@),
{
    let m = input.unicode_len();
    if m == 0 || !ident_start_char(input.get_char(0)) {
        return Err(ParseError { input, rule: Rule::Identifier });
    }
    let mut j: usize = 1;
    assert(input@.drop_first() =~= input@.subrange(1, input@.len() as int));
    while j < m && ident_char(input.get_char(j))
        invariant
            m == input@.len(),
            1 <= j <= m,
            ident_run_chars(input@.drop_first()) == (j - 1) + ident_run_chars(
                input@.subrange(j as int, m as int),
            ),
        decreases m - j,
    {
        assert(input@.subrange(j as int, m as int).drop_first() =~= input@.subrange(
            j + 1,
            m as int,
        ));
        j += 1;
    }
    Ok((input.substring_char(j, m), input.substring_char(0, j)))
}

/// The placeholder expression: always the identifier `x`, after taking a
/// leading identifier of the input if there is one.
pub fn expression(input: &str) -> (r: PResult<&str, &str>)
    ensures
        outcome(r) == spec_expression(input@),
        r is Ok,
{
    proof {
        reveal_strlit("x");
        assert("x"@ =~= seq!['x']);
    }
    match identifier(input) {
        Ok((rest, _)) => Ok((rest, "x")),
        Err(_) => Ok((input, "x")),
    }
}

/// One binding `tag=sigma(var)expr`, handed back as `(tag, var, expr)`.
pub fn nametag(input: &str) -> (r: PResult<&str, (&str, &str, &str)>)
    ensures
        outcome(r) == spec_nametag(input@),
{
    let (input, tag) = match identifier(input) {
        Ok(v) => v,
        Err(e) => {
            return Err(e);
        },
    };
    let input = match equals(input) {
        Ok(v) => v.0,
        Err(e) => {
            return Err(e);
        },
    };
    let input = match sigma(input) {
        Ok(v) => v.0,
        Err(e) => {
            return Err(e);
        },
    };
    let input = match bracket_start(input) {
        Ok(v) => v.0,
        Err(e) => {
            return Err(e);
        },
    };
    let (input, selfname) = match identifier(input) {
        Ok(v) => v,
        Err(e) => {
            return Err(e);
        },
    };
    let input = match bracket_end(input) {
        Ok(v) => v.0,
        Err(e) => {
            return Err(e);
        },
    };
    let (input, expr) = match expression(input) {
        Ok(v) => v,
        Err(e) => {
            return Err(e);
        },
    };
    Ok((input, (tag, selfname, expr)))
}

/// As many bindings as match, one after another.
fn many_nametags(input: &str) -> (r: (&str, Vec<(&str, &str, &str)>))
    ensures
        r.0@ == spec_bindings(input@).0,
        bindings_view(r.1@) == spec_bindings(input@).1,
{
    let mut rest = input;
    let mut out: Vec<(&str, &str, &str)> = Vec::new();
    loop
        invariant
            spec_bindings(input@).0 == spec_bindings(rest@).0,
            spec_bindings(input@).1 == bindings_view(out@) + spec_bindings(rest@).1,
        ensures
            spec_bindings(rest@).0 == rest@,
            spec_bindings(rest@).1 == Seq::<SpecBinding>::empty(),
            spec_bindings(input@).0 == spec_bindings(rest@).0,
            spec_bindings(input@).1 == bindings_view(out@) + spec_bindings(rest@).1,
        decreases rest@.len(),
    {
        match nametag(rest) {
            Ok((next, b)) => {
                proof {
                    lemma_nametag_consumes(rest@);
                    assert(bindings_view(out@.push(b)) =~= bindings_view(out@).push(b@));
                    assert(bindings_view(out@) + spec_bindings(rest@).1 =~= bindings_view(
                        out@.push(b),
                    ) + spec_bindings(next@).1);
                }
                out.push(b);
                rest = next;
            },
            Err(_) => {
                break;
            },
        }
    }
    assert(bindings_view(out@) + spec_bindings(rest@).1 =~= bindings_view(out@));
    (rest, out)
}

/// `[`, zero or more bindings, `]`: the bindings in order, or the first
/// structural mismatch.
pub fn object(input: &str) -> (r: PResult<&str, Vec<(&str, &str, &str)>>)
    ensures
        r is Ok <==> spec_object(input@) is Ok,
        r is Ok ==> r->Ok_0.0@ == spec_object(input@)->Ok_0.0,
        r is Ok ==> bindings_view(r->Ok_0.1@) == spec_object(input@)->Ok_0.1,
        r is Err ==> (r->Err_0.input@, r->Err_0.rule) == spec_object(input@)->Err_0,
{
    let input = match obj_start(input) {
        Ok(v) => v.0,
        Err(e) => {
            return Err(e);
        },
    };
    let (input, tags) = many_nametags(input);
    let input = match obj_end(input) {
        Ok(v) => v.0,
        Err(e) => {
            return Err(e);
        },
    };
    Ok((input, tags))
}

/// The identifier rule rejects any input that begins with a digit.
pub proof fn lemma_identifier_rejects_digit_start(s: Seq<char>)
    requires
        s.len() > 0,
        '0' <= s[0] <= '9',
    ensures
        spec_identifier(s) == SpecResult::<Seq<char>>::Err((s, Rule::Identifier)),
{
}

} // verus!
