//! Reading DIMACS CNF text into a formula, and printing an assignment.
//!
//! The text format: optional comment lines starting with `c`, a header line
//! `p cnf <variables> <clauses>`, then clauses as one-based signed variable
//! numbers, each clause closed by a `0` token.

use crate::sat::formula_bounded;
use crate::sat::formula_num_vars;
use crate::sat::formula_view;
use crate::sat::lemma_formula_num_vars_le;
use crate::sat::lit_var;
use crate::sat::Literal;
use vstd::prelude::*;

verus! {

/// Why a DIMACS source was rejected.
#[derive(Clone, Copy, Debug, PartialEq, Eq, Structural)]
pub enum Error {
    NoHeader,
    BadHeader,
    BadClause,
    VariableCount,
    ClauseCount,
}

/// The DIMACS header: the declared variable and clause counts.
#[derive(Clone, Copy, Debug, PartialEq, Eq, Structural)]
pub struct Header {
    pub num_variables: usize,
    pub num_clauses: usize,
}

/// An ASCII decimal digit.
pub open spec fn is_digit(b: u8) -> bool {
    48 <= b <= 57
}

pub open spec fn all_digits(s: Seq<u8>) -> bool {
    forall|i: int| 0 <= i < s.len() ==> is_digit(#[trigger] s[i])
}

/// The number the digit bytes spell in decimal.
pub open spec fn digits_value(s: Seq<u8>) -> int
    decreases s.len(),
{
    if s.len() == 0 {
        0
    } else {
        digits_value(s.drop_last()) * 10 + (s.last() - 48)
    }
}

/// The token with one leading `+` removed.
pub open spec fn unsigned_body(s: Seq<u8>) -> Seq<u8> {
    if s.len() > 0 && s[0] == 43 {
        s.skip(1)
    } else {
        s
    }
}

/// An unsigned decimal token: an optional `+`, then one or more digits.
pub open spec fn valid_unsigned(s: Seq<u8>) -> bool {
    unsigned_body(s).len() > 0 && all_digits(unsigned_body(s))
}

pub open spec fn unsigned_value(s: Seq<u8>) -> int {
    digits_value(unsigned_body(s))
}

/// The token with one leading `+` or `-` removed.
pub open spec fn signed_body(s: Seq<u8>) -> Seq<u8> {
    if s.len() > 0 && (s[0] == 43 || s[0] == 45) {
        s.skip(1)
    } else {
        s
    }
}

/// A signed decimal token: an optional sign, then one or more digits.
pub open spec fn valid_signed(s: Seq<u8>) -> bool {
    signed_body(s).len() > 0 && all_digits(signed_body(s))
}

pub open spec fn signed_value(s: Seq<u8>) -> int {
    if s.len() > 0 && s[0] == 45 {
        -digits_value(signed_body(s))
    } else {
        digits_value(signed_body(s))
    }
}

proof fn lemma_digits_value_nonneg(s: Seq<u8>)
    requires
        all_digits(s),
    ensures
        digits_value(s) >= 0,
    decreases s.len(),
{
    if s.len() > 0 {
        let d = s.drop_last();
        assert forall|i: int| 0 <= i < d.len() implies is_digit(#[trigger] d[i]) by {
            assert(d[i] == s[i]);
        }
        lemma_digits_value_nonneg(d);
        assert(digits_value(d) * 10 >= 0) by (nonlinear_arith)
            requires
                digits_value(d) >= 0,
        ;
    }
}

proof fn lemma_digits_value_step(s: Seq<u8>, k: int)
    requires
        0 <= k < s.len(),
    ensures
        digits_value(s.take(k + 1)) == digits_value(s.take(k)) * 10 + (s[k] - 48),
{
    assert(s.take(k + 1).drop_last() =~= s.take(k));
    assert(s.take(k + 1).last() == s[k]);
}

/// Parses an unsigned decimal token, as the header fields demand: an optional
/// leading `+`, then digits, rejecting anything else and values over the
/// machine word.
fn parse_usize_token(s: &[u8]) -> (r: Option<usize>)
    ensures
        (r is Some) == (valid_unsigned(s@) && unsigned_value(s@) <= usize::MAX),
        r matches Some(v) ==> v as int == unsigned_value(s@),
{
    let start: usize = if s.len() > 0 && s[0] == 43 {
        1
    } else {
        0
    };
    let ghost body = unsigned_body(s@);
    proof {
        assert(body =~= s@.subrange(start as int, s@.len() as int));
    }
    if s.len() == start {
        return None;
    }
    let mut acc: usize = 0;
    let mut over = false;
    let mut i: usize = start;
    while i < s.len()
        invariant
            start <= i <= s@.len(),
            start <= 1,
            body == unsigned_body(s@),
            body =~= s@.subrange(start as int, s@.len() as int),
            forall|p: int| start <= p < i ==> is_digit(#[trigger] s@[p]),
            !over ==> acc as int == digits_value(s@.subrange(start as int, i as int)),
            over ==> digits_value(s@.subrange(start as int, i as int)) > usize::MAX,
            over ==> all_digits(s@.subrange(start as int, i as int)),
        decreases s@.len() - i,
    {
        let c = s[i];
        if c < 48 || c > 57 {
            proof {
                assert(body[i - start] == s@[i as int]);
                assert(!is_digit(body[i - start]));
            }
            return None;
        }
        let ghost pre = s@.subrange(start as int, i as int);
        let ghost post = s@.subrange(start as int, i + 1 as int);
        proof {
            assert(post.take(i - start) =~= pre);
            assert(post =~= post.take(i + 1 - start));
            lemma_digits_value_step(post, i - start);
            assert(post[i - start] == s@[i as int]);
        }
        if !over {
            let wide: u128 = acc as u128 * 10 + (c - 48) as u128;
            if wide > usize::MAX as u128 {
                over = true;
                proof {
                    assert(digits_value(post) == wide);
                    assert forall|p: int| 0 <= p < post.len() implies is_digit(
                        #[trigger] post[p],
                    ) by {
                        assert(post[p] == s@[start + p]);
                    }
                }
            } else {
                acc = wide as usize;
            }
        } else {
            proof {
                lemma_digits_value_nonneg(pre);
                let v = digits_value(pre);
                assert(digits_value(post) > usize::MAX) by (nonlinear_arith)
                    requires
                        v > usize::MAX,
                        digits_value(post) == v * 10 + (s@[i as int] - 48),
                        is_digit(s@[i as int]),
                ;
                assert forall|p: int| 0 <= p < post.len() implies is_digit(#[trigger] post[p]) by {
                    assert(post[p] == s@[start + p]);
                }
            }
        }
        i += 1;
    }
    proof {
        assert(s@.subrange(start as int, s@.len() as int) =~= body);
        assert forall|p: int| 0 <= p < body.len() implies is_digit(#[trigger] body[p]) by {
            assert(body[p] == s@[start + p]);
        }
        assert(valid_unsigned(s@));
    }
    if over {
        None
    } else {
        Some(acc)
    }
}

/// Parses a signed decimal token, as clause literals demand: an optional sign,
/// then digits, rejecting anything else and values outside the 32-bit range.
fn parse_i32_token(s: &[u8]) -> (r: Option<i32>)
    ensures
        (r is Some) == (valid_signed(s@) && i32::MIN <= signed_value(s@) <= i32::MAX),
        r matches Some(v) ==> v as int == signed_value(s@),
{
    let neg = s.len() > 0 && s[0] == 45;
    let start: usize = if s.len() > 0 && (s[0] == 43 || s[0] == 45) {
        1
    } else {
        0
    };
    let ghost body = signed_body(s@);
    proof {
        assert(body =~= s@.subrange(start as int, s@.len() as int));
    }
    if s.len() == start {
        return None;
    }
    let mut mag: u64 = 0;
    let mut over = false;
    let mut i: usize = start;
    while i < s.len()
        invariant
            start <= i <= s@.len(),
            start <= 1,
            body == signed_body(s@),
            body =~= s@.subrange(start as int, s@.len() as int),
            forall|p: int| start <= p < i ==> is_digit(#[trigger] s@[p]),
            !over ==> mag as int == digits_value(s@.subrange(start as int, i as int)) && mag
                <= 0x8000_0000,
            over ==> digits_value(s@.subrange(start as int, i as int)) > 0x8000_0000,
            over ==> all_digits(s@.subrange(start as int, i as int)),
        decreases s@.len() - i,
    {
        let c = s[i];
        if c < 48 || c > 57 {
            proof {
                assert(body[i - start] == s@[i as int]);
                assert(!is_digit(body[i - start]));
            }
            return None;
        }
        let ghost pre = s@.subrange(start as int, i as int);
        let ghost post = s@.subrange(start as int, i + 1 as int);
        proof {
            assert(post.take(i - start) =~= pre);
            assert(post =~= post.take(i + 1 - start));
            lemma_digits_value_step(post, i - start);
            assert(post[i - start] == s@[i as int]);
        }
        if !over {
            let wide: u64 = mag * 10 + (c - 48) as u64;
            if wide > 0x8000_0000 {
                over = true;
                proof {
                    assert(digits_value(post) == wide);
                    assert forall|p: int| 0 <= p < post.len() implies is_digit(
                        #[trigger] post[p],
                    ) by {
                        assert(post[p] == s@[start + p]);
                    }
                }
            } else {
                mag = wide;
            }
        } else {
            proof {
                lemma_digits_value_nonneg(pre);
                let v = digits_value(pre);
                assert(digits_value(post) > 0x8000_0000) by (nonlinear_arith)
                    requires
                        v > 0x8000_0000,
                        digits_value(post) == v * 10 + (s@[i as int] - 48),
                        is_digit(s@[i as int]),
                ;
                assert forall|p: int| 0 <= p < post.len() implies is_digit(#[trigger] post[p]) by {
                    assert(post[p] == s@[start + p]);
                }
            }
        }
        i += 1;
    }
    proof {
        assert(s@.subrange(start as int, s@.len() as int) =~= body);
        assert forall|p: int| 0 <= p < body.len() implies is_digit(#[trigger] body[p]) by {
            assert(body[p] == s@[start + p]);
        }
        assert(valid_signed(s@));
        if !over {
            lemma_digits_value_nonneg(body);
        }
    }
    if over {
        None
    } else if neg {
        Some((-(mag as i64)) as i32)
    } else if mag > 0x7FFF_FFFF {
        None
    } else {
        Some(mag as i32)
    }
}


/// ASCII whitespace, as the tokenizer splits on it.
pub open spec fn is_space(b: u8) -> bool {
    b == 32 || b == 9 || b == 10 || b == 13 || b == 11 || b == 12
}

/// The lines of a source text: each newline byte closes a line, and a final
/// line needs no newline.
pub open spec fn spec_lines(s: Seq<u8>) -> Seq<Seq<u8>>
    decreases s.len(),
{
    if s.len() == 0 {
        Seq::empty()
    } else {
        let rest = spec_lines(s.drop_last());
        let b = s.last();
        if b == 10 {
            if s.len() >= 2 && s[s.len() - 2] != 10 {
                rest
            } else {
                rest.push(Seq::empty())
            }
        } else {
            if s.len() >= 2 && s[s.len() - 2] != 10 {
                rest.update(rest.len() - 1, rest.last().push(b))
            } else {
                rest.push(seq![b])
            }
        }
    }
}

/// The whitespace-separated tokens of a line, in order.
pub open spec fn spec_tokens(s: Seq<u8>) -> Seq<Seq<u8>>
    decreases s.len(),
{
    if s.len() == 0 {
        Seq::empty()
    } else {
        let rest = spec_tokens(s.drop_last());
        let b = s.last();
        if is_space(b) {
            rest
        } else if s.len() >= 2 && !is_space(s[s.len() - 2]) {
            rest.update(rest.len() - 1, rest.last().push(b))
        } else {
            rest.push(seq![b])
        }
    }
}

/// The value of a list of byte vectors: each element as a byte sequence.
pub open spec fn chunks_view(t: Seq<Vec<u8>>) -> Seq<Seq<u8>> {
    Seq::new(t.len(), |i: int| t[i]@)
}

/// Splits a source text into its lines.
fn split_lines(src: &[u8]) -> (r: Vec<Vec<u8>>)
    ensures
        chunks_view(r@) == spec_lines(src@),
{
    let mut lines: Vec<Vec<u8>> = Vec::new();
    let mut cur: Vec<u8> = Vec::new();
    let mut i: usize = 0;
    while i < src.len()
        invariant
            i <= src@.len(),
            i == 0 || src@[i - 1] == 10 ==> cur@.len() == 0 && chunks_view(lines@) == spec_lines(
                src@.take(i as int),
            ),
            i > 0 && src@[i - 1] != 10 ==> cur@.len() > 0 && chunks_view(lines@).push(cur@)
                == spec_lines(src@.take(i as int)),
        decreases src@.len() - i,
    {
        let ghost pre = src@.take(i as int);
        let ghost post = src@.take(i + 1 as int);
        proof {
            assert(post.drop_last() =~= pre);
            assert(post.last() == src@[i as int]);
            if i >= 1 {
                assert(post[post.len() - 2] == src@[i - 1]);
            }
        }
        let b = src[i];
        if b == 10 {
            let ghost lv = chunks_view(lines@);
            let ghost cv = cur@;
            lines.push(cur);
            cur = Vec::new();
            proof {
                assert(chunks_view(lines@) =~= lv.push(cv));
                if i == 0 || src@[i - 1] == 10 {
                    assert(spec_lines(post) == spec_lines(pre).push(Seq::<u8>::empty()));
                    assert(cv =~= Seq::<u8>::empty());
                } else {
                    assert(spec_lines(post) == spec_lines(pre));
                    assert(lv.push(cv) == spec_lines(pre));
                }
            }
        } else {
            let ghost lv = chunks_view(lines@);
            let ghost cv = cur@;
            cur.push(b);
            proof {
                if i == 0 || src@[i - 1] == 10 {
                    assert(spec_lines(post) == spec_lines(pre).push(seq![src@[i as int]]));
                    assert(cur@ =~= seq![src@[i as int]]);
                } else {
                    assert(lv.push(cv) == spec_lines(pre));
                    assert(spec_lines(pre).len() == lv.len() + 1);
                    assert(spec_lines(pre).last() == cv);
                    assert(spec_lines(post) == spec_lines(pre).update(
                        spec_lines(pre).len() - 1,
                        cv.push(src@[i as int]),
                    ));
                    assert(spec_lines(post) =~= lv.push(cv.push(src@[i as int])));
                }
            }
        }
        i += 1;
    }
    proof {
        assert(src@.take(src@.len() as int) =~= src@);
    }
    if cur.len() > 0 {
        let ghost lv = chunks_view(lines@);
        let ghost cv = cur@;
        lines.push(cur);
        proof {
            assert(chunks_view(lines@) =~= lv.push(cv));
        }
    }
    lines
}

/// Splits one line into whitespace-separated tokens.
fn tokenize_line(line: &[u8]) -> (r: Vec<Vec<u8>>)
    ensures
        chunks_view(r@) == spec_tokens(line@),
{
    let mut tokens: Vec<Vec<u8>> = Vec::new();
    let mut cur: Vec<u8> = Vec::new();
    let mut i: usize = 0;
    while i < line.len()
        invariant
            i <= line@.len(),
            i == 0 || is_space(line@[i - 1]) ==> cur@.len() == 0 && chunks_view(tokens@)
                == spec_tokens(line@.take(i as int)),
            i > 0 && !is_space(line@[i - 1]) ==> cur@.len() > 0 && chunks_view(tokens@).push(cur@)
                == spec_tokens(line@.take(i as int)),
        decreases line@.len() - i,
    {
        let ghost pre = line@.take(i as int);
        let ghost post = line@.take(i + 1 as int);
        proof {
            assert(post.drop_last() =~= pre);
            assert(post.last() == line@[i as int]);
            if i >= 1 {
                assert(post[post.len() - 2] == line@[i - 1]);
            }
        }
        let b = line[i];
        let space = b == 32 || b == 9 || b == 10 || b == 13 || b == 11 || b == 12;
        proof {
            assert(space == is_space(line@[i as int]));
        }
        if space {
            if cur.len() > 0 {
                let ghost tv = chunks_view(tokens@);
                let ghost cv = cur@;
                tokens.push(cur);
                cur = Vec::new();
                proof {
                    assert(chunks_view(tokens@) =~= tv.push(cv));
                    assert(spec_tokens(post) == spec_tokens(pre));
                }
            } else {
                proof {
                    assert(spec_tokens(post) == spec_tokens(pre));
                }
            }
        } else {
            let ghost tv = chunks_view(tokens@);
            let ghost cv = cur@;
            cur.push(b);
            proof {
                if i == 0 || is_space(line@[i - 1]) {
                    assert(spec_tokens(post) == spec_tokens(pre).push(seq![line@[i as int]]));
                    assert(cur@ =~= seq![line@[i as int]]);
                } else {
                    assert(tv.push(cv) == spec_tokens(pre));
                    assert(spec_tokens(pre).len() == tv.len() + 1);
                    assert(spec_tokens(pre).last() == cv);
                    assert(spec_tokens(post) == spec_tokens(pre).update(
                        spec_tokens(pre).len() - 1,
                        cv.push(line@[i as int]),
                    ));
                    assert(spec_tokens(post) =~= tv.push(cv.push(line@[i as int])));
                }
            }
        }
        i += 1;
    }
    proof {
        assert(line@.take(line@.len() as int) =~= line@);
    }
    if cur.len() > 0 {
        let ghost tv = chunks_view(tokens@);
        let ghost cv = cur@;
        tokens.push(cur);
        proof {
            assert(chunks_view(tokens@) =~= tv.push(cv));
        }
    }
    tokens
}

/// The header scan over the lines of a source: comment and blank lines are
/// skipped; the first other line must start with the token `p` and then read
/// `p cnf <variables> <clauses>`; `Ok` carries the index of the line after the
/// header.
pub open spec fn spec_header_scan(lines: Seq<Seq<u8>>, k: int) -> Result<(Header, int), Error>
    decreases lines.len() - k,
{
    if k >= lines.len() {
        Err(Error::NoHeader)
    } else {
        let line = lines[k];
        if line.len() > 0 && line[0] == 99 {
            spec_header_scan(lines, k + 1)
        } else {
            let toks = spec_tokens(line);
            if toks.len() == 0 {
                spec_header_scan(lines, k + 1)
            } else if toks[0] != seq![112u8] {
                Err(Error::NoHeader)
            } else if toks.len() != 4 {
                Err(Error::BadHeader)
            } else if toks[1] != seq![99u8, 110u8, 102u8] {
                Err(Error::BadHeader)
            } else if !(valid_unsigned(toks[2]) && unsigned_value(toks[2]) <= usize::MAX) {
                Err(Error::BadHeader)
            } else if !(valid_unsigned(toks[3]) && unsigned_value(toks[3]) <= usize::MAX) {
                Err(Error::BadHeader)
            } else {
                Ok(
                    (
                        Header {
                            num_variables: unsigned_value(toks[2]) as usize,
                            num_clauses: unsigned_value(toks[3]) as usize,
                        },
                        k + 1,
                    ),
                )
            }
        }
    }
}

/// What `parse_header` returns for a source text.
pub open spec fn spec_parse_header(s: Seq<u8>) -> Result<Header, Error> {
    match spec_header_scan(spec_lines(s), 0) {
        Ok((h, _)) => Ok(h),
        Err(e) => Err(e),
    }
}

/// The header of a source whose header scan succeeds.
pub open spec fn spec_header_of(s: Seq<u8>) -> Header {
    match spec_header_scan(spec_lines(s), 0) {
        Ok((h, _)) => h,
        Err(_) => Header { num_variables: 0, num_clauses: 0 },
    }
}

/// The values of one line's tokens: every token read as a 32-bit number, or
/// nothing when one is not.
pub open spec fn spec_line_values(toks: Seq<Seq<u8>>) -> Option<Seq<i32>>
    decreases toks.len(),
{
    if toks.len() == 0 {
        Some(Seq::empty())
    } else {
        match spec_line_values(toks.drop_last()) {
            None => None,
            Some(vs) => {
                let t = toks.last();
                if valid_signed(t) && i32::MIN <= signed_value(t) <= i32::MAX {
                    Some(vs.push(signed_value(t) as i32))
                } else {
                    None
                }
            },
        }
    }
}

/// The numeral values of all non-comment lines, in order.
pub open spec fn spec_values(lines: Seq<Seq<u8>>) -> Option<Seq<i32>>
    decreases lines.len(),
{
    if lines.len() == 0 {
        Some(Seq::empty())
    } else {
        let line = lines.last();
        let rest = spec_values(lines.drop_last());
        if line.len() > 0 && line[0] == 99 {
            rest
        } else {
            match rest {
                None => None,
                Some(rs) => match spec_line_values(spec_tokens(line)) {
                    None => None,
                    Some(vs) => Some(rs + vs),
                },
            }
        }
    }
}

/// The literal a one-based signed number denotes.
pub open spec fn spec_literal(v: i32) -> Literal {
    if v > 0 {
        Literal::Var((v - 1) as usize)
    } else {
        Literal::Not((-(v as int) - 1) as usize)
    }
}

/// Groups numerals into clauses: a `0` closes the open clause; any other value
/// becomes a literal, rejected when its magnitude exceeds the declared
/// variable count; an unterminated trailing clause is dropped.
pub open spec fn spec_clauses(
    vs: Seq<i32>,
    nv: int,
    clause: Seq<Literal>,
    formula: Seq<Seq<Literal>>,
) -> Option<Seq<Seq<Literal>>>
    decreases vs.len(),
{
    if vs.len() == 0 {
        Some(formula)
    } else {
        let v = vs[0];
        if v == 0 {
            spec_clauses(vs.skip(1), nv, Seq::empty(), formula.push(clause))
        } else if (if v >= 0 {
            v as int
        } else {
            -(v as int)
        }) > nv {
            None
        } else {
            spec_clauses(vs.skip(1), nv, clause.push(spec_literal(v)), formula)
        }
    }
}

/// What `parse_formula` returns for the lines of a clause section.
pub open spec fn spec_parse_formula(lines: Seq<Seq<u8>>, h: Header) -> Result<
    Seq<Seq<Literal>>,
    Error,
> {
    match spec_values(lines) {
        None => Err(Error::BadClause),
        Some(vs) => match spec_clauses(
            vs,
            h.num_variables as int,
            Seq::empty(),
            Seq::empty(),
        ) {
            None => Err(Error::VariableCount),
            Some(f) => if f.len() == h.num_clauses {
                Ok(f)
            } else {
                Err(Error::ClauseCount)
            },
        },
    }
}

/// What `load` returns for a source text.
pub open spec fn spec_load(s: Seq<u8>) -> Result<Seq<Seq<Literal>>, Error> {
    match spec_header_scan(spec_lines(s), 0) {
        Err(e) => Err(e),
        Ok((h, k)) => spec_parse_formula(spec_lines(s).skip(k), h),
    }
}

proof fn lemma_line_values_prefix_none(toks: Seq<Seq<u8>>, t: int)
    requires
        0 <= t <= toks.len(),
        spec_line_values(toks.take(t)) is None,
    ensures
        spec_line_values(toks) is None,
    decreases toks.len() - t,
{
    if t < toks.len() {
        assert(toks.take(t + 1).drop_last() =~= toks.take(t));
        lemma_line_values_prefix_none(toks, t + 1);
    } else {
        assert(toks.take(t) =~= toks);
    }
}

proof fn lemma_values_prefix_none(lines: Seq<Seq<u8>>, k: int)
    requires
        0 <= k <= lines.len(),
        spec_values(lines.take(k)) is None,
    ensures
        spec_values(lines) is None,
    decreases lines.len() - k,
{
    if k < lines.len() {
        assert(lines.take(k + 1).drop_last() =~= lines.take(k));
        lemma_values_prefix_none(lines, k + 1);
    } else {
        assert(lines.take(k) =~= lines);
    }
}

/// Is the token the single letter `p`?
fn token_is_p(t: &Vec<u8>) -> (r: bool)
    ensures
        r == (t@ == seq![112u8]),
{
    let r = t.len() == 1 && t[0] == 112;
    proof {
        if r {
            assert(t@ =~= seq![112u8]);
        } else {
            if t@ == seq![112u8] {
                assert(t@.len() == 1 && t@[0] == 112);
            }
        }
    }
    r
}

/// Is the token the word `cnf`?
fn token_is_cnf(t: &Vec<u8>) -> (r: bool)
    ensures
        r == (t@ == seq![99u8, 110u8, 102u8]),
{
    let r = t.len() == 3 && t[0] == 99 && t[1] == 110 && t[2] == 102;
    proof {
        if r {
            assert(t@ =~= seq![99u8, 110u8, 102u8]);
        } else {
            if t@ == seq![99u8, 110u8, 102u8] {
                assert(t@.len() == 3 && t@[0] == 99 && t@[1] == 110 && t@[2] == 102);
            }
        }
    }
    r
}

/// Scans the lines for the header, skipping comments and blank lines, and
/// reports the index of the line after it.
fn header_scan(lines: &Vec<Vec<u8>>) -> (r: Result<(Header, usize), Error>)
    ensures
        match r {
            Ok((h, k)) => k <= lines@.len() && spec_header_scan(chunks_view(lines@), 0)
                == Ok::<(Header, int), Error>((h, k as int)),
            Err(e) => spec_header_scan(chunks_view(lines@), 0) == Err::<(Header, int), Error>(e),
        },
{
    let ghost lv = chunks_view(lines@);
    let mut k: usize = 0;
    while k < lines.len()
        invariant
            k <= lines@.len(),
            lv == chunks_view(lines@),
            spec_header_scan(lv, 0) == spec_header_scan(lv, k as int),
        decreases lines@.len() - k,
    {
        let line = &lines[k];
        proof {
            assert(line@ == lv[k as int]);
        }
        if !(line.len() > 0 && line[0] == 99) {
            let tokens = tokenize_line(line.as_slice());
            let ghost toks = spec_tokens(lv[k as int]);
            proof {
                assert(chunks_view(tokens@) == toks);
            }
            if tokens.len() > 0 {
                proof {
                    assert(tokens@[0]@ == toks[0]);
                    assert(tokens@[1]@ == toks[1] || tokens@.len() < 2);
                }
                if !token_is_p(&tokens[0]) {
                    return Err(Error::NoHeader);
                }
                // p cnf <num> <num>
                if tokens.len() != 4 {
                    return Err(Error::BadHeader);
                }
                proof {
                    assert(tokens@[1]@ == toks[1]);
                    assert(tokens@[2]@ == toks[2]);
                    assert(tokens@[3]@ == toks[3]);
                }
                if !token_is_cnf(&tokens[1]) {
                    return Err(Error::BadHeader);
                }
                let num_variables = match parse_usize_token(tokens[2].as_slice()) {
                    Some(n) => n,
                    None => {
                        return Err(Error::BadHeader);
                    },
                };
                let num_clauses = match parse_usize_token(tokens[3].as_slice()) {
                    Some(n) => n,
                    None => {
                        return Err(Error::BadHeader);
                    },
                };
                proof {
                    lemma_digits_value_nonneg(unsigned_body(toks[2]));
                    lemma_digits_value_nonneg(unsigned_body(toks[3]));
                }
                return Ok((Header { num_variables, num_clauses }, k + 1));
            }
        }
        k += 1;
    }
    Err(Error::NoHeader)
}

/// Parses the header of a DIMACS source: the first line that is neither a
/// comment nor blank must read `p cnf <variables> <clauses>`.
pub fn parse_header(src: &[u8]) -> (r: Result<Header, Error>)
    ensures
        r == spec_parse_header(src@),
{
    let lines = split_lines(src);
    match header_scan(&lines) {
        Ok((header, _)) => Ok(header),
        Err(e) => Err(e),
    }
}

/// Parses clause text from the given line onward: numeral tokens on
/// non-comment lines, read as one-based signed variable numbers, each clause
/// closed by a `0`.
fn parse_formula_lines(lines: &Vec<Vec<u8>>, from: usize, header: &Header) -> (r: Result<
    Vec<Vec<Literal>>,
    Error,
>)
    requires
        from <= lines@.len(),
    ensures
        match r {
            Ok(f) => spec_parse_formula(chunks_view(lines@).skip(from as int), *header)
                == Ok::<Seq<Seq<Literal>>, Error>(formula_view(f@)),
            Err(e) => spec_parse_formula(chunks_view(lines@).skip(from as int), *header)
                == Err::<Seq<Seq<Literal>>, Error>(e),
        },
        r matches Ok(f) ==> formula_bounded(formula_view(f@), header.num_variables as int)
            && f@.len() == header.num_clauses,
{
    let ghost lv = chunks_view(lines@);
    let ghost suffix = lv.skip(from as int);
    // First, collect all numeral tokens from the lines.
    let mut values: Vec<i32> = Vec::new();
    let mut k: usize = from;
    while k < lines.len()
        invariant
            from <= k <= lines@.len(),
            lv == chunks_view(lines@),
            suffix == lv.skip(from as int),
            spec_values(lv.subrange(from as int, k as int)) == Some(values@),
        decreases lines@.len() - k,
    {
        let ghost prefix = lv.subrange(from as int, k as int);
        let ghost prefix2 = lv.subrange(from as int, k + 1 as int);
        proof {
            assert(prefix2.drop_last() =~= prefix);
            assert(prefix2.last() == lv[k as int]);
        }
        let line = &lines[k];
        proof {
            assert(line@ == lv[k as int]);
        }
        if !(line.len() > 0 && line[0] == 99) {
            let tokens = tokenize_line(line.as_slice());
            let ghost toks = spec_tokens(lv[k as int]);
            proof {
                assert(chunks_view(tokens@) == toks);
            }
            let ghost vbase = values@;
            let mut t: usize = 0;
            while t < tokens.len()
                invariant
                    t <= tokens@.len(),
                    lv == chunks_view(lines@),
                    suffix == lv.skip(from as int),
                    from <= k < lv.len(),
                    toks == chunks_view(tokens@),
                    toks == spec_tokens(lv[k as int]),
                    !(lv[k as int].len() > 0 && lv[k as int][0] == 99),
                    spec_values(lv.subrange(from as int, k as int)) == Some(vbase),
                    values@.len() >= vbase.len(),
                    values@.take(vbase.len() as int) == vbase,
                    spec_line_values(toks.take(t as int)) == Some(
                        values@.skip(vbase.len() as int),
                    ),
                decreases tokens@.len() - t,
            {
                let ghost tpre = toks.take(t as int);
                let ghost tpost = toks.take(t + 1 as int);
                proof {
                    assert(tpost.drop_last() =~= tpre);
                    assert(tpost.last() == toks[t as int]);
                    assert(tokens@[t as int]@ == toks[t as int]);
                }
                match parse_i32_token(tokens[t].as_slice()) {
                    Some(v) => {
                        values.push(v);
                        proof {
                            assert(values@.take(vbase.len() as int) =~= vbase);
                            assert(values@.skip(vbase.len() as int) =~= values@.drop_last().skip(
                                vbase.len() as int,
                            ).push(v));
                        }
                    },
                    None => {
                        proof {
                            assert(spec_line_values(tpost) is None);
                            lemma_line_values_prefix_none(toks, t + 1);
                            let pfx = lv.subrange(from as int, k as int);
                            let pfx2 = lv.subrange(from as int, k + 1 as int);
                            assert(pfx2.drop_last() =~= pfx);
                            assert(pfx2.last() == lv[k as int]);
                            assert(spec_values(pfx2) is None);
                            assert(suffix.take(k + 1 - from) =~= pfx2);
                            lemma_values_prefix_none(suffix, k + 1 - from);
                        }
                        return Err(Error::BadClause);
                    },
                }
                t += 1;
            }
            proof {
                assert(toks.take(toks.len() as int) =~= toks);
                assert(vbase + values@.skip(vbase.len() as int) =~= values@);
            }
        }
        k += 1;
    }
    proof {
        assert(lv.subrange(from as int, lv.len() as int) =~= suffix);
        assert(spec_values(suffix) == Some(values@));
    }
    // Then, group the numeral sequence into clauses separated by `0` tokens.
    let nv = header.num_variables;
    let mut formula: Vec<Vec<Literal>> = Vec::new();
    let mut clause: Vec<Literal> = Vec::new();
    let ghost vall = values@;
    proof {
        assert(vall.skip(0) =~= vall);
        assert(formula_view(formula@) =~= Seq::<Seq<Literal>>::empty());
        assert(clause@ =~= Seq::<Literal>::empty());
    }
    let mut j: usize = 0;
    while j < values.len()
        invariant
            j <= values@.len(),
            nv == header.num_variables,
            lv == chunks_view(lines@),
            suffix == lv.skip(from as int),
            vall == values@,
            spec_values(suffix) == Some(vall),
            formula_bounded(formula_view(formula@), nv as int),
            forall|p: int| 0 <= p < clause@.len() ==> lit_var(#[trigger] clause@[p]) < nv as int,
            spec_clauses(values@, nv as int, Seq::empty(), Seq::empty()) == spec_clauses(
                values@.skip(j as int),
                nv as int,
                clause@,
                formula_view(formula@),
            ),
        decreases values@.len() - j,
    {
        let ghost vtail = values@.skip(j as int);
        proof {
            assert(vtail.skip(1) =~= values@.skip(j + 1 as int));
            assert(vtail[0] == values@[j as int]);
        }
        let v = values[j];
        if v == 0 {
            let ghost fpre = formula_view(formula@);
            let ghost cv = clause@;
            formula.push(clause);
            clause = Vec::new();
            proof {
                let fnow = formula_view(formula@);
                assert(fnow =~= fpre.push(cv));
                assert forall|i: int, p: int|
                    0 <= i < fnow.len() && 0 <= p < fnow[i].len() implies lit_var(
                    #[trigger] fnow[i][p],
                ) < nv as int by {
                    if i < fpre.len() {
                        assert(fnow[i] == fpre[i]);
                    } else {
                        assert(fnow[i] == cv);
                    }
                }
            }
        } else {
            let mag: usize = if v > 0 {
                v as usize
            } else {
                (-(v as i64)) as usize
            };
            if mag > nv {
                proof {
                    assert(mag as int == (if values@[j as int] >= 0 {
                        values@[j as int] as int
                    } else {
                        -(values@[j as int] as int)
                    }));
                    assert(spec_clauses(vtail, nv as int, clause@, formula_view(formula@))
                        is None);
                }
                return Err(Error::VariableCount);
            }
            // one-based signed numbers become zero-based tagged indices
            if v > 0 {
                clause.push(Literal::Var(mag - 1));
            } else {
                clause.push(Literal::Not(mag - 1));
            }
            proof {
                assert(clause@.last() == spec_literal(values@[j as int]));
            }
        }
        j += 1;
    }
    proof {
        assert(values@.skip(values@.len() as int) =~= Seq::<i32>::empty());
        assert(spec_clauses(values@, nv as int, Seq::empty(), Seq::empty()) == Some(
            formula_view(formula@),
        ));
    }
    if formula.len() != header.num_clauses {
        return Err(Error::ClauseCount);
    }
    Ok(formula)
}

/// Parses clause text: numeral tokens on non-comment lines, read as one-based
/// signed variable numbers, each clause closed by a `0`. On success every
/// variable index lies below the header's variable count and the clause count
/// matches the header.
pub fn parse_formula(src: &[u8], header: &Header) -> (r: Result<Vec<Vec<Literal>>, Error>)
    ensures
        match r {
            Ok(f) => spec_parse_formula(spec_lines(src@), *header) == Ok::<
                Seq<Seq<Literal>>,
                Error,
            >(formula_view(f@)),
            Err(e) => spec_parse_formula(spec_lines(src@), *header) == Err::<
                Seq<Seq<Literal>>,
                Error,
            >(e),
        },
        r matches Ok(f) ==> formula_bounded(formula_view(f@), header.num_variables as int)
            && f@.len() == header.num_clauses,
{
    let lines = split_lines(src);
    proof {
        assert(chunks_view(lines@).skip(0) =~= spec_lines(src@));
    }
    parse_formula_lines(&lines, 0, header)
}

/// Loads a DIMACS CNF formula: header first, then the clauses. On success the
/// formula respects the declared header — every variable index lies below the
/// declared variable count, the clause count matches — so its own variable
/// count fits the machine word, as the solver's entry point expects.
pub fn load(src: &[u8]) -> (r: Result<Vec<Vec<Literal>>, Error>)
    ensures
        match r {
            Ok(f) => spec_load(src@) == Ok::<Seq<Seq<Literal>>, Error>(formula_view(f@)),
            Err(e) => spec_load(src@) == Err::<Seq<Seq<Literal>>, Error>(e),
        },
        r matches Ok(f) ==> formula_bounded(formula_view(f@), spec_header_of(src@).num_variables as int)
            && f@.len() == spec_header_of(src@).num_clauses
            && formula_num_vars(formula_view(f@)) <= usize::MAX,
{
    let lines = split_lines(src);
    let (header, body_at) = match header_scan(&lines) {
        Ok(h) => h,
        Err(e) => {
            return Err(e);
        },
    };
    match parse_formula_lines(&lines, body_at, &header) {
        Ok(formula) => {
            proof {
                lemma_formula_num_vars_le(formula_view(formula@), header.num_variables as int);
            }
            Ok(formula)
        },
        Err(e) => Err(e),
    }
}

/// The decimal digits of `n`, most significant first.
pub open spec fn dec_bytes(n: nat) -> Seq<u8>
    decreases n,
{
    if n < 10 {
        seq![(48 + n) as u8]
    } else {
        dec_bytes(n / 10).push((48 + n % 10) as u8)
    }
}

/// One assignment entry as text: the one-based variable number, negated when
/// the variable is false.
pub open spec fn assignment_token(i: nat, truth: bool) -> Seq<u8> {
    if truth {
        dec_bytes(i + 1)
    } else {
        seq![45u8] + dec_bytes(i + 1)
    }
}

/// The first `k` assignment entries as text, joined by single spaces.
pub open spec fn assignment_bytes_upto(a: Seq<bool>, k: int) -> Seq<u8>
    decreases k,
{
    if k <= 0 {
        Seq::empty()
    } else if k == 1 {
        assignment_token(0, a[0])
    } else {
        assignment_bytes_upto(a, k - 1) + seq![32u8] + assignment_token((k - 1) as nat, a[k - 1])
    }
}

/// A whole assignment as a text line: entries in increasing variable order,
/// single spaces between them, no trailing separator, empty for an empty
/// assignment.
pub open spec fn assignment_text(a: Seq<bool>) -> Seq<char> {
    assignment_bytes_upto(a, a.len() as int).map_values(|b: u8| b as char)
}

proof fn lemma_dec_bytes_ascii(n: nat)
    ensures
        forall|k: int| 0 <= k < dec_bytes(n).len() ==> 48 <= #[trigger] dec_bytes(n)[k] <= 57,
    decreases n,
{
    if n < 10 {
        assert(dec_bytes(n)[0] == (48 + n) as u8);
    } else {
        lemma_dec_bytes_ascii(n / 10);
        assert forall|k: int| 0 <= k < dec_bytes(n).len() implies 48 <= #[trigger] dec_bytes(n)[k]
            <= 57 by {
            if k < dec_bytes(n).len() - 1 {
                assert(dec_bytes(n)[k] == dec_bytes(n / 10)[k]);
            } else {
                assert(dec_bytes(n)[k] == (48 + n % 10) as u8);
            }
        }
    }
}

/// Relies on String::from_utf8: bytes below 128 are single-byte UTF-8 and
/// decode to the characters with the same code points.
#[verifier::external_body]
fn ascii_to_string(bytes: Vec<u8>) -> (r: String)
    requires
        forall|i: int| 0 <= i < bytes@.len() ==> bytes@[i] < 128,
    ensures
        r@ == bytes@.map_values(|b: u8| b as char),
{
    String::from_utf8(bytes).unwrap()
}

/// Appends the decimal digits of `n`.
fn push_dec(out: &mut Vec<u8>, n: usize)
    ensures
        final(out)@ == old(out)@ + dec_bytes(n as nat),
    decreases n,
{
    if n >= 10 {
        push_dec(out, n / 10);
    }
    let d = (n % 10) as u8 + 48;
    out.push(d);
    proof {
        if n < 10 {
            assert(out@ =~= old(out)@ + dec_bytes(n as nat));
        } else {
            assert(out@ =~= old(out)@ + dec_bytes(n as nat));
        }
    }
}

/// Formats an assignment as the output line: each variable as a one-based
/// signed number, positive when true and negative when false, joined by single
/// spaces.
pub fn format_assignment(vars: &Vec<bool>) -> (r: String)
    ensures
        r@ == assignment_text(vars@),
{
    let mut out: Vec<u8> = Vec::new();
    let mut i: usize = 0;
    while i < vars.len()
        invariant
            i <= vars@.len(),
            out@ == assignment_bytes_upto(vars@, i as int),
            forall|k: int| 0 <= k < out@.len() ==> #[trigger] out@[k] < 128,
        decreases vars@.len() - i,
    {
        let ghost pre = out@;
        if i > 0 {
            out.push(32);
        }
        if !vars[i] {
            out.push(45);
        }
        push_dec(&mut out, i + 1);
        proof {
            lemma_dec_bytes_ascii((i + 1) as nat);
            if i == 0 {
                assert(out@ =~= assignment_token(0, vars@[0]));
            } else {
                assert(out@ =~= pre + seq![32u8] + assignment_token(i as nat, vars@[i as int]));
            }
            assert(out@ == assignment_bytes_upto(vars@, i + 1 as int));
        }
        i += 1;
    }
    let r = ascii_to_string(out);
    proof {
        assert(r@ == assignment_text(vars@));
    }
    r
}

} // verus!
