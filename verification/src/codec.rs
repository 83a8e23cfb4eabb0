//! The text codec: the canonical bracketed, comma-separated form of a
//! vector.  Framing, splitting and trimming are carried out and verified
//! on bytes; the conversion between one numeric token and one binary32
//! element is delegated to `rustc_apfloat`'s decimal reader and printer
//! behind named, trusted contracts.
//!
//! The codec's repertoire is ASCII: text with other characters is
//! rejected with `DecodeError::Encoding`.

use vstd::prelude::*;
use vstd::string::StringExecFns;
use vstd::utf8::is_ascii_chars;
use crate::bits::{is_finite_bits, all_finite};
use crate::vector::Vector;
use crate::errors::DecodeError;

verus! {

pub const LBRACK: u8 = 0x5B;

pub const RBRACK: u8 = 0x5D;

pub const COMMA: u8 = 0x2C;

pub const SPACE: u8 = 0x20;

/// The element that `rustc_apfloat`'s decimal reader yields for a token,
/// or nothing where the token is not a numeric literal.
pub uninterp spec fn parse_of(t: Seq<u8>) -> Option<u32>;

/// The decimal token that `rustc_apfloat`'s printer yields for an element.
pub uninterp spec fn token_of(x: u32) -> Seq<u8>;

/// ASCII whitespace, as trimmed from around a token.
pub open spec fn is_space_byte(b: u8) -> bool {
    b == SPACE || (0x09 <= b && b <= 0x0D)
}

/// A printed token is never empty and holds no comma and no whitespace.
pub open spec fn token_ok(t: Seq<u8>) -> bool {
    t.len() >= 1 && (forall|i: int|
        0 <= i < t.len() ==> !is_space_byte(#[trigger] t[i]) && t[i] != COMMA)
}

/// The token with surrounding whitespace removed.
pub open spec fn trimmed(s: Seq<u8>) -> Seq<u8>
    decreases s.len(),
{
    if s.len() == 0 {
        s
    } else if is_space_byte(s[0]) {
        trimmed(s.drop_first())
    } else if is_space_byte(s.last()) {
        trimmed(s.drop_last())
    } else {
        s
    }
}

/// Index of the first comma, or the length where there is none.
pub open spec fn first_comma(s: Seq<u8>) -> nat
    decreases s.len(),
{
    if s.len() == 0 {
        0
    } else if s[0] == COMMA {
        0
    } else {
        1 + first_comma(s.drop_first())
    }
}

/// The pieces between commas, in order; without a comma, the whole text
/// as the only piece.
pub open spec fn comma_split(s: Seq<u8>) -> Seq<Seq<u8>>
    decreases s.len(),
{
    let i = first_comma(s);
    if i >= s.len() {
        seq![s]
    } else {
        seq![s.subrange(0, i as int)] + comma_split(s.subrange(i as int + 1, s.len() as int))
    }
}

/// Each piece trimmed and read as one element; the first unreadable
/// piece is the decode failure.
pub open spec fn parse_tokens(ts: Seq<Seq<u8>>) -> Result<Seq<u32>, DecodeError>
    decreases ts.len(),
{
    if ts.len() == 0 {
        Ok(Seq::empty())
    } else {
        match parse_of(trimmed(ts[0])) {
            Option::None => Err(DecodeError::BadToken),
            Option::Some(x) => match parse_tokens(ts.drop_first()) {
                Ok(rest) => Ok(seq![x] + rest),
                Err(e) => Err(e),
            },
        }
    }
}

/// What a byte text decodes to: brackets checked, the interior split on
/// commas, each token trimmed and read; `[]` is the zero-length vector.
pub open spec fn decode_spec(b: Seq<u8>) -> Result<Seq<u32>, DecodeError> {
    if b.len() < 2 || b[0] != LBRACK || b[b.len() - 1] != RBRACK {
        Err(DecodeError::MissingBrackets)
    } else if b.len() == 2 {
        Ok(Seq::empty())
    } else {
        parse_tokens(comma_split(b.subrange(1, b.len() - 1)))
    }
}

/// The bytes of an ASCII character sequence.
pub open spec fn ascii_bytes(s: Seq<char>) -> Seq<u8> {
    Seq::new(s.len(), |i: int| s[i] as u8)
}

/// What a character text decodes to: ASCII texts by `decode_spec` of
/// their bytes, any other text is an encoding failure.
pub open spec fn decode_of(s: Seq<char>) -> Result<Seq<u32>, DecodeError> {
    if !is_ascii_chars(s) {
        Err(DecodeError::Encoding)
    } else {
        decode_spec(ascii_bytes(s))
    }
}

/// The printed tokens of all elements, joined with a comma and a space.
pub open spec fn joined_tokens(v: Seq<u32>) -> Seq<u8>
    decreases v.len(),
{
    if v.len() == 0 {
        Seq::empty()
    } else if v.len() == 1 {
        token_of(v[0])
    } else {
        token_of(v[0]) + seq![COMMA, SPACE] + joined_tokens(v.drop_first())
    }
}

/// The canonical text of an element sequence: the joined tokens between
/// one pair of brackets.
pub open spec fn encode_spec(v: Seq<u32>) -> Seq<u8> {
    seq![LBRACK] + joined_tokens(v) + seq![RBRACK]
}

/// Relies on `rustc_apfloat::ieee::Single`'s `FromStr`: a correctly
/// rounded read of a decimal (or hexadecimal) literal, an error for any
/// other text, depending on the token's bytes alone.
#[verifier::external_body]
fn parse_elem(t: &[u8]) -> (r: Option<u32>)
    ensures
        r == parse_of(t@),
{
    match core::str::from_utf8(t) {
        Ok(s) => match <rustc_apfloat::ieee::Single as core::str::FromStr>::from_str(s) {
            Ok(f) => Some(rustc_apfloat::Float::to_bits(f) as u32),
            Err(_) => None,
        },
        Err(_) => None,
    }
}

/// Relies on `rustc_apfloat::ieee::Single`'s `Display`: a decimal form
/// of the value alone, printed from digits, sign, dot and exponent marks
/// (never a bracket, comma or whitespace), with enough digits that its
/// own reader returns the value unchanged; finite values therefore read
/// back to the same bit pattern.
#[verifier::external_body]
fn format_elem(x: u32) -> (r: String)
    ensures
        is_ascii_chars(r@),
        ascii_bytes(r@) == token_of(x),
        token_ok(ascii_bytes(r@)),
        is_finite_bits(x) ==> parse_of(ascii_bytes(r@)) == Some(x),
{
    format!("{}", <rustc_apfloat::ieee::Single as rustc_apfloat::Float>::from_bits(x as u128))
}

/// The token with surrounding ASCII whitespace removed.
fn trimmed_slice<'a>(t: &'a [u8]) -> (r: &'a [u8])
    ensures
        r@ == trimmed(t@),
{
    let mut lo: usize = 0;
    let mut hi: usize = t.len();
    proof {
        assert(t@.subrange(0, t@.len() as int) =~= t@);
    }
    while lo < hi && (t[lo] == 0x20 || (0x09 <= t[lo] && t[lo] <= 0x0D))
        invariant
            0 <= lo <= hi <= t@.len(),
            trimmed(t@) == trimmed(t@.subrange(lo as int, hi as int)),
            hi == t@.len(),
        decreases hi - lo,
    {
        proof {
            let s = t@.subrange(lo as int, hi as int);
            assert(s.drop_first() =~= t@.subrange(lo as int + 1, hi as int));
        }
        lo = lo + 1;
    }
    while lo < hi && (t[hi - 1] == 0x20 || (0x09 <= t[hi - 1] && t[hi - 1] <= 0x0D))
        invariant
            0 <= lo <= hi <= t@.len(),
            trimmed(t@) == trimmed(t@.subrange(lo as int, hi as int)),
            lo < hi ==> !is_space_byte(t@[lo as int]),
        decreases hi,
    {
        proof {
            let s = t@.subrange(lo as int, hi as int);
            assert(s.drop_last() =~= t@.subrange(lo as int, hi as int - 1));
        }
        hi = hi - 1;
    }
    proof {
        let s = t@.subrange(lo as int, hi as int);
        if s.len() != 0 {
            assert(!is_space_byte(s[0]));
            assert(!is_space_byte(s.last()));
        }
        assert(trimmed(s) == s);
    }
    vstd::slice::slice_subrange(t, lo, hi)
}

/// `first_comma` is the `k` with no comma before it and, unless `k` is
/// the length, a comma at it.
proof fn lemma_first_comma_at(s: Seq<u8>, k: int)
    requires
        0 <= k <= s.len(),
        forall|j: int| 0 <= j < k ==> s[j] != COMMA,
        k < s.len() ==> s[k] == COMMA,
    ensures
        first_comma(s) == k,
    decreases s.len(),
{
    if k == 0 {
        if s.len() > 0 {
            assert(s[0] == COMMA);
        }
    } else {
        assert(s[0] != COMMA);
        lemma_first_comma_at(s.drop_first(), k - 1);
    }
}

/// Reading the split of a space-or-nothing prefix plus the joined tokens
/// recovers the elements, one by one.
proof fn lemma_parse_split_join(v: Seq<u32>, pre: Seq<u8>)
    requires
        v.len() >= 1,
        pre.len() == 0 || pre == seq![SPACE],
        forall|j: int|
            0 <= j < v.len() ==> token_ok(#[trigger] token_of(v[j])) && parse_of(token_of(v[j]))
                == Some(v[j]),
    ensures
        parse_tokens(comma_split(pre + joined_tokens(v))) == Ok::<Seq<u32>, DecodeError>(v),
    decreases v.len(),
{
    let t0 = token_of(v[0]);
    assert(token_ok(t0));
    if v.len() == 1 {
        let s = pre + t0;
        assert(forall|j: int| 0 <= j < s.len() ==> s[j] != COMMA);
        lemma_first_comma_at(s, s.len() as int);
        assert(comma_split(s) =~= seq![s]);
        if pre.len() == 0 {
            assert(s =~= t0);
            assert(trimmed(s) == t0);
        } else {
            assert(is_space_byte(s[0]));
            assert(s.drop_first() =~= t0);
            assert(trimmed(s) == trimmed(t0));
            assert(trimmed(t0) == t0);
        }
        assert(parse_of(trimmed(s)) == Some(v[0]));
        assert(parse_tokens(seq![s].drop_first()) == Ok::<Seq<u32>, DecodeError>(Seq::empty()));
        assert(seq![v[0]] + Seq::<u32>::empty() =~= v);
    } else {
        let rest = joined_tokens(v.drop_first());
        assert(joined_tokens(v) == t0 + seq![COMMA, SPACE] + rest);
        let s = pre + joined_tokens(v);
        let fc = pre.len() + t0.len();
        assert(forall|j: int| 0 <= j < fc ==> s[j] != COMMA);
        assert(s[fc as int] == COMMA);
        lemma_first_comma_at(s, fc as int);
        assert(comma_split(s) == seq![s.subrange(0, fc as int)] + comma_split(
            s.subrange(fc as int + 1, s.len() as int),
        ));
        assert(s.subrange(0, fc as int) =~= pre + t0);
        assert(s.subrange(fc as int + 1, s.len() as int) =~= seq![SPACE] + rest);
        if pre.len() == 0 {
            assert(pre + t0 =~= t0);
            assert(trimmed(pre + t0) == t0);
        } else {
            assert(is_space_byte((pre + t0)[0]));
            assert((pre + t0).drop_first() =~= t0);
            assert(trimmed(pre + t0) == trimmed(t0));
            assert(trimmed(t0) == t0);
        }
        assert(forall|j: int|
            0 <= j < v.drop_first().len() ==> token_ok(#[trigger] token_of(v.drop_first()[j]))
                && parse_of(token_of(v.drop_first()[j])) == Some(v.drop_first()[j]));
        lemma_parse_split_join(v.drop_first(), seq![SPACE]);
        let split = comma_split(s);
        assert(split[0] == pre + t0);
        assert(split.drop_first() =~= comma_split(seq![SPACE] + rest));
        assert(parse_of(trimmed(split[0])) == Some(v[0]));
        assert(parse_tokens(split) == Ok::<Seq<u32>, DecodeError>(
            seq![v[0]] + v.drop_first(),
        ));
        assert(seq![v[0]] + v.drop_first() =~= v);
    }
}

/// Law: decoding what was encoded recovers the vector, element for
/// element, for every sequence of finite elements whose tokens read
/// back (the codec's printed tokens always do).
proof fn lemma_decode_encode(v: Seq<u32>)
    requires
        forall|j: int|
            0 <= j < v.len() ==> token_ok(#[trigger] token_of(v[j])) && parse_of(token_of(v[j]))
                == Some(v[j]),
    ensures
        decode_spec(encode_spec(v)) == Ok::<Seq<u32>, DecodeError>(v),
{
    let b = encode_spec(v);
    assert(b[0] == LBRACK);
    assert(b[b.len() - 1] == RBRACK);
    if v.len() == 0 {
        assert(joined_tokens(v) =~= Seq::<u8>::empty());
        assert(b.len() == 2);
        assert(Seq::<u32>::empty() =~= v);
    } else {
        assert(token_ok(token_of(v[0])));
        assert(joined_tokens(v).len() >= 1);
        assert(b.len() > 2);
        assert(b.subrange(1, b.len() - 1) =~= joined_tokens(v));
        assert(Seq::<u8>::empty() + joined_tokens(v) =~= joined_tokens(v));
        lemma_parse_split_join(v, Seq::<u8>::empty());
    }
}

/// ASCII character sequences stay ASCII under concatenation.
proof fn lemma_ascii_concat(a: Seq<char>, b: Seq<char>)
    requires
        is_ascii_chars(a),
        is_ascii_chars(b),
    ensures
        is_ascii_chars(a + b),
{
    assert forall|i: int| 0 <= i < (a + b).len() implies '\0' <= #[trigger] (a + b)[i]
        <= '\u{7f}' by {
        if i < a.len() {
            assert((a + b)[i] == a[i]);
        } else {
            assert((a + b)[i] == b[i - a.len()]);
        }
    }
}

/// The bytes of a concatenation are the concatenated bytes.
proof fn lemma_ascii_bytes_concat(a: Seq<char>, b: Seq<char>)
    ensures
        ascii_bytes(a + b) == ascii_bytes(a) + ascii_bytes(b),
{
    assert(ascii_bytes(a + b) =~= ascii_bytes(a) + ascii_bytes(b));
}

/// Appending one element to the join adds a comma, a space and its token
/// (just the token, where the join was empty).
proof fn lemma_joined_snoc(xs: Seq<u32>, x: u32)
    ensures
        joined_tokens(xs.push(x)) == if xs.len() == 0 {
            token_of(x)
        } else {
            joined_tokens(xs) + seq![COMMA, SPACE] + token_of(x)
        },
    decreases xs.len(),
{
    let w = xs.push(x);
    if xs.len() == 0 {
        assert(w.len() == 1);
        assert(w[0] == x);
    } else {
        assert(w.len() >= 2);
        assert(w[0] == xs[0]);
        assert(w.drop_first() =~= xs.drop_first().push(x));
        lemma_joined_snoc(xs.drop_first(), x);
        if xs.len() == 1 {
            assert(joined_tokens(w) == token_of(xs[0]) + seq![COMMA, SPACE] + token_of(x));
        } else {
            assert(joined_tokens(w) == token_of(w[0]) + seq![COMMA, SPACE] + joined_tokens(
                w.drop_first(),
            ));
        }
    }
}

/// The tokens of the first `k` elements, each followed by a comma and a
/// space, in order.
pub open spec fn preview_run(v: Seq<u32>, k: int) -> Seq<u8>
    decreases k,
{
    if k <= 0 {
        Seq::empty()
    } else {
        preview_run(v, k - 1) + token_of(v[k - 1]) + seq![COMMA, SPACE]
    }
}

/// The tokens of the first `k` elements, each followed by a bare comma,
/// in order.
pub open spec fn dump_run(v: Seq<u32>, k: int) -> Seq<u8>
    decreases k,
{
    if k <= 0 {
        Seq::empty()
    } else {
        dump_run(v, k - 1) + token_of(v[k - 1]) + seq![COMMA]
    }
}

/// The abbreviated, human-facing form: at most the first three elements,
/// each with a trailing comma and space, closed by an ellipsis marker.
/// Not a round-trip form.
pub open spec fn preview_spec(v: Seq<u32>) -> Seq<u8> {
    let k: int = if v.len() < 3 {
        v.len() as int
    } else {
        3
    };
    seq![LBRACK] + preview_run(v, k) + seq![0x2Eu8, 0x2Eu8, 0x2Eu8, RBRACK]
}

/// The diagnostic dump: every element with a trailing comma, closed by
/// an ellipsis marker.  Intentionally not a round-trip form.
pub open spec fn dump_spec(v: Seq<u32>) -> Seq<u8> {
    seq![LBRACK] + dump_run(v, v.len() as int) + seq![0x2Eu8, 0x2Eu8, 0x2Eu8, RBRACK]
}

impl Vector {
    /// Decodes the canonical bracketed, comma-separated text into a
    /// vector.  Returns the decoded vector exactly where `decode_of`
    /// says so of the text, and the same structured error otherwise:
    /// missing brackets, an unreadable token, or non-ASCII text.  The
    /// empty pair `[]` decodes to the zero-length vector.
    pub fn decode(text: &str) -> (r: Result<Vector, DecodeError>)
        ensures
            (match r {
                Ok(v) => decode_of(text@) == Ok::<Seq<u32>, DecodeError>(v@),
                Err(e) => decode_of(text@) == Err::<Seq<u32>, DecodeError>(e),
            }),
    {
        if !text.is_ascii() {
            return Err(DecodeError::Encoding);
        }
        let b = text.as_bytes();
        proof {
            vstd::string::is_ascii_spec_bytes(text);
            assert(b@ =~= ascii_bytes(text@));
        }
        let n = b.len();
        if n < 2 || b[0] != LBRACK || b[n - 1] != RBRACK {
            return Err(DecodeError::MissingBrackets);
        }
        if n == 2 {
            let empty_vec: Vec<u32> = Vec::new();
            let v = Vector::from_bits(empty_vec);
            proof {
                assert(v@ =~= Seq::<u32>::empty());
            }
            return Ok(v);
        }
        let ghost inner: Seq<u8> = b@.subrange(1, n as int - 1);
        let mut start: usize = 1;
        let mut out: Vec<u32> = Vec::new();
        loop
            invariant
                n == b@.len(),
                3 <= n,
                is_ascii_chars(text@),
                b@ =~= ascii_bytes(text@),
                b@[0] == LBRACK,
                b@[n - 1] == RBRACK,
                inner =~= b@.subrange(1, n as int - 1),
                1 <= start <= n - 1,
                (match parse_tokens(comma_split(b@.subrange(start as int, n as int - 1))) {
                    Ok(ys) => parse_tokens(comma_split(inner)) == Ok::<
                        Seq<u32>,
                        DecodeError,
                    >(out@ + ys),
                    Err(e) => parse_tokens(comma_split(inner)) == Err::<
                        Seq<u32>,
                        DecodeError,
                    >(e),
                }),
            decreases n - start,
        {
            let ghost rem: Seq<u8> = b@.subrange(start as int, n as int - 1);
            let mut i: usize = start;
            while i < n - 1 && b[i] != COMMA
                invariant
                    n == b@.len(),
                    start <= i <= n - 1,
                    forall|j: int| start <= j < i ==> b@[j] != COMMA,
                decreases n - i,
            {
                i = i + 1;
            }
            let token = vstd::slice::slice_subrange(b, start, i);
            let tr = trimmed_slice(token);
            let parsed = parse_elem(tr);
            proof {
                assert(rem.len() == n - 1 - start);
                assert(forall|j: int| 0 <= j < i - start ==> rem[j] != COMMA);
                if i < n - 1 {
                    assert(b@[i as int] == COMMA);
                    assert(rem[i - start] == COMMA);
                    lemma_first_comma_at(rem, i - start);
                } else {
                    lemma_first_comma_at(rem, rem.len() as int);
                }
                assert(token@ =~= rem.subrange(0, i - start));
            }
            match parsed {
                Option::None => {
                    proof {
                        if i < n - 1 {
                            assert(comma_split(rem) == seq![rem.subrange(0, i - start)]
                                + comma_split(rem.subrange(i - start + 1, rem.len() as int)));
                            assert(comma_split(rem)[0] == token@);
                        } else {
                            assert(token@ =~= rem);
                            assert(comma_split(rem) =~= seq![rem]);
                            assert(comma_split(rem)[0] == token@);
                        }
                        assert(parse_tokens(comma_split(rem)) == Err::<
                            Seq<u32>,
                            DecodeError,
                        >(DecodeError::BadToken));
                        assert(ascii_bytes(text@) =~= b@);
                        assert(decode_of(text@) == parse_tokens(comma_split(inner)));
                    }
                    return Err(DecodeError::BadToken);
                },
                Option::Some(x) => {
                    let ghost out_pre: Seq<u32> = out@;
                    out.push(x);
                    if i == n - 1 {
                        proof {
                            assert(token@ =~= rem);
                            assert(comma_split(rem) =~= seq![rem]);
                            assert(parse_of(trimmed(rem)) == Some(x));
                            assert(parse_tokens(seq![rem].drop_first()) == Ok::<
                                Seq<u32>,
                                DecodeError,
                            >(Seq::empty()));
                            assert(parse_tokens(comma_split(rem)) == Ok::<
                                Seq<u32>,
                                DecodeError,
                            >(seq![x] + Seq::<u32>::empty()));
                            assert(out_pre + (seq![x] + Seq::<u32>::empty()) =~= out@);
                            assert(parse_tokens(comma_split(inner)) == Ok::<
                                Seq<u32>,
                                DecodeError,
                            >(out@));
                            assert(ascii_bytes(text@) =~= b@);
                            assert(decode_of(text@) == parse_tokens(comma_split(inner)));
                        }
                        let v = Vector::from_bits(out);
                        return Ok(v);
                    }
                    proof {
                        let rem2 = rem.subrange(i - start + 1, rem.len() as int);
                        assert(comma_split(rem) == seq![rem.subrange(0, i - start)]
                            + comma_split(rem2));
                        assert(comma_split(rem)[0] == token@);
                        assert(comma_split(rem).drop_first() =~= comma_split(rem2));
                        assert(rem2 =~= b@.subrange(i as int + 1, n as int - 1));
                        match parse_tokens(comma_split(rem2)) {
                            Ok(ys2) => {
                                assert(parse_tokens(comma_split(rem)) == Ok::<
                                    Seq<u32>,
                                    DecodeError,
                                >(seq![x] + ys2));
                                assert(out_pre + (seq![x] + ys2) =~= out@ + ys2);
                            },
                            Err(_) => {},
                        }
                    }
                    start = i + 1;
                },
            }
        }
    }

    /// Encodes the vector into its canonical text: every element's
    /// token, comma-and-space separated, between one pair of brackets.
    /// Decoding the result recovers the vector element for element
    /// whenever every element is finite.
    pub fn encode(&self) -> (r: String)
        ensures
            is_ascii_chars(r@),
            ascii_bytes(r@) == encode_spec(self@),
            all_finite(self@) ==> decode_of(r@) == Ok::<Seq<u32>, DecodeError>(self@),
    {
        let mut out = String::new();
        out.append("[");
        proof {
            reveal_strlit("[");
            assert(out@ =~= "["@);
            assert(is_ascii_chars(out@));
            assert(joined_tokens(self@.take(0)) =~= Seq::<u8>::empty());
            assert(ascii_bytes(out@) =~= seq![LBRACK] + joined_tokens(self@.take(0)));
        }
        let n = self.len();
        let mut i: usize = 0;
        while i < n
            invariant
                n == self@.len(),
                i <= n,
                is_ascii_chars(out@),
                ascii_bytes(out@) =~= seq![LBRACK] + joined_tokens(self@.take(i as int)),
                forall|j: int|
                    0 <= j < i ==> token_ok(#[trigger] token_of(self@[j])) && (is_finite_bits(
                        self@[j],
                    ) ==> parse_of(token_of(self@[j])) == Some(self@[j])),
            decreases n - i,
        {
            let ghost out0 = out@;
            if i > 0 {
                out.append(", ");
            }
            let tok = format_elem(self.get(i));
            out.append(tok.as_str());
            proof {
                reveal_strlit(", ");
                assert(is_ascii_chars(", "@));
                lemma_ascii_concat(out0, ", "@);
                lemma_ascii_concat(out0 + ", "@, tok@);
                lemma_ascii_concat(out0, tok@);
                lemma_joined_snoc(self@.take(i as int), self@[i as int]);
                assert(self@.take(i as int).push(self@[i as int]) =~= self@.take(
                    i as int + 1,
                ));
                if i > 0 {
                    assert(out@ == out0 + ", "@ + tok@);
                    assert(self@.take(i as int).len() != 0);
                    assert(ascii_bytes(", "@) =~= seq![COMMA, SPACE]);
                    lemma_ascii_bytes_concat(out0, ", "@);
                    lemma_ascii_bytes_concat(out0 + ", "@, tok@);
                    assert(ascii_bytes(out@) == ascii_bytes(out0) + ascii_bytes(", "@)
                        + ascii_bytes(tok@));
                    assert(joined_tokens(self@.take(i as int + 1)) == joined_tokens(
                        self@.take(i as int),
                    ) + seq![COMMA, SPACE] + token_of(self@[i as int]));
                } else {
                    assert(out@ == out0 + tok@);
                    assert(self@.take(0int) =~= Seq::<u32>::empty());
                    lemma_ascii_bytes_concat(out0, tok@);
                    assert(ascii_bytes(out@) == ascii_bytes(out0) + ascii_bytes(tok@));
                }
                assert(ascii_bytes(out@) =~= seq![LBRACK] + joined_tokens(
                    self@.take(i as int + 1),
                ));
            }
            i = i + 1;
        }
        let ghost out1 = out@;
        out.append("]");
        proof {
            reveal_strlit("]");
            assert(is_ascii_chars("]"@));
            lemma_ascii_concat(out1, "]"@);
            assert(self@.take(n as int) =~= self@);
            assert(ascii_bytes("]"@) =~= seq![RBRACK]);
            lemma_ascii_bytes_concat(out1, "]"@);
            assert(ascii_bytes(out@) == ascii_bytes(out1) + ascii_bytes("]"@));
            assert(ascii_bytes(out@) =~= encode_spec(self@));
            if all_finite(self@) {
                lemma_decode_encode(self@);
                assert(decode_of(out@) == decode_spec(ascii_bytes(out@)));
            }
        }
        out
    }

    /// The truncated, human-facing summary: at most the first three
    /// elements and an ellipsis marker, e.g. `[1, 2, 3, ...]`.
    pub fn preview(&self) -> (r: String)
        ensures
            is_ascii_chars(r@),
            ascii_bytes(r@) == preview_spec(self@),
    {
        let mut out = String::new();
        out.append("[");
        proof {
            reveal_strlit("[");
            assert(out@ =~= "["@);
            assert(is_ascii_chars(out@));
            assert(ascii_bytes(out@) =~= seq![LBRACK] + preview_run(self@, 0));
        }
        let n = self.len();
        let limit: usize = if n < 3 {
            n
        } else {
            3
        };
        let mut i: usize = 0;
        while i < limit
            invariant
                n == self@.len(),
                limit == if n < 3 {
                    n as int
                } else {
                    3int
                },
                i <= limit,
                is_ascii_chars(out@),
                ascii_bytes(out@) =~= seq![LBRACK] + preview_run(self@, i as int),
            decreases limit - i,
        {
            let ghost out0 = out@;
            let tok = format_elem(self.get(i));
            out.append(tok.as_str());
            out.append(", ");
            proof {
                reveal_strlit(", ");
                assert(is_ascii_chars(", "@));
                lemma_ascii_concat(out0, tok@);
                lemma_ascii_concat(out0 + tok@, ", "@);
                lemma_ascii_bytes_concat(out0, tok@);
                lemma_ascii_bytes_concat(out0 + tok@, ", "@);
                assert(ascii_bytes(", "@) =~= seq![COMMA, SPACE]);
                assert(ascii_bytes(out@) =~= seq![LBRACK] + preview_run(
                    self@,
                    i as int + 1,
                ));
            }
            i = i + 1;
        }
        let ghost out1 = out@;
        out.append("...]");
        proof {
            reveal_strlit("...]");
            assert(is_ascii_chars("...]"@));
            lemma_ascii_concat(out1, "...]"@);
            lemma_ascii_bytes_concat(out1, "...]"@);
            assert(ascii_bytes("...]"@) =~= seq![0x2Eu8, 0x2Eu8, 0x2Eu8, RBRACK]);
            assert(ascii_bytes(out@) =~= preview_spec(self@));
        }
        out
    }

    /// The diagnostic dump: every element with a trailing comma and an
    /// ellipsis marker, e.g. `[1,2,3,...]`.
    pub fn dump(&self) -> (r: String)
        ensures
            is_ascii_chars(r@),
            ascii_bytes(r@) == dump_spec(self@),
    {
        let mut out = String::new();
        out.append("[");
        proof {
            reveal_strlit("[");
            assert(out@ =~= "["@);
            assert(is_ascii_chars(out@));
            assert(ascii_bytes(out@) =~= seq![LBRACK] + dump_run(self@, 0));
        }
        let n = self.len();
        let mut i: usize = 0;
        while i < n
            invariant
                n == self@.len(),
                i <= n,
                is_ascii_chars(out@),
                ascii_bytes(out@) =~= seq![LBRACK] + dump_run(self@, i as int),
            decreases n - i,
        {
            let ghost out0 = out@;
            let tok = format_elem(self.get(i));
            out.append(tok.as_str());
            out.append(",");
            proof {
                reveal_strlit(",");
                assert(is_ascii_chars(","@));
                lemma_ascii_concat(out0, tok@);
                lemma_ascii_concat(out0 + tok@, ","@);
                lemma_ascii_bytes_concat(out0, tok@);
                lemma_ascii_bytes_concat(out0 + tok@, ","@);
                assert(ascii_bytes(","@) =~= seq![COMMA]);
                assert(ascii_bytes(out@) =~= seq![LBRACK] + dump_run(self@, i as int + 1));
            }
            i = i + 1;
        }
        let ghost out1 = out@;
        out.append("...]");
        proof {
            reveal_strlit("...]");
            assert(is_ascii_chars("...]"@));
            lemma_ascii_concat(out1, "...]"@);
            lemma_ascii_bytes_concat(out1, "...]"@);
            assert(ascii_bytes("...]"@) =~= seq![0x2Eu8, 0x2Eu8, 0x2Eu8, RBRACK]);
            assert(ascii_bytes(out@) =~= dump_spec(self@));
        }
        out
    }
}

} // verus!
