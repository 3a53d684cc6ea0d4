//! Compiled byte-match patterns.
//!
//! A pattern is an ordered sequence of tokens, each either an exact byte or
//! a wildcard. Patterns are built from masked-hex text (whitespace-separated
//! tokens: two hex digits for an exact byte, `?` or `??` for a wildcard) or
//! from a literal text string (every byte exact).

use vstd::prelude::*;

verus! {

use vstd::string::StringSliceAdditionalSpecFns;
use vstd::slice::slice_to_vec;

/// A compiled pattern: `Some(b)` matches exactly the byte `b`, `None` is a
/// wildcard and matches every byte.
#[derive(Debug)]
pub struct Pattern(pub Vec<Option<u8>>);

impl View for Pattern {
    type V = Seq<Option<u8>>;

    open spec fn view(&self) -> Seq<Option<u8>> {
        self.0@
    }
}

/// Masked-pattern text that does not follow the grammar is rejected with the
/// first offending token.
#[derive(Debug)]
pub struct ParseError {
    /// The bytes of the first token that is neither a wildcard marker nor a
    /// two-hex-digit byte.
    pub token: Vec<u8>,
}

/// The five ASCII whitespace bytes that separate tokens in masked-pattern
/// text: space, tab, line feed, form feed, carriage return.
pub open spec fn is_space(b: u8) -> bool {
    b == 32 || b == 9 || b == 10 || b == 12 || b == 13
}

/// Length of the leading run of non-whitespace bytes.
pub open spec fn token_run_len(s: Seq<u8>) -> nat
    decreases s.len(),
{
    if s.len() == 0 || is_space(s[0]) {
        0
    } else {
        (1 + token_run_len(s.skip(1))) as nat
    }
}

pub proof fn lemma_token_run_len_le(s: Seq<u8>)
    ensures
        token_run_len(s) <= s.len(),
    decreases s.len(),
{
    if s.len() == 0 || is_space(s[0]) {
    } else {
        lemma_token_run_len_le(s.skip(1));
    }
}

/// The whitespace-separated tokens of masked-pattern text, in order.
pub open spec fn tokens_of(s: Seq<u8>) -> Seq<Seq<u8>>
    decreases s.len(),
    via tokens_of_decreases
{
    if s.len() == 0 {
        Seq::empty()
    } else if is_space(s[0]) {
        tokens_of(s.skip(1))
    } else {
        seq![s.take(token_run_len(s) as int)] + tokens_of(s.skip(token_run_len(s) as int))
    }
}

#[via_fn]
proof fn tokens_of_decreases(s: Seq<u8>) {
    lemma_token_run_len_le(s);
}

/// A wildcard marker: `?` or `??` (63 is the ASCII question mark).
pub open spec fn is_wildcard_token(t: Seq<u8>) -> bool {
    (t.len() == 1 && t[0] == 63) || (t.len() == 2 && t[0] == 63 && t[1] == 63)
}

pub open spec fn is_hex_digit(b: u8) -> bool {
    (48 <= b && b <= 57) || (97 <= b && b <= 102) || (65 <= b && b <= 70)
}

pub open spec fn hex_digit_value(b: u8) -> u8 {
    if 48 <= b && b <= 57 {
        (b - 48) as u8
    } else if 97 <= b && b <= 102 {
        (b - 97 + 10) as u8
    } else {
        (b - 65 + 10) as u8
    }
}

/// An exact-byte token: exactly two hex digits.
pub open spec fn is_byte_token(t: Seq<u8>) -> bool {
    t.len() == 2 && is_hex_digit(t[0]) && is_hex_digit(t[1])
}

pub open spec fn token_ok(t: Seq<u8>) -> bool {
    is_wildcard_token(t) || is_byte_token(t)
}

/// The pattern token denoted by a well-formed text token.
pub open spec fn token_value(t: Seq<u8>) -> Option<u8> {
    if is_wildcard_token(t) {
        None
    } else {
        Some((hex_digit_value(t[0]) * 16 + hex_digit_value(t[1])) as u8)
    }
}

/// Masked-pattern text is well formed when every one of its tokens is.
pub open spec fn masked_parse_ok(s: Seq<u8>) -> bool {
    forall|k: int| 0 <= k < tokens_of(s).len() ==> token_ok(#[trigger] tokens_of(s)[k])
}

/// The pattern compiled from well-formed masked-pattern text.
pub open spec fn masked_tokens(s: Seq<u8>) -> Seq<Option<u8>> {
    tokens_of(s).map_values(|t: Seq<u8>| token_value(t))
}

/// The pattern compiled from a literal byte string: every byte exact.
pub open spec fn literal_tokens(s: Seq<u8>) -> Seq<Option<u8>> {
    s.map_values(|b: u8| Some(b))
}

/// `tok` is the first token of `s` that breaks the grammar, and every token
/// before it is well formed.
pub open spec fn names_first_bad_token(s: Seq<u8>, tok: Seq<u8>) -> bool {
    exists|k: int|
        0 <= k < tokens_of(s).len() && !token_ok(tokens_of(s)[k]) && tok == tokens_of(s)[k]
            && (forall|m: int| 0 <= m < k ==> token_ok(#[trigger] tokens_of(s)[m]))
}

/// One pattern token against one byte: a wildcard matches every byte, an
/// exact token only its own value.
pub open spec fn token_matches(t: Option<u8>, b: u8) -> bool {
    match t {
        None => true,
        Some(v) => b == v,
    }
}

/// The pattern laid over `mem` at `off` lies within bounds and every token
/// matches the byte at its position.
pub open spec fn pat_matches_at(tokens: Seq<Option<u8>>, mem: Seq<u8>, off: int) -> bool {
    &&& 0 <= off
    &&& off + tokens.len() <= mem.len()
    &&& forall|k: int| 0 <= k < tokens.len() ==> token_matches(#[trigger] tokens[k], mem[off + k])
}

/// A wildcard token matches every byte; an exact token matches exactly its
/// own value.
pub proof fn lemma_token_match_semantics(b: u8)
    ensures
        token_matches(None, b),
        forall|v: u8| token_matches(Some(v), b) <==> v == b,
{
}

fn is_space_byte(b: u8) -> (r: bool)
    ensures
        r == is_space(b),
{
    b == 32 || b == 9 || b == 10 || b == 12 || b == 13
}

fn is_hex_digit_byte(b: u8) -> (r: bool)
    ensures
        r == is_hex_digit(b),
{
    (48 <= b && b <= 57) || (97 <= b && b <= 102) || (65 <= b && b <= 70)
}

fn hex_value(b: u8) -> (r: u8)
    requires
        is_hex_digit(b),
    ensures
        r == hex_digit_value(b),
        r <= 15,
{
    if 48 <= b && b <= 57 {
        b - 48
    } else if 97 <= b && b <= 102 {
        b - 97 + 10
    } else {
        b - 65 + 10
    }
}

/// Dropping a leading whitespace byte leaves the token sequence unchanged.
proof fn lemma_tokens_skip_space(s: Seq<u8>, i: int)
    requires
        0 <= i < s.len(),
        is_space(s[i]),
    ensures
        tokens_of(s.skip(i)) == tokens_of(s.skip(i + 1)),
{
    assert(s.skip(i).skip(1) =~= s.skip(i + 1));
}

/// The leading token run ends exactly at the first whitespace byte (or at
/// the end of the text).
proof fn lemma_token_run_len_boundary(s: Seq<u8>, j: int)
    requires
        0 <= j <= s.len(),
        forall|m: int| 0 <= m < j ==> !is_space(#[trigger] s[m]),
        j == s.len() || is_space(s[j]),
    ensures
        token_run_len(s) == j,
    decreases j,
{
    if j == 0 {
    } else {
        assert(!is_space(s[0]));
        let t = s.skip(1);
        assert forall|m: int| 0 <= m < j - 1 implies !is_space(#[trigger] t[m]) by {
            assert(t[m] == s[m + 1]);
        }
        if j - 1 < t.len() {
            assert(t[j - 1] == s[j]);
        }
        lemma_token_run_len_boundary(t, j - 1);
    }
}

/// Splitting off a maximal non-whitespace run `s[i..j]` peels exactly one
/// token off the token sequence of `s[i..]`.
proof fn lemma_tokens_of_step(s: Seq<u8>, i: int, j: int)
    requires
        0 <= i < j <= s.len(),
        forall|m: int| i <= m < j ==> !is_space(#[trigger] s[m]),
        j == s.len() || is_space(s[j]),
    ensures
        tokens_of(s.skip(i)) == seq![s.subrange(i, j)] + tokens_of(s.skip(j)),
{
    let t = s.skip(i);
    assert forall|m: int| 0 <= m < j - i implies !is_space(#[trigger] t[m]) by {
        assert(t[m] == s[i + m]);
    }
    if j - i < t.len() {
        assert(t[j - i] == s[j]);
    }
    lemma_token_run_len_boundary(t, j - i);
    assert(!is_space(t[0]));
    assert(tokens_of(t) == seq![t.take(j - i)] + tokens_of(t.skip(j - i)));
    assert(t.take(j - i) =~= s.subrange(i, j));
    assert(t.skip(j - i) =~= s.skip(j));
}

impl Pattern {
    /// Compiles masked-hex pattern text: whitespace-separated tokens, each
    /// either a wildcard marker (`?` or `??`) or exactly two hex digits.
    /// Any other token is a parse error naming that token.
    pub fn new(pat: &str) -> (r: Result<Pattern, ParseError>)
        ensures
            r is Ok <==> masked_parse_ok(pat.spec_bytes()),
            r matches Ok(p) ==> p@ == masked_tokens(pat.spec_bytes()),
            r matches Err(e) ==> names_first_bad_token(pat.spec_bytes(), e.token@),
    {
        let bytes: &[u8] = pat.as_bytes();
        let n: usize = bytes.len();
        let ghost s = bytes@;
        let mut toks: Vec<Option<u8>> = Vec::new();
        let ghost mut done: Seq<Seq<u8>> = Seq::empty();
        let mut i: usize = 0;
        proof {
            assert(s.skip(0) =~= s);
        }
        while i < n
            invariant
                n == s.len(),
                bytes@ == s,
                s == pat.spec_bytes(),
                i <= n,
                tokens_of(s) == done + tokens_of(s.skip(i as int)),
                forall|k: int| 0 <= k < done.len() ==> token_ok(#[trigger] done[k]),
                toks@.len() == done.len(),
                forall|k: int| 0 <= k < done.len() ==> toks@[k] == token_value(#[trigger] done[k]),
            decreases n - i,
        {
            if is_space_byte(bytes[i]) {
                proof {
                    lemma_tokens_skip_space(s, i as int);
                }
                i = i + 1;
            } else {
                let mut j: usize = i + 1;
                while j < n && !is_space_byte(bytes[j])
                    invariant
                        i < j <= n,
                        n == s.len(),
                        bytes@ == s,
                        forall|m: int| i <= m < j ==> !is_space(#[trigger] s[m]),
                    decreases n - j,
                {
                    j = j + 1;
                }
                proof {
                    lemma_tokens_of_step(s, i as int, j as int);
                }
                let ghost tok = s.subrange(i as int, j as int);
                let tlen: usize = j - i;
                proof {
                    assert(tok.len() == tlen);
                    assert(tok[0] == s[i as int]);
                    if tlen >= 2 {
                        assert(tok[1] == s[i as int + 1]);
                    }
                }
                if tlen == 1 && bytes[i] == 63 {
                    proof {
                        assert(is_wildcard_token(tok));
                    }
                    toks.push(None);
                } else if tlen == 2 && bytes[i] == 63 && bytes[i + 1] == 63 {
                    proof {
                        assert(is_wildcard_token(tok));
                    }
                    toks.push(None);
                } else if tlen == 2 && is_hex_digit_byte(bytes[i]) && is_hex_digit_byte(
                    bytes[i + 1],
                ) {
                    proof {
                        assert(!is_wildcard_token(tok)) by {
                            assert(!is_hex_digit(63u8));
                        }
                    }
                    let v: u8 = hex_value(bytes[i]) * 16 + hex_value(bytes[i + 1]);
                    toks.push(Some(v));
                } else {
                    proof {
                        assert(!token_ok(tok)) by {
                            assert(!is_hex_digit(63u8));
                        }
                        let k = done.len() as int;
                        assert(tokens_of(s)[k] == tok);
                        assert forall|m: int| 0 <= m < k implies token_ok(
                            #[trigger] tokens_of(s)[m],
                        ) by {
                            assert(tokens_of(s)[m] == done[m]);
                        }
                        assert(names_first_bad_token(s, tok));
                        assert(!masked_parse_ok(s));
                    }
                    return Err(ParseError { token: slice_to_vec(&bytes[i..j]) });
                }
                proof {
                    assert(done + (seq![tok] + tokens_of(s.skip(j as int))) =~= (done + seq![tok])
                        + tokens_of(s.skip(j as int)));
                    done = done + seq![tok];
                }
                i = j;
            }
        }
        proof {
            assert(s.skip(n as int).len() == 0);
            assert(tokens_of(s) =~= done);
            assert(toks@ =~= masked_tokens(s));
        }
        Ok(Pattern(toks))
    }

    /// Compiles a literal pattern: every byte of the text becomes an exact
    /// token. Never fails.
    pub fn from_str(pat: &str) -> (r: Result<Pattern, ParseError>)
        ensures
            r is Ok,
            r matches Ok(p) ==> p@ == literal_tokens(pat.spec_bytes()),
    {
        let bytes: &[u8] = pat.as_bytes();
        let n: usize = bytes.len();
        let mut toks: Vec<Option<u8>> = Vec::new();
        let mut i: usize = 0;
        while i < n
            invariant
                i <= n,
                n == bytes@.len(),
                toks@.len() == i,
                forall|k: int| 0 <= k < i ==> toks@[k] == Some(#[trigger] bytes@[k]),
            decreases n - i,
        {
            toks.push(Some(bytes[i]));
            i = i + 1;
        }
        proof {
            assert(toks@ =~= literal_tokens(bytes@));
        }
        Ok(Pattern(toks))
    }

    /// True iff this pattern fits at the start of `mem` and every token
    /// matches its byte. A pattern longer than `mem` never matches.
    pub fn matches(&self, mem: &[u8]) -> (r: bool)
        ensures
            r == pat_matches_at(self@, mem@, 0),
    {
        if self.0.len() > mem.len() {
            return false;
        }
        matches_at(self, mem, 0)
    }
}

/// True iff every token of the pattern matches the byte at its position
/// when the pattern is laid over `mem` at offset `off`. The caller
/// guarantees that the pattern lies within bounds there.
pub fn matches_at(pat: &Pattern, mem: &[u8], off: usize) -> (r: bool)
    requires
        off + pat@.len() <= mem@.len(),
    ensures
        r == pat_matches_at(pat@, mem@, off as int),
{
    let plen: usize = pat.0.len();
    let mlen: usize = mem.len();
    let mut k: usize = 0;
    while k < plen
        invariant
            k <= plen,
            plen == pat@.len(),
            mlen == mem@.len(),
            off + plen <= mlen,
            forall|m: int| 0 <= m < k ==> token_matches(#[trigger] pat@[m], mem@[off + m]),
        decreases plen - k,
    {
        match pat.0[k] {
            Some(b) => {
                if mem[off + k] != b {
                    proof {
                        assert(!token_matches(pat@[k as int], mem@[off + k]));
                    }
                    return false;
                }
            },
            None => {},
        }
        k = k + 1;
    }
    true
}

impl TryFrom<&str> for Pattern {
    type Error = ParseError;

    /// Same as [`Pattern::from_str`]: a literal pattern, never an error.
    fn try_from(value: &str) -> (r: Result<Pattern, ParseError>)
        ensures
            r is Ok,
            r matches Ok(p) ==> p@ == literal_tokens(value.spec_bytes()),
    {
        Pattern::from_str(value)
    }
}

impl vstd::std_specs::convert::TryFromSpecImpl<&str> for Pattern {
    open spec fn obeys_try_from_spec() -> bool {
        false
    }

    open spec fn try_from_spec(v: &str) -> Result<Pattern, ParseError> {
        arbitrary()
    }
}

} // verus!
