//! Scanning a compiled pattern over a span of bytes.
//!
//! A span is a slice of bytes together with the address its first byte was
//! taken from; every match is reported as an absolute address. The valid
//! match offsets are `0 ..= span length - pattern length`; a pattern longer
//! than the span matches nowhere.

use vstd::prelude::*;

verus! {

use vstd::string::StringSliceAdditionalSpecFns;
use crate::pattern::{
    literal_tokens, masked_parse_ok, masked_tokens, matches_at, names_first_bad_token,
    pat_matches_at, ParseError, Pattern,
};

/// Every address the scan may report fits in a machine word: whenever the
/// pattern fits the span at all, the last valid match address
/// `base + (span length - pattern length)` is representable.
pub open spec fn span_addresses_fit(base: int, mem_len: int, pat_len: int) -> bool {
    pat_len <= mem_len ==> base + mem_len - pat_len <= usize::MAX
}

/// What a forward scan returns: the lowest match address, or `None` when
/// the pattern matches at no offset of the span.
pub open spec fn scan_first_ok(
    tokens: Seq<Option<u8>>,
    mem: Seq<u8>,
    base: int,
    r: Option<usize>,
) -> bool {
    match r {
        Some(a) => {
            &&& base <= a
            &&& pat_matches_at(tokens, mem, a - base)
            &&& forall|o: int| 0 <= o < a - base ==> !pat_matches_at(tokens, mem, o)
        },
        None => forall|o: int| !pat_matches_at(tokens, mem, o),
    }
}

/// What a backward scan returns: the highest match address, or `None` when
/// the pattern matches at no offset of the span.
pub open spec fn scan_last_ok(
    tokens: Seq<Option<u8>>,
    mem: Seq<u8>,
    base: int,
    r: Option<usize>,
) -> bool {
    match r {
        Some(a) => {
            &&& base <= a
            &&& pat_matches_at(tokens, mem, a - base)
            &&& forall|o: int| o > a - base ==> !pat_matches_at(tokens, mem, o)
        },
        None => forall|o: int| !pat_matches_at(tokens, mem, o),
    }
}

/// What an exhaustive scan returns: every match address, each exactly once,
/// in strictly ascending order.
pub open spec fn scan_all_ok(
    tokens: Seq<Option<u8>>,
    mem: Seq<u8>,
    base: int,
    rs: Seq<usize>,
) -> bool {
    &&& forall|k: int|
        0 <= k < rs.len() ==> base <= #[trigger] rs[k] && pat_matches_at(
            tokens,
            mem,
            rs[k] - base,
        )
    &&& forall|k1: int, k2: int| 0 <= k1 < k2 < rs.len() ==> rs[k1] < rs[k2]
    &&& forall|o: int| pat_matches_at(tokens, mem, o) ==> rs.contains((base + o) as usize)
}

/// A pattern longer than the span matches at no offset at all.
pub proof fn lemma_long_pattern_no_match(tokens: Seq<Option<u8>>, mem: Seq<u8>, off: int)
    requires
        tokens.len() > mem.len(),
    ensures
        !pat_matches_at(tokens, mem, off),
{
}

/// With a pattern longer than the span, a forward scan reports no match.
pub proof fn lemma_long_pattern_scan_first_none(
    tokens: Seq<Option<u8>>,
    mem: Seq<u8>,
    base: int,
    r: Option<usize>,
)
    requires
        tokens.len() > mem.len(),
        scan_first_ok(tokens, mem, base, r),
    ensures
        r is None,
{
    match r {
        Some(a) => {
            assert(pat_matches_at(tokens, mem, a - base));
        },
        None => {},
    }
}

/// With a pattern longer than the span, a backward scan reports no match.
pub proof fn lemma_long_pattern_scan_last_none(
    tokens: Seq<Option<u8>>,
    mem: Seq<u8>,
    base: int,
    r: Option<usize>,
)
    requires
        tokens.len() > mem.len(),
        scan_last_ok(tokens, mem, base, r),
    ensures
        r is None,
{
    match r {
        Some(a) => {
            assert(pat_matches_at(tokens, mem, a - base));
        },
        None => {},
    }
}

/// With a pattern longer than the span, an exhaustive scan reports no
/// match.
pub proof fn lemma_long_pattern_scan_all_empty(
    tokens: Seq<Option<u8>>,
    mem: Seq<u8>,
    base: int,
    rs: Seq<usize>,
)
    requires
        tokens.len() > mem.len(),
        scan_all_ok(tokens, mem, base, rs),
    ensures
        rs.len() == 0,
{
    if rs.len() > 0 {
        assert(pat_matches_at(tokens, mem, rs[0] - base));
    }
}

/// Over a span holding exactly one occurrence of the pattern, a forward
/// scan returns that occurrence's address.
pub proof fn lemma_scan_first_unique_occurrence(
    tokens: Seq<Option<u8>>,
    mem: Seq<u8>,
    base: int,
    off: int,
    r: Option<usize>,
)
    requires
        pat_matches_at(tokens, mem, off),
        forall|o: int| pat_matches_at(tokens, mem, o) ==> o == off,
        0 <= base,
        base + off <= usize::MAX,
        scan_first_ok(tokens, mem, base, r),
    ensures
        r == Some((base + off) as usize),
{
    match r {
        Some(a) => {
            assert(a - base == off);
        },
        None => {
            assert(!pat_matches_at(tokens, mem, off));
        },
    }
}

/// Over a span holding one or more occurrences of the pattern, a backward
/// scan returns the highest occurrence's address.
pub proof fn lemma_scan_last_highest_occurrence(
    tokens: Seq<Option<u8>>,
    mem: Seq<u8>,
    base: int,
    off: int,
    r: Option<usize>,
)
    requires
        pat_matches_at(tokens, mem, off),
        forall|o: int| pat_matches_at(tokens, mem, o) ==> o <= off,
        0 <= base,
        base + off <= usize::MAX,
        scan_last_ok(tokens, mem, base, r),
    ensures
        r == Some((base + off) as usize),
{
    match r {
        Some(a) => {
            assert(!(a - base < off)) by {
                if a - base < off {
                    assert(!pat_matches_at(tokens, mem, off));
                }
            }
            assert(a - base == off);
        },
        None => {
            assert(!pat_matches_at(tokens, mem, off));
        },
    }
}

/// An address stands in the result of an exhaustive scan exactly when the
/// pattern matches there.
pub proof fn lemma_scan_all_characterization(
    tokens: Seq<Option<u8>>,
    mem: Seq<u8>,
    base: int,
    rs: Seq<usize>,
    a: usize,
)
    requires
        scan_all_ok(tokens, mem, base, rs),
    ensures
        rs.contains(a) <==> (base <= a && pat_matches_at(tokens, mem, a - base)),
{
    if rs.contains(a) {
        let j = choose|j: int| 0 <= j < rs.len() && rs[j] == a;
        assert(base <= rs[j] && pat_matches_at(tokens, mem, rs[j] - base));
    }
    if base <= a && pat_matches_at(tokens, mem, a - base) {
        assert(rs.contains((base + (a - base)) as usize));
        assert((base + (a - base)) as usize == a);
    }
}

/// Between two consecutive addresses of an exhaustive scan the pattern
/// matches nowhere: resuming one byte past a match skips nothing.
pub proof fn lemma_scan_all_gap_free(
    tokens: Seq<Option<u8>>,
    mem: Seq<u8>,
    base: int,
    rs: Seq<usize>,
    k: int,
    o: int,
)
    requires
        scan_all_ok(tokens, mem, base, rs),
        0 <= k < rs.len() - 1,
        rs[k] - base < o < rs[k + 1] - base,
    ensures
        !pat_matches_at(tokens, mem, o),
{
    if pat_matches_at(tokens, mem, o) {
        assert(rs.contains((base + o) as usize));
        let j = choose|j: int| 0 <= j < rs.len() && rs[j] == (base + o) as usize;
        assert(base <= rs[k] < base + o < rs[k + 1]);
        assert(rs[j] == base + o);
        if j <= k {
            assert(j < k ==> rs[j] < rs[k]);
        } else {
            assert(k + 1 < j ==> rs[k + 1] < rs[j]);
        }
    }
}

/// Forward scan: the address of the first (lowest) offset where the pattern
/// matches, `None` if it matches nowhere.
pub fn scan_pattern(mem: &[u8], base: usize, pat: &Pattern) -> (r: Option<usize>)
    requires
        span_addresses_fit(base as int, mem@.len() as int, pat@.len() as int),
    ensures
        scan_first_ok(pat@, mem@, base as int, r),
{
    let n: usize = mem.len();
    let plen: usize = pat.0.len();
    if plen > n {
        return None;
    }
    let last: usize = n - plen;
    let mut i: usize = 0;
    loop
        invariant
            i <= last,
            last == n - plen,
            plen <= n,
            n == mem@.len(),
            plen == pat@.len(),
            base + last <= usize::MAX,
            forall|o: int| 0 <= o < i ==> !pat_matches_at(pat@, mem@, o),
        ensures
            forall|o: int| !pat_matches_at(pat@, mem@, o),
        decreases last - i,
    {
        if matches_at(pat, mem, i) {
            return Some(base + i);
        }
        if i == last {
            break;
        }
        i = i + 1;
    }
    None
}

/// Backward scan: the address of the last (highest) offset where the
/// pattern matches, `None` if it matches nowhere.
pub fn rscan_pattern(mem: &[u8], base: usize, pat: &Pattern) -> (r: Option<usize>)
    requires
        span_addresses_fit(base as int, mem@.len() as int, pat@.len() as int),
    ensures
        scan_last_ok(pat@, mem@, base as int, r),
{
    let n: usize = mem.len();
    let plen: usize = pat.0.len();
    if plen > n {
        return None;
    }
    let mut i: usize = n - plen;
    loop
        invariant
            i <= n - plen,
            plen <= n,
            n == mem@.len(),
            plen == pat@.len(),
            base + (n - plen) <= usize::MAX,
            forall|o: int| o > i ==> !pat_matches_at(pat@, mem@, o),
        ensures
            forall|o: int| !pat_matches_at(pat@, mem@, o),
        decreases i,
    {
        if matches_at(pat, mem, i) {
            return Some(base + i);
        }
        if i == 0 {
            break;
        }
        i = i - 1;
    }
    None
}

/// Exhaustive scan: the addresses of all offsets where the pattern matches,
/// in strictly ascending order.
pub fn scan_all_pattern(mem: &[u8], base: usize, pat: &Pattern) -> (rs: Vec<usize>)
    requires
        span_addresses_fit(base as int, mem@.len() as int, pat@.len() as int),
    ensures
        scan_all_ok(pat@, mem@, base as int, rs@),
{
    let mut refs: Vec<usize> = Vec::new();
    let n: usize = mem.len();
    let plen: usize = pat.0.len();
    if plen > n {
        return refs;
    }
    let last: usize = n - plen;
    let mut i: usize = 0;
    loop
        invariant_except_break
            forall|k: int| 0 <= k < refs@.len() ==> #[trigger] refs@[k] < base + i,
            forall|o: int|
                0 <= o < i && pat_matches_at(pat@, mem@, o) ==> refs@.contains(
                    (base + o) as usize,
                ),
        invariant
            i <= last,
            last == n - plen,
            plen <= n,
            n == mem@.len(),
            plen == pat@.len(),
            base + last <= usize::MAX,
            forall|k: int|
                0 <= k < refs@.len() ==> base <= #[trigger] refs@[k] && pat_matches_at(
                    pat@,
                    mem@,
                    refs@[k] - base,
                ),
            forall|k1: int, k2: int| 0 <= k1 < k2 < refs@.len() ==> refs@[k1] < refs@[k2],
        ensures
            forall|k: int|
                0 <= k < refs@.len() ==> base <= #[trigger] refs@[k] && pat_matches_at(
                    pat@,
                    mem@,
                    refs@[k] - base,
                ),
            forall|k1: int, k2: int| 0 <= k1 < k2 < refs@.len() ==> refs@[k1] < refs@[k2],
            forall|o: int|
                pat_matches_at(pat@, mem@, o) ==> refs@.contains((base + o) as usize),
        decreases last - i,
    {
        if matches_at(pat, mem, i) {
            let ghost old_refs = refs@;
            refs.push(base + i);
            proof {
                assert(refs@ == old_refs.push((base + i) as usize));
                assert forall|o: int|
                    0 <= o <= i && pat_matches_at(pat@, mem@, o) implies refs@.contains(
                    (base + o) as usize,
                ) by {
                    if o < i {
                        let idx = choose|idx: int|
                            0 <= idx < old_refs.len() && old_refs[idx] == (base + o) as usize;
                        assert(refs@[idx] == (base + o) as usize);
                    } else {
                        assert(refs@[refs@.len() - 1] == (base + i) as usize);
                    }
                }
            }
        }
        if i == last {
            break;
        }
        i = i + 1;
    }
    refs
}

/// Compiles masked-hex pattern text and scans forward; a grammar error is
/// reported instead of a scan result.
pub fn scan(mem: &[u8], base: usize, pat: &str) -> (r: Result<Option<usize>, ParseError>)
    requires
        span_addresses_fit(
            base as int,
            mem@.len() as int,
            masked_tokens(pat.spec_bytes()).len() as int,
        ),
    ensures
        match r {
            Ok(o) => masked_parse_ok(pat.spec_bytes()) && scan_first_ok(
                masked_tokens(pat.spec_bytes()),
                mem@,
                base as int,
                o,
            ),
            Err(e) => !masked_parse_ok(pat.spec_bytes()) && names_first_bad_token(
                pat.spec_bytes(),
                e.token@,
            ),
        },
{
    match Pattern::new(pat) {
        Ok(p) => Ok(scan_pattern(mem, base, &p)),
        Err(e) => Err(e),
    }
}

/// Compiles masked-hex pattern text and scans backward; a grammar error is
/// reported instead of a scan result.
pub fn rscan(mem: &[u8], base: usize, pat: &str) -> (r: Result<Option<usize>, ParseError>)
    requires
        span_addresses_fit(
            base as int,
            mem@.len() as int,
            masked_tokens(pat.spec_bytes()).len() as int,
        ),
    ensures
        match r {
            Ok(o) => masked_parse_ok(pat.spec_bytes()) && scan_last_ok(
                masked_tokens(pat.spec_bytes()),
                mem@,
                base as int,
                o,
            ),
            Err(e) => !masked_parse_ok(pat.spec_bytes()) && names_first_bad_token(
                pat.spec_bytes(),
                e.token@,
            ),
        },
{
    match Pattern::new(pat) {
        Ok(p) => Ok(rscan_pattern(mem, base, &p)),
        Err(e) => Err(e),
    }
}

/// Compiles masked-hex pattern text and scans exhaustively; a grammar error
/// is reported instead of a scan result.
pub fn scan_all(mem: &[u8], base: usize, pat: &str) -> (r: Result<Vec<usize>, ParseError>)
    requires
        span_addresses_fit(
            base as int,
            mem@.len() as int,
            masked_tokens(pat.spec_bytes()).len() as int,
        ),
    ensures
        match r {
            Ok(rs) => masked_parse_ok(pat.spec_bytes()) && scan_all_ok(
                masked_tokens(pat.spec_bytes()),
                mem@,
                base as int,
                rs@,
            ),
            Err(e) => !masked_parse_ok(pat.spec_bytes()) && names_first_bad_token(
                pat.spec_bytes(),
                e.token@,
            ),
        },
{
    match Pattern::new(pat) {
        Ok(p) => Ok(scan_all_pattern(mem, base, &p)),
        Err(e) => Err(e),
    }
}

/// Compiles the text as a literal pattern and scans forward. The `Result`
/// is always `Ok`: a literal pattern has no grammar to break.
pub fn scan_str(mem: &[u8], base: usize, pat: &str) -> (r: Result<Option<usize>, ParseError>)
    requires
        span_addresses_fit(base as int, mem@.len() as int, pat.spec_bytes().len() as int),
    ensures
        r matches Ok(o) && scan_first_ok(
            literal_tokens(pat.spec_bytes()),
            mem@,
            base as int,
            o,
        ),
{
    match Pattern::from_str(pat) {
        Ok(p) => Ok(scan_pattern(mem, base, &p)),
        Err(e) => Err(e),
    }
}

/// Compiles the text as a literal pattern and scans backward. The `Result`
/// is always `Ok`.
pub fn rscan_str(mem: &[u8], base: usize, pat: &str) -> (r: Result<Option<usize>, ParseError>)
    requires
        span_addresses_fit(base as int, mem@.len() as int, pat.spec_bytes().len() as int),
    ensures
        r matches Ok(o) && scan_last_ok(literal_tokens(pat.spec_bytes()), mem@, base as int, o),
{
    match Pattern::from_str(pat) {
        Ok(p) => Ok(rscan_pattern(mem, base, &p)),
        Err(e) => Err(e),
    }
}

/// Compiles the text as a literal pattern and scans exhaustively. The
/// `Result` is always `Ok`.
pub fn scan_all_str(mem: &[u8], base: usize, pat: &str) -> (r: Result<Vec<usize>, ParseError>)
    requires
        span_addresses_fit(base as int, mem@.len() as int, pat.spec_bytes().len() as int),
    ensures
        r matches Ok(rs) && scan_all_ok(
            literal_tokens(pat.spec_bytes()),
            mem@,
            base as int,
            rs@,
        ),
{
    match Pattern::from_str(pat) {
        Ok(p) => Ok(scan_all_pattern(mem, base, &p)),
        Err(e) => Err(e),
    }
}

} // verus!
