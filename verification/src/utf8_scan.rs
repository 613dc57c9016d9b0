//! UTF-8 validation over byte sequences: the length of the longest
//! well-formed prefix, and a verified scanner that computes it.

use vstd::prelude::*;
use vstd::slice::slice_subrange;
use vstd::string::StringExecFns;
use vstd::string::StringSliceAdditionalSpecFns;
use vstd::utf8::*;

verus! {

/// Length in bytes of the longest prefix of `bytes` that is a valid UTF-8
/// encoding of whole Unicode scalars, read greedily scalar by scalar. It
/// equals `bytes.len()` exactly when the whole sequence is valid, and
/// otherwise gives the offset of the first byte of the first ill-formed
/// sequence.
pub open spec fn utf8_valid_prefix_len(bytes: Seq<u8>) -> int
    decreases bytes.len(),
{
    if bytes.len() == 0 {
        0
    } else if valid_first_scalar(bytes) {
        length_of_first_scalar(bytes) + utf8_valid_prefix_len(pop_first_scalar(bytes))
    } else {
        0
    }
}

/// The valid-prefix length never exceeds the sequence length.
pub proof fn lemma_prefix_len_bounds(bytes: Seq<u8>)
    ensures
        0 <= utf8_valid_prefix_len(bytes) <= bytes.len(),
    decreases bytes.len(),
{
    if bytes.len() != 0 && valid_first_scalar(bytes) {
        lemma_prefix_len_bounds(pop_first_scalar(bytes));
    }
}

/// A byte sequence is valid UTF-8 exactly when its longest valid prefix is
/// the whole sequence.
pub proof fn lemma_prefix_len_full_iff_valid(bytes: Seq<u8>)
    ensures
        valid_utf8(bytes) <==> utf8_valid_prefix_len(bytes) == bytes.len(),
    decreases bytes.len(),
{
    if bytes.len() != 0 && valid_first_scalar(bytes) {
        lemma_prefix_len_full_iff_valid(pop_first_scalar(bytes));
        lemma_prefix_len_bounds(pop_first_scalar(bytes));
    }
}

/// The longest valid prefix is itself valid UTF-8.
pub proof fn lemma_prefix_valid(bytes: Seq<u8>)
    ensures
        valid_utf8(bytes.subrange(0, utf8_valid_prefix_len(bytes))),
    decreases bytes.len(),
{
    lemma_prefix_len_bounds(bytes);
    let p = utf8_valid_prefix_len(bytes);
    if bytes.len() == 0 || !valid_first_scalar(bytes) {
        assert(bytes.subrange(0, 0) =~= Seq::<u8>::empty());
    } else {
        let l = length_of_first_scalar(bytes);
        let rest = pop_first_scalar(bytes);
        lemma_prefix_len_bounds(rest);
        lemma_prefix_valid(rest);
        let sub = bytes.subrange(0, p);
        assert(sub.len() >= l);
        assert(forall|k: int| 0 <= k < l ==> sub[k] == bytes[k]);
        assert(valid_first_scalar(sub));
        assert(decode_first_codepoint(sub) == decode_first_codepoint(bytes));
        assert(length_of_first_scalar(sub) == l);
        assert(pop_first_scalar(sub) =~= rest.subrange(0, utf8_valid_prefix_len(rest)));
        assert(valid_utf8(sub));
    }
}

/// Width of the scalar encoding announced by a leading byte, restricted to
/// leads that can begin some well-formed encoding; 0 for a byte that can
/// begin none (a continuation byte, an always-overlong lead, or a lead that
/// only encodes values beyond the last Unicode scalar).
pub open spec fn utf8_lead_width(b0: u8) -> int {
    if b0 < 0x80 {
        1
    } else if 0xc2 <= b0 <= 0xdf {
        2
    } else if 0xe0 <= b0 <= 0xef {
        3
    } else if 0xf0 <= b0 <= 0xf4 {
        4
    } else {
        0
    }
}

/// True when `b1` can follow the leading byte `b0` in some well-formed
/// encoding: a plain continuation byte, narrowed for the leads whose
/// continuation range is restricted by the overlong, surrogate and
/// largest-scalar rules.
pub open spec fn utf8_second_byte_ok(b0: u8, b1: u8) -> bool {
    if b0 == 0xe0 {
        0xa0 <= b1 <= 0xbf
    } else if b0 == 0xed {
        0x80 <= b1 <= 0x9f
    } else if b0 == 0xf0 {
        0x90 <= b1 <= 0xbf
    } else if b0 == 0xf4 {
        0x80 <= b1 <= 0x8f
    } else {
        is_continuation_byte(b1)
    }
}

/// The number of bytes that one replacement character stands for when the
/// bytes at the start of `s` are ill-formed: the length of the maximal
/// prefix of `s` that is a prefix of some well-formed scalar encoding, and 1
/// when no well-formed encoding starts with `s[0]` at all. This is the
/// substitution of maximal subparts that the Unicode standard recommends.
pub open spec fn invalid_run_len(s: Seq<u8>) -> int
    recommends
        s.len() > 0,
        !valid_first_scalar(s),
{
    let w = utf8_lead_width(s[0]);
    if w <= 1 {
        1
    } else if s.len() < 2 || !utf8_second_byte_ok(s[0], s[1]) {
        1
    } else if w == 2 {
        2
    } else if s.len() < 3 || !is_continuation_byte(s[2]) {
        2
    } else if w == 3 {
        3
    } else if s.len() < 4 || !is_continuation_byte(s[3]) {
        3
    } else {
        4
    }
}

/// The characters that a lossy UTF-8 decoding of `s` yields: each
/// well-formed scalar encoding decodes to its scalar, and each maximal
/// ill-formed subsequence is replaced by one U+FFFD replacement character.
pub open spec fn lossy_utf8(s: Seq<u8>) -> Seq<char>
    decreases s.len(),
{
    if s.len() == 0 {
        Seq::empty()
    } else if valid_first_scalar(s) {
        seq![decode_first_scalar(s) as char] + lossy_utf8(pop_first_scalar(s))
    } else {
        seq!['\u{fffd}'] + lossy_utf8(s.subrange(invalid_run_len(s), s.len() as int))
    }
}

/// On valid UTF-8 input the lossy decoding is exactly the decoding: nothing
/// is replaced.
pub proof fn lemma_lossy_of_valid(s: Seq<u8>)
    requires
        valid_utf8(s),
    ensures
        lossy_utf8(s) == decode_utf8(s),
    decreases s.len(),
{
    if s.len() != 0 {
        lemma_lossy_of_valid(pop_first_scalar(s));
    }
}

/// The greedy scan stops at an ill-formed sequence: when the longest valid
/// prefix is not the whole input, the remainder does not begin with a
/// well-formed scalar encoding.
pub proof fn lemma_prefix_len_stops(bytes: Seq<u8>)
    requires
        utf8_valid_prefix_len(bytes) < bytes.len(),
    ensures
        !valid_first_scalar(
            bytes.subrange(utf8_valid_prefix_len(bytes), bytes.len() as int),
        ),
    decreases bytes.len(),
{
    lemma_prefix_len_bounds(bytes);
    if bytes.len() != 0 && valid_first_scalar(bytes) {
        let l = length_of_first_scalar(bytes);
        let rest = pop_first_scalar(bytes);
        lemma_prefix_len_bounds(rest);
        lemma_prefix_len_stops(rest);
        assert(rest.subrange(utf8_valid_prefix_len(rest), rest.len() as int) =~= bytes.subrange(
            utf8_valid_prefix_len(bytes),
            bytes.len() as int,
        ));
    } else {
        assert(bytes.subrange(0, bytes.len() as int) =~= bytes);
    }
}

/// A lossy decoding splits at the end of the longest valid prefix: the
/// prefix decodes exactly, and the remainder is decoded lossily.
pub proof fn lemma_lossy_split_at_prefix(s: Seq<u8>)
    ensures
        lossy_utf8(s) == decode_utf8(s.subrange(0, utf8_valid_prefix_len(s))) + lossy_utf8(
            s.subrange(utf8_valid_prefix_len(s), s.len() as int),
        ),
    decreases s.len(),
{
    lemma_prefix_len_bounds(s);
    let p = utf8_valid_prefix_len(s);
    if s.len() == 0 || !valid_first_scalar(s) {
        assert(s.subrange(0, 0) =~= Seq::<u8>::empty());
        assert(s.subrange(0, s.len() as int) =~= s);
        assert(decode_utf8(Seq::<u8>::empty()) + lossy_utf8(s) =~= lossy_utf8(s));
    } else {
        let l = length_of_first_scalar(s);
        let rest = pop_first_scalar(s);
        let p2 = utf8_valid_prefix_len(rest);
        lemma_prefix_len_bounds(rest);
        lemma_lossy_split_at_prefix(rest);
        lemma_prefix_valid(s);
        lemma_prefix_valid(rest);
        let sub = s.subrange(0, p);
        assert(sub.len() >= l);
        assert(forall|k: int| 0 <= k < l ==> sub[k] == s[k]);
        assert(valid_first_scalar(sub));
        assert(decode_first_codepoint(sub) == decode_first_codepoint(s));
        assert(length_of_first_scalar(sub) == l);
        assert(pop_first_scalar(sub) =~= rest.subrange(0, p2));
        assert(s.subrange(p, s.len() as int) =~= rest.subrange(p2, rest.len() as int));
        assert(decode_utf8(sub) == seq![decode_first_scalar(s) as char] + decode_utf8(
            rest.subrange(0, p2),
        ));
        assert(lossy_utf8(s) =~= decode_utf8(sub) + lossy_utf8(s.subrange(p, s.len() as int)));
    }
}

/// Reported when a byte range holds data that is not a valid UTF-8 encoding.
/// `valid_up_to` is the offset of the first byte of the first ill-formed
/// sequence: everything before it is valid UTF-8.
#[derive(Clone, Copy, Debug, PartialEq, Eq, Structural)]
pub struct Utf8Error {
    pub valid_up_to: usize,
}

/// Relies on `core::str::from_utf8`: on bytes that are a valid UTF-8
/// encoding it returns the string slice whose bytes are exactly the input.
#[verifier::external_body]
pub(crate) fn bytes_to_str(v: &[u8]) -> (r: &str)
    requires
        valid_utf8(v@),
    ensures
        r.spec_bytes() == v@,
{
    match core::str::from_utf8(v) {
        Ok(s) => s,
        Err(_) => "",
    }
}

/// Reports the width in bytes of the well-formed scalar encoding that begins
/// at offset `i` of `b`, or 0 when the bytes at `i` do not begin with one.
fn first_scalar_width(b: &[u8], i: usize) -> (w: usize)
    requires
        i < b@.len(),
    ensures
        ({
            let s = b@.subrange(i as int, b@.len() as int);
            &&& (w == 0 <==> !valid_first_scalar(s))
            &&& (w != 0 ==> valid_first_scalar(s) && w == length_of_first_scalar(s))
        }),
{
    let ghost s = b@.subrange(i as int, b@.len() as int);
    let n: usize = b.len();
    let rem: usize = n - i;
    let b0 = b[i];
    proof {
        assert(s[0] == b0);
        assert(s.len() == rem);
    }
    if b0 < 0x80 {
        1
    } else if b0 < 0xc0 {
        0
    } else if b0 < 0xe0 {
        if rem < 2 {
            return 0;
        }
        let b1 = b[i + 1];
        proof {
            assert(s[1] == b1);
        }
        if !(0x80 <= b1 && b1 < 0xc0) {
            return 0;
        }
        let cp: u32 = (((b0 & 0x1f) as u32) << 6) | ((b1 & 0x3f) as u32);
        proof {
            assert(cp == codepoint_width_2(b0, b1));
            assert((((b0 & 0x1f) as u32) << 6) | ((b1 & 0x3f) as u32) <= 0x7ff) by (bit_vector);
        }
        if cp < 0x80 {
            return 0;
        }
        2
    } else if b0 < 0xf0 {
        if rem < 2 {
            return 0;
        }
        let b1 = b[i + 1];
        proof {
            assert(s[1] == b1);
        }
        if !(0x80 <= b1 && b1 < 0xc0) {
            return 0;
        }
        if rem < 3 {
            return 0;
        }
        let b2 = b[i + 2];
        proof {
            assert(s[2] == b2);
        }
        if !(0x80 <= b2 && b2 < 0xc0) {
            return 0;
        }
        let cp: u32 = (((b0 & 0x0f) as u32) << 12) | (((b1 & 0x3f) as u32) << 6) | ((b2
            & 0x3f) as u32);
        proof {
            assert(cp == codepoint_width_3(b0, b1, b2));
        }
        if cp < 0x800 {
            return 0;
        }
        if 0xd800 <= cp && cp <= 0xdfff {
            return 0;
        }
        3
    } else if b0 < 0xf8 {
        if rem < 2 {
            return 0;
        }
        let b1 = b[i + 1];
        proof {
            assert(s[1] == b1);
        }
        if !(0x80 <= b1 && b1 < 0xc0) {
            return 0;
        }
        if rem < 3 {
            return 0;
        }
        let b2 = b[i + 2];
        proof {
            assert(s[2] == b2);
        }
        if !(0x80 <= b2 && b2 < 0xc0) {
            return 0;
        }
        if rem < 4 {
            return 0;
        }
        let b3 = b[i + 3];
        proof {
            assert(s[3] == b3);
        }
        if !(0x80 <= b3 && b3 < 0xc0) {
            return 0;
        }
        let cp: u32 = (((b0 & 0x07) as u32) << 18) | (((b1 & 0x3f) as u32) << 12) | (((b2
            & 0x3f) as u32) << 6) | ((b3 & 0x3f) as u32);
        proof {
            assert(cp == codepoint_width_4(b0, b1, b2, b3));
        }
        if cp < 0x10000 || cp > 0x10ffff {
            return 0;
        }
        4
    } else {
        0
    }
}

/// The number of bytes, starting at offset `i` of `b`, that one replacement
/// character stands for in a lossy decoding.
fn invalid_run_len_at(b: &[u8], i: usize) -> (r: usize)
    requires
        i < b@.len(),
    ensures
        r == invalid_run_len(b@.subrange(i as int, b@.len() as int)),
        1 <= r <= b@.len() - i,
{
    let ghost s = b@.subrange(i as int, b@.len() as int);
    let n: usize = b.len();
    let rem: usize = n - i;
    let b0 = b[i];
    proof {
        assert(s[0] == b0);
        assert(s.len() == rem);
    }
    let w: usize = if b0 < 0x80 {
        1
    } else if 0xc2 <= b0 && b0 <= 0xdf {
        2
    } else if 0xe0 <= b0 && b0 <= 0xef {
        3
    } else if 0xf0 <= b0 && b0 <= 0xf4 {
        4
    } else {
        0
    };
    if w <= 1 {
        return 1;
    }
    if rem < 2 {
        return 1;
    }
    let b1 = b[i + 1];
    proof {
        assert(s[1] == b1);
    }
    let second_ok: bool = if b0 == 0xe0 {
        0xa0 <= b1 && b1 <= 0xbf
    } else if b0 == 0xed {
        0x80 <= b1 && b1 <= 0x9f
    } else if b0 == 0xf0 {
        0x90 <= b1 && b1 <= 0xbf
    } else if b0 == 0xf4 {
        0x80 <= b1 && b1 <= 0x8f
    } else {
        0x80 <= b1 && b1 <= 0xbf
    };
    if !second_ok {
        return 1;
    }
    if w == 2 {
        return 2;
    }
    if rem < 3 {
        return 2;
    }
    let b2 = b[i + 2];
    proof {
        assert(s[2] == b2);
    }
    if !(0x80 <= b2 && b2 <= 0xbf) {
        return 2;
    }
    if w == 3 {
        return 3;
    }
    if rem < 4 {
        return 3;
    }
    let b3 = b[i + 3];
    proof {
        assert(s[3] == b3);
    }
    if !(0x80 <= b3 && b3 <= 0xbf) {
        return 3;
    }
    4
}

/// The offset of the end of the longest valid UTF-8 prefix of `b`: the whole
/// length when `b` is valid, and the offset of the first ill-formed sequence
/// otherwise.
pub fn utf8_valid_up_to(b: &[u8]) -> (r: usize)
    ensures
        r as int == utf8_valid_prefix_len(b@),
{
    let n: usize = b.len();
    let mut i: usize = 0;
    proof {
        assert(b@.subrange(0, n as int) =~= b@);
    }
    loop
        invariant
            0 <= i <= n,
            n == b@.len(),
            utf8_valid_prefix_len(b@) == i + utf8_valid_prefix_len(
                b@.subrange(i as int, n as int),
            ),
        decreases n - i,
    {
        let ghost s = b@.subrange(i as int, n as int);
        if i == n {
            proof {
                assert(s.len() == 0);
            }
            return i;
        }
        let w = first_scalar_width(b, i);
        if w == 0 {
            proof {
                assert(s.len() != 0);
                assert(utf8_valid_prefix_len(s) == 0);
            }
            return i;
        }
        proof {
            assert(valid_first_scalar(s));
            assert(length_of_first_scalar(s) <= s.len());
            assert(pop_first_scalar(s) =~= b@.subrange(i + w, n as int));
        }
        i = i + w;
    }
}

/// Builds the lossy decoding of `b` as an owned string: valid runs are
/// decoded exactly, and each maximal ill-formed subsequence becomes one
/// replacement character.
pub(crate) fn lossy_decode_owned(b: &[u8]) -> (r: String)
    ensures
        r@ == lossy_utf8(b@),
{
    let n: usize = b.len();
    let mut out = String::new();
    let mut i: usize = 0;
    proof {
        assert(b@.subrange(0, n as int) =~= b@);
    }
    loop
        invariant
            0 <= i <= n,
            n == b@.len(),
            out@ + lossy_utf8(b@.subrange(i as int, n as int)) == lossy_utf8(b@),
        decreases n - i,
    {
        let ghost s = b@.subrange(i as int, n as int);
        if i == n {
            proof {
                assert(s.len() == 0);
                assert(out@ + lossy_utf8(s) =~= out@);
            }
            return out;
        }
        let rest = slice_subrange(b, i, n);
        let p = utf8_valid_up_to(rest);
        proof {
            lemma_prefix_len_bounds(rest@);
            lemma_lossy_split_at_prefix(rest@);
            lemma_prefix_valid(rest@);
        }
        let valid_part = slice_subrange(rest, 0, p);
        let t = bytes_to_str(valid_part);
        proof {
            encode_utf8_decode_utf8(t@);
            assert(t@ == decode_utf8(rest@.subrange(0, p as int)));
        }
        out.append(t);
        if i + p == n {
            proof {
                let suffix = rest@.subrange(p as int, rest@.len() as int);
                assert(suffix.len() == 0);
                assert(lossy_utf8(s) =~= t@ + lossy_utf8(suffix));
                assert(t@ + lossy_utf8(suffix) =~= t@);
                assert(b@.subrange(n as int, n as int).len() == 0);
                assert(out@ + lossy_utf8(b@.subrange(n as int, n as int)) =~= out@);
            }
            i = n;
        } else {
            let run = invalid_run_len_at(b, i + p);
            let fffd: &str = "\u{fffd}";
            proof {
                reveal_strlit("\u{fffd}");
                assert(fffd@ =~= seq!['\u{fffd}']);
            }
            out.append(fffd);
            proof {
                lemma_prefix_len_stops(rest@);
                let suffix = rest@.subrange(p as int, rest@.len() as int);
                assert(suffix =~= b@.subrange((i + p) as int, n as int));
                assert(!valid_first_scalar(suffix));
                assert(run == invalid_run_len(suffix));
                assert(suffix.subrange(run as int, suffix.len() as int) =~= b@.subrange(
                    (i + p + run) as int,
                    n as int,
                ));
                assert(lossy_utf8(suffix) =~= seq!['\u{fffd}'] + lossy_utf8(
                    b@.subrange((i + p + run) as int, n as int),
                ));
                assert(lossy_utf8(s) =~= t@ + lossy_utf8(suffix));
                assert(out@ + lossy_utf8(b@.subrange((i + p + run) as int, n as int))
                    =~= lossy_utf8(b@));
            }
            i = i + p + run;
        }
    }
}

} // verus!
