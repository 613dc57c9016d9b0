//! The view type itself: a non-owning projection of a byte buffer.

use core::cmp::Ordering;
use std::borrow::Cow;
use vstd::prelude::*;
use vstd::std_specs::cmp::PartialEqSpec;
use vstd::std_specs::cmp::PartialOrdSpec;
use vstd::string::StringSliceAdditionalSpecFns;
use vstd::utf8::decode_utf8;
use vstd::utf8::encode_utf8;
use vstd::utf8::valid_first_scalar;
use vstd::utf8::valid_utf8;

use crate::byte_order::cmp_bytes;
use crate::byte_order::eq_bytes;
use crate::byte_order::lex_cmp_bytes;
use crate::utf8_scan::Utf8Error;
use crate::utf8_scan::bytes_to_str;
use crate::utf8_scan::lemma_lossy_of_valid;
use crate::utf8_scan::lemma_prefix_len_full_iff_valid;
use crate::utf8_scan::lemma_prefix_len_stops;
use crate::utf8_scan::lemma_prefix_valid;
use crate::utf8_scan::lossy_decode_owned;
use crate::utf8_scan::lossy_utf8;
use crate::utf8_scan::utf8_valid_prefix_len;
use crate::utf8_scan::utf8_valid_up_to;

verus! {

/// A borrowed, read-only view over a contiguous byte range. It never owns or
/// mutates the bytes; its validity is tied to the lifetime of the buffer it
/// was taken from. Its abstract value is the byte sequence it refers to.
///
/// Equality, ordering and hashing all go by the viewed bytes, never by where
/// they are stored: two views over different buffers with the same content
/// are equal, hash alike, and order as equal.
#[derive(Debug, Hash, Ord)]
pub struct CxxStringView<'a> {
    bytes: &'a [u8],
}

impl<'a> View for CxxStringView<'a> {
    type V = Seq<u8>;

    closed spec fn view(&self) -> Seq<u8> {
        self.bytes@
    }
}

impl CxxStringView<'static> {
    /// Constructs an empty view.
    pub fn empty() -> (r: Self)
        ensures
            r@ == Seq::<u8>::empty(),
    {
        let r = CxxStringView { bytes: &[] };
        proof {
            assert(r@ =~= Seq::<u8>::empty());
        }
        r
    }
}

impl<'a> CxxStringView<'a> {
    /// Constructs a view over an existing byte slice, without copying. The
    /// view is live exactly as long as the backing slice.
    pub fn new(slice: &'a [u8]) -> (r: Self)
        ensures
            r@ == slice@,
    {
        CxxStringView { bytes: slice }
    }

    /// The length of the viewed range in bytes.
    pub fn len(&self) -> (r: usize)
        ensures
            r == self@.len(),
    {
        self.bytes.len()
    }

    /// True when the view has a length of zero bytes.
    pub fn is_empty(&self) -> (r: bool)
        ensures
            r == (self@.len() == 0),
    {
        self.bytes.is_empty()
    }

    /// The viewed bytes as a slice. The bytes may contain embedded zero
    /// bytes; they are not a zero-terminated string.
    pub fn as_bytes(&self) -> (r: &'a [u8])
        ensures
            r@ == self@,
    {
        self.bytes
    }

    /// Validates the viewed bytes as UTF-8. On success, the returned string
    /// slice decodes exactly the viewed bytes; on failure, the error carries
    /// the offset of the first ill-formed sequence: everything before that
    /// offset is valid UTF-8, and no well-formed scalar encoding begins at
    /// it.
    pub fn to_str(&self) -> (r: Result<&'a str, Utf8Error>)
        ensures
            valid_utf8(self@) ==> (r matches Ok(s) && s.spec_bytes() == self@ && s@ == decode_utf8(
                self@,
            )),
            !valid_utf8(self@) ==> (r matches Err(e) && e.valid_up_to == utf8_valid_prefix_len(
                self@,
            ) && valid_utf8(self@.subrange(0, e.valid_up_to as int)) && !valid_first_scalar(
                self@.subrange(e.valid_up_to as int, self@.len() as int),
            )),
    {
        let n = self.bytes.len();
        let p = utf8_valid_up_to(self.bytes);
        proof {
            lemma_prefix_len_full_iff_valid(self@);
        }
        if p == n {
            let s = bytes_to_str(self.bytes);
            proof {
                vstd::utf8::encode_utf8_decode_utf8(s@);
            }
            Ok(s)
        } else {
            proof {
                lemma_prefix_valid(self@);
                crate::utf8_scan::lemma_prefix_len_bounds(self@);
                lemma_prefix_len_stops(self@);
            }
            Err(Utf8Error { valid_up_to: p })
        }
    }

    /// Converts the viewed bytes to text, never failing: valid UTF-8 is
    /// returned as a borrowed slice of the original bytes (no allocation),
    /// and otherwise an owned string is built in which every maximal
    /// ill-formed subsequence is replaced by one U+FFFD replacement
    /// character.
    pub fn to_string_lossy(&self) -> (r: Cow<'a, str>)
        ensures
            r@ == lossy_utf8(self@),
            valid_utf8(self@) <==> (r matches Cow::Borrowed(_)),
    {
        let n = self.bytes.len();
        let p = utf8_valid_up_to(self.bytes);
        proof {
            lemma_prefix_len_full_iff_valid(self@);
        }
        if p == n {
            let s = bytes_to_str(self.bytes);
            proof {
                vstd::utf8::encode_utf8_decode_utf8(s@);
                lemma_lossy_of_valid(self@);
            }
            Cow::Borrowed(s)
        } else {
            Cow::Owned(lossy_decode_owned(self.bytes))
        }
    }
}

impl<'a> PartialEq for CxxStringView<'a> {
    /// Byte-wise equality: views over different buffers with identical
    /// bytes are equal.
    fn eq(&self, other: &Self) -> (r: bool) {
        eq_bytes(self.bytes, other.bytes)
    }
}

impl<'a> vstd::std_specs::cmp::PartialEqSpecImpl for CxxStringView<'a> {
    open spec fn obeys_eq_spec() -> bool {
        true
    }

    open spec fn eq_spec(&self, other: &Self) -> bool {
        self@ == other@
    }
}

impl<'a> Eq for CxxStringView<'a> {
}

impl<'a> PartialEq<str> for CxxStringView<'a> {
    /// A view equals a text value when the view's bytes are exactly the
    /// text's UTF-8 bytes.
    fn eq(&self, other: &str) -> (r: bool) {
        eq_bytes(self.bytes, other.as_bytes())
    }
}

impl<'a> vstd::std_specs::cmp::PartialEqSpecImpl<str> for CxxStringView<'a> {
    open spec fn obeys_eq_spec() -> bool {
        true
    }

    open spec fn eq_spec(&self, other: &str) -> bool {
        self@ == other.spec_bytes()
    }
}

impl<'a> PartialEq<CxxStringView<'a>> for str {
    /// The symmetric direction of equality between a text value and a view.
    fn eq(&self, other: &CxxStringView<'a>) -> (r: bool) {
        eq_bytes(self.as_bytes(), other.bytes)
    }
}

impl<'a> vstd::std_specs::cmp::PartialEqSpecImpl<CxxStringView<'a>> for str {
    open spec fn obeys_eq_spec() -> bool {
        true
    }

    open spec fn eq_spec(&self, other: &CxxStringView<'a>) -> bool {
        self.spec_bytes() == other@
    }
}

impl<'a> PartialOrd for CxxStringView<'a> {
    /// Byte-wise lexicographic ordering; it is total, so the result is
    /// always given.
    fn partial_cmp(&self, other: &Self) -> (r: Option<Ordering>) {
        Some(cmp_bytes(self.bytes, other.bytes))
    }
}

impl<'a> vstd::std_specs::cmp::PartialOrdSpecImpl for CxxStringView<'a> {
    open spec fn obeys_partial_cmp_spec() -> bool {
        true
    }

    open spec fn partial_cmp_spec(&self, other: &Self) -> Option<Ordering> {
        Some(lex_cmp_bytes(self@, other@))
    }
}

/// Equality between views is an equivalence over byte content: it is
/// reflexive and symmetric, it is transitive, and two views are equal
/// exactly when they view the same bytes, wherever those bytes are stored.
pub proof fn lemma_view_eq_equivalence(
    a: CxxStringView,
    b: CxxStringView,
    c: CxxStringView,
)
    ensures
        a.eq_spec(&a),
        a.eq_spec(&b) == b.eq_spec(&a),
        a.eq_spec(&b) && b.eq_spec(&c) ==> a.eq_spec(&c),
        a.eq_spec(&b) == (a@ == b@),
{
}

/// Equality between a view and a text value is symmetric: each direction
/// holds exactly when the view's bytes are the text's UTF-8 bytes.
pub proof fn lemma_view_str_eq_symmetric(v: CxxStringView, s: &str)
    ensures
        v.eq_spec(s) == s.eq_spec(&v),
        v.eq_spec(s) == (v@ == s.spec_bytes()),
{
}

/// The ordering of views is total and matches byte-lexicographic ordering:
/// a comparison is always given, it is `Equal` exactly for equal bytes, and
/// swapping the operands reverses it.
pub proof fn lemma_view_order_total(a: CxxStringView, b: CxxStringView)
    ensures
        a.partial_cmp_spec(&b) is Some,
        (a.partial_cmp_spec(&b) == Some(Ordering::Equal)) <==> a@ == b@,
        (a.partial_cmp_spec(&b) == Some(Ordering::Less)) <==> (b.partial_cmp_spec(&a) == Some(
            Ordering::Greater,
        )),
{
    crate::byte_order::lemma_lex_cmp_equal_iff_eq(a@, b@);
    crate::byte_order::lemma_lex_cmp_antisymmetric(a@, b@);
}

/// The ordering of views is transitive.
pub proof fn lemma_view_order_transitive(
    a: CxxStringView,
    b: CxxStringView,
    c: CxxStringView,
)
    requires
        a.partial_cmp_spec(&b) == Some(Ordering::Less),
        b.partial_cmp_spec(&c) == Some(Ordering::Less),
    ensures
        a.partial_cmp_spec(&c) == Some(Ordering::Less),
{
    crate::byte_order::lemma_lex_cmp_transitive(a@, b@, c@);
}

} // verus!
