//! The fallback target: where connections that fail the handshake are sent,
//! parsed once from a `host:port` string.

use vstd::prelude::*;
use vstd::slice::slice_to_vec;

verus! {

pub const COLON: u8 = 58;

pub const DIGIT_ZERO: u8 = 48;

pub const DIGIT_NINE: u8 = 57;

/// Longest host the target may name.
pub const MAX_HOST_LEN: usize = 255;

/// A host, as the bytes of its text, and a port.
#[derive(Clone, Debug)]
pub struct FallbackTarget {
    pub host: Vec<u8>,
    pub port: u16,
}

impl View for FallbackTarget {
    type V = (Seq<u8>, u16);

    open spec fn view(&self) -> (Seq<u8>, u16) {
        (self.host@, self.port)
    }
}

pub open spec fn is_digit(b: u8) -> bool {
    DIGIT_ZERO <= b <= DIGIT_NINE
}

/// The value of a string of decimal digits.
pub open spec fn decimal_value(d: Seq<u8>) -> nat
    decreases d.len(),
{
    if d.len() == 0 {
        0
    } else {
        decimal_value(d.drop_last()) * 10 + (d.last() - DIGIT_ZERO) as nat
    }
}

/// `c` is the position of the last colon of `s`.
pub open spec fn is_last_colon(s: Seq<u8>, c: int) -> bool {
    &&& 0 <= c < s.len()
    &&& s[c] == COLON
    &&& forall|j: int| c < j < s.len() ==> s[j] != COLON
}

/// `host:port`, split at the last colon: a host of 1 to 255 bytes and a port
/// of decimal digits whose value fits in 16 bits.
pub open spec fn parse_host_port(s: Seq<u8>) -> Option<(Seq<u8>, u16)> {
    if exists|c: int| is_last_colon(s, c) {
        let c = choose|c: int| is_last_colon(s, c);
        let host = s.subrange(0, c);
        let digits = s.subrange(c + 1, s.len() as int);
        if 1 <= host.len() <= MAX_HOST_LEN && digits.len() >= 1 && (forall|j: int|
            0 <= j < digits.len() ==> is_digit(#[trigger] digits[j])) && decimal_value(digits)
            <= u16::MAX {
            Some((host, decimal_value(digits) as u16))
        } else {
            None
        }
    } else {
        None
    }
}

proof fn lemma_decimal_prefix_le(d: Seq<u8>, i: int)
    requires
        0 <= i <= d.len(),
        forall|j: int| 0 <= j < d.len() ==> is_digit(#[trigger] d[j]),
    ensures
        decimal_value(d.subrange(0, i)) <= decimal_value(d),
    decreases d.len() - i,
{
    if i < d.len() {
        lemma_decimal_prefix_le(d, i + 1);
        assert(d.subrange(0, i + 1).drop_last() =~= d.subrange(0, i));
    } else {
        assert(d.subrange(0, i) =~= d);
    }
}

/// Reads a port: one or more decimal digits with a value that fits in 16 bits.
fn parse_port(d: &[u8]) -> (r: Option<u16>)
    ensures
        r == (if d@.len() >= 1 && (forall|j: int| 0 <= j < d@.len() ==> is_digit(#[trigger] d@[j]))
            && decimal_value(d@) <= u16::MAX {
            Some(decimal_value(d@) as u16)
        } else {
            None
        }),
{
    if d.len() == 0 {
        return None;
    }
    let mut i: usize = 0;
    while i < d.len()
        invariant
            i <= d@.len(),
            forall|j: int| 0 <= j < i ==> is_digit(#[trigger] d@[j]),
        decreases d@.len() - i,
    {
        if d[i] < DIGIT_ZERO || d[i] > DIGIT_NINE {
            return None;
        }
        i = i + 1;
    }
    let mut acc: u32 = 0;
    let mut k: usize = 0;
    while k < d.len()
        invariant
            k <= d@.len(),
            forall|j: int| 0 <= j < d@.len() ==> is_digit(#[trigger] d@[j]),
            acc == decimal_value(d@.subrange(0, k as int)),
            acc <= u16::MAX,
        decreases d@.len() - k,
    {
        assert(d@.subrange(0, k + 1).drop_last() =~= d@.subrange(0, k as int));
        let next = acc * 10 + (d[k] - DIGIT_ZERO) as u32;
        k = k + 1;
        if next > 65535 {
            proof {
                lemma_decimal_prefix_le(d@, k as int);
            }
            return None;
        }
        acc = next;
    }
    assert(d@.subrange(0, k as int) =~= d@);
    Some(acc as u16)
}

impl FallbackTarget {
    /// A copy of this target.
    pub fn duplicate(&self) -> (r: FallbackTarget)
        ensures
            r@ == self@,
    {
        FallbackTarget { host: slice_to_vec(self.host.as_slice()), port: self.port }
    }

    /// Parses `host:port`, splitting at the last colon.
    pub fn parse(s: &[u8]) -> (r: Option<FallbackTarget>)
        ensures
            r matches Some(t) ==> parse_host_port(s@) == Some(t@),
            r is None ==> parse_host_port(s@) is None,
    {
        let mut i: usize = s.len();
        while i > 0 && s[i - 1] != COLON
            invariant
                i <= s@.len(),
                forall|j: int| i <= j < s@.len() ==> s@[j] != COLON,
            decreases i,
        {
            i = i - 1;
        }
        if i == 0 {
            assert forall|c: int| !is_last_colon(s@, c) by {}
            return None;
        }
        let c = i - 1;
        assert(is_last_colon(s@, c as int));
        assert forall|c2: int| is_last_colon(s@, c2) implies c2 == c by {}
        if c < 1 || c > MAX_HOST_LEN {
            return None;
        }
        let port = parse_port(&s[c + 1..s.len()]);
        match port {
            Some(p) => Some(FallbackTarget { host: slice_to_vec(&s[0..c]), port: p }),
            None => None,
        }
    }
}

} // verus!
