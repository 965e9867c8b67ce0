//! Station identifiers (amateur callsigns): validation against the
//! callsign shape, canonicalization to upper case, and the wire-token
//! parser used when the TNC reports a station in a control line.
//!
//! A string is accepted when some substring of it has the shape
//! `letter, then digits, then a letter` (the optional leading digit and
//! the trailing alphanumerics of the full callsign shape never decide
//! acceptance).

use vstd::prelude::*;
use vstd::string::StrSliceExecFns;
use vstd::string::StringSliceAdditionalSpecFns;

verus! {

pub open spec fn is_digit_byte(b: u8) -> bool {
    0x30 <= b <= 0x39
}

pub open spec fn is_upper_byte(b: u8) -> bool {
    0x41 <= b <= 0x5a
}

pub open spec fn is_lower_byte(b: u8) -> bool {
    0x61 <= b <= 0x7a
}

pub open spec fn is_alpha_byte(b: u8) -> bool {
    is_upper_byte(b) || is_lower_byte(b)
}

/// Upper-case image of one ASCII byte.
pub open spec fn upper_byte(b: u8) -> u8 {
    if is_lower_byte(b) {
        (b - 0x20) as u8
    } else {
        b
    }
}

/// Upper-case image of a byte sequence.
pub open spec fn upper_seq(s: Seq<u8>) -> Seq<u8> {
    s.map(|i: int, b: u8| upper_byte(b))
}

/// The bytes `s[i..=j]` are a letter, one or more digits, and a letter.
pub open spec fn station_witness(s: Seq<u8>, i: int, j: int) -> bool {
    0 <= i && i + 1 < j && j < s.len() && is_alpha_byte(s[i]) && is_alpha_byte(s[j]) && (forall|
        k: int,
    |
        i < k < j ==> is_digit_byte(#[trigger] s[k]))
}

/// Some substring of `s` has the deciding part of the callsign shape.
pub open spec fn station_pattern(s: Seq<u8>) -> bool {
    exists|i: int, j: int| station_witness(s, i, j)
}

/// First index at or after `i` that is not an upper-case letter or
/// digit.
pub open spec fn upper_alnum_run_end(s: Seq<u8>, i: int) -> int
    decreases s.len() - i,
{
    if i < 0 || i >= s.len() || !(is_upper_byte(s[i]) || is_digit_byte(s[i])) {
        i
    } else {
        upper_alnum_run_end(s, i + 1)
    }
}

/// Rejected callsign input.
#[derive(Clone, Copy, Debug, PartialEq, Eq, Structural)]
pub struct InvalidStationId;

/// A validated callsign, canonicalized to upper case.
#[derive(Clone, Debug, PartialEq, Eq, Hash)]
pub struct StationId {
    bytes: Vec<u8>,
}

impl StationId {
    /// The bytes of the canonical (upper-case) callsign.
    pub closed spec fn view(&self) -> Seq<u8> {
        self.bytes@
    }

    /// Every constructed `StationId` is non-empty, contains no
    /// lower-case letter, and still exhibits the callsign shape.
    pub open spec fn wf(&self) -> bool {
        &&& self@.len() > 0
        &&& station_pattern(self@)
        &&& forall|k: int| 0 <= k < self@.len() ==> !is_lower_byte(#[trigger] self@[k])
    }

    /// Validate `s` against the callsign shape and canonicalize it to
    /// upper case. Fails with `InvalidStationId` exactly when the shape
    /// is absent.
    pub fn new(s: &str) -> (r: Result<StationId, InvalidStationId>)
        ensures
            match r {
                Ok(id) => station_pattern(s.spec_bytes()) && id@ == upper_seq(s.spec_bytes())
                    && id.wf(),
                Err(_) => !station_pattern(s.spec_bytes()),
            },
    {
        let bytes = s.as_bytes_vec();
        Self::from_bytes(&bytes)
    }

    /// The same validation, on raw bytes.
    pub fn from_bytes(bytes: &Vec<u8>) -> (r: Result<StationId, InvalidStationId>)
        ensures
            match r {
                Ok(id) => station_pattern(bytes@) && id@ == upper_seq(bytes@) && id.wf(),
                Err(_) => !station_pattern(bytes@),
            },
    {
        if !has_station_pattern(bytes) {
            return Err(InvalidStationId);
        }
        let mut up: Vec<u8> = Vec::new();
        let mut i: usize = 0;
        while i < bytes.len()
            invariant
                i <= bytes.len(),
                up@ =~= upper_seq(bytes@).subrange(0, i as int),
            decreases bytes.len() - i,
        {
            let b = bytes[i];
            if 0x61 <= b && b <= 0x7a {
                up.push(b - 0x20);
            } else {
                up.push(b);
            }
            i = i + 1;
        }
        assert(up@ =~= upper_seq(bytes@));
        proof {
            lemma_upper_keeps_pattern(bytes@);
        }
        Ok(StationId { bytes: up })
    }

    /// The canonical bytes, for callers that write the callsign to the
    /// wire.
    pub fn as_bytes(&self) -> (r: &Vec<u8>)
        ensures
            r@ == self@,
    {
        &self.bytes
    }
}

/// Upper-casing keeps the callsign shape: letters stay letters and
/// digits stay digits.
pub proof fn lemma_upper_keeps_pattern(s: Seq<u8>)
    requires
        station_pattern(s),
    ensures
        station_pattern(upper_seq(s)),
        forall|k: int| 0 <= k < upper_seq(s).len() ==> !is_lower_byte(#[trigger] upper_seq(s)[k]),
{
    let (i, j) = choose|i: int, j: int| station_witness(s, i, j);
    assert(station_witness(upper_seq(s), i, j)) by {
        assert(upper_seq(s)[i] == upper_byte(s[i]));
        assert(upper_seq(s)[j] == upper_byte(s[j]));
        assert forall|k: int| i < k < j implies is_digit_byte(#[trigger] upper_seq(s)[k]) by {
            assert(upper_seq(s)[k] == upper_byte(s[k]));
            assert(is_digit_byte(s[k]));
        }
    }
}

/// Decide `station_pattern` by scanning for a letter, a digit run, and a
/// closing letter.
pub fn has_station_pattern(bytes: &Vec<u8>) -> (r: bool)
    ensures
        r == station_pattern(bytes@),
{
    let ghost s = bytes@;
    let n = bytes.len();
    let mut p: usize = 0;
    while p < n
        invariant
            p <= n,
            n == s.len(),
            s == bytes@,
            forall|i: int, j: int| i < p ==> !station_witness(s, i, j),
        decreases n - p,
    {
        let b = bytes[p];
        if (0x41 <= b && b <= 0x5a) || (0x61 <= b && b <= 0x7a) {
            let mut q: usize = p + 1;
            while q < n && 0x30 <= bytes[q] && bytes[q] <= 0x39
                invariant
                    p < q <= n,
                    n == s.len(),
                    s == bytes@,
                    forall|k: int| p < k < q ==> is_digit_byte(#[trigger] s[k]),
                decreases n - q,
            {
                q = q + 1;
            }
            if q > p + 1 && q < n {
                let c = bytes[q];
                if (0x41 <= c && c <= 0x5a) || (0x61 <= c && c <= 0x7a) {
                    assert(station_witness(s, p as int, q as int));
                    return true;
                }
            }
            proof {
                assert forall|j: int| !station_witness(s, p as int, j) by {
                    if station_witness(s, p as int, j) {
                        // j is a letter, hence not a digit, so the digit
                        // scan stopped at or before j; and it cannot have
                        // stopped strictly before j, since everything
                        // strictly between p and j is a digit
                        assert(!is_digit_byte(s[j]));
                        if j < q {
                            assert(is_digit_byte(s[j]));
                        }
                        if (q as int) < j {
                            assert(is_digit_byte(s[q as int]));
                        }
                        assert(j == q as int);
                    }
                }
            }
        } else {
            proof {
                assert forall|j: int| !station_witness(s, p as int, j) by {
                    if station_witness(s, p as int, j) {
                        assert(is_alpha_byte(s[p as int]));
                    }
                }
            }
        }
        p = p + 1;
    }
    proof {
        if station_pattern(s) {
            let (i, j) = choose|i: int, j: int| station_witness(s, i, j);
            assert(i < n);
        }
    }
    false
}

/// Byte-wise equality of two buffers.
pub fn bytes_eq(a: &Vec<u8>, b: &Vec<u8>) -> (r: bool)
    ensures
        r == (a@ == b@),
{
    if a.len() != b.len() {
        proof {
            assert(a@ != b@);
        }
        return false;
    }
    let mut k: usize = 0;
    while k < a.len()
        invariant
            k <= a@.len(),
            a@.len() == b@.len(),
            forall|q: int| 0 <= q < k ==> a@[q] == b@[q],
        decreases a@.len() - k,
    {
        if a[k] != b[k] {
            proof {
                assert(a@ != b@);
            }
            return false;
        }
        k = k + 1;
    }
    proof {
        assert(a@ =~= b@);
    }
    true
}

} // verus!
