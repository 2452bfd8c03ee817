//! Natural numbers of any size, held as little-endian bytes in the one shortest
//! form, so that equal numbers have equal bytes.
use num_bigint::BigUint;
use vstd::prelude::*;

use crate::hash::mix_bytes;
use crate::hash::SEED;
use crate::table::Intern;

verus! {

/// The number that a sequence of little-endian bytes stands for.
pub open spec fn le_value(bytes: Seq<u8>) -> nat
    decreases bytes.len(),
{
    if bytes.len() == 0 {
        0
    } else {
        bytes[0] as nat + 256 * le_value(bytes.drop_first())
    }
}

/// The shortest form: zero is the single byte 0, and any other number ends in a
/// byte that is not 0.
pub open spec fn shortest(bytes: Seq<u8>) -> bool {
    bytes.len() > 0 && (bytes.len() == 1 || bytes.last() != 0)
}

/// Trusted: `BigUint::from(u64)` of num-bigint, written out by
/// `BigUint::to_bytes_le`. The bytes stand for the number that was given, in the
/// shortest form (`to_bytes_le` writes no leading zero byte, and `[0]` for zero).
#[verifier::external_body]
fn le_bytes_of_u64(x: u64) -> (bytes: Vec<u8>)
    ensures
        shortest(bytes@),
        le_value(bytes@) == x,
{
    BigUint::from(x).to_bytes_le()
}

/// Trusted: `BigUint::from_bytes_le` of num-bigint, written out by
/// `BigUint::to_bytes_le`. The bytes that come back stand for the number that the
/// given bytes stand for, in the shortest form.
#[verifier::external_body]
fn shortest_le_bytes(bytes: &[u8]) -> (short: Vec<u8>)
    ensures
        shortest(short@),
        le_value(short@) == le_value(bytes@),
{
    BigUint::from_bytes_le(bytes).to_bytes_le()
}

/// Trusted: `u64::try_from(BigUint)` of num-bigint. It succeeds exactly on the
/// numbers that fit in 64 bits, and keeps the number.
#[verifier::external_body]
fn le_bytes_to_u64(bytes: &[u8]) -> (r: Option<u64>)
    ensures
        match r {
            Some(x) => x == le_value(bytes@),
            None => le_value(bytes@) > u64::MAX,
        },
{
    u64::try_from(BigUint::from_bytes_le(bytes)).ok()
}

/// A natural number of any size.
#[derive(Debug)]
pub struct BigNat {
    bytes: Vec<u8>,
}

impl View for BigNat {
    type V = Seq<u8>;

    closed spec fn view(&self) -> Seq<u8> {
        self.bytes@
    }
}

impl BigNat {
    #[verifier::type_invariant]
    pub open spec fn inv(&self) -> bool {
        shortest(self@)
    }

    /// The number itself.
    pub open spec fn value(&self) -> nat {
        le_value(self@)
    }

    pub fn from_u64(x: u64) -> (n: BigNat)
        ensures
            n.value() == x,
            shortest(n@),
    {
        BigNat { bytes: le_bytes_of_u64(x) }
    }

    pub fn from_bytes_le(bytes: &[u8]) -> (n: BigNat)
        ensures
            n.value() == le_value(bytes@),
            shortest(n@),
    {
        BigNat { bytes: shortest_le_bytes(bytes) }
    }

    /// The number as a `u64`, if it fits.
    pub fn to_u64(&self) -> (r: Option<u64>)
        ensures
            match r {
                Some(x) => x == self.value(),
                None => self.value() > u64::MAX,
            },
    {
        le_bytes_to_u64(self.bytes.as_slice())
    }

    /// The little-endian bytes of the number, in the shortest form.
    pub fn as_bytes_le(&self) -> (bytes: &[u8])
        ensures
            bytes@ == self@,
            shortest(bytes@),
            le_value(bytes@) == self.value(),
    {
        proof {
            use_type_invariant(self);
        }
        self.bytes.as_slice()
    }
}

impl Intern for BigNat {
    open spec fn code(v: Seq<u8>) -> u64 {
        crate::hash::mixed_bytes(SEED, v)
    }

    fn hash_code(&self) -> (h: u64) {
        mix_bytes(SEED, self.bytes.as_slice())
    }

    fn same(&self, other: &Self) -> (b: bool) {
        same_bytes(self.bytes.as_slice(), other.bytes.as_slice())
    }
}

/// Whether two sequences of bytes are equal.
pub fn same_bytes(a: &[u8], b: &[u8]) -> (r: bool)
    ensures
        r == (a@ == b@),
{
    if a.len() != b.len() {
        return false;
    }
    let n: usize = a.len();
    let mut i: usize = 0;
    while i < n
        invariant
            n == a@.len(),
            n == b@.len(),
            i <= n,
            forall|k: int| 0 <= k < i ==> a@[k] == b@[k],
        decreases n - i,
    {
        if a[i] != b[i] {
            return false;
        }
        i = i + 1;
    }
    assert(a@ =~= b@);
    true
}

proof fn lemma_nonzero(a: Seq<u8>)
    requires
        a.len() > 0,
        a.last() != 0,
    ensures
        le_value(a) > 0,
    decreases a.len(),
{
    if a.len() > 1 {
        assert(a.drop_first().last() == a.last());
        lemma_nonzero(a.drop_first());
    }
}

/// Law: equal numbers have equal bytes, so two [`BigNat`] values with the same
/// number are the same value.
pub proof fn law_one_form(a: Seq<u8>, b: Seq<u8>)
    requires
        shortest(a),
        shortest(b),
        le_value(a) == le_value(b),
    ensures
        a == b,
    decreases a.len(),
{
    let (ta, tb) = (a.drop_first(), b.drop_first());
    assert(le_value(a) == a[0] + 256 * le_value(ta));
    assert(le_value(b) == b[0] + 256 * le_value(tb));
    if a.len() > 1 {
        assert(ta.last() == a.last());
        lemma_nonzero(ta);
    }
    if b.len() > 1 {
        assert(tb.last() == b.last());
        lemma_nonzero(tb);
    }
    if a.len() > 1 && b.len() > 1 {
        law_one_form(ta, tb);
    }
    assert(a =~= b) by {
        assert(a[0] == b[0]);
        if a.len() > 1 {
            assert(a.len() == b.len());
            assert forall|i: int| 0 <= i < a.len() implies a[i] == b[i] by {
                if i > 0 {
                    assert(a[i] == ta[i - 1]);
                    assert(b[i] == tb[i - 1]);
                }
            }
        }
    }
}

} // verus!
