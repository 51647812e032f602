//! The account address: a 20-byte array, readable as a hex string.

use vstd::prelude::*;

verus! {

use crate::codec::Storable;
use crate::storage::{bytes_to_vec, bytes_eq};

/// Balance is a type for storing token amounts.
pub type Balance = u128;

/// Gas.
pub type Gas = u64;

/// Number of a block.
pub type BlockNumber = u128;

/// Hash of a block.
pub type BlockHash = [u8; 32];

/// Unix timestamp.
pub type TimeStamp = u128;

/// Whether `c` is a hexadecimal digit, either case.
pub open spec fn is_hex_digit(c: char) -> bool {
    (48 <= c as u32 <= 57) || (97 <= c as u32 <= 102) || (65 <= c as u32 <= 70)
}

/// The value of hexadecimal digit `c`.
pub open spec fn hex_digit_value(c: char) -> u8 {
    if 48 <= c as u32 <= 57 {
        (c as u32 - 48) as u8
    } else if 97 <= c as u32 <= 102 {
        (c as u32 - 87) as u8
    } else {
        (c as u32 - 55) as u8
    }
}

/// Whether every character of `s` is a hexadecimal digit.
pub open spec fn all_hex_digits(s: Seq<char>) -> bool {
    forall|i: int| 0 <= i < s.len() ==> is_hex_digit(#[trigger] s[i])
}

/// The bytes denoted by an even-length string of hexadecimal digits.
pub open spec fn spec_hex_decode(s: Seq<char>) -> Seq<u8> {
    Seq::new(
        (s.len() / 2) as nat,
        |i: int| (hex_digit_value(s[2 * i]) * 16 + hex_digit_value(s[2 * i + 1])) as u8,
    )
}

/// The lowercase hexadecimal digit with value `n` (below 16).
pub open spec fn hex_char_of(n: u8) -> char {
    if n < 10 {
        ((48 + n) as u8) as char
    } else {
        ((87 + n) as u8) as char
    }
}

/// The lowercase hexadecimal spelling of `b`: two digits per byte.
pub open spec fn spec_hex_encode(b: Seq<u8>) -> Seq<char> {
    Seq::new(
        2 * b.len(),
        |i: int|
            if i % 2 == 0 {
                hex_char_of(b[i / 2] / 16)
            } else {
                hex_char_of(b[i / 2] % 16)
            },
    )
}

/// Relies on `hex::encode`: it spells each byte as two lowercase
/// hexadecimal digits, high nibble first.
#[verifier::external_body]
fn hex_encode(data: &[u8]) -> (r: String)
    ensures
        r@ == spec_hex_encode(data@),
{
    hex::encode(data)
}

/// Relies on `hex::decode`: it accepts exactly the even-length strings of
/// hexadecimal digits (either case) and returns the denoted bytes; an odd
/// length or any other character is an error.
#[verifier::external_body]
fn hex_decode(s: &str) -> (r: Option<Vec<u8>>)
    ensures
        (r is Some) <==> (s@.len() % 2 == 0 && all_hex_digits(s@)),
        (r matches Some(v) ==> v@ == spec_hex_decode(s@)),
{
    hex::decode(s).ok()
}

/// An account address: a 20-byte array, representable as a hex string.
/// Because addresses should be validated, build one through
/// [`Address::try_from_bytes`] or [`Address::try_from_str`].
#[derive(Debug, Hash, Clone, Copy, PartialEq, Eq, PartialOrd, Ord)]
pub struct Address([u8; 20]);

impl View for Address {
    type V = Seq<u8>;

    closed spec fn view(&self) -> Seq<u8> {
        self.0@
    }
}

impl Address {
    /// The lowercase hex string spelling of the address.
    pub fn to_string(&self) -> (r: String)
        ensures
            r@ == spec_hex_encode(self@),
    {
        hex_encode(self.0.as_slice())
    }

    /// The raw address bytes as an owned vector.
    pub fn to_vec(&self) -> (r: Vec<u8>)
        ensures
            r@ == self@,
    {
        bytes_to_vec(self.0.as_slice())
    }

    /// A reference to the inner 20-byte array.
    pub fn as_bytes(&self) -> (r: &[u8; 20])
        ensures
            r@ == self@,
    {
        &self.0
    }

    /// An address from exactly 20 raw bytes; any other length is refused.
    pub fn try_from_bytes(value: &[u8]) -> (r: Option<Address>)
        ensures
            (r is Some) <==> value@.len() == 20,
            (r matches Some(a) ==> a@ == value@),
    {
        if value.len() != 20 {
            return None;
        }
        let mut raw: [u8; 20] = [0; 20];
        let mut i: usize = 0;
        while i < 20
            invariant
                0 <= i <= 20,
                value@.len() == 20,
                forall|j: int| 0 <= j < i ==> raw@[j] == value@[j],
            decreases 20 - i,
        {
            raw[i] = value[i];
            i = i + 1;
        }
        proof {
            assert(raw@ =~= value@);
        }
        Some(Address(raw))
    }

    /// An address from a hex string of exactly 40 digits, with an optional
    /// `0x` prefix; anything else is refused.
    pub fn try_from_str(value: &str) -> (r: Option<Address>)
        ensures
            ({
                let digits = if value@.len() >= 2 && value@[0] == '0' && value@[1] == 'x' {
                    value@.skip(2)
                } else {
                    value@
                };
                &&& ((r is Some) <==> (digits.len() == 40 && all_hex_digits(digits)))
                &&& (r matches Some(a) ==> a@ == spec_hex_decode(digits))
            }),
    {
        let n = value.unicode_len();
        let stripped: &str = if n >= 2 && value.get_char(0) == '0' && value.get_char(1) == 'x' {
            value.substring_char(2, n)
        } else {
            value
        };
        match hex_decode(stripped) {
            Some(bytes) => {
                match Address::try_from_bytes(bytes.as_slice()) {
                    Some(a) => Some(a),
                    None => None,
                }
            },
            None => None,
        }
    }

    /// An address from a caller-validated 20-byte vector; meant for tests.
    pub fn test_create_address(address: &Vec<u8>) -> (r: Address)
        requires
            address@.len() == 20,
        ensures
            r@ == address@,
    {
        match Address::try_from_bytes(address.as_slice()) {
            Some(a) => a,
            None => {
                proof {
                    assert(false);
                }
                vstd::pervasive::unreached()
            },
        }
    }
}

impl From<[u8; 20]> for Address {
    fn from(address: [u8; 20]) -> (r: Address) {
        Address(address)
    }
}

impl vstd::std_specs::convert::FromSpecImpl<[u8; 20]> for Address {
    open spec fn obeys_from_spec() -> bool {
        true
    }

    closed spec fn from_spec(address: [u8; 20]) -> Address {
        Address(address)
    }
}

impl From<&[u8; 20]> for Address {
    fn from(address: &[u8; 20]) -> (r: Address) {
        Address(*address)
    }
}

impl vstd::std_specs::convert::FromSpecImpl<&[u8; 20]> for Address {
    open spec fn obeys_from_spec() -> bool {
        true
    }

    closed spec fn from_spec(address: &[u8; 20]) -> Address {
        Address(*address)
    }
}

/// An address always views as exactly its 20 bytes.
pub broadcast proof fn lemma_address_view_len(a: Address)
    ensures
        (#[trigger] a@).len() == 20,
{
    broadcast use vstd::array::group_array_axioms;

}

/// What conversion from a 20-byte array builds: the address over exactly
/// those bytes.
pub broadcast proof fn lemma_address_from_array(address: [u8; 20])
    ensures
        (#[trigger] <Address as vstd::std_specs::convert::FromSpec<[u8; 20]>>::from_spec(address))@
            == address@,
{
}

/// Relies on borsh's `BorshSerialize for [u8; N]`: a fixed-size byte array
/// is written as its raw bytes, with no length prefix.
#[verifier::external_body]
fn borsh_array20_to_vec(x: &[u8; 20]) -> (r: Vec<u8>)
    ensures
        r@ == x@,
{
    borsh::BorshSerialize::try_to_vec(x).unwrap()
}

/// Relies on borsh's `try_from_slice for [u8; N]`: it reads exactly `N`
/// raw bytes and rejects a slice of any other length.
#[verifier::external_body]
fn borsh_array20_from_slice(b: &[u8]) -> (r: Option<[u8; 20]>)
    ensures
        (r is Some) <==> b@.len() == 20,
        (r matches Some(a) ==> a@ == b@),
{
    <[u8; 20] as borsh::BorshDeserialize>::try_from_slice(b).ok()
}

impl Storable for Address {
    open spec fn encoded(&self) -> Seq<u8> {
        self@
    }

    proof fn lemma_encoded_injective(&self, other: &Self) {
        broadcast use vstd::array::group_array_axioms;

        if self.encoded() == other.encoded() {
            assert forall|i: int| 0 <= i < 20 implies self.0[i] == other.0[i] by {
                assert(self.0@[i] == other.0@[i]);
            }
            assert(self.0 =~= other.0);
        }
    }

    fn to_bytes(&self) -> (r: Vec<u8>) {
        borsh_array20_to_vec(&self.0)
    }

    fn from_bytes(b: &[u8]) -> (r: Option<Self>) {
        proof {
            broadcast use vstd::array::group_array_axioms;

            if b@.len() != 20 {
                assert forall|v: Address| v.encoded() != b@ by {
                    assert(v.0@.len() == 20);
                }
            }
        }
        match borsh_array20_from_slice(b) {
            Some(raw) => Some(Address(raw)),
            None => None,
        }
    }

    fn eq_val(&self, other: &Self) -> (r: bool) {
        let r = bytes_eq(self.0.as_slice(), other.0.as_slice());
        proof {
            broadcast use vstd::array::group_array_axioms;

            if self.0@ == other.0@ {
                assert forall|i: int| 0 <= i < 20 implies self.0[i] == other.0[i] by {
                    assert(self.0@[i] == other.0@[i]);
                }
                assert(self.0 =~= other.0);
            }
        }
        r
    }

    fn clone_val(&self) -> (r: Self) {
        *self
    }
}

} // verus!
