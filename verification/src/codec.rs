//! The canonical byte encoding that every logical key and every stored value
//! must provide.
//!
//! A physical storage key is `prefix ++ encoding(logical key)`, so the
//! encoding must be injective: distinct values must never share an encoding.
//! Each implementation carries that obligation as a proof.  The executable
//! encoders delegate to the `borsh` serializer so that the bytes written to
//! the store are exactly borsh's canonical little-endian format.

use vstd::prelude::*;

verus! {

use vstd::bytes::{spec_u32_to_le_bytes, spec_u32_from_le_bytes, lemma_auto_spec_u32_to_from_le_bytes};
use vstd::bytes::{spec_u64_to_le_bytes, spec_u64_from_le_bytes, lemma_auto_spec_u64_to_from_le_bytes};
use vstd::bytes::{spec_u128_to_le_bytes, spec_u128_from_le_bytes, lemma_auto_spec_u128_to_from_le_bytes};

/// A value that can live in a persistent collection: it has a canonical,
/// injective byte encoding, and enough executable structure (equality,
/// cloning, encoding, decoding) for the cache to manage it.
pub trait Storable: Sized {
    /// The canonical byte encoding of this value.
    spec fn encoded(&self) -> Seq<u8>;

    /// The encoding is injective: values with equal encodings are equal.
    proof fn lemma_encoded_injective(&self, other: &Self)
        ensures
            self.encoded() == other.encoded() ==> *self == *other,
    ;

    /// Produce the canonical encoding.
    fn to_bytes(&self) -> (r: Vec<u8>)
        ensures
            r@ == self.encoded(),
    ;

    /// Decode a value from bytes; `None` when no value has this encoding.
    fn from_bytes(b: &[u8]) -> (r: Option<Self>)
        ensures
            (r matches Some(v) ==> v.encoded() == b@),
            (r is None ==> forall|v: Self| v.encoded() != b@),
    ;

    /// Executable equality agreeing with logical equality.
    fn eq_val(&self, other: &Self) -> (r: bool)
        ensures
            r == (*self == *other),
    ;

    /// Executable duplication of the value.
    fn clone_val(&self) -> (r: Self)
        ensures
            r == *self,
    ;
}

/// Relies on borsh's `BorshSerialize for u32`: it writes `to_le_bytes`,
/// and writing to a `Vec` cannot fail.
#[verifier::external_body]
fn borsh_u32_to_vec(x: u32) -> (r: Vec<u8>)
    ensures
        r@ == spec_u32_to_le_bytes(x),
{
    borsh::BorshSerialize::try_to_vec(&x).unwrap()
}

/// Relies on borsh's `try_from_slice for u32`: it reads exactly 4
/// little-endian bytes and rejects a slice of any other length.
#[verifier::external_body]
fn borsh_u32_from_slice(b: &[u8]) -> (r: Option<u32>)
    ensures
        r == (if b@.len() == 4 {
            Some(spec_u32_from_le_bytes(b@))
        } else {
            None::<u32>
        }),
{
    <u32 as borsh::BorshDeserialize>::try_from_slice(b).ok()
}

impl Storable for u32 {
    open spec fn encoded(&self) -> Seq<u8> {
        spec_u32_to_le_bytes(*self)
    }

    proof fn lemma_encoded_injective(&self, other: &Self) {
        lemma_auto_spec_u32_to_from_le_bytes();
        if self.encoded() == other.encoded() {
            assert(spec_u32_to_le_bytes(*self).len() == 4);
            assert(spec_u32_to_le_bytes(*other).len() == 4);
            assert(spec_u32_from_le_bytes(spec_u32_to_le_bytes(*self)) == *self);
            assert(spec_u32_from_le_bytes(spec_u32_to_le_bytes(*other)) == *other);
        }
    }

    fn to_bytes(&self) -> (r: Vec<u8>) {
        borsh_u32_to_vec(*self)
    }

    fn from_bytes(b: &[u8]) -> (r: Option<Self>) {
        let r = borsh_u32_from_slice(b);
        proof {
            lemma_auto_spec_u32_to_from_le_bytes();
        }
        r
    }

    fn eq_val(&self, other: &Self) -> (r: bool) {
        *self == *other
    }

    fn clone_val(&self) -> (r: Self) {
        *self
    }
}

/// The canonical encoding of an `i32`: its two's-complement bytes,
/// little-endian.
pub open spec fn spec_i32_to_le_bytes(x: i32) -> Seq<u8> {
    spec_u32_to_le_bytes(x as u32)
}

/// Relies on borsh's `BorshSerialize for i32`: it writes `to_le_bytes`
/// (the two's-complement little-endian bytes), and writing to a `Vec`
/// cannot fail.
#[verifier::external_body]
fn borsh_i32_to_vec(x: i32) -> (r: Vec<u8>)
    ensures
        r@ == spec_i32_to_le_bytes(x),
{
    borsh::BorshSerialize::try_to_vec(&x).unwrap()
}

/// Relies on borsh's `try_from_slice for i32`: it reads exactly 4
/// little-endian two's-complement bytes and rejects a slice of any other
/// length.
#[verifier::external_body]
fn borsh_i32_from_slice(b: &[u8]) -> (r: Option<i32>)
    ensures
        r == (if b@.len() == 4 {
            Some(spec_u32_from_le_bytes(b@) as i32)
        } else {
            None::<i32>
        }),
{
    <i32 as borsh::BorshDeserialize>::try_from_slice(b).ok()
}

impl Storable for i32 {
    open spec fn encoded(&self) -> Seq<u8> {
        spec_i32_to_le_bytes(*self)
    }

    proof fn lemma_encoded_injective(&self, other: &Self) {
        lemma_auto_spec_u32_to_from_le_bytes();
        if self.encoded() == other.encoded() {
            assert(spec_u32_to_le_bytes(*self as u32).len() == 4);
            assert(spec_u32_to_le_bytes(*other as u32).len() == 4);
            assert(spec_u32_from_le_bytes(spec_u32_to_le_bytes(*self as u32)) == *self as u32);
            assert(spec_u32_from_le_bytes(spec_u32_to_le_bytes(*other as u32)) == *other as u32);
            let a = *self;
            let b = *other;
            assert(a as u32 == b as u32 ==> a == b) by (bit_vector);
        }
    }

    fn to_bytes(&self) -> (r: Vec<u8>) {
        borsh_i32_to_vec(*self)
    }

    fn from_bytes(b: &[u8]) -> (r: Option<Self>) {
        let r = borsh_i32_from_slice(b);
        proof {
            lemma_auto_spec_u32_to_from_le_bytes();
            if b@.len() == 4 {
                let u = spec_u32_from_le_bytes(b@);
                let v = u as i32;
                assert(spec_u32_to_le_bytes(v as u32).len() == 4);
                assert(v as u32 == u) by (bit_vector)
                    requires v == u as i32;
                assert(spec_u32_to_le_bytes(u) == b@);
            } else {
                assert forall|v: i32| v.encoded() != b@ by {
                    assert(spec_u32_to_le_bytes(v as u32).len() == 4);
                }
            }
        }
        r
    }

    fn eq_val(&self, other: &Self) -> (r: bool) {
        *self == *other
    }

    fn clone_val(&self) -> (r: Self) {
        *self
    }
}

/// Relies on borsh's `BorshSerialize for u64`: it writes `to_le_bytes`,
/// and writing to a `Vec` cannot fail.
#[verifier::external_body]
fn borsh_u64_to_vec(x: u64) -> (r: Vec<u8>)
    ensures
        r@ == spec_u64_to_le_bytes(x),
{
    borsh::BorshSerialize::try_to_vec(&x).unwrap()
}

/// Relies on borsh's `try_from_slice for u64`: it reads exactly 8
/// little-endian bytes and rejects a slice of any other length.
#[verifier::external_body]
fn borsh_u64_from_slice(b: &[u8]) -> (r: Option<u64>)
    ensures
        r == (if b@.len() == 8 {
            Some(spec_u64_from_le_bytes(b@))
        } else {
            None::<u64>
        }),
{
    <u64 as borsh::BorshDeserialize>::try_from_slice(b).ok()
}

impl Storable for u64 {
    open spec fn encoded(&self) -> Seq<u8> {
        spec_u64_to_le_bytes(*self)
    }

    proof fn lemma_encoded_injective(&self, other: &Self) {
        lemma_auto_spec_u64_to_from_le_bytes();
        if self.encoded() == other.encoded() {
            assert(spec_u64_to_le_bytes(*self).len() == 8);
            assert(spec_u64_to_le_bytes(*other).len() == 8);
            assert(spec_u64_from_le_bytes(spec_u64_to_le_bytes(*self)) == *self);
            assert(spec_u64_from_le_bytes(spec_u64_to_le_bytes(*other)) == *other);
        }
    }

    fn to_bytes(&self) -> (r: Vec<u8>) {
        borsh_u64_to_vec(*self)
    }

    fn from_bytes(b: &[u8]) -> (r: Option<Self>) {
        let r = borsh_u64_from_slice(b);
        proof {
            lemma_auto_spec_u64_to_from_le_bytes();
            if b@.len() != 8 {
                assert forall|v: u64| v.encoded() != b@ by {
                    assert(spec_u64_to_le_bytes(v).len() == 8);
                }
            }
        }
        r
    }

    fn eq_val(&self, other: &Self) -> (r: bool) {
        *self == *other
    }

    fn clone_val(&self) -> (r: Self) {
        *self
    }
}

/// The canonical encoding of an `i64`: its two's-complement bytes,
/// little-endian.
pub open spec fn spec_i64_to_le_bytes(x: i64) -> Seq<u8> {
    spec_u64_to_le_bytes(x as u64)
}

/// Relies on borsh's `BorshSerialize for i64`: it writes `to_le_bytes`
/// (the two's-complement little-endian bytes), and writing to a `Vec`
/// cannot fail.
#[verifier::external_body]
fn borsh_i64_to_vec(x: i64) -> (r: Vec<u8>)
    ensures
        r@ == spec_i64_to_le_bytes(x),
{
    borsh::BorshSerialize::try_to_vec(&x).unwrap()
}

/// Relies on borsh's `try_from_slice for i64`: it reads exactly 8
/// little-endian two's-complement bytes and rejects a slice of any other
/// length.
#[verifier::external_body]
fn borsh_i64_from_slice(b: &[u8]) -> (r: Option<i64>)
    ensures
        r == (if b@.len() == 8 {
            Some(spec_u64_from_le_bytes(b@) as i64)
        } else {
            None::<i64>
        }),
{
    <i64 as borsh::BorshDeserialize>::try_from_slice(b).ok()
}

impl Storable for i64 {
    open spec fn encoded(&self) -> Seq<u8> {
        spec_i64_to_le_bytes(*self)
    }

    proof fn lemma_encoded_injective(&self, other: &Self) {
        lemma_auto_spec_u64_to_from_le_bytes();
        if self.encoded() == other.encoded() {
            assert(spec_u64_to_le_bytes(*self as u64).len() == 8);
            assert(spec_u64_to_le_bytes(*other as u64).len() == 8);
            assert(spec_u64_from_le_bytes(spec_u64_to_le_bytes(*self as u64)) == *self as u64);
            assert(spec_u64_from_le_bytes(spec_u64_to_le_bytes(*other as u64)) == *other as u64);
            let a = *self;
            let b = *other;
            assert(a as u64 == b as u64 ==> a == b) by (bit_vector);
        }
    }

    fn to_bytes(&self) -> (r: Vec<u8>) {
        borsh_i64_to_vec(*self)
    }

    fn from_bytes(b: &[u8]) -> (r: Option<Self>) {
        let r = borsh_i64_from_slice(b);
        proof {
            lemma_auto_spec_u64_to_from_le_bytes();
            if b@.len() == 8 {
                let u = spec_u64_from_le_bytes(b@);
                let v = u as i64;
                assert(spec_u64_to_le_bytes(v as u64).len() == 8);
                assert(v as u64 == u) by (bit_vector)
                    requires v == u as i64;
                assert(spec_u64_to_le_bytes(u) == b@);
            } else {
                assert forall|v: i64| v.encoded() != b@ by {
                    assert(spec_u64_to_le_bytes(v as u64).len() == 8);
                }
            }
        }
        r
    }

    fn eq_val(&self, other: &Self) -> (r: bool) {
        *self == *other
    }

    fn clone_val(&self) -> (r: Self) {
        *self
    }
}

/// Relies on borsh's `BorshSerialize for ()`: it writes nothing.
#[verifier::external_body]
fn borsh_unit_to_vec() -> (r: Vec<u8>)
    ensures
        r@ == Seq::<u8>::empty(),
{
    borsh::BorshSerialize::try_to_vec(&()).unwrap()
}

/// Relies on borsh's `try_from_slice for ()`: it reads nothing and rejects
/// any non-empty slice.
#[verifier::external_body]
fn borsh_unit_from_slice(b: &[u8]) -> (r: Option<()>)
    ensures
        r == (if b@.len() == 0 {
            Some(())
        } else {
            None::<()>
        }),
{
    <() as borsh::BorshDeserialize>::try_from_slice(b).ok()
}

impl Storable for () {
    open spec fn encoded(&self) -> Seq<u8> {
        Seq::<u8>::empty()
    }

    proof fn lemma_encoded_injective(&self, other: &Self) {
    }

    fn to_bytes(&self) -> (r: Vec<u8>) {
        borsh_unit_to_vec()
    }

    fn from_bytes(b: &[u8]) -> (r: Option<Self>) {
        borsh_unit_from_slice(b)
    }

    fn eq_val(&self, other: &Self) -> (r: bool) {
        true
    }

    fn clone_val(&self) -> (r: Self) {
    }
}

/// Relies on borsh's `BorshSerialize for u128`: it writes `to_le_bytes`,
/// and writing to a `Vec` cannot fail.
#[verifier::external_body]
fn borsh_u128_to_vec(x: u128) -> (r: Vec<u8>)
    ensures
        r@ == spec_u128_to_le_bytes(x),
{
    borsh::BorshSerialize::try_to_vec(&x).unwrap()
}

/// Relies on borsh's `try_from_slice for u128`: it reads exactly 16
/// little-endian bytes and rejects a slice of any other length.
#[verifier::external_body]
fn borsh_u128_from_slice(b: &[u8]) -> (r: Option<u128>)
    ensures
        r == (if b@.len() == 16 {
            Some(spec_u128_from_le_bytes(b@))
        } else {
            None::<u128>
        }),
{
    <u128 as borsh::BorshDeserialize>::try_from_slice(b).ok()
}

impl Storable for u128 {
    open spec fn encoded(&self) -> Seq<u8> {
        spec_u128_to_le_bytes(*self)
    }

    proof fn lemma_encoded_injective(&self, other: &Self) {
        lemma_auto_spec_u128_to_from_le_bytes();
        if self.encoded() == other.encoded() {
            assert(spec_u128_to_le_bytes(*self).len() == 16);
            assert(spec_u128_to_le_bytes(*other).len() == 16);
            assert(spec_u128_from_le_bytes(spec_u128_to_le_bytes(*self)) == *self);
            assert(spec_u128_from_le_bytes(spec_u128_to_le_bytes(*other)) == *other);
        }
    }

    fn to_bytes(&self) -> (r: Vec<u8>) {
        borsh_u128_to_vec(*self)
    }

    fn from_bytes(b: &[u8]) -> (r: Option<Self>) {
        let r = borsh_u128_from_slice(b);
        proof {
            lemma_auto_spec_u128_to_from_le_bytes();
            if b@.len() != 16 {
                assert forall|v: u128| v.encoded() != b@ by {
                    assert(spec_u128_to_le_bytes(v).len() == 16);
                }
            }
        }
        r
    }

    fn eq_val(&self, other: &Self) -> (r: bool) {
        *self == *other
    }

    fn clone_val(&self) -> (r: Self) {
        *self
    }
}

/// The canonical encoding of an `i128`: its two's-complement bytes,
/// little-endian.
pub open spec fn spec_i128_to_le_bytes(x: i128) -> Seq<u8> {
    spec_u128_to_le_bytes(x as u128)
}

/// Relies on borsh's `BorshSerialize for i128`: it writes `to_le_bytes`
/// (the two's-complement little-endian bytes), and writing to a `Vec`
/// cannot fail.
#[verifier::external_body]
fn borsh_i128_to_vec(x: i128) -> (r: Vec<u8>)
    ensures
        r@ == spec_i128_to_le_bytes(x),
{
    borsh::BorshSerialize::try_to_vec(&x).unwrap()
}

/// Relies on borsh's `try_from_slice for i128`: it reads exactly 16
/// little-endian two's-complement bytes and rejects a slice of any other
/// length.
#[verifier::external_body]
fn borsh_i128_from_slice(b: &[u8]) -> (r: Option<i128>)
    ensures
        r == (if b@.len() == 16 {
            Some(spec_u128_from_le_bytes(b@) as i128)
        } else {
            None::<i128>
        }),
{
    <i128 as borsh::BorshDeserialize>::try_from_slice(b).ok()
}

impl Storable for i128 {
    open spec fn encoded(&self) -> Seq<u8> {
        spec_i128_to_le_bytes(*self)
    }

    proof fn lemma_encoded_injective(&self, other: &Self) {
        lemma_auto_spec_u128_to_from_le_bytes();
        if self.encoded() == other.encoded() {
            assert(spec_u128_to_le_bytes(*self as u128).len() == 16);
            assert(spec_u128_to_le_bytes(*other as u128).len() == 16);
            assert(spec_u128_from_le_bytes(spec_u128_to_le_bytes(*self as u128)) == *self as u128);
            assert(spec_u128_from_le_bytes(spec_u128_to_le_bytes(*other as u128)) == *other
                as u128);
            let a = *self;
            let b = *other;
            assert(a as u128 == b as u128 ==> a == b) by (bit_vector);
        }
    }

    fn to_bytes(&self) -> (r: Vec<u8>) {
        borsh_i128_to_vec(*self)
    }

    fn from_bytes(b: &[u8]) -> (r: Option<Self>) {
        let r = borsh_i128_from_slice(b);
        proof {
            lemma_auto_spec_u128_to_from_le_bytes();
            if b@.len() == 16 {
                let u = spec_u128_from_le_bytes(b@);
                let v = u as i128;
                assert(spec_u128_to_le_bytes(v as u128).len() == 16);
                assert(v as u128 == u) by (bit_vector)
                    requires v == u as i128;
                assert(spec_u128_to_le_bytes(u) == b@);
            } else {
                assert forall|v: i128| v.encoded() != b@ by {
                    assert(spec_u128_to_le_bytes(v as u128).len() == 16);
                }
            }
        }
        r
    }

    fn eq_val(&self, other: &Self) -> (r: bool) {
        *self == *other
    }

    fn clone_val(&self) -> (r: Self) {
        *self
    }
}

} // verus!
