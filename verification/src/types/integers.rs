//! Integer wrappers whose JSON form is a decimal string: `U128` is a
//! `u128` that serializes to `"123"` rather than a JSON number, and
//! likewise `U64`, `I128` and `I64`.  The wrapped value is the `.0` field.

use vstd::prelude::*;

verus! {

use vstd::string::StringSliceAdditionalSpecFns;

/// The ASCII decimal spelling of `n`, most significant digit first.
pub open spec fn spec_dec_bytes(n: nat) -> Seq<u8>
    decreases n,
{
    if n < 10 {
        seq![(48 + n) as u8]
    } else {
        spec_dec_bytes(n / 10).push((48 + n % 10) as u8)
    }
}

/// Whether `b` is an ASCII decimal digit.
pub open spec fn is_dec_digit(b: u8) -> bool {
    48 <= b <= 57
}

/// The value of an ASCII digit string (leading zeros allowed).
pub open spec fn spec_dec_val(s: Seq<u8>) -> nat
    decreases s.len(),
{
    if s.len() == 0 {
        0
    } else {
        spec_dec_val(s.drop_last()) * 10 + (s.last() - 48) as nat
    }
}

/// The JSON text of the unsigned number `n`: its decimal spelling between
/// double quotes.
pub open spec fn spec_json_unsigned(n: nat) -> Seq<u8> {
    seq![34u8] + spec_dec_bytes(n) + seq![34u8]
}

/// The JSON text of the integer `v`: its decimal spelling, a leading minus
/// sign when negative, between double quotes.
pub open spec fn spec_json_signed(v: int) -> Seq<u8> {
    if v < 0 {
        seq![34u8] + seq![45u8] + spec_dec_bytes((-v) as nat) + seq![34u8]
    } else {
        seq![34u8] + spec_dec_bytes(v as nat) + seq![34u8]
    }
}

/// The unsigned number a JSON decimal-string text denotes: some digits
/// between double quotes.  Absent when the text has any other shape.
pub open spec fn spec_parse_json_unsigned(b: Seq<u8>) -> Option<nat> {
    if b.len() >= 3 && b[0] == 34 && b.last() == 34 && (forall|i: int|
        1 <= i < b.len() - 1 ==> is_dec_digit(#[trigger] b[i])) {
        Some(spec_dec_val(b.subrange(1, b.len() - 1)))
    } else {
        None
    }
}

/// The integer a JSON decimal-string text denotes: digits with an optional
/// leading minus sign, between double quotes.
pub open spec fn spec_parse_json_signed(b: Seq<u8>) -> Option<int> {
    if b.len() >= 4 && b[0] == 34 && b[1] == 45 {
        match spec_parse_json_unsigned(b.remove(1)) {
            Some(n) => Some(-(n as int)),
            None => None,
        }
    } else {
        match spec_parse_json_unsigned(b) {
            Some(n) => Some(n as int),
            None => None,
        }
    }
}

/// Every byte of a decimal spelling is an ASCII digit.
proof fn lemma_dec_bytes_digits(n: nat)
    ensures
        spec_dec_bytes(n).len() >= 1,
        forall|i: int|
            0 <= i < spec_dec_bytes(n).len() ==> is_dec_digit(#[trigger] spec_dec_bytes(n)[i]),
    decreases n,
{
    if n >= 10 {
        lemma_dec_bytes_digits(n / 10);
    }
}

/// A digit string is worth at least its every prefix.
proof fn lemma_dec_val_prefix(s: Seq<u8>, i: int)
    requires
        0 <= i <= s.len(),
    ensures
        spec_dec_val(s.take(i)) <= spec_dec_val(s),
    decreases s.len() - i,
{
    if i < s.len() {
        lemma_dec_val_prefix(s.drop_last(), i);
        assert(s.drop_last().take(i) =~= s.take(i));
        let v = spec_dec_val(s.drop_last());
        assert(v * 10 == v + 9 * v) by (nonlinear_arith);
    } else {
        assert(s.take(i) =~= s);
    }
}


/// Reading back the decimal spelling of `n` yields `n`.
proof fn lemma_dec_val_of_bytes(n: nat)
    ensures
        spec_dec_val(spec_dec_bytes(n)) == n,
    decreases n,
{
    if n < 10 {
        let s = spec_dec_bytes(n);
        assert(s.last() == (48 + n) as u8);
        assert(s.drop_last() =~= Seq::<u8>::empty());
        assert(spec_dec_val(s.drop_last()) == 0);
        assert(spec_dec_val(s) == 0 * 10 + ((48 + n) as u8 - 48) as nat);
    } else {
        lemma_dec_val_of_bytes(n / 10);
        let s = spec_dec_bytes(n / 10);
        let d = (48 + n % 10) as u8;
        assert(s.push(d).drop_last() =~= s);
        assert(s.push(d).last() == d);
        vstd::arithmetic::div_mod::lemma_fundamental_div_mod(n as int, 10);
    }
}

/// Law: printing an unsigned number as JSON and parsing the text yields
/// the number back.
pub proof fn lemma_json_unsigned_round_trip(n: nat)
    ensures
        spec_parse_json_unsigned(spec_json_unsigned(n)) == Some(n),
{
    lemma_dec_bytes_digits(n);
    lemma_dec_val_of_bytes(n);
    let b = spec_json_unsigned(n);
    assert(b.last() == 34);
    assert forall|i: int| 1 <= i < b.len() - 1 implies is_dec_digit(#[trigger] b[i]) by {
        assert(b[i] == spec_dec_bytes(n)[i - 1]);
    }
    assert(b.subrange(1, b.len() - 1) =~= spec_dec_bytes(n));
}

/// Law: printing an integer as JSON and parsing the text yields the
/// integer back.
pub proof fn lemma_json_signed_round_trip(v: int)
    ensures
        spec_parse_json_signed(spec_json_signed(v)) == Some(v),
{
    if v < 0 {
        let n = (-v) as nat;
        lemma_dec_bytes_digits(n);
        lemma_dec_val_of_bytes(n);
        let b = spec_json_signed(v);
        assert(b[0] == 34);
        assert(b[1] == 45);
        assert(b.len() >= 4);
        let shorn = b.remove(1);
        assert(shorn =~= spec_json_unsigned(n));
        lemma_json_unsigned_round_trip(n);
    } else {
        let b = spec_json_signed(v);
        assert(b =~= spec_json_unsigned(v as nat));
        lemma_json_unsigned_round_trip(v as nat);
        if b.len() >= 4 && b[0] == 34 && b[1] == 45 {
            lemma_dec_bytes_digits(v as nat);
            assert(b[1] == spec_dec_bytes(v as nat)[0]);
            assert(is_dec_digit(45u8) == false);
        }
    }
}

/// The ASCII decimal digits of `x`, most significant first.
fn u128_to_dec_bytes(x: u128) -> (r: Vec<u8>)
    ensures
        r@ == spec_dec_bytes(x as nat),
{
    let mut out: Vec<u8> = Vec::new();
    if x == 0 {
        out.push(48);
        proof {
            assert(out@ =~= spec_dec_bytes(0));
        }
        return out;
    }
    let mut n: u128 = x;
    while n > 0
        invariant
            n > 0 ==> spec_dec_bytes(x as nat) == spec_dec_bytes(n as nat) + out@,
            n == 0 ==> spec_dec_bytes(x as nat) == out@,
        decreases n,
    {
        let ghost out_prev = out@;
        let d: u8 = (n % 10) as u8 + 48;
        out.insert(0, d);
        proof {
            let m = n as nat;
            assert(out@ =~= seq![d] + out_prev);
            if m >= 10 {
                assert(spec_dec_bytes(m) == spec_dec_bytes(m / 10).push((48 + m % 10) as u8));
                assert(spec_dec_bytes(m) =~= spec_dec_bytes(m / 10) + seq![d]);
                assert(spec_dec_bytes(m / 10) + seq![d] + out_prev =~= spec_dec_bytes(m / 10) + (
                seq![d] + out_prev));
            } else {
                assert(spec_dec_bytes(m) =~= seq![d]);
                assert(seq![d] + out_prev =~= out@);
            }
            assert(n / 10 < n) by (nonlinear_arith)
                requires n >= 1;
        }
        n = n / 10;
    }
    out
}

/// Relies on `String::from_utf8`: ASCII bytes are valid UTF-8 and decode
/// to the same characters, so the call cannot fail.
#[verifier::external_body]
fn ascii_string(b: Vec<u8>) -> (r: String)
    requires
        forall|i: int| 0 <= i < b@.len() ==> b@[i] < 128,
    ensures
        r@ == b@.map_values(|x: u8| x as char),
{
    String::from_utf8(b).unwrap()
}

/// The JSON text of `x` as a string: its decimal spelling between double
/// quotes.
fn unsigned_to_json(x: u128) -> (r: String)
    ensures
        r@ == spec_json_unsigned(x as nat).map_values(|b: u8| b as char),
{
    let digits = u128_to_dec_bytes(x);
    let mut out: Vec<u8> = Vec::new();
    out.push(34);
    out.extend_from_slice(digits.as_slice());
    out.push(34);
    proof {
        lemma_dec_bytes_digits(x as nat);
        assert(out@ =~= spec_json_unsigned(x as nat));
    }
    ascii_string(out)
}

/// The JSON text of `x` as a string: its decimal spelling, with a leading
/// minus sign when negative, between double quotes.
fn signed_to_json(x: i128) -> (r: String)
    ensures
        r@ == spec_json_signed(x as int).map_values(|b: u8| b as char),
{
    if x >= 0 {
        let r = unsigned_to_json(x as u128);
        proof {
            assert(spec_json_signed(x as int) == spec_json_unsigned((x as u128) as nat));
        }
        r
    } else {
        let almost_magnitude: i128 = -(x + 1);
        let magnitude: u128 = (almost_magnitude as u128) + 1;
        proof {
            assert(magnitude as nat == (-(x as int)) as nat);
        }
        let digits = u128_to_dec_bytes(magnitude);
        let mut out: Vec<u8> = Vec::new();
        out.push(34);
        out.push(45);
        out.extend_from_slice(digits.as_slice());
        out.push(34);
        proof {
            lemma_dec_bytes_digits(magnitude as nat);
            assert(out@ =~= spec_json_signed(x as int));
        }
        ascii_string(out)
    }
}

/// Parse the decimal digits `b[start..end]`; `None` when the range is
/// empty, holds a non-digit, or denotes a value past `u128::MAX`.
fn parse_digits_u128(b: &[u8], start: usize, end: usize) -> (r: Option<u128>)
    requires
        start <= end <= b@.len(),
    ensures
        ({
            let digits = b@.subrange(start as int, end as int);
            &&& ((r is Some) <==> (digits.len() >= 1 && (forall|j: int|
                0 <= j < digits.len() ==> is_dec_digit(#[trigger] digits[j])) && spec_dec_val(
                digits,
            ) <= u128::MAX))
            &&& (r matches Some(v) ==> v == spec_dec_val(digits))
        }),
{
    let ghost digits = b@.subrange(start as int, end as int);
    if start == end {
        return None;
    }
    let mut acc: u128 = 0;
    let mut i: usize = start;
    while i < end
        invariant
            start <= i <= end <= b@.len(),
            start < end,
            digits == b@.subrange(start as int, end as int),
            forall|j: int| start <= j < i ==> is_dec_digit(#[trigger] b@[j]),
            acc == spec_dec_val(b@.subrange(start as int, i as int)),
        decreases end - i,
    {
        let d = b[i];
        if d < 48 || d > 57 {
            proof {
                assert(!is_dec_digit(digits[i - start]));
            }
            return None;
        }
        let dv = (d - 48) as u128;
        if acc > (u128::MAX - dv) / 10 {
            proof {
                let m = u128::MAX as int;
                assert(acc * 10 + dv > m) by (nonlinear_arith)
                    requires
                        acc > (m - dv) / 10,
                        0 <= dv <= 9,
                        acc >= 0,
                        m == 0xffffffffffffffffffffffffffffffff,
                ;
                assert(b@.subrange(start as int, i + 1 as int).drop_last() =~= b@.subrange(
                    start as int,
                    i as int,
                ));
                assert(b@.subrange(start as int, i + 1 as int).last() == b@[i as int]);
                assert(spec_dec_val(b@.subrange(start as int, i + 1 as int)) == acc * 10 + dv);
                lemma_dec_val_prefix(digits, i + 1 - start);
                assert(digits.take(i + 1 - start) =~= b@.subrange(start as int, i + 1 as int));
            }
            return None;
        }
        acc = acc * 10 + dv;
        proof {
            assert(b@.subrange(start as int, i + 1 as int).drop_last() =~= b@.subrange(
                start as int,
                i as int,
            ));
            assert(b@.subrange(start as int, i + 1 as int).last() == b@[i as int]);
        }
        i = i + 1;
    }
    proof {
        assert(digits =~= b@.subrange(start as int, end as int));
        assert forall|j: int| 0 <= j < digits.len() implies is_dec_digit(#[trigger] digits[j]) by {
            assert(digits[j] == b@[start + j]);
        }
    }
    Some(acc)
}

/// Parse a JSON decimal-string text as an unsigned number; `None` when the
/// text has any other shape or the value exceeds `u128::MAX`.
fn parse_json_unsigned(s: &str) -> (r: Option<u128>)
    ensures
        ({
            let b = s.spec_bytes();
            match spec_parse_json_unsigned(b) {
                Some(n) => r == (if n <= u128::MAX {
                    Some(n as u128)
                } else {
                    None::<u128>
                }),
                None => r is None,
            }
        }),
{
    let b = s.as_bytes();
    let n: usize = b.len();
    if n < 3 {
        return None;
    }
    if b[0] != 34 || b[n - 1] != 34 {
        return None;
    }
    let r = parse_digits_u128(b, 1, n - 1);
    proof {
        let bs = s.spec_bytes();
        let digits = bs.subrange(1, n - 1 as int);
        if spec_parse_json_unsigned(bs) is Some {
            assert(bs.subrange(1, bs.len() - 1) =~= digits);
            assert forall|j: int| 0 <= j < digits.len() implies is_dec_digit(
                #[trigger] digits[j],
            ) by {
                assert(digits[j] == bs[1 + j]);
            }
        } else {
            if digits.len() >= 1 && (forall|j: int|
                0 <= j < digits.len() ==> is_dec_digit(#[trigger] digits[j])) {
                assert forall|j: int| 1 <= j < bs.len() - 1 implies is_dec_digit(
                    #[trigger] bs[j],
                ) by {
                    assert(bs[j] == digits[j - 1]);
                }
            }
        }
    }
    r
}

/// Parse a JSON decimal-string text as a signed number; `None` when the
/// text has any other shape or the value falls outside `i128`.
fn parse_json_signed(s: &str) -> (r: Option<i128>)
    ensures
        ({
            let b = s.spec_bytes();
            match spec_parse_json_signed(b) {
                Some(v) => r == (if i128::MIN as int <= v <= i128::MAX as int {
                    Some(v as i128)
                } else {
                    None::<i128>
                }),
                None => r is None,
            }
        }),
{
    let b = s.as_bytes();
    let n: usize = b.len();
    if n >= 4 && b[0] == 34 && b[1] == 45 {
        if b[n - 1] != 34 {
            proof {
                let bs = s.spec_bytes();
                assert(bs.remove(1).last() == bs.last());
            }
            return None;
        }
        let mag = parse_digits_u128(b, 2, n - 1);
        proof {
            let bs = s.spec_bytes();
            let shorn = bs.remove(1);
            let digits = bs.subrange(2, n - 1 as int);
            assert(shorn.len() == bs.len() - 1);
            assert(shorn[0] == bs[0]);
            assert(shorn.last() == bs.last());
            assert(shorn.subrange(1, shorn.len() - 1) =~= digits);
            if spec_parse_json_unsigned(shorn) is Some {
                assert forall|j: int| 0 <= j < digits.len() implies is_dec_digit(
                    #[trigger] digits[j],
                ) by {
                    assert(digits[j] == shorn[1 + j]);
                }
            } else {
                if digits.len() >= 1 && (forall|j: int|
                    0 <= j < digits.len() ==> is_dec_digit(#[trigger] digits[j])) {
                    assert forall|j: int| 1 <= j < shorn.len() - 1 implies is_dec_digit(
                        #[trigger] shorn[j],
                    ) by {
                        assert(shorn[j] == digits[j - 1]);
                    }
                }
            }
        }
        match mag {
            Some(m) => {
                let limit: u128 = (i128::MAX as u128) + 1;
                if m > limit {
                    return None;
                }
                if m == limit {
                    Some(i128::MIN)
                } else {
                    Some(-(m as i128))
                }
            },
            None => None,
        }
    } else {
        let unsigned = parse_json_unsigned(s);
        proof {
            let bs = s.spec_bytes();
            if bs.len() >= 4 && bs[0] == 34 && bs[1] == 45 {
                assert(false);
            }
        }
        match unsigned {
            Some(m) => {
                if m <= i128::MAX as u128 {
                    Some(m as i128)
                } else {
                    None
                }
            },
            None => None,
        }
    }
}

/// A `u128` that serializes to JSON as a decimal string.  The wrapped
/// value is the `.0` field.
#[derive(Debug, Clone, Copy, PartialEq, Eq, PartialOrd, Ord, Default)]
pub struct U128(pub u128);

impl U128 {
    /// The JSON text of this value: its decimal spelling in quotes.
    pub fn to_json(&self) -> (r: String)
        ensures
            r@ == spec_json_unsigned(self.0 as nat).map_values(|b: u8| b as char),
    {
        unsigned_to_json(self.0)
    }

    /// Parse the JSON text of a value: a decimal string within `u128`
    /// range; anything else is refused.
    pub fn from_json(s: &str) -> (r: Option<U128>)
        ensures
            ({
                let b = s.spec_bytes();
                match spec_parse_json_unsigned(b) {
                    Some(n) => r == (if n <= u128::MAX {
                        Some(U128(n as u128))
                    } else {
                        None::<U128>
                    }),
                    None => r is None,
                }
            }),
    {
        match parse_json_unsigned(s) {
            Some(v) => Some(U128(v)),
            None => None,
        }
    }
}

impl From<u128> for U128 {
    fn from(v: u128) -> (r: U128) {
        U128(v)
    }
}

impl vstd::std_specs::convert::FromSpecImpl<u128> for U128 {
    open spec fn obeys_from_spec() -> bool {
        true
    }

    open spec fn from_spec(v: u128) -> U128 {
        U128(v)
    }
}

impl From<U128> for u128 {
    fn from(v: U128) -> (r: u128) {
        v.0
    }
}

impl vstd::std_specs::convert::FromSpecImpl<U128> for u128 {
    open spec fn obeys_from_spec() -> bool {
        true
    }

    open spec fn from_spec(v: U128) -> u128 {
        v.0
    }
}

/// A `u64` that serializes to JSON as a decimal string.  The wrapped
/// value is the `.0` field.
#[derive(Debug, Clone, Copy, PartialEq, Eq, PartialOrd, Ord, Default)]
pub struct U64(pub u64);

impl U64 {
    /// The JSON text of this value: its decimal spelling in quotes.
    pub fn to_json(&self) -> (r: String)
        ensures
            r@ == spec_json_unsigned(self.0 as nat).map_values(|b: u8| b as char),
    {
        unsigned_to_json(self.0 as u128)
    }

    /// Parse the JSON text of a value: a decimal string within `u64`
    /// range; anything else is refused.
    pub fn from_json(s: &str) -> (r: Option<U64>)
        ensures
            ({
                let b = s.spec_bytes();
                match spec_parse_json_unsigned(b) {
                    Some(n) => r == (if n <= u64::MAX {
                        Some(U64(n as u64))
                    } else {
                        None::<U64>
                    }),
                    None => r is None,
                }
            }),
    {
        match parse_json_unsigned(s) {
            Some(v) => {
                if v <= u64::MAX as u128 {
                    Some(U64(v as u64))
                } else {
                    None
                }
            },
            None => None,
        }
    }
}

impl From<u64> for U64 {
    fn from(v: u64) -> (r: U64) {
        U64(v)
    }
}

impl vstd::std_specs::convert::FromSpecImpl<u64> for U64 {
    open spec fn obeys_from_spec() -> bool {
        true
    }

    open spec fn from_spec(v: u64) -> U64 {
        U64(v)
    }
}

impl From<U64> for u64 {
    fn from(v: U64) -> (r: u64) {
        v.0
    }
}

impl vstd::std_specs::convert::FromSpecImpl<U64> for u64 {
    open spec fn obeys_from_spec() -> bool {
        true
    }

    open spec fn from_spec(v: U64) -> u64 {
        v.0
    }
}

/// An `i128` that serializes to JSON as a decimal string.  The wrapped
/// value is the `.0` field.
#[derive(Debug, Clone, Copy, PartialEq, Eq, PartialOrd, Ord, Default)]
pub struct I128(pub i128);

impl I128 {
    /// The JSON text of this value: its decimal spelling, signed, in
    /// quotes.
    pub fn to_json(&self) -> (r: String)
        ensures
            r@ == spec_json_signed(self.0 as int).map_values(|b: u8| b as char),
    {
        signed_to_json(self.0)
    }

    /// Parse the JSON text of a value: a signed decimal string within
    /// `i128` range; anything else is refused.
    pub fn from_json(s: &str) -> (r: Option<I128>)
        ensures
            ({
                let b = s.spec_bytes();
                match spec_parse_json_signed(b) {
                    Some(v) => r == (if i128::MIN as int <= v <= i128::MAX as int {
                        Some(I128(v as i128))
                    } else {
                        None::<I128>
                    }),
                    None => r is None,
                }
            }),
    {
        match parse_json_signed(s) {
            Some(v) => Some(I128(v)),
            None => None,
        }
    }
}

impl From<i128> for I128 {
    fn from(v: i128) -> (r: I128) {
        I128(v)
    }
}

impl vstd::std_specs::convert::FromSpecImpl<i128> for I128 {
    open spec fn obeys_from_spec() -> bool {
        true
    }

    open spec fn from_spec(v: i128) -> I128 {
        I128(v)
    }
}

impl From<I128> for i128 {
    fn from(v: I128) -> (r: i128) {
        v.0
    }
}

impl vstd::std_specs::convert::FromSpecImpl<I128> for i128 {
    open spec fn obeys_from_spec() -> bool {
        true
    }

    open spec fn from_spec(v: I128) -> i128 {
        v.0
    }
}

/// An `i64` that serializes to JSON as a decimal string.  The wrapped
/// value is the `.0` field.
#[derive(Debug, Clone, Copy, PartialEq, Eq, PartialOrd, Ord, Default)]
pub struct I64(pub i64);

impl I64 {
    /// The JSON text of this value: its decimal spelling, signed, in
    /// quotes.
    pub fn to_json(&self) -> (r: String)
        ensures
            r@ == spec_json_signed(self.0 as int).map_values(|b: u8| b as char),
    {
        signed_to_json(self.0 as i128)
    }

    /// Parse the JSON text of a value: a signed decimal string within
    /// `i64` range; anything else is refused.
    pub fn from_json(s: &str) -> (r: Option<I64>)
        ensures
            ({
                let b = s.spec_bytes();
                match spec_parse_json_signed(b) {
                    Some(v) => r == (if i64::MIN as int <= v <= i64::MAX as int {
                        Some(I64(v as i64))
                    } else {
                        None::<I64>
                    }),
                    None => r is None,
                }
            }),
    {
        match parse_json_signed(s) {
            Some(v) => {
                if i64::MIN as i128 <= v && v <= i64::MAX as i128 {
                    Some(I64(v as i64))
                } else {
                    None
                }
            },
            None => None,
        }
    }
}

impl From<i64> for I64 {
    fn from(v: i64) -> (r: I64) {
        I64(v)
    }
}

impl vstd::std_specs::convert::FromSpecImpl<i64> for I64 {
    open spec fn obeys_from_spec() -> bool {
        true
    }

    open spec fn from_spec(v: i64) -> I64 {
        I64(v)
    }
}

impl From<I64> for i64 {
    fn from(v: I64) -> (r: i64) {
        v.0
    }
}

impl vstd::std_specs::convert::FromSpecImpl<I64> for i64 {
    open spec fn obeys_from_spec() -> bool {
        true
    }

    open spec fn from_spec(v: I64) -> i64 {
        v.0
    }
}

} // verus!
