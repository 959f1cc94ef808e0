//! Typed, fallible extraction of primitives from a value.
//!
//! A cast succeeds exactly when the stored variant matches the requested
//! type, and fails with a `ValueError` naming the mismatch otherwise.
//! Numeric casts truncate the stored number toward zero and clamp it to
//! the target type's range.

use vstd::prelude::*;
use crate::errors::JSONError;
use crate::json::{value_inv, JSONValue, SpecValue};
use crate::numtext::{clamp, num_trunc, trunc_number};

verus! {

/// A non-consuming conversion from a value to a primitive type.
pub trait Cast<T> {
    /// What must hold of the value before casting.
    spec fn cast_wf(&self) -> bool;

    /// Whether the cast succeeds.
    spec fn cast_ok(&self) -> bool;

    /// What a successful result is.
    spec fn cast_rel(&self, r: T) -> bool;

    /// Extract a `T` from the value.
    fn cast(&self) -> (r: Result<T, JSONError>)
        requires
            self.cast_wf(),
        ensures
            r is Ok <==> self.cast_ok(),
            r matches Ok(v) ==> self.cast_rel(v),
            r matches Err(e) ==> e is ValueError,
    ;
}

/// The truncated magnitude of a number value, or the variant mismatch
/// error for every other variant.
fn num_cast(v: &JSONValue) -> (r: Result<(bool, u128, bool), JSONError>)
    requires
        value_inv(*v),
    ensures
        r is Ok <==> v@ is Num,
        r matches Ok(t) ==> {
            let tv = num_trunc(v@->Num_0);
            &&& !t.2 ==> ((t.0 ==> tv == -(t.1 as int)) && (!t.0 ==> tv == t.1 as int))
            &&& t.2 ==> ((t.0 ==> tv < -(u128::MAX as int)) && (!t.0 ==> tv > u128::MAX as int))
        },
        r matches Err(e) ==> e is ValueError,
{
    match v {
        JSONValue::Number(text) => Ok(trunc_number(text.as_str())),
        _ => Err(v.wrong_variant("number")),
    }
}

/// Clamp a signed truncated value to an unsigned range.
fn clamp_unsigned(neg: bool, mag: u128, sat: bool, hi: u128, Ghost(v): Ghost<int>) -> (r: u128)
    requires
        !sat ==> ((neg ==> v == -(mag as int)) && (!neg ==> v == mag as int)),
        sat ==> ((neg ==> v < -(u128::MAX as int)) && (!neg ==> v > u128::MAX as int)),
    ensures
        r as int == clamp(v, 0, hi as int),
        r <= hi,
{
    if neg {
        0
    } else if sat || mag > hi {
        hi
    } else {
        mag
    }
}

/// Clamp a signed truncated value to a signed range.
fn clamp_signed(
    neg: bool,
    mag: u128,
    sat: bool,
    lo: i128,
    hi: i128,
    lo_mag: u128,
    Ghost(v): Ghost<int>,
) -> (r: i128)
    requires
        !sat ==> ((neg ==> v == -(mag as int)) && (!neg ==> v == mag as int)),
        sat ==> ((neg ==> v < -(u128::MAX as int)) && (!neg ==> v > u128::MAX as int)),
        lo < 0 <= hi,
        lo_mag as int == -(lo as int),
    ensures
        r as int == clamp(v, lo as int, hi as int),
        lo <= r <= hi,
{
    if !neg {
        if sat || mag > hi as u128 {
            hi
        } else {
            mag as i128
        }
    } else {
        if sat || mag >= lo_mag {
            lo
        } else {
            -(mag as i128)
        }
    }
}

impl Cast<bool> for JSONValue {
    open spec fn cast_wf(&self) -> bool {
        true
    }

    open spec fn cast_ok(&self) -> bool {
        self@ is Bool
    }

    open spec fn cast_rel(&self, r: bool) -> bool {
        self@ == SpecValue::Bool(r)
    }

    fn cast(&self) -> (r: Result<bool, JSONError>) {
        match self {
            JSONValue::Bool(b) => Ok(*b),
            _ => Err(self.wrong_variant("boolean")),
        }
    }
}

impl Cast<String> for JSONValue {
    open spec fn cast_wf(&self) -> bool {
        true
    }

    open spec fn cast_ok(&self) -> bool {
        self@ is Str
    }

    open spec fn cast_rel(&self, r: String) -> bool {
        self@ matches SpecValue::Str(s) && r@ == s
    }

    fn cast(&self) -> (r: Result<String, JSONError>) {
        match self {
            JSONValue::String(s) => Ok(String::from_str(s.as_str())),
            _ => Err(self.wrong_variant("string")),
        }
    }
}

impl Cast<u8> for JSONValue {
    open spec fn cast_wf(&self) -> bool {
        value_inv(*self)
    }

    open spec fn cast_ok(&self) -> bool {
        self@ is Num
    }

    open spec fn cast_rel(&self, r: u8) -> bool {
        self@ matches SpecValue::Num(s) && r as int == clamp(num_trunc(s), 0, u8::MAX as int)
    }

    fn cast(&self) -> (r: Result<u8, JSONError>) {
        match num_cast(self) {
            Ok((neg, mag, sat)) => Ok(
                clamp_unsigned(neg, mag, sat, 0xff, Ghost(num_trunc(self@->Num_0))) as u8,
            ),
            Err(e) => Err(e),
        }
    }
}

impl Cast<u16> for JSONValue {
    open spec fn cast_wf(&self) -> bool {
        value_inv(*self)
    }

    open spec fn cast_ok(&self) -> bool {
        self@ is Num
    }

    open spec fn cast_rel(&self, r: u16) -> bool {
        self@ matches SpecValue::Num(s) && r as int == clamp(num_trunc(s), 0, u16::MAX as int)
    }

    fn cast(&self) -> (r: Result<u16, JSONError>) {
        match num_cast(self) {
            Ok((neg, mag, sat)) => Ok(
                clamp_unsigned(neg, mag, sat, 0xffff, Ghost(num_trunc(self@->Num_0))) as u16,
            ),
            Err(e) => Err(e),
        }
    }
}

impl Cast<u32> for JSONValue {
    open spec fn cast_wf(&self) -> bool {
        value_inv(*self)
    }

    open spec fn cast_ok(&self) -> bool {
        self@ is Num
    }

    open spec fn cast_rel(&self, r: u32) -> bool {
        self@ matches SpecValue::Num(s) && r as int == clamp(num_trunc(s), 0, u32::MAX as int)
    }

    fn cast(&self) -> (r: Result<u32, JSONError>) {
        match num_cast(self) {
            Ok((neg, mag, sat)) => Ok(
                clamp_unsigned(neg, mag, sat, 0xffffffff, Ghost(num_trunc(self@->Num_0))) as u32,
            ),
            Err(e) => Err(e),
        }
    }
}

impl Cast<u64> for JSONValue {
    open spec fn cast_wf(&self) -> bool {
        value_inv(*self)
    }

    open spec fn cast_ok(&self) -> bool {
        self@ is Num
    }

    open spec fn cast_rel(&self, r: u64) -> bool {
        self@ matches SpecValue::Num(s) && r as int == clamp(num_trunc(s), 0, u64::MAX as int)
    }

    fn cast(&self) -> (r: Result<u64, JSONError>) {
        match num_cast(self) {
            Ok((neg, mag, sat)) => Ok(
                clamp_unsigned(neg, mag, sat, 0xffffffffffffffff, Ghost(num_trunc(self@->Num_0)))
                    as u64,
            ),
            Err(e) => Err(e),
        }
    }
}

impl Cast<u128> for JSONValue {
    open spec fn cast_wf(&self) -> bool {
        value_inv(*self)
    }

    open spec fn cast_ok(&self) -> bool {
        self@ is Num
    }

    open spec fn cast_rel(&self, r: u128) -> bool {
        self@ matches SpecValue::Num(s) && r as int == clamp(num_trunc(s), 0, u128::MAX as int)
    }

    fn cast(&self) -> (r: Result<u128, JSONError>) {
        match num_cast(self) {
            Ok((neg, mag, sat)) => Ok(
                clamp_unsigned(neg, mag, sat, u128::MAX, Ghost(num_trunc(self@->Num_0))),
            ),
            Err(e) => Err(e),
        }
    }
}

impl Cast<usize> for JSONValue {
    open spec fn cast_wf(&self) -> bool {
        value_inv(*self)
    }

    open spec fn cast_ok(&self) -> bool {
        self@ is Num
    }

    open spec fn cast_rel(&self, r: usize) -> bool {
        self@ matches SpecValue::Num(s) && r as int == clamp(num_trunc(s), 0, usize::MAX as int)
    }

    fn cast(&self) -> (r: Result<usize, JSONError>) {
        match num_cast(self) {
            Ok((neg, mag, sat)) => Ok(
                clamp_unsigned(
                    neg,
                    mag,
                    sat,
                    usize::MAX as u128,
                    Ghost(num_trunc(self@->Num_0)),
                ) as usize,
            ),
            Err(e) => Err(e),
        }
    }
}

impl Cast<i8> for JSONValue {
    open spec fn cast_wf(&self) -> bool {
        value_inv(*self)
    }

    open spec fn cast_ok(&self) -> bool {
        self@ is Num
    }

    open spec fn cast_rel(&self, r: i8) -> bool {
        self@ matches SpecValue::Num(s) && r as int == clamp(
            num_trunc(s),
            i8::MIN as int,
            i8::MAX as int,
        )
    }

    fn cast(&self) -> (r: Result<i8, JSONError>) {
        match num_cast(self) {
            Ok((neg, mag, sat)) => Ok(
                clamp_signed(neg, mag, sat, -128, 127, 128, Ghost(num_trunc(self@->Num_0))) as i8,
            ),
            Err(e) => Err(e),
        }
    }
}

impl Cast<i16> for JSONValue {
    open spec fn cast_wf(&self) -> bool {
        value_inv(*self)
    }

    open spec fn cast_ok(&self) -> bool {
        self@ is Num
    }

    open spec fn cast_rel(&self, r: i16) -> bool {
        self@ matches SpecValue::Num(s) && r as int == clamp(
            num_trunc(s),
            i16::MIN as int,
            i16::MAX as int,
        )
    }

    fn cast(&self) -> (r: Result<i16, JSONError>) {
        match num_cast(self) {
            Ok((neg, mag, sat)) => Ok(
                clamp_signed(
                    neg,
                    mag,
                    sat,
                    -32768,
                    32767,
                    32768,
                    Ghost(num_trunc(self@->Num_0)),
                ) as i16,
            ),
            Err(e) => Err(e),
        }
    }
}

impl Cast<i32> for JSONValue {
    open spec fn cast_wf(&self) -> bool {
        value_inv(*self)
    }

    open spec fn cast_ok(&self) -> bool {
        self@ is Num
    }

    open spec fn cast_rel(&self, r: i32) -> bool {
        self@ matches SpecValue::Num(s) && r as int == clamp(
            num_trunc(s),
            i32::MIN as int,
            i32::MAX as int,
        )
    }

    fn cast(&self) -> (r: Result<i32, JSONError>) {
        match num_cast(self) {
            Ok((neg, mag, sat)) => Ok(
                clamp_signed(
                    neg,
                    mag,
                    sat,
                    -0x80000000,
                    0x7fffffff,
                    0x80000000,
                    Ghost(num_trunc(self@->Num_0)),
                ) as i32,
            ),
            Err(e) => Err(e),
        }
    }
}

impl Cast<i64> for JSONValue {
    open spec fn cast_wf(&self) -> bool {
        value_inv(*self)
    }

    open spec fn cast_ok(&self) -> bool {
        self@ is Num
    }

    open spec fn cast_rel(&self, r: i64) -> bool {
        self@ matches SpecValue::Num(s) && r as int == clamp(
            num_trunc(s),
            i64::MIN as int,
            i64::MAX as int,
        )
    }

    fn cast(&self) -> (r: Result<i64, JSONError>) {
        match num_cast(self) {
            Ok((neg, mag, sat)) => Ok(
                clamp_signed(
                    neg,
                    mag,
                    sat,
                    -0x8000000000000000,
                    0x7fffffffffffffff,
                    0x8000000000000000,
                    Ghost(num_trunc(self@->Num_0)),
                ) as i64,
            ),
            Err(e) => Err(e),
        }
    }
}

impl Cast<i128> for JSONValue {
    open spec fn cast_wf(&self) -> bool {
        value_inv(*self)
    }

    open spec fn cast_ok(&self) -> bool {
        self@ is Num
    }

    open spec fn cast_rel(&self, r: i128) -> bool {
        self@ matches SpecValue::Num(s) && r as int == clamp(
            num_trunc(s),
            i128::MIN as int,
            i128::MAX as int,
        )
    }

    fn cast(&self) -> (r: Result<i128, JSONError>) {
        match num_cast(self) {
            Ok((neg, mag, sat)) => Ok(
                clamp_signed(
                    neg,
                    mag,
                    sat,
                    i128::MIN,
                    i128::MAX,
                    0x80000000000000000000000000000000,
                    Ghost(num_trunc(self@->Num_0)),
                ),
            ),
            Err(e) => Err(e),
        }
    }
}

impl Cast<isize> for JSONValue {
    open spec fn cast_wf(&self) -> bool {
        value_inv(*self)
    }

    open spec fn cast_ok(&self) -> bool {
        self@ is Num
    }

    open spec fn cast_rel(&self, r: isize) -> bool {
        self@ matches SpecValue::Num(s) && r as int == clamp(
            num_trunc(s),
            isize::MIN as int,
            isize::MAX as int,
        )
    }

    fn cast(&self) -> (r: Result<isize, JSONError>) {
        match num_cast(self) {
            Ok((neg, mag, sat)) => {
                let lo: i128 = isize::MIN as i128;
                let hi: i128 = isize::MAX as i128;
                let lo_mag: u128 = (isize::MAX as u128) + 1;
                Ok(
                    clamp_signed(neg, mag, sat, lo, hi, lo_mag, Ghost(num_trunc(self@->Num_0)))
                        as isize,
                )
            },
            Err(e) => Err(e),
        }
    }
}

} // verus!
