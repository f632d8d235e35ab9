//! The tagged scalar that crosses the boundary between bytecode and host
//! functions.

use vstd::prelude::*;
use crate::ids::{TypeId, BOOL_TYPE, F64_TYPE, I64_TYPE, VOID_TYPE};

verus! {

/// A scalar together with its type tag: the closed set of value kinds the
/// engine can hand to a host function or take back from one.
///
/// An integer is held as itself, a floating-point number as its 64-bit
/// pattern, a boolean as 0 or 1, and the void value as 0.
#[derive(Clone, Copy, Debug, PartialEq, Eq, Structural)]
pub struct Value {
    pub ty: TypeId,
    pub val: i64,
}

/// Why a value could not be read as the kind that was asked for.
#[derive(Clone, Copy, Debug, PartialEq, Eq, Structural)]
pub enum ValueError {
    /// The value carries another type tag than the one asked for.
    WrongType { expected: TypeId, found: TypeId },
    /// The tag is one of the engine's kinds but the payload is not a payload
    /// of that kind.
    BadPayload { ty: TypeId, val: i64 },
    /// The tag is none of the engine's kinds.
    UnknownType { ty: TypeId },
}

impl Value {
    /// Whether the value is one of the engine's scalars: its tag is one of
    /// the four kinds and the payload fits the tag.
    pub open spec fn wf(self) -> bool {
        ||| self.ty == I64_TYPE
        ||| self.ty == F64_TYPE
        ||| self.ty == BOOL_TYPE && (self.val == 0 || self.val == 1)
        ||| self.ty == VOID_TYPE && self.val == 0
    }

    /// What `check` answers for this value.
    pub open spec fn checked(self) -> Result<(), ValueError> {
        if self.ty == I64_TYPE || self.ty == F64_TYPE {
            Ok(())
        } else if self.ty == BOOL_TYPE || self.ty == VOID_TYPE {
            if self.wf() {
                Ok(())
            } else {
                Err(ValueError::BadPayload { ty: self.ty, val: self.val })
            }
        } else {
            Err(ValueError::UnknownType { ty: self.ty })
        }
    }

    /// The integer `val`.
    pub fn from_i64(val: i64) -> (value: Value)
        ensures
            value == (Value { ty: I64_TYPE, val }),
            value.wf(),
    {
        Value { ty: I64_TYPE, val }
    }

    /// The floating-point number whose bit pattern is `bits`.
    pub fn from_f64_bits(bits: i64) -> (value: Value)
        ensures
            value == (Value { ty: F64_TYPE, val: bits }),
            value.wf(),
    {
        Value { ty: F64_TYPE, val: bits }
    }

    /// The boolean `flag`, as 1 for true and 0 for false.
    pub fn from_bool(flag: bool) -> (value: Value)
        ensures
            value == (Value { ty: BOOL_TYPE, val: if flag { 1i64 } else { 0i64 } }),
            value.wf(),
    {
        Value { ty: BOOL_TYPE, val: if flag { 1 } else { 0 } }
    }

    /// The void value.
    pub fn void() -> (value: Value)
        ensures
            value == (Value { ty: VOID_TYPE, val: 0 }),
            value.wf(),
    {
        Value { ty: VOID_TYPE, val: 0 }
    }

    /// Tests that the value is one of the engine's scalars, and says what is
    /// wrong with it when it is not.
    pub fn check(&self) -> (r: Result<(), ValueError>)
        ensures
            r == self.checked(),
            r is Ok <==> self.wf(),
    {
        if self.ty == I64_TYPE || self.ty == F64_TYPE {
            Ok(())
        } else if self.ty == BOOL_TYPE {
            if self.val == 0 || self.val == 1 {
                Ok(())
            } else {
                Err(ValueError::BadPayload { ty: self.ty, val: self.val })
            }
        } else if self.ty == VOID_TYPE {
            if self.val == 0 {
                Ok(())
            } else {
                Err(ValueError::BadPayload { ty: self.ty, val: self.val })
            }
        } else {
            Err(ValueError::UnknownType { ty: self.ty })
        }
    }

    /// Reads the value as an integer.
    pub fn as_i64(&self) -> (r: Result<i64, ValueError>)
        ensures
            r == (if self.ty == I64_TYPE {
                Ok::<i64, ValueError>(self.val)
            } else {
                Err(ValueError::WrongType { expected: I64_TYPE, found: self.ty })
            }),
    {
        if self.ty == I64_TYPE {
            Ok(self.val)
        } else {
            Err(ValueError::WrongType { expected: I64_TYPE, found: self.ty })
        }
    }

    /// Reads the value as the bit pattern of a floating-point number.
    pub fn as_f64_bits(&self) -> (r: Result<i64, ValueError>)
        ensures
            r == (if self.ty == F64_TYPE {
                Ok::<i64, ValueError>(self.val)
            } else {
                Err(ValueError::WrongType { expected: F64_TYPE, found: self.ty })
            }),
    {
        if self.ty == F64_TYPE {
            Ok(self.val)
        } else {
            Err(ValueError::WrongType { expected: F64_TYPE, found: self.ty })
        }
    }

    /// Reads the value as a boolean.
    pub fn as_bool(&self) -> (r: Result<bool, ValueError>)
        ensures
            r == (if self.ty != BOOL_TYPE {
                Err::<bool, ValueError>(
                    ValueError::WrongType { expected: BOOL_TYPE, found: self.ty },
                )
            } else if self.val == 0 {
                Ok(false)
            } else if self.val == 1 {
                Ok(true)
            } else {
                Err(ValueError::BadPayload { ty: self.ty, val: self.val })
            }),
    {
        if self.ty != BOOL_TYPE {
            Err(ValueError::WrongType { expected: BOOL_TYPE, found: self.ty })
        } else if self.val == 0 {
            Ok(false)
        } else if self.val == 1 {
            Ok(true)
        } else {
            Err(ValueError::BadPayload { ty: self.ty, val: self.val })
        }
    }
}

} // verus!
