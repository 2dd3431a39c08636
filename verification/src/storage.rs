//! Storage-word plumbing: the marker trait of usable machine words, the
//! conversions between storage words and the index types, and the
//! truncating conversion out of a double word.

use vstd::prelude::*;

verus! {

/// A machine word usable as single-word board storage.
pub trait BitStorage: Copy {

}

impl BitStorage for u8 {

}

impl BitStorage for u16 {

}

impl BitStorage for u32 {

}

impl BitStorage for u64 {

}

impl BitStorage for u128 {

}

/// Conversions between a storage word and the index types, truncating
/// where the target is narrower.
pub trait IntegerStorage: BitStorage {
    /// The value as a 64-bit word, truncated.
    spec fn spec_to_u64(self) -> u64;

    /// The value as an index, truncated.
    spec fn spec_to_usize(self) -> usize;

    /// A 64-bit word as a storage word, truncated.
    spec fn spec_from_u64(val: u64) -> Self;

    /// An index as a storage word, truncated.
    spec fn spec_from_usize(val: usize) -> Self;

    /// A double word as a storage word, truncated.
    spec fn spec_from_u128(val: u128) -> Self;

    fn to_u64(self) -> (r: u64)
        ensures
            r == self.spec_to_u64(),
    ;

    fn to_usize(self) -> (r: usize)
        ensures
            r == self.spec_to_usize(),
    ;

    fn from_u64(val: u64) -> (r: Self)
        ensures
            r == Self::spec_from_u64(val),
    ;

    fn from_usize(val: usize) -> (r: Self)
        ensures
            r == Self::spec_from_usize(val),
    ;

    fn from_u128(val: u128) -> (r: Self)
        ensures
            r == Self::spec_from_u128(val),
    ;
}

impl IntegerStorage for u8 {
    open spec fn spec_to_u64(self) -> u64 {
        self as u64
    }

    open spec fn spec_to_usize(self) -> usize {
        self as usize
    }

    open spec fn spec_from_u64(val: u64) -> u8 {
        val as u8
    }

    open spec fn spec_from_usize(val: usize) -> u8 {
        val as u8
    }

    open spec fn spec_from_u128(val: u128) -> u8 {
        val as u8
    }

    fn to_u64(self) -> u64 {
        self as u64
    }

    fn to_usize(self) -> usize {
        self as usize
    }

    fn from_u64(val: u64) -> u8 {
        val as u8
    }

    fn from_usize(val: usize) -> u8 {
        val as u8
    }

    fn from_u128(val: u128) -> u8 {
        val as u8
    }
}

impl IntegerStorage for u16 {
    open spec fn spec_to_u64(self) -> u64 {
        self as u64
    }

    open spec fn spec_to_usize(self) -> usize {
        self as usize
    }

    open spec fn spec_from_u64(val: u64) -> u16 {
        val as u16
    }

    open spec fn spec_from_usize(val: usize) -> u16 {
        val as u16
    }

    open spec fn spec_from_u128(val: u128) -> u16 {
        val as u16
    }

    fn to_u64(self) -> u64 {
        self as u64
    }

    fn to_usize(self) -> usize {
        self as usize
    }

    fn from_u64(val: u64) -> u16 {
        val as u16
    }

    fn from_usize(val: usize) -> u16 {
        val as u16
    }

    fn from_u128(val: u128) -> u16 {
        val as u16
    }
}

impl IntegerStorage for u32 {
    open spec fn spec_to_u64(self) -> u64 {
        self as u64
    }

    open spec fn spec_to_usize(self) -> usize {
        self as usize
    }

    open spec fn spec_from_u64(val: u64) -> u32 {
        val as u32
    }

    open spec fn spec_from_usize(val: usize) -> u32 {
        val as u32
    }

    open spec fn spec_from_u128(val: u128) -> u32 {
        val as u32
    }

    fn to_u64(self) -> u64 {
        self as u64
    }

    fn to_usize(self) -> usize {
        self as usize
    }

    fn from_u64(val: u64) -> u32 {
        val as u32
    }

    fn from_usize(val: usize) -> u32 {
        val as u32
    }

    fn from_u128(val: u128) -> u32 {
        val as u32
    }
}

impl IntegerStorage for u64 {
    open spec fn spec_to_u64(self) -> u64 {
        self as u64
    }

    open spec fn spec_to_usize(self) -> usize {
        self as usize
    }

    open spec fn spec_from_u64(val: u64) -> u64 {
        val as u64
    }

    open spec fn spec_from_usize(val: usize) -> u64 {
        val as u64
    }

    open spec fn spec_from_u128(val: u128) -> u64 {
        val as u64
    }

    fn to_u64(self) -> u64 {
        self as u64
    }

    fn to_usize(self) -> usize {
        self as usize
    }

    fn from_u64(val: u64) -> u64 {
        val as u64
    }

    fn from_usize(val: usize) -> u64 {
        val as u64
    }

    fn from_u128(val: u128) -> u64 {
        val as u64
    }
}

impl IntegerStorage for u128 {
    open spec fn spec_to_u64(self) -> u64 {
        self as u64
    }

    open spec fn spec_to_usize(self) -> usize {
        self as usize
    }

    open spec fn spec_from_u64(val: u64) -> u128 {
        val as u128
    }

    open spec fn spec_from_usize(val: usize) -> u128 {
        val as u128
    }

    open spec fn spec_from_u128(val: u128) -> u128 {
        val as u128
    }

    fn to_u64(self) -> u64 {
        self as u64
    }

    fn to_usize(self) -> usize {
        self as usize
    }

    fn from_u64(val: u64) -> u128 {
        val as u128
    }

    fn from_usize(val: usize) -> u128 {
        val as u128
    }

    fn from_u128(val: u128) -> u128 {
        val as u128
    }
}

/// Truncating conversion from a wider value.
pub trait TruncateFrom<T>: Sized {
    /// The truncated value.
    spec fn spec_truncate_from(value: T) -> Self;

    fn truncate_from(value: T) -> (r: Self)
        ensures
            r == Self::spec_truncate_from(value),
    ;
}

impl TruncateFrom<u128> for u128 {
    open spec fn spec_truncate_from(value: u128) -> u128 {
        value as u128
    }

    fn truncate_from(value: u128) -> u128 {
        value as u128
    }
}

impl TruncateFrom<u128> for usize {
    open spec fn spec_truncate_from(value: u128) -> usize {
        value as usize
    }

    fn truncate_from(value: u128) -> usize {
        value as usize
    }
}

impl TruncateFrom<u128> for u64 {
    open spec fn spec_truncate_from(value: u128) -> u64 {
        value as u64
    }

    fn truncate_from(value: u128) -> u64 {
        value as u64
    }
}

impl TruncateFrom<u128> for u32 {
    open spec fn spec_truncate_from(value: u128) -> u32 {
        value as u32
    }

    fn truncate_from(value: u128) -> u32 {
        value as u32
    }
}

impl TruncateFrom<u128> for u16 {
    open spec fn spec_truncate_from(value: u128) -> u16 {
        value as u16
    }

    fn truncate_from(value: u128) -> u16 {
        value as u16
    }
}

impl TruncateFrom<u128> for u8 {
    open spec fn spec_truncate_from(value: u128) -> u8 {
        value as u8
    }

    fn truncate_from(value: u128) -> u8 {
        value as u8
    }
}

} // verus!
