//! The digit source: a type that can deliver one byte of its sort key at a
//! given depth, together with the built-in implementations for text, byte
//! buffers, and fixed-width unsigned integers (big-endian, so that numeric
//! order matches byte-lexicographic order of the key).

use std::borrow::Cow;
use vstd::prelude::*;
use vstd::slice::slice_index_get;

use crate::order::digit_of;

verus! {

/// Specifies that a type can deliver a radix at a certain digit/depth.
///
/// The key is a finite sequence of bytes; `get_digit_at` returns the byte of
/// the key at the given depth, and `None` once the key is exhausted.
pub trait DigitAt {
    /// The byte sequence that this value sorts by.
    spec fn key_bytes(&self) -> Seq<u8>;

    /// Extracts a radix value at a certain digit for a type. Returns `None`
    /// if no value exists at the digit.
    fn get_digit_at(&self, digit: usize) -> (r: Option<u8>)
        ensures
            r == digit_of(self.key_bytes(), digit as int),
    ;
}

impl DigitAt for u8 {
    open spec fn key_bytes(&self) -> Seq<u8> {
        seq![*self]
    }

    #[inline]
    fn get_digit_at(&self, digit: usize) -> (r: Option<u8>)
        ensures
            r == digit_of(self.key_bytes(), digit as int),
    {
        if digit == 0 {
            Some(*self)
        } else {
            None
        }
    }
}

impl DigitAt for u16 {
    open spec fn key_bytes(&self) -> Seq<u8> {
        seq![((*self >> 8) & 0xFF) as u8, (*self & 0xFF) as u8]
    }

    #[inline]
    fn get_digit_at(&self, digit: usize) -> (r: Option<u8>)
        ensures
            r == digit_of(self.key_bytes(), digit as int),
    {
        let x = *self;
        match digit {
            0 => {
                assert(((x & 0xFF00) >> 8) <= 0xFF && ((x & 0xFF00) >> 8) == ((x >> 8) & 0xFF))
                    by (bit_vector);
                Some(((x & 0xFF00) >> 8) as u8)
            },
            1 => {
                assert((x & 0xFF) <= 0xFF) by (bit_vector);
                Some((x & 0xFF) as u8)
            },
            _ => None,
        }
    }
}

impl DigitAt for u32 {
    open spec fn key_bytes(&self) -> Seq<u8> {
        seq![
            ((*self >> 24) & 0xFF) as u8,
            ((*self >> 16) & 0xFF) as u8,
            ((*self >> 8) & 0xFF) as u8,
            (*self & 0xFF) as u8,
        ]
    }

    #[inline]
    fn get_digit_at(&self, digit: usize) -> (r: Option<u8>)
        ensures
            r == digit_of(self.key_bytes(), digit as int),
    {
        let x = *self;
        match digit {
            0 => {
                assert(((x & 0xFF000000) >> 24) <= 0xFF && ((x & 0xFF000000) >> 24) == ((x >> 24)
                    & 0xFF)) by (bit_vector);
                Some(((x & 0xFF000000) >> 24) as u8)
            },
            1 => {
                assert(((x & 0xFF0000) >> 16) <= 0xFF && ((x & 0xFF0000) >> 16) == ((x >> 16)
                    & 0xFF)) by (bit_vector);
                Some(((x & 0xFF0000) >> 16) as u8)
            },
            2 => {
                assert(((x & 0xFF00) >> 8) <= 0xFF && ((x & 0xFF00) >> 8) == ((x >> 8) & 0xFF))
                    by (bit_vector);
                Some(((x & 0xFF00) >> 8) as u8)
            },
            3 => {
                assert((x & 0xFF) <= 0xFF) by (bit_vector);
                Some((x & 0xFF) as u8)
            },
            _ => None,
        }
    }
}

impl DigitAt for u64 {
    open spec fn key_bytes(&self) -> Seq<u8> {
        seq![
            ((*self >> 56) & 0xFF) as u8,
            ((*self >> 48) & 0xFF) as u8,
            ((*self >> 40) & 0xFF) as u8,
            ((*self >> 32) & 0xFF) as u8,
            ((*self >> 24) & 0xFF) as u8,
            ((*self >> 16) & 0xFF) as u8,
            ((*self >> 8) & 0xFF) as u8,
            (*self & 0xFF) as u8,
        ]
    }

    #[inline]
    fn get_digit_at(&self, digit: usize) -> (r: Option<u8>)
        ensures
            r == digit_of(self.key_bytes(), digit as int),
    {
        let x = *self;
        match digit {
            0 => {
                assert(((x & 0xFF00000000000000) >> 56) <= 0xFF && ((x & 0xFF00000000000000) >> 56)
                    == ((x >> 56) & 0xFF)) by (bit_vector);
                Some(((x & 0xFF00000000000000) >> 56) as u8)
            },
            1 => {
                assert(((x & 0xFF000000000000) >> 48) <= 0xFF && ((x & 0xFF000000000000) >> 48) == (
                (x >> 48) & 0xFF)) by (bit_vector);
                Some(((x & 0xFF000000000000) >> 48) as u8)
            },
            2 => {
                assert(((x & 0xFF0000000000) >> 40) <= 0xFF && ((x & 0xFF0000000000) >> 40) == ((x
                    >> 40) & 0xFF)) by (bit_vector);
                Some(((x & 0xFF0000000000) >> 40) as u8)
            },
            3 => {
                assert(((x & 0xFF00000000) >> 32) <= 0xFF && ((x & 0xFF00000000) >> 32) == ((x
                    >> 32) & 0xFF)) by (bit_vector);
                Some(((x & 0xFF00000000) >> 32) as u8)
            },
            4 => {
                assert(((x & 0xFF000000) >> 24) <= 0xFF && ((x & 0xFF000000) >> 24) == ((x >> 24)
                    & 0xFF)) by (bit_vector);
                Some(((x & 0xFF000000) >> 24) as u8)
            },
            5 => {
                assert(((x & 0xFF0000) >> 16) <= 0xFF && ((x & 0xFF0000) >> 16) == ((x >> 16)
                    & 0xFF)) by (bit_vector);
                Some(((x & 0xFF0000) >> 16) as u8)
            },
            6 => {
                assert(((x & 0xFF00) >> 8) <= 0xFF && ((x & 0xFF00) >> 8) == ((x >> 8) & 0xFF))
                    by (bit_vector);
                Some(((x & 0xFF00) >> 8) as u8)
            },
            7 => {
                assert((x & 0xFF) <= 0xFF) by (bit_vector);
                Some((x & 0xFF) as u8)
            },
            _ => None,
        }
    }
}

impl<'a> DigitAt for &'a str {
    open spec fn key_bytes(&self) -> Seq<u8> {
        vstd::utf8::encode_utf8((*self)@)
    }

    #[inline]
    fn get_digit_at(&self, digit: usize) -> (r: Option<u8>)
        ensures
            r == digit_of(self.key_bytes(), digit as int),
    {
        let bs = (*self).as_bytes();
        if digit < bs.len() {
            Some(*slice_index_get(bs, digit))
        } else {
            None
        }
    }
}

impl DigitAt for String {
    open spec fn key_bytes(&self) -> Seq<u8> {
        vstd::utf8::encode_utf8(self@)
    }

    #[inline]
    fn get_digit_at(&self, digit: usize) -> (r: Option<u8>)
        ensures
            r == digit_of(self.key_bytes(), digit as int),
    {
        let bs = self.as_str().as_bytes();
        if digit < bs.len() {
            Some(*slice_index_get(bs, digit))
        } else {
            None
        }
    }
}

impl DigitAt for Vec<u8> {
    open spec fn key_bytes(&self) -> Seq<u8> {
        self@
    }

    #[inline]
    fn get_digit_at(&self, digit: usize) -> (r: Option<u8>)
        ensures
            r == digit_of(self.key_bytes(), digit as int),
    {
        if digit < self.len() {
            Some(*slice_index_get(self.as_slice(), digit))
        } else {
            None
        }
    }
}

impl<'a> DigitAt for &'a [u8] {
    open spec fn key_bytes(&self) -> Seq<u8> {
        (*self)@
    }

    #[inline]
    fn get_digit_at(&self, digit: usize) -> (r: Option<u8>)
        ensures
            r == digit_of(self.key_bytes(), digit as int),
    {
        if digit < (*self).len() {
            Some(*slice_index_get(*self, digit))
        } else {
            None
        }
    }
}

impl<'a> DigitAt for Cow<'a, str> {
    open spec fn key_bytes(&self) -> Seq<u8> {
        vstd::utf8::encode_utf8(self@)
    }

    #[inline]
    fn get_digit_at(&self, digit: usize) -> (r: Option<u8>)
        ensures
            r == digit_of(self.key_bytes(), digit as int),
    {
        let s: &str = match self {
            Cow::Borrowed(b) => b,
            Cow::Owned(o) => o.as_str(),
        };
        let bs = s.as_bytes();
        if digit < bs.len() {
            Some(*slice_index_get(bs, digit))
        } else {
            None
        }
    }
}

} // verus!
