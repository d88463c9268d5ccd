//! The coordinate decoder: one character stands for a signed offset
//! relative to the origin character `'R'`.

use vstd::prelude::*;

verus! {

/// Offset of a character's code point from the origin character `'R'`
/// (code point 82). Characters before `'R'` map to negative values,
/// characters after it to positive ones. Total: every character is
/// accepted and mapped arithmetically.
pub open spec fn char_val(c: char) -> int {
    c as int - 82
}

/// Decode one character as a signed offset from the origin `'R'`.
/// The result lies between `-82` (for the NUL character) and
/// `0x10FFFF - 82` (for the last Unicode scalar).
pub fn char_to_int(c: &char) -> (r: i32)
    ensures
        r as int == char_val(*c),
        -82 <= char_val(*c) <= 0x10FFFF - 82,
{
    (*c as i32) - ('R' as i32)
}

/// The coordinate decoder is monotonic in the character's code point.
pub proof fn lemma_char_val_monotonic(a: char, b: char)
    requires
        a as int <= b as int,
    ensures
        char_val(a) <= char_val(b),
{
}

} // verus!
