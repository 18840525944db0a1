//! Character classes used by the configuration and command-output scanners.
use vstd::prelude::*;

verus! {

/// A Unicode decimal digit (general category Nd): the `\d` class of the
/// regular expressions the service scans command output with.
pub open spec fn is_decimal_digit(c: char) -> bool {
    let v = c as u32;
    (0x30 <= v && v <= 0x39)
        || (0x660 <= v && v <= 0x669)
        || (0x6f0 <= v && v <= 0x6f9)
        || (0x7c0 <= v && v <= 0x7c9)
        || (0x966 <= v && v <= 0x96f)
        || (0x9e6 <= v && v <= 0x9ef)
        || (0xa66 <= v && v <= 0xa6f)
        || (0xae6 <= v && v <= 0xaef)
        || (0xb66 <= v && v <= 0xb6f)
        || (0xbe6 <= v && v <= 0xbef)
        || (0xc66 <= v && v <= 0xc6f)
        || (0xce6 <= v && v <= 0xcef)
        || (0xd66 <= v && v <= 0xd6f)
        || (0xde6 <= v && v <= 0xdef)
        || (0xe50 <= v && v <= 0xe59)
        || (0xed0 <= v && v <= 0xed9)
        || (0xf20 <= v && v <= 0xf29)
        || (0x1040 <= v && v <= 0x1049)
        || (0x1090 <= v && v <= 0x1099)
        || (0x17e0 <= v && v <= 0x17e9)
        || (0x1810 <= v && v <= 0x1819)
        || (0x1946 <= v && v <= 0x194f)
        || (0x19d0 <= v && v <= 0x19d9)
        || (0x1a80 <= v && v <= 0x1a89)
        || (0x1a90 <= v && v <= 0x1a99)
        || (0x1b50 <= v && v <= 0x1b59)
        || (0x1bb0 <= v && v <= 0x1bb9)
        || (0x1c40 <= v && v <= 0x1c49)
        || (0x1c50 <= v && v <= 0x1c59)
        || (0xa620 <= v && v <= 0xa629)
        || (0xa8d0 <= v && v <= 0xa8d9)
        || (0xa900 <= v && v <= 0xa909)
        || (0xa9d0 <= v && v <= 0xa9d9)
        || (0xa9f0 <= v && v <= 0xa9f9)
        || (0xaa50 <= v && v <= 0xaa59)
        || (0xabf0 <= v && v <= 0xabf9)
        || (0xff10 <= v && v <= 0xff19)
        || (0x104a0 <= v && v <= 0x104a9)
        || (0x10d30 <= v && v <= 0x10d39)
        || (0x10d40 <= v && v <= 0x10d49)
        || (0x11066 <= v && v <= 0x1106f)
        || (0x110f0 <= v && v <= 0x110f9)
        || (0x11136 <= v && v <= 0x1113f)
        || (0x111d0 <= v && v <= 0x111d9)
        || (0x112f0 <= v && v <= 0x112f9)
        || (0x11450 <= v && v <= 0x11459)
        || (0x114d0 <= v && v <= 0x114d9)
        || (0x11650 <= v && v <= 0x11659)
        || (0x116c0 <= v && v <= 0x116c9)
        || (0x116d0 <= v && v <= 0x116e3)
        || (0x11730 <= v && v <= 0x11739)
        || (0x118e0 <= v && v <= 0x118e9)
        || (0x11950 <= v && v <= 0x11959)
        || (0x11bf0 <= v && v <= 0x11bf9)
        || (0x11c50 <= v && v <= 0x11c59)
        || (0x11d50 <= v && v <= 0x11d59)
        || (0x11da0 <= v && v <= 0x11da9)
        || (0x11f50 <= v && v <= 0x11f59)
        || (0x16130 <= v && v <= 0x16139)
        || (0x16a60 <= v && v <= 0x16a69)
        || (0x16ac0 <= v && v <= 0x16ac9)
        || (0x16b50 <= v && v <= 0x16b59)
        || (0x16d70 <= v && v <= 0x16d79)
        || (0x1ccf0 <= v && v <= 0x1ccf9)
        || (0x1d7ce <= v && v <= 0x1d7ff)
        || (0x1e140 <= v && v <= 0x1e149)
        || (0x1e2f0 <= v && v <= 0x1e2f9)
        || (0x1e4f0 <= v && v <= 0x1e4f9)
        || (0x1e5f1 <= v && v <= 0x1e5fa)
        || (0x1e950 <= v && v <= 0x1e959)
        || (0x1fbf0 <= v && v <= 0x1fbf9)
}

pub fn is_decimal_digit_exec(c: char) -> (r: bool)
    ensures
        r == is_decimal_digit(c),
{
    let v = c as u32;
    (0x30 <= v && v <= 0x39)
        || (0x660 <= v && v <= 0x669)
        || (0x6f0 <= v && v <= 0x6f9)
        || (0x7c0 <= v && v <= 0x7c9)
        || (0x966 <= v && v <= 0x96f)
        || (0x9e6 <= v && v <= 0x9ef)
        || (0xa66 <= v && v <= 0xa6f)
        || (0xae6 <= v && v <= 0xaef)
        || (0xb66 <= v && v <= 0xb6f)
        || (0xbe6 <= v && v <= 0xbef)
        || (0xc66 <= v && v <= 0xc6f)
        || (0xce6 <= v && v <= 0xcef)
        || (0xd66 <= v && v <= 0xd6f)
        || (0xde6 <= v && v <= 0xdef)
        || (0xe50 <= v && v <= 0xe59)
        || (0xed0 <= v && v <= 0xed9)
        || (0xf20 <= v && v <= 0xf29)
        || (0x1040 <= v && v <= 0x1049)
        || (0x1090 <= v && v <= 0x1099)
        || (0x17e0 <= v && v <= 0x17e9)
        || (0x1810 <= v && v <= 0x1819)
        || (0x1946 <= v && v <= 0x194f)
        || (0x19d0 <= v && v <= 0x19d9)
        || (0x1a80 <= v && v <= 0x1a89)
        || (0x1a90 <= v && v <= 0x1a99)
        || (0x1b50 <= v && v <= 0x1b59)
        || (0x1bb0 <= v && v <= 0x1bb9)
        || (0x1c40 <= v && v <= 0x1c49)
        || (0x1c50 <= v && v <= 0x1c59)
        || (0xa620 <= v && v <= 0xa629)
        || (0xa8d0 <= v && v <= 0xa8d9)
        || (0xa900 <= v && v <= 0xa909)
        || (0xa9d0 <= v && v <= 0xa9d9)
        || (0xa9f0 <= v && v <= 0xa9f9)
        || (0xaa50 <= v && v <= 0xaa59)
        || (0xabf0 <= v && v <= 0xabf9)
        || (0xff10 <= v && v <= 0xff19)
        || (0x104a0 <= v && v <= 0x104a9)
        || (0x10d30 <= v && v <= 0x10d39)
        || (0x10d40 <= v && v <= 0x10d49)
        || (0x11066 <= v && v <= 0x1106f)
        || (0x110f0 <= v && v <= 0x110f9)
        || (0x11136 <= v && v <= 0x1113f)
        || (0x111d0 <= v && v <= 0x111d9)
        || (0x112f0 <= v && v <= 0x112f9)
        || (0x11450 <= v && v <= 0x11459)
        || (0x114d0 <= v && v <= 0x114d9)
        || (0x11650 <= v && v <= 0x11659)
        || (0x116c0 <= v && v <= 0x116c9)
        || (0x116d0 <= v && v <= 0x116e3)
        || (0x11730 <= v && v <= 0x11739)
        || (0x118e0 <= v && v <= 0x118e9)
        || (0x11950 <= v && v <= 0x11959)
        || (0x11bf0 <= v && v <= 0x11bf9)
        || (0x11c50 <= v && v <= 0x11c59)
        || (0x11d50 <= v && v <= 0x11d59)
        || (0x11da0 <= v && v <= 0x11da9)
        || (0x11f50 <= v && v <= 0x11f59)
        || (0x16130 <= v && v <= 0x16139)
        || (0x16a60 <= v && v <= 0x16a69)
        || (0x16ac0 <= v && v <= 0x16ac9)
        || (0x16b50 <= v && v <= 0x16b59)
        || (0x16d70 <= v && v <= 0x16d79)
        || (0x1ccf0 <= v && v <= 0x1ccf9)
        || (0x1d7ce <= v && v <= 0x1d7ff)
        || (0x1e140 <= v && v <= 0x1e149)
        || (0x1e2f0 <= v && v <= 0x1e2f9)
        || (0x1e4f0 <= v && v <= 0x1e4f9)
        || (0x1e5f1 <= v && v <= 0x1e5fa)
        || (0x1e950 <= v && v <= 0x1e959)
        || (0x1fbf0 <= v && v <= 0x1fbf9)
}

/// An ASCII digit `0`-`9`.
pub open spec fn is_ascii_digit(c: char) -> bool {
    '0' <= c && c <= '9'
}

/// Unicode White_Space, as `char::is_whitespace` tests it.
pub open spec fn is_whitespace(c: char) -> bool {
    let v = c as u32;
    (0x9 <= v && v <= 0xd) || v == 0x20 || v == 0x85 || v == 0xa0 || v == 0x1680
        || (0x2000 <= v && v <= 0x200a) || v == 0x2028 || v == 0x2029 || v == 0x202f
        || v == 0x205f || v == 0x3000
}

pub fn is_whitespace_exec(c: char) -> (r: bool)
    ensures
        r == is_whitespace(c),
{
    let v = c as u32;
    (0x9 <= v && v <= 0xd) || v == 0x20 || v == 0x85 || v == 0xa0 || v == 0x1680
        || (0x2000 <= v && v <= 0x200a) || v == 0x2028 || v == 0x2029 || v == 0x202f
        || v == 0x205f || v == 0x3000
}

} // verus!
