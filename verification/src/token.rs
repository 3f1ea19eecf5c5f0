//! Byte classification for the RFC 7231 `token` grammar.
//!
//! A `tchar` is a letter, a digit, or one of `! # $ % & ' + - . ^ _ ` | ~`.
//! Note that `*` and `/` are deliberately not token bytes here, so the parser
//! can give them structural meaning.

use vstd::prelude::*;

verus! {

/// Whether `c` is a legal byte of an RFC 7231 `token`.
pub open spec fn is_token_byte(c: u8) -> bool {
    ||| c == 33  // !
    ||| (35 <= c && c <= 39)  // # $ % & '
    ||| c == 43  // +
    ||| c == 45  // -
    ||| c == 46  // .
    ||| (48 <= c && c <= 57)  // 0-9
    ||| (65 <= c && c <= 90)  // A-Z
    ||| c == 94  // ^
    ||| c == 95  // _
    ||| c == 96  // `
    ||| (97 <= c && c <= 122)  // a-z
    ||| c == 124  // |
    ||| c == 126  // ~
}

/// Whether `c` may appear inside a quoted parameter value: horizontal tab or
/// any byte above 31 except DEL (127).
pub open spec fn is_restricted_quoted_byte(c: u8) -> bool {
    c == 9 || (c > 31 && c != 127)
}

/// Decides membership in the RFC 7231 `token` alphabet.
pub fn is_token(c: u8) -> (r: bool)
    ensures
        r == is_token_byte(c),
{
    c == 33 || (35 <= c && c <= 39) || c == 43 || c == 45 || c == 46 || (48 <= c && c <= 57) || (65
        <= c && c <= 90) || c == 94 || c == 95 || c == 96 || (97 <= c && c <= 122) || c == 124 || c
        == 126
}

/// Decides whether a byte may stand inside a quoted parameter value.
pub fn is_restricted_quoted_char(c: u8) -> (r: bool)
    ensures
        r == is_restricted_quoted_byte(c),
{
    c == 9 || (c > 31 && c != 127)
}

} // verus!
