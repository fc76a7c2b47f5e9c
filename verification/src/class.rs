//! Character classes of the notation.

use vstd::prelude::*;

verus! {

/// Padding: blank, tab and line feed.
pub open spec fn is_space(c: char) -> bool {
    c == ' ' || c == '\t' || c == '\n'
}

/// What must follow a literal: padding or a closing parenthesis.
pub open spec fn is_separator(c: char) -> bool {
    is_space(c) || c == ')'
}

/// A decimal digit.
pub open spec fn is_digit(c: char) -> bool {
    '0' <= c && c <= '9'
}

/// A hexadecimal digit, in either case.
pub open spec fn is_hex_digit(c: char) -> bool {
    is_digit(c) || ('a' <= c && c <= 'f') || ('A' <= c && c <= 'F')
}

/// A character that may stand in a bare symbol.
pub open spec fn is_symbol_char(c: char) -> bool {
    !is_space(c) && c != '"' && c != '(' && c != ')'
}

/// A character that stands for itself inside a quoted string.
pub open spec fn is_plain_char(c: char) -> bool {
    c != '\\' && c != '"'
}

/// A character that may follow a backslash inside a quoted string.
pub open spec fn is_escape_code(c: char) -> bool {
    c == '\\' || c == '"' || c == 'n' || c == 't'
}

/// The sets of characters that the recognisers scan over.
#[derive(Clone, Copy, Debug, PartialEq, Eq)]
pub enum CharClass {
    Space,
    Separator,
    Digit,
    HexDigit,
    Symbol,
}

impl CharClass {
    /// Whether `c` belongs to the class.
    pub open spec fn has(self, c: char) -> bool {
        match self {
            CharClass::Space => is_space(c),
            CharClass::Separator => is_separator(c),
            CharClass::Digit => is_digit(c),
            CharClass::HexDigit => is_hex_digit(c),
            CharClass::Symbol => is_symbol_char(c),
        }
    }

    /// Tests `c` for membership.
    pub fn contains(self, c: char) -> (b: bool)
        ensures
            b == self.has(c),
    {
        match self {
            CharClass::Space => c == ' ' || c == '\t' || c == '\n',
            CharClass::Separator => c == ' ' || c == '\t' || c == '\n' || c == ')',
            CharClass::Digit => '0' <= c && c <= '9',
            CharClass::HexDigit => ('0' <= c && c <= '9') || ('a' <= c && c <= 'f') || ('A' <= c
                && c <= 'F'),
            CharClass::Symbol => !(c == ' ' || c == '\t' || c == '\n' || c == '"' || c == '('
                || c == ')'),
        }
    }
}

} // verus!
