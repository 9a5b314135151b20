//! Runes: the 26 case-insensitive Latin letters that the cipher machine
//! processes, represented internally by an index in `[0, 25]`.

use vstd::prelude::*;

verus! {

/// Number of distinct runes (the alphabet size).
pub const RUNE_SET_SIZE: u8 = 26;

/// Largest legal rune value.
pub const RUNE_VALUE_MAX: u8 = 25;

/// Error indicating that the value of a rune is out of range.
#[derive(Clone, Copy, Debug)]
pub struct RuneOutOfRangeError;

/// True when `c` is an ASCII Latin letter, of either case.
pub open spec fn is_letter_char(c: char) -> bool {
    ('A' <= c && c <= 'Z') || ('a' <= c && c <= 'z')
}

/// The alphabet index of the letter `c`, counting `A`/`a` as 0.
pub open spec fn letter_index(c: char) -> int {
    if 'A' <= c && c <= 'Z' {
        c as int - 65
    } else {
        c as int - 97
    }
}

/// The canonical (upper-case) letter with alphabet index `v`.
pub open spec fn letter_char(v: int) -> char {
    ((v + 65) as u8) as char
}

/// The character at position `k` of `s` is a letter with alphabet
/// index `v`.
pub open spec fn letter_at(s: Seq<char>, k: int, v: u8) -> bool {
    is_letter_char(s[k]) && v == letter_index(s[k])
}

/// A rune: one of the 26 case-insensitive Latin letters.
#[derive(Clone, Copy, Debug)]
pub struct Rune {
    value: u8,
}

impl Rune {
    /// The alphabet index of this rune.
    pub closed spec fn spec_value(self) -> u8 {
        self.value
    }

    #[verifier::type_invariant]
    spec fn rune_inv(self) -> bool {
        self.value <= RUNE_VALUE_MAX
    }

    /// Create a rune from the specified letter index.
    pub fn from_value(value: u8) -> (r: Result<Self, RuneOutOfRangeError>)
        ensures
            value <= RUNE_VALUE_MAX <==> r is Ok,
            r is Ok ==> r->Ok_0.spec_value() == value,
    {
        if value > RUNE_VALUE_MAX {
            return Err(RuneOutOfRangeError);
        }
        Ok(Self { value })
    }

    /// Internal constructor for indices already known to be in range.
    pub(crate) fn from_value_internal(value: u8) -> (r: Self)
        requires
            value <= RUNE_VALUE_MAX,
        ensures
            r.spec_value() == value,
    {
        Self { value }
    }

    /// The letter index represented by this rune.
    pub fn value(&self) -> (r: u8)
        ensures
            r == self.spec_value(),
            r <= RUNE_VALUE_MAX,
    {
        proof {
            use_type_invariant(*self);
        }
        self.value
    }

    /// Create a rune from the specified character, normalizing case.
    pub fn from_char(value: char) -> (r: Result<Self, RuneOutOfRangeError>)
        ensures
            is_letter_char(value) <==> r is Ok,
            r is Ok ==> r->Ok_0.spec_value() == letter_index(value),
    {
        if value >= 'A' && value <= 'Z' {
            Ok(Self { value: (value as u8) - 65 })
        } else if value >= 'a' && value <= 'z' {
            Ok(Self { value: (value as u8) - 97 })
        } else {
            Err(RuneOutOfRangeError)
        }
    }

    /// Convert this rune into the corresponding upper-case letter.
    pub fn into_char(self) -> (r: char)
        ensures
            r == letter_char(self.spec_value() as int),
            is_letter_char(r),
            letter_index(r) == self.spec_value(),
    {
        proof {
            use_type_invariant(self);
        }
        (self.value + 65) as char
    }

    /// Convert this rune into a one-character string holding the
    /// represented upper-case letter.
    pub fn into_string(self) -> (r: String)
        ensures
            r@ == seq![letter_char(self.spec_value() as int)],
    {
        let s: &'static str = self.char_str();
        s.to_owned()
    }

    /// Convert the specified ASCII character into a rune.
    pub fn from_ascii(value: u8) -> (r: Result<Self, RuneOutOfRangeError>)
        ensures
            is_letter_char(value as char) <==> r is Ok,
            r is Ok ==> r->Ok_0.spec_value() == letter_index(value as char),
    {
        Self::from_char(value as char)
    }

    /// Convert this rune into the ASCII code of its upper-case letter.
    pub fn into_ascii(self) -> (r: u8)
        ensures
            r == self.spec_value() + 65,
    {
        proof {
            use_type_invariant(self);
        }
        self.value + 65
    }

    /// The one-character string literal for this rune's upper-case letter.
    fn char_str(self) -> (r: &'static str)
        ensures
            r@ == seq![letter_char(self.spec_value() as int)],
    {
        proof {
            use_type_invariant(self);
        }
        match self.value {
            0 => {
                proof { reveal_strlit("A"); }
                "A"
            },
            1 => {
                proof { reveal_strlit("B"); }
                "B"
            },
            2 => {
                proof { reveal_strlit("C"); }
                "C"
            },
            3 => {
                proof { reveal_strlit("D"); }
                "D"
            },
            4 => {
                proof { reveal_strlit("E"); }
                "E"
            },
            5 => {
                proof { reveal_strlit("F"); }
                "F"
            },
            6 => {
                proof { reveal_strlit("G"); }
                "G"
            },
            7 => {
                proof { reveal_strlit("H"); }
                "H"
            },
            8 => {
                proof { reveal_strlit("I"); }
                "I"
            },
            9 => {
                proof { reveal_strlit("J"); }
                "J"
            },
            10 => {
                proof { reveal_strlit("K"); }
                "K"
            },
            11 => {
                proof { reveal_strlit("L"); }
                "L"
            },
            12 => {
                proof { reveal_strlit("M"); }
                "M"
            },
            13 => {
                proof { reveal_strlit("N"); }
                "N"
            },
            14 => {
                proof { reveal_strlit("O"); }
                "O"
            },
            15 => {
                proof { reveal_strlit("P"); }
                "P"
            },
            16 => {
                proof { reveal_strlit("Q"); }
                "Q"
            },
            17 => {
                proof { reveal_strlit("R"); }
                "R"
            },
            18 => {
                proof { reveal_strlit("S"); }
                "S"
            },
            19 => {
                proof { reveal_strlit("T"); }
                "T"
            },
            20 => {
                proof { reveal_strlit("U"); }
                "U"
            },
            21 => {
                proof { reveal_strlit("V"); }
                "V"
            },
            22 => {
                proof { reveal_strlit("W"); }
                "W"
            },
            23 => {
                proof { reveal_strlit("X"); }
                "X"
            },
            24 => {
                proof { reveal_strlit("Y"); }
                "Y"
            },
            _ => {
                proof { reveal_strlit("Z"); }
                "Z"
            },
        }
    }
}

impl PartialEq for Rune {
    fn eq(&self, other: &Rune) -> (r: bool) {
        self.value == other.value
    }
}

impl Eq for Rune {

}

impl vstd::std_specs::cmp::PartialEqSpecImpl for Rune {
    open spec fn obeys_eq_spec() -> bool {
        true
    }

    open spec fn eq_spec(&self, other: &Rune) -> bool {
        self.spec_value() == other.spec_value()
    }
}

impl PartialEq<char> for Rune {
    fn eq(&self, other: &char) -> (r: bool) {
        proof {
            use_type_invariant(*self);
        }
        let c = *other;
        if c >= 'A' && c <= 'Z' {
            self.value == (c as u8) - 65
        } else if c >= 'a' && c <= 'z' {
            self.value == (c as u8) - 97
        } else {
            false
        }
    }
}

impl vstd::std_specs::cmp::PartialEqSpecImpl<char> for Rune {
    open spec fn obeys_eq_spec() -> bool {
        true
    }

    open spec fn eq_spec(&self, other: &char) -> bool {
        is_letter_char(*other) && letter_index(*other) == self.spec_value()
    }
}

impl PartialEq<Rune> for char {
    fn eq(&self, other: &Rune) -> (r: bool) {
        proof {
            use_type_invariant(*other);
        }
        let c = *self;
        if c >= 'A' && c <= 'Z' {
            (c as u8) - 65 == other.value
        } else if c >= 'a' && c <= 'z' {
            (c as u8) - 97 == other.value
        } else {
            false
        }
    }
}

impl vstd::std_specs::cmp::PartialEqSpecImpl<Rune> for char {
    open spec fn obeys_eq_spec() -> bool {
        true
    }

    open spec fn eq_spec(&self, other: &Rune) -> bool {
        is_letter_char(*self) && letter_index(*self) == other.spec_value()
    }
}

} // verus!
