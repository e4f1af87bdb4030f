//! The table of recognized size units.

use vstd::prelude::*;
use vstd::string::StringSliceAdditionalSpecFns;

verus! {

/// A byte-size unit: either a decimal multiple of 1000 or a binary multiple
/// of 1024.
///
/// Several input symbols may resolve to the same unit (for example `"KiB"`,
/// `"KB"` and `"K"` all mean [`Unit::Kibibyte`]); each unit has exactly one
/// canonical output symbol.
#[derive(Copy, Clone, Debug, Eq, PartialEq, Structural)]
pub enum Unit {
    /// 1 byte, symbol `"B"` (or the empty symbol).
    Byte,
    /// 1000 bytes, symbol `"kB"`.
    Kilobyte,
    /// 1000^2 bytes, symbol `"MB"`.
    Megabyte,
    /// 1000^3 bytes, symbol `"GB"`.
    Gigabyte,
    /// 1000^4 bytes, symbol `"TB"`.
    Terabyte,
    /// 1024 bytes, symbols `"KiB"`, `"KB"` and `"K"`.
    Kibibyte,
    /// 1024^2 bytes, symbols `"MiB"` and `"M"`.
    Mebibyte,
    /// 1024^3 bytes, symbols `"GiB"` and `"G"`.
    Gigibyte,
    /// 1024^4 bytes, symbols `"TiB"` and `"T"`.
    Tebibyte,
}

/// The byte multiplier of a unit.
pub open spec fn multiplier(u: Unit) -> nat {
    match u {
        Unit::Byte => 1,
        Unit::Kilobyte => 1000,
        Unit::Megabyte => 1000000,
        Unit::Gigabyte => 1000000000,
        Unit::Terabyte => 1000000000000,
        Unit::Kibibyte => 1024,
        Unit::Mebibyte => 1048576,
        Unit::Gigibyte => 1073741824,
        Unit::Tebibyte => 1099511627776,
    }
}

/// The canonical rendering of a unit, as ASCII bytes.
pub open spec fn symbol_bytes(u: Unit) -> Seq<u8> {
    match u {
        Unit::Byte => seq![66u8],
        Unit::Kilobyte => seq![107u8, 66u8],
        Unit::Megabyte => seq![77u8, 66u8],
        Unit::Gigabyte => seq![71u8, 66u8],
        Unit::Terabyte => seq![84u8, 66u8],
        Unit::Kibibyte => seq![75u8, 105u8, 66u8],
        Unit::Mebibyte => seq![77u8, 105u8, 66u8],
        Unit::Gigibyte => seq![71u8, 105u8, 66u8],
        Unit::Tebibyte => seq![84u8, 105u8, 66u8],
    }
}

/// The unit a symbol resolves to, if any.  Matching is exact and
/// case-sensitive; the empty symbol resolves to [`Unit::Byte`], so a bare
/// number is a byte count.
pub open spec fn unit_of_symbol(s: Seq<u8>) -> Option<Unit> {
    if s.len() == 0 || s =~= seq![66u8] {
        Some(Unit::Byte)
    } else if s =~= seq![107u8, 66u8] {
        Some(Unit::Kilobyte)
    } else if s =~= seq![77u8, 66u8] {
        Some(Unit::Megabyte)
    } else if s =~= seq![71u8, 66u8] {
        Some(Unit::Gigabyte)
    } else if s =~= seq![84u8, 66u8] {
        Some(Unit::Terabyte)
    } else if s =~= seq![75u8, 105u8, 66u8] || s =~= seq![75u8, 66u8] || s =~= seq![75u8] {
        Some(Unit::Kibibyte)
    } else if s =~= seq![77u8, 105u8, 66u8] || s =~= seq![77u8] {
        Some(Unit::Mebibyte)
    } else if s =~= seq![71u8, 105u8, 66u8] || s =~= seq![71u8] {
        Some(Unit::Gigibyte)
    } else if s =~= seq![84u8, 105u8, 66u8] || s =~= seq![84u8] {
        Some(Unit::Tebibyte)
    } else {
        None
    }
}

/// The canonical rendering of a unit, as text.
pub open spec fn symbol_chars(u: Unit) -> Seq<char> {
    symbol_bytes(u).map_values(|b: u8| b as char)
}

/// Every canonical symbol resolves back to its own unit, and no symbol
/// contains a decimal digit (so a symbol never steals digits from the
/// magnitude in front of it).
pub proof fn lemma_canonical_symbol(u: Unit)
    ensures
        unit_of_symbol(symbol_bytes(u)) == Some(u),
        forall|i: int|
            0 <= i < symbol_bytes(u).len() ==> !crate::digits::is_ascii_digit(symbol_bytes(u)[i]),
{
    match u {
        Unit::Byte => {
            assert(symbol_bytes(u) =~= seq![66u8]);
        },
        Unit::Kilobyte => {
            assert(symbol_bytes(u) =~= seq![107u8, 66u8]);
        },
        Unit::Megabyte => {
            assert(symbol_bytes(u) =~= seq![77u8, 66u8]);
        },
        Unit::Gigabyte => {
            assert(symbol_bytes(u) =~= seq![71u8, 66u8]);
        },
        Unit::Terabyte => {
            assert(symbol_bytes(u) =~= seq![84u8, 66u8]);
        },
        Unit::Kibibyte => {
            assert(symbol_bytes(u) =~= seq![75u8, 105u8, 66u8]);
        },
        Unit::Mebibyte => {
            assert(symbol_bytes(u) =~= seq![77u8, 105u8, 66u8]);
        },
        Unit::Gigibyte => {
            assert(symbol_bytes(u) =~= seq![71u8, 105u8, 66u8]);
        },
        Unit::Tebibyte => {
            assert(symbol_bytes(u) =~= seq![84u8, 105u8, 66u8]);
        },
    }
}

/// A recognized symbol never contains a decimal digit.
pub proof fn lemma_symbol_no_digits(sym: Seq<u8>)
    requires
        unit_of_symbol(sym) is Some,
    ensures
        forall|i: int| 0 <= i < sym.len() ==> !crate::digits::is_ascii_digit(sym[i]),
{
    if sym.len() == 0 {
    } else if sym =~= seq![66u8] {
    } else if sym =~= seq![107u8, 66u8] {
    } else if sym =~= seq![77u8, 66u8] {
    } else if sym =~= seq![71u8, 66u8] {
    } else if sym =~= seq![84u8, 66u8] {
    } else if sym =~= seq![75u8, 105u8, 66u8] {
    } else if sym =~= seq![75u8, 66u8] {
    } else if sym =~= seq![75u8] {
    } else if sym =~= seq![77u8, 105u8, 66u8] {
    } else if sym =~= seq![77u8] {
    } else if sym =~= seq![71u8, 105u8, 66u8] {
    } else if sym =~= seq![71u8] {
    } else if sym =~= seq![84u8, 105u8, 66u8] {
    } else if sym =~= seq![84u8] {
    } else {
        assert(unit_of_symbol(sym) is None);
    }
}

impl Unit {
    /// The number of bytes that one of this unit stands for.
    pub fn into_size_bytes(self) -> (r: u64)
        ensures
            r == multiplier(self),
    {
        match self {
            Unit::Byte => 1,
            Unit::Kilobyte => 1000,
            Unit::Megabyte => 1000000,
            Unit::Gigabyte => 1000000000,
            Unit::Terabyte => 1000000000000,
            Unit::Kibibyte => 1024,
            Unit::Mebibyte => 1048576,
            Unit::Gigibyte => 1073741824,
            Unit::Tebibyte => 1099511627776,
        }
    }

    /// The canonical display symbol of this unit.
    pub fn symbol(&self) -> (r: &'static str)
        ensures
            r@ == symbol_chars(*self),
    {
        match self {
            Unit::Byte => {
                proof {
                    reveal_strlit("B");
                    assert("B"@ =~= symbol_chars(Unit::Byte));
                }
                "B"
            },
            Unit::Kilobyte => {
                proof {
                    reveal_strlit("kB");
                    assert("kB"@ =~= symbol_chars(Unit::Kilobyte));
                }
                "kB"
            },
            Unit::Megabyte => {
                proof {
                    reveal_strlit("MB");
                    assert("MB"@ =~= symbol_chars(Unit::Megabyte));
                }
                "MB"
            },
            Unit::Gigabyte => {
                proof {
                    reveal_strlit("GB");
                    assert("GB"@ =~= symbol_chars(Unit::Gigabyte));
                }
                "GB"
            },
            Unit::Terabyte => {
                proof {
                    reveal_strlit("TB");
                    assert("TB"@ =~= symbol_chars(Unit::Terabyte));
                }
                "TB"
            },
            Unit::Kibibyte => {
                proof {
                    reveal_strlit("KiB");
                    assert("KiB"@ =~= symbol_chars(Unit::Kibibyte));
                }
                "KiB"
            },
            Unit::Mebibyte => {
                proof {
                    reveal_strlit("MiB");
                    assert("MiB"@ =~= symbol_chars(Unit::Mebibyte));
                }
                "MiB"
            },
            Unit::Gigibyte => {
                proof {
                    reveal_strlit("GiB");
                    assert("GiB"@ =~= symbol_chars(Unit::Gigibyte));
                }
                "GiB"
            },
            Unit::Tebibyte => {
                proof {
                    reveal_strlit("TiB");
                    assert("TiB"@ =~= symbol_chars(Unit::Tebibyte));
                }
                "TiB"
            },
        }
    }

    /// Resolves a unit symbol given as raw bytes.
    pub fn from_symbol_bytes(s: &[u8]) -> (r: Option<Unit>)
        ensures
            r == unit_of_symbol(s@),
    {
        if s.len() == 0 {
            Some(Unit::Byte)
        } else if s.len() == 1 {
            let b = s[0];
            proof {
                assert(s@ =~= seq![s@[0]]);
            }
            match b {
                66 => Some(Unit::Byte),
                75 => Some(Unit::Kibibyte),
                77 => Some(Unit::Mebibyte),
                71 => Some(Unit::Gigibyte),
                84 => Some(Unit::Tebibyte),
                _ => None,
            }
        } else if s.len() == 2 {
            let b0 = s[0];
            let b1 = s[1];
            proof {
                assert(s@ =~= seq![s@[0], s@[1]]);
            }
            if b1 != 66 {
                None
            } else {
                match b0 {
                    107 => Some(Unit::Kilobyte),
                    77 => Some(Unit::Megabyte),
                    71 => Some(Unit::Gigabyte),
                    84 => Some(Unit::Terabyte),
                    75 => Some(Unit::Kibibyte),
                    _ => None,
                }
            }
        } else if s.len() == 3 {
            let b0 = s[0];
            let b1 = s[1];
            let b2 = s[2];
            proof {
                assert(s@ =~= seq![s@[0], s@[1], s@[2]]);
            }
            if b1 != 105 || b2 != 66 {
                None
            } else {
                match b0 {
                    75 => Some(Unit::Kibibyte),
                    77 => Some(Unit::Mebibyte),
                    71 => Some(Unit::Gigibyte),
                    84 => Some(Unit::Tebibyte),
                    _ => None,
                }
            }
        } else {
            None
        }
    }

    /// Resolves a unit symbol given as text.
    pub fn from_symbol(s: &str) -> (r: Option<Unit>)
        ensures
            r == unit_of_symbol(s.spec_bytes()),
    {
        Unit::from_symbol_bytes(s.as_bytes())
    }
}

} // verus!
