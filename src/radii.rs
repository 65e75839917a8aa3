use vstd::prelude::*;
use vstd::string::is_ascii_spec_bytes;

verus! {

/// Covalent radius of an element in picometres, by its symbol; `None` for a
/// symbol that the table does not hold. `X` stands for a dummy atom of
/// radius zero, which bonds to nothing.
pub open spec fn radius_pm(s: Seq<char>) -> Option<u32> {
    if s == seq!['H'] {
        Some(37)
    } else if s == seq!['C'] {
        Some(77)
    } else if s == seq!['O'] {
        Some(73)
    } else if s == seq!['N'] {
        Some(75)
    } else if s == seq!['F'] {
        Some(71)
    } else if s == seq!['P'] {
        Some(110)
    } else if s == seq!['S'] {
        Some(103)
    } else if s == seq!['C', 'l'] {
        Some(99)
    } else if s == seq!['B', 'r'] {
        Some(114)
    } else if s == seq!['I'] {
        Some(133)
    } else if s == seq!['H', 'e'] {
        Some(30)
    } else if s == seq!['N', 'e'] {
        Some(84)
    } else if s == seq!['A', 'r'] {
        Some(100)
    } else if s == seq!['L', 'i'] {
        Some(102)
    } else if s == seq!['B', 'e'] {
        Some(27)
    } else if s == seq!['B'] {
        Some(88)
    } else if s == seq!['N', 'a'] {
        Some(102)
    } else if s == seq!['M', 'g'] {
        Some(72)
    } else if s == seq!['A', 'l'] {
        Some(130)
    } else if s == seq!['S', 'i'] {
        Some(118)
    } else if s == seq!['K'] {
        Some(138)
    } else if s == seq!['C', 'a'] {
        Some(100)
    } else if s == seq!['S', 'c'] {
        Some(75)
    } else if s == seq!['T', 'i'] {
        Some(86)
    } else if s == seq!['V'] {
        Some(79)
    } else if s == seq!['C', 'r'] {
        Some(73)
    } else if s == seq!['M', 'n'] {
        Some(67)
    } else if s == seq!['F', 'e'] {
        Some(61)
    } else if s == seq!['C', 'o'] {
        Some(64)
    } else if s == seq!['N', 'i'] {
        Some(55)
    } else if s == seq!['C', 'u'] {
        Some(46)
    } else if s == seq!['Z', 'n'] {
        Some(60)
    } else if s == seq!['G', 'a'] {
        Some(122)
    } else if s == seq!['G', 'e'] {
        Some(122)
    } else if s == seq!['A', 's'] {
        Some(122)
    } else if s == seq!['S', 'e'] {
        Some(117)
    } else if s == seq!['K', 'r'] {
        Some(103)
    } else if s == seq!['X'] {
        Some(0)
    } else {
        None
    }
}

proof fn lemma_table_is_ascii(s: Seq<char>)
    requires
        radius_pm(s) is Some,
    ensures
        vstd::utf8::is_ascii_chars(s),
        1 <= s.len() <= 2,
{
}

/// Looks up the covalent radius of `symbol`, in picometres.
pub fn covalent_radius(symbol: &str) -> (r: Option<u32>)
    ensures
        r == radius_pm(symbol@),
{
    if !symbol.is_ascii() {
        proof {
            if radius_pm(symbol@) is Some {
                lemma_table_is_ascii(symbol@);
            }
        }
        return None;
    }
    let b = symbol.as_bytes();
    proof {
        broadcast use is_ascii_spec_bytes;

        assert(b@ =~= Seq::new(symbol@.len(), |i| symbol@[i] as u8));
    }
    if b.len() == 1 {
        let c0 = b[0];
        proof {
            assert(symbol@ =~= seq![c0 as char]);
        }
        let r = {
            if c0 == 'H' as u8 {
                Some(37)
            } else if c0 == 'C' as u8 {
                Some(77)
            } else if c0 == 'O' as u8 {
                Some(73)
            } else if c0 == 'N' as u8 {
                Some(75)
            } else if c0 == 'F' as u8 {
                Some(71)
            } else if c0 == 'P' as u8 {
                Some(110)
            } else if c0 == 'S' as u8 {
                Some(103)
            } else if c0 == 'I' as u8 {
                Some(133)
            } else if c0 == 'B' as u8 {
                Some(88)
            } else if c0 == 'K' as u8 {
                Some(138)
            } else if c0 == 'V' as u8 {
                Some(79)
            } else if c0 == 'X' as u8 {
                Some(0)
            } else {
                None
            }
        };
        r
    } else if b.len() == 2 {
        let c0 = b[0];
        let c1 = b[1];
        proof {
            assert(symbol@ =~= seq![c0 as char, c1 as char]);
        }
        let r = {
            if c0 == 'C' as u8 && c1 == 'l' as u8 {
                Some(99)
            } else if c0 == 'B' as u8 && c1 == 'r' as u8 {
                Some(114)
            } else if c0 == 'H' as u8 && c1 == 'e' as u8 {
                Some(30)
            } else if c0 == 'N' as u8 && c1 == 'e' as u8 {
                Some(84)
            } else if c0 == 'A' as u8 && c1 == 'r' as u8 {
                Some(100)
            } else if c0 == 'L' as u8 && c1 == 'i' as u8 {
                Some(102)
            } else if c0 == 'B' as u8 && c1 == 'e' as u8 {
                Some(27)
            } else if c0 == 'N' as u8 && c1 == 'a' as u8 {
                Some(102)
            } else if c0 == 'M' as u8 && c1 == 'g' as u8 {
                Some(72)
            } else if c0 == 'A' as u8 && c1 == 'l' as u8 {
                Some(130)
            } else if c0 == 'S' as u8 && c1 == 'i' as u8 {
                Some(118)
            } else if c0 == 'C' as u8 && c1 == 'a' as u8 {
                Some(100)
            } else if c0 == 'S' as u8 && c1 == 'c' as u8 {
                Some(75)
            } else if c0 == 'T' as u8 && c1 == 'i' as u8 {
                Some(86)
            } else if c0 == 'C' as u8 && c1 == 'r' as u8 {
                Some(73)
            } else if c0 == 'M' as u8 && c1 == 'n' as u8 {
                Some(67)
            } else if c0 == 'F' as u8 && c1 == 'e' as u8 {
                Some(61)
            } else if c0 == 'C' as u8 && c1 == 'o' as u8 {
                Some(64)
            } else if c0 == 'N' as u8 && c1 == 'i' as u8 {
                Some(55)
            } else if c0 == 'C' as u8 && c1 == 'u' as u8 {
                Some(46)
            } else if c0 == 'Z' as u8 && c1 == 'n' as u8 {
                Some(60)
            } else if c0 == 'G' as u8 && c1 == 'a' as u8 {
                Some(122)
            } else if c0 == 'G' as u8 && c1 == 'e' as u8 {
                Some(122)
            } else if c0 == 'A' as u8 && c1 == 's' as u8 {
                Some(122)
            } else if c0 == 'S' as u8 && c1 == 'e' as u8 {
                Some(117)
            } else if c0 == 'K' as u8 && c1 == 'r' as u8 {
                Some(103)
            } else {
                None
            }
        };
        r
    } else {
        proof {
            if radius_pm(symbol@) is Some {
                lemma_table_is_ascii(symbol@);
            }
        }
        None
    }
}

} // verus!
