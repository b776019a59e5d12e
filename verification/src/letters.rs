//! The 26-letter alphabet of the corrector: character classes, lowercasing,
//! and the letter table used to build candidate strings.

use vstd::prelude::*;

verus! {

/// `c` is a lowercase ASCII letter, `a` through `z`.
pub open spec fn is_lower(c: char) -> bool {
    97 <= c as u32 && c as u32 <= 122
}

/// `c` is an uppercase ASCII letter, `A` through `Z`.
pub open spec fn is_upper(c: char) -> bool {
    65 <= c as u32 && c as u32 <= 90
}

/// `c` is an ASCII letter.
pub open spec fn is_letter(c: char) -> bool {
    is_lower(c) || is_upper(c)
}

/// Lowercasing of a single character: uppercase letters map to their
/// lowercase counterpart, everything else stays as it is.
pub open spec fn lower_char(c: char) -> char {
    if is_upper(c) {
        ((c as u32 + 32) as char)
    } else {
        c
    }
}

/// Every character of `w` is a lowercase ASCII letter.
pub open spec fn is_lower_word(w: Seq<char>) -> bool {
    forall|i: int| 0 <= i < w.len() ==> is_lower(#[trigger] w[i])
}

/// The `j`-th lowercase letter, as a character together with the
/// one-character string slice that spells it.
pub fn letter(j: u8) -> (r: (char, &'static str))
    requires
        j < 26,
    ensures
        r.0 as u32 == 97 + j,
        is_lower(r.0),
        r.1@ == seq![r.0],
{
    let pair: (char, &'static str) = match j {
        0 => ('a', "a"),
        1 => ('b', "b"),
        2 => ('c', "c"),
        3 => ('d', "d"),
        4 => ('e', "e"),
        5 => ('f', "f"),
        6 => ('g', "g"),
        7 => ('h', "h"),
        8 => ('i', "i"),
        9 => ('j', "j"),
        10 => ('k', "k"),
        11 => ('l', "l"),
        12 => ('m', "m"),
        13 => ('n', "n"),
        14 => ('o', "o"),
        15 => ('p', "p"),
        16 => ('q', "q"),
        17 => ('r', "r"),
        18 => ('s', "s"),
        19 => ('t', "t"),
        20 => ('u', "u"),
        21 => ('v', "v"),
        22 => ('w', "w"),
        23 => ('x', "x"),
        24 => ('y', "y"),
        _ => ('z', "z"),
    };
    proof {
        reveal_strlit("a");
        reveal_strlit("b");
        reveal_strlit("c");
        reveal_strlit("d");
        reveal_strlit("e");
        reveal_strlit("f");
        reveal_strlit("g");
        reveal_strlit("h");
        reveal_strlit("i");
        reveal_strlit("j");
        reveal_strlit("k");
        reveal_strlit("l");
        reveal_strlit("m");
        reveal_strlit("n");
        reveal_strlit("o");
        reveal_strlit("p");
        reveal_strlit("q");
        reveal_strlit("r");
        reveal_strlit("s");
        reveal_strlit("t");
        reveal_strlit("u");
        reveal_strlit("v");
        reveal_strlit("w");
        reveal_strlit("x");
        reveal_strlit("y");
        reveal_strlit("z");
        assert(pair.1@ =~= seq![pair.0]);
    }
    pair
}

/// The lowercase form of the letter `c`, as a one-character string slice.
pub fn lower_letter_str(c: char) -> (r: &'static str)
    requires
        is_letter(c),
    ensures
        r@ == seq![lower_char(c)],
        is_lower(lower_char(c)),
{
    let u = c as u32;
    let j: u8 = if 65 <= u && u <= 90 {
        (u - 65) as u8
    } else {
        (u - 97) as u8
    };
    let (d, s) = letter(j);
    proof {
        vstd::utf8::char_u32_cast(d, d as u32);
        vstd::utf8::char_u32_cast(lower_char(c), d as u32);
    }
    s
}

} // verus!
