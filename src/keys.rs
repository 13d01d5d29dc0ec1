//! The vocabulary of the trigger side: separators, modifier keywords and key
//! names, and the limits of the format.
use vstd::prelude::*;
use crate::text::chars_of;

verus! {

/// The largest number of combinations one entry's trigger groups may have.
pub const PERMUTATION_LIMIT: usize = 1000;

/// The longest key name or modifier keyword, in characters.
pub const KEYSTR_MAX_LEN: usize = 16;

pub const MOD_SHIFT: u8 = 1;
pub const MOD_SUPER: u8 = 2;
pub const MOD_CTRL: u8 = 4;
pub const MOD_ALT: u8 = 8;

/// One key pressed together with a set of modifiers.
#[derive(Clone, Copy, Debug, PartialEq, Eq, Structural, PartialOrd, Ord, Hash)]
pub struct Chord {
    pub key: u16,
    pub modifiers: u8,
}

/// Characters that separate tokens on the trigger side.
pub open spec fn is_separator(c: char) -> bool {
    c == ' ' || c == '\t' || c == '\r' || c == '\n' || c == '+'
}

pub fn separator(c: char) -> (r: bool)
    ensures
        r == is_separator(c),
{
    c == ' ' || c == '\t' || c == '\r' || c == '\n' || c == '+'
}

/// Unicode white space, as `char::is_whitespace` defines it.
pub open spec fn is_white(c: char) -> bool {
    let u = c as u32;
    (0x9 <= u && u <= 0xd) || u == 0x20 || u == 0x85 || u == 0xa0 || u == 0x1680 || (0x2000 <= u
        && u <= 0x200a) || u == 0x2028 || u == 0x2029 || u == 0x202f || u == 0x205f || u == 0x3000
}

pub fn white(c: char) -> (r: bool)
    ensures
        r == is_white(c),
{
    let u = c as u32;
    (0x9 <= u && u <= 0xd) || u == 0x20 || u == 0x85 || u == 0xa0 || u == 0x1680 || (0x2000 <= u
        && u <= 0x200a) || u == 0x2028 || u == 0x2029 || u == 0x202f || u == 0x205f || u == 0x3000
}

/// The bit that a modifier keyword sets, or 0 for any other token.
pub open spec fn modifier_bit(name: Seq<char>) -> u8 {
    if name == "shift"@ {
        MOD_SHIFT
    } else if name == "super"@ {
        MOD_SUPER
    } else if name == "ctrl"@ {
        MOD_CTRL
    } else if name == "alt"@ {
        MOD_ALT
    } else {
        0
    }
}

/// The code of a key name: letters and digits stand for themselves, and a
/// few keys have a word.
pub open spec fn key_code(name: Seq<char>) -> Option<u16> {
    if name.len() == 1 && 'a' <= name[0] <= 'z' {
        Some((name[0] as u32 - 'a' as u32) as u16)
    } else if name.len() == 1 && '0' <= name[0] <= '9' {
        Some((name[0] as u32 - '0' as u32 + 26) as u16)
    } else if name == "space"@ {
        Some(36)
    } else if name == "return"@ {
        Some(37)
    } else if name == "tab"@ {
        Some(38)
    } else if name == "escape"@ {
        Some(39)
    } else if name == "backspace"@ {
        Some(40)
    } else if name == "comma"@ {
        Some(41)
    } else if name == "semicolon"@ {
        Some(42)
    } else if name == "up"@ {
        Some(43)
    } else if name == "down"@ {
        Some(44)
    } else if name == "left"@ {
        Some(45)
    } else if name == "right"@ {
        Some(46)
    } else if name == "delete"@ {
        Some(47)
    } else {
        None
    }
}

/// Whether `name` spells `word`.
fn spells(name: &Vec<char>, word: &str) -> (r: bool)
    ensures
        r == (name@ == word@),
{
    let w = chars_of(word);
    if name.len() != w.len() {
        return false;
    }
    let mut i: usize = 0;
    while i < w.len()
        invariant
            w@ == word@,
            name@.len() == w@.len(),
            i <= w@.len(),
            forall|j: int| 0 <= j < i ==> name@[j] == w@[j],
        decreases w@.len() - i,
    {
        if name[i] != w[i] {
            return false;
        }
        i += 1;
    }
    assert(name@ =~= w@);
    true
}

pub fn modifier_of(name: &Vec<char>) -> (r: u8)
    ensures
        r == modifier_bit(name@),
{
    if spells(name, "shift") {
        MOD_SHIFT
    } else if spells(name, "super") {
        MOD_SUPER
    } else if spells(name, "ctrl") {
        MOD_CTRL
    } else if spells(name, "alt") {
        MOD_ALT
    } else {
        0
    }
}

pub fn key_of(name: &Vec<char>) -> (r: Option<u16>)
    ensures
        r == key_code(name@),
{
    if name.len() == 1 && 'a' <= name[0] && name[0] <= 'z' {
        Some((name[0] as u32 - 'a' as u32) as u16)
    } else if name.len() == 1 && '0' <= name[0] && name[0] <= '9' {
        Some((name[0] as u32 - '0' as u32 + 26) as u16)
    } else if spells(name, "space") {
        Some(36)
    } else if spells(name, "return") {
        Some(37)
    } else if spells(name, "tab") {
        Some(38)
    } else if spells(name, "escape") {
        Some(39)
    } else if spells(name, "backspace") {
        Some(40)
    } else if spells(name, "comma") {
        Some(41)
    } else if spells(name, "semicolon") {
        Some(42)
    } else if spells(name, "up") {
        Some(43)
    } else if spells(name, "down") {
        Some(44)
    } else if spells(name, "left") {
        Some(45)
    } else if spells(name, "right") {
        Some(46)
    } else if spells(name, "delete") {
        Some(47)
    } else {
        None
    }
}

} // verus!
