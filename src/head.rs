//! The trigger side of an entry: splitting its text into fields, and turning
//! the fields of one variant into chords.
use vstd::prelude::*;
use crate::error::ParseError;
use crate::keys::{is_separator, key_code, key_of, modifier_bit, modifier_of, separator, Chord};
use crate::text::copy_range;

verus! {

/// The first index at or after `i` and before `hi` that is no separator, or `hi`.
pub open spec fn skip_separators(s: Seq<char>, i: int, hi: int) -> int
    decreases hi - i,
{
    if i >= hi || !is_separator(s[i]) {
        i
    } else {
        skip_separators(s, i + 1, hi)
    }
}

/// Characters that end a token.
pub open spec fn is_delimiter(c: char) -> bool {
    c == '{' || c == '}' || c == ',' || c == ';' || is_separator(c)
}

/// Splits off the field that starts at `pos`, having read the token
/// characters `s[pos..i)`: where the field ends, and where the next one
/// starts. A brace pair, a comma or a semicolon at `pos` is a field of its
/// own; otherwise the field is a run of token characters. Separators after a
/// field are skipped.
pub open spec fn lex_from(s: Seq<char>, pos: int, i: int, hi: int) -> (int, int)
    decreases hi - i,
{
    if i >= hi {
        (hi, hi)
    } else if s[i] == '{' || s[i] == '}' {
        if i == pos {
            let e = if hi - i >= 2 { i + 2 } else { hi };
            (e, skip_separators(s, e, hi))
        } else {
            (i, i)
        }
    } else if s[i] == ',' || s[i] == ';' {
        if i == pos {
            (i + 1, skip_separators(s, i + 1, hi))
        } else {
            (i, i)
        }
    } else if is_separator(s[i]) {
        (i, skip_separators(s, i + 1, hi))
    } else {
        lex_from(s, pos, i + 1, hi)
    }
}

/// The fields of `s[pos..hi)`.
pub open spec fn head_fields(s: Seq<char>, pos: int, hi: int) -> Seq<Seq<char>>
    decreases hi - pos,
{
    if pos >= hi {
        Seq::empty()
    } else {
        let (d, n) = lex_from(s, pos, pos, hi);
        if pos < n <= hi {
            seq![s.subrange(pos, d)] + head_fields(s, n, hi)
        } else {
            seq![s.subrange(pos, d)]
        }
    }
}

pub open spec fn is_open_field(f: Seq<char>) -> bool {
    f.len() == 2 && f[0] == '{' && f[1] == '{'
}

pub open spec fn is_close_field(f: Seq<char>) -> bool {
    f.len() == 2 && f[0] == '}' && f[1] == '}'
}

pub open spec fn is_comma_field(f: Seq<char>) -> bool {
    f.len() == 1 && f[0] == ','
}

pub open spec fn is_chord_field(f: Seq<char>) -> bool {
    f.len() == 1 && f[0] == ';'
}

/// What can be wrong with one variant of a trigger.
pub enum HeadFault {
    NoKey,
    SecondKey,
    UnknownKey(Seq<char>),
}

/// Progress through the fields of one trigger variant. `skip` is 0 while
/// fields are read, 1 while the members before the chosen one are passed
/// over (`count` commas seen, `choice` wanted), and 2 while the members
/// after it are passed over.
pub struct HeadWalk {
    pub set_index: int,
    pub skip: int,
    pub count: int,
    pub choice: int,
    pub modifiers: u8,
    pub key: Option<u16>,
    pub chords: Seq<Chord>,
    pub fault: Option<HeadFault>,
}

pub open spec fn walk_start() -> HeadWalk {
    HeadWalk {
        set_index: 0,
        skip: 0,
        count: 0,
        choice: 0,
        modifiers: 0,
        key: None,
        chords: Seq::empty(),
        fault: None,
    }
}

/// Ends the current chord: it needs a key.
pub open spec fn close_chord(w: HeadWalk) -> HeadWalk {
    match w.key {
        Some(k) => HeadWalk {
            chords: w.chords.push(Chord { key: k, modifiers: w.modifiers }),
            key: None,
            modifiers: 0,
            ..w
        },
        None => HeadWalk { fault: Some(HeadFault::NoKey), ..w },
    }
}

/// Reads one field outside any skipping.
pub open spec fn read_field(w: HeadWalk, f: Seq<char>, sel: Seq<usize>) -> HeadWalk {
    if is_open_field(f) {
        HeadWalk {
            skip: 1,
            count: 0,
            choice: if 0 <= w.set_index < sel.len() { sel[w.set_index] as int } else { 0 },
            ..w
        }
    } else if is_comma_field(f) {
        HeadWalk { skip: 2, ..w }
    } else if is_close_field(f) {
        HeadWalk { set_index: w.set_index + 1, ..w }
    } else if is_chord_field(f) {
        close_chord(w)
    } else if modifier_bit(f) != 0 {
        HeadWalk { modifiers: w.modifiers | modifier_bit(f), ..w }
    } else if f.len() == 0 {
        w
    } else if w.key is Some {
        HeadWalk { fault: Some(HeadFault::SecondKey), ..w }
    } else {
        match key_code(f) {
            Some(k) => HeadWalk { key: Some(k), ..w },
            None => HeadWalk { fault: Some(HeadFault::UnknownKey(f)), ..w },
        }
    }
}

/// One field: inside a group, members other than the chosen one are passed
/// over.
pub open spec fn walk_step(w: HeadWalk, f: Seq<char>, sel: Seq<usize>) -> HeadWalk {
    if w.fault is Some {
        w
    } else if w.skip == 1 {
        if w.count >= w.choice {
            read_field(HeadWalk { skip: 0, ..w }, f, sel)
        } else {
            HeadWalk { count: if is_comma_field(f) { w.count + 1 } else { w.count }, ..w }
        }
    } else if w.skip == 2 {
        if is_close_field(f) {
            read_field(HeadWalk { skip: 0, ..w }, f, sel)
        } else {
            w
        }
    } else {
        read_field(w, f, sel)
    }
}

pub open spec fn walk(fs: Seq<Seq<char>>, sel: Seq<usize>) -> HeadWalk
    decreases fs.len(),
{
    if fs.len() == 0 {
        walk_start()
    } else {
        walk_step(walk(fs.drop_last(), sel), fs.last(), sel)
    }
}

/// The chords of the variant of the trigger `s[lo..hi)` that `sel` selects.
pub open spec fn head_variant(s: Seq<char>, lo: int, hi: int, sel: Seq<usize>) -> Result<
    Seq<Chord>,
    HeadFault,
> {
    let w = walk(head_fields(s, lo, hi), sel);
    let end = if w.fault is Some { w } else { close_chord(w) };
    match end.fault {
        Some(f) => Err(f),
        None => Ok(end.chords),
    }
}

/// The error reports the fault.
pub open spec fn reports(e: ParseError, f: HeadFault) -> bool {
    match (e, f) {
        (ParseError::NoKey { .. }, HeadFault::NoKey) => true,
        (ParseError::SecondKey { .. }, HeadFault::SecondKey) => true,
        (ParseError::UnknownKey { name, .. }, HeadFault::UnknownKey(n)) => name@ == n,
        _ => false,
    }
}

fn skip_separators_exec(s: &Vec<char>, i: usize, hi: usize) -> (r: usize)
    requires
        i <= hi <= s@.len(),
    ensures
        r == skip_separators(s@, i as int, hi as int),
        i <= r <= hi,
{
    let mut j = i;
    while j < hi && separator(s[j])
        invariant
            i <= j <= hi <= s@.len(),
            skip_separators(s@, j as int, hi as int) == skip_separators(s@, i as int, hi as int),
        decreases hi - j,
    {
        j += 1;
    }
    j
}

/// Splits off the field of `s[pos..hi)` that starts at `pos`: returns where
/// it ends and where the next one starts.
pub fn head_lexer(s: &Vec<char>, pos: usize, hi: usize) -> (r: (usize, usize))
    requires
        pos < hi <= s@.len(),
    ensures
        (r.0 as int, r.1 as int) == lex_from(s@, pos as int, pos as int, hi as int),
        pos <= r.0 <= r.1 <= hi,
        pos < r.1,
{
    let mut i = pos;
    while i < hi && !(s[i] == '{' || s[i] == '}' || s[i] == ',' || s[i] == ';' || separator(s[i]))
        invariant
            pos <= i <= hi <= s@.len(),
            lex_from(s@, pos as int, i as int, hi as int) == lex_from(
                s@,
                pos as int,
                pos as int,
                hi as int,
            ),
        decreases hi - i,
    {
        i += 1;
    }
    if i >= hi {
        return (hi, hi);
    }
    let c = s[i];
    if c == '{' || c == '}' {
        if i == pos {
            let e = if hi - i >= 2 { i + 2 } else { hi };
            (e, skip_separators_exec(s, e, hi))
        } else {
            (i, i)
        }
    } else if c == ',' || c == ';' {
        if i == pos {
            (i + 1, skip_separators_exec(s, i + 1, hi))
        } else {
            (i, i)
        }
    } else {
        (i, skip_separators_exec(s, i + 1, hi))
    }
}

proof fn lemma_fault_sticks(fs: Seq<Seq<char>>, k: int, sel: Seq<usize>)
    requires
        0 <= k <= fs.len(),
        walk(fs.take(k), sel).fault is Some,
    ensures
        walk(fs, sel) == walk(fs.take(k), sel),
    decreases fs.len() - k,
{
    if k < fs.len() {
        assert(fs.take(k + 1).drop_last() =~= fs.take(k));
        lemma_fault_sticks(fs, k + 1, sel);
    } else {
        assert(fs.take(k) =~= fs);
    }
}

/// Appends the chords of one variant of the trigger `s[lo..hi)`, the one
/// that `sel` selects, to `memory`. Returns how many were appended.
pub fn push_head_variant(
    memory: &mut Vec<Chord>,
    s: &Vec<char>,
    lo: usize,
    hi: usize,
    sel: &Vec<usize>,
    row: usize,
) -> (r: Result<usize, ParseError>)
    requires
        lo <= hi <= s@.len(),
    ensures
        match head_variant(s@, lo as int, hi as int, sel@) {
            Ok(cs) => r is Ok && r->Ok_0 == cs.len() && final(memory)@ == old(memory)@ + cs,
            Err(f) => r is Err && reports(r->Err_0, f),
        },
{
    let ghost all = head_fields(s@, lo as int, hi as int);
    let old_len = memory.len();
    let mut pos = lo;
    let mut set_index: usize = 0;
    let mut skip: u8 = 0;
    let mut count: usize = 0;
    let mut choice: usize = 0;
    let mut modifiers: u8 = 0;
    let mut key: Option<u16> = None;
    let ghost mut consumed: Seq<Seq<char>> = Seq::empty();
    while pos < hi
        invariant
            lo <= pos <= hi <= s@.len(),
            all == head_fields(s@, lo as int, hi as int),
            consumed + head_fields(s@, pos as int, hi as int) == all,
            consumed.len() <= pos - lo,
            set_index <= consumed.len(),
            count <= consumed.len(),
            skip <= 2,
            old_len == old(memory)@.len(),
            ({
                let w = walk(consumed, sel@);
                &&& w.set_index == set_index
                &&& w.skip == skip
                &&& w.count == count
                &&& w.choice == choice
                &&& w.modifiers == modifiers
                &&& w.key == key
                &&& w.fault is None
                &&& memory@ == old(memory)@ + w.chords
            }),
        decreases hi - pos,
    {
        let (d, n) = head_lexer(s, pos, hi);
        let ghost f = s@.subrange(pos as int, d as int);
        let ghost w0 = walk(consumed, sel@);
        proof {
            assert(head_fields(s@, pos as int, hi as int) == seq![f] + head_fields(s@, n as int, hi as int));
            assert(consumed.push(f) + head_fields(s@, n as int, hi as int) =~= all);
            assert(consumed.push(f).drop_last() =~= consumed);
            assert(all.take(consumed.len() as int + 1) =~= consumed.push(f));
        }
        let open = d - pos == 2 && s[pos] == '{' && s[pos + 1] == '{';
        let close = d - pos == 2 && s[pos] == '}' && s[pos + 1] == '}';
        let comma = d - pos == 1 && s[pos] == ',';
        let semi = d - pos == 1 && s[pos] == ';';
        proof {
            assert(open == is_open_field(f));
            assert(close == is_close_field(f));
            assert(comma == is_comma_field(f));
            assert(semi == is_chord_field(f));
        }
        if skip == 1 && count < choice {
            if comma {
                count += 1;
            }
        } else if skip == 2 && !close {
        } else {
            skip = 0;
            if open {
                skip = 1;
                count = 0;
                choice = if set_index < sel.len() { sel[set_index] } else { 0 };
            } else if comma {
                skip = 2;
            } else if close {
                set_index += 1;
            } else if semi {
                match key {
                    Some(k) => {
                        memory.push(Chord { key: k, modifiers });
                        key = None;
                        modifiers = 0;
                        assert(memory@ =~= old(memory)@ + w0.chords.push(Chord { key: k, modifiers: w0.modifiers }));
                    },
                    None => {
                        proof {
                            lemma_fault_sticks(all, consumed.len() as int + 1, sel@);
                        }
                        return Err(ParseError::NoKey { row });
                    },
                }
            } else {
                let name = copy_range(s, pos, d);
                let m = modifier_of(&name);
                if m != 0 {
                    modifiers = modifiers | m;
                } else if name.len() == 0 {
                } else if key.is_some() {
                    proof {
                        lemma_fault_sticks(all, consumed.len() as int + 1, sel@);
                    }
                    return Err(ParseError::SecondKey { row });
                } else {
                    match key_of(&name) {
                        Some(k) => {
                            key = Some(k);
                        },
                        None => {
                            proof {
                                lemma_fault_sticks(all, consumed.len() as int + 1, sel@);
                            }
                            return Err(ParseError::UnknownKey { row, name });
                        },
                    }
                }
            }
        }
        proof {
            consumed = consumed.push(f);
            assert(walk(consumed, sel@) == walk_step(w0, f, sel@));
        }
        pos = n;
    }
    proof {
        assert(consumed =~= all);
    }
    match key {
        Some(k) => {
            memory.push(Chord { key: k, modifiers });
        },
        None => {
            return Err(ParseError::NoKey { row });
        },
    }
    Ok(memory.len() - old_len)
}

} // verus!
