//! The order of hotkeys, and when two of them are ambiguous.
use vstd::prelude::*;
use crate::keys::Chord;

verus! {

/// Chords compare by key, then by modifiers.
pub open spec fn chord_lt(a: Chord, b: Chord) -> bool {
    a.key < b.key || (a.key == b.key && a.modifiers < b.modifiers)
}

/// Lexicographic order over chord sequences: a sequence comes before every
/// sequence it starts.
pub open spec fn hotkey_le(a: Seq<Chord>, b: Seq<Chord>) -> bool
    decreases a.len(),
{
    if a.len() == 0 {
        true
    } else if b.len() == 0 {
        false
    } else if a[0] == b[0] {
        hotkey_le(a.skip(1), b.skip(1))
    } else {
        chord_lt(a[0], b[0])
    }
}

/// One of the two hotkeys starts the other: a sequence of presses that
/// matches one could not tell whether the other is coming.
pub open spec fn ambiguous(a: Seq<Chord>, b: Seq<Chord>) -> bool {
    let n = if a.len() <= b.len() { a.len() } else { b.len() };
    a.take(n as int) == b.take(n as int)
}

/// `a` starts `b`.
pub open spec fn starts(a: Seq<Chord>, b: Seq<Chord>) -> bool {
    a.len() <= b.len() && b.take(a.len() as int) == a
}

/// Every hotkey comes no later than each one after it.
pub open spec fn sorted(hs: Seq<Seq<Chord>>) -> bool {
    forall|i: int, j: int| 0 <= i < j < hs.len() ==> hotkey_le(#[trigger] hs[i], #[trigger] hs[j])
}

/// Some two hotkeys, at different places, are ambiguous.
pub open spec fn has_ambiguity(hs: Seq<Seq<Chord>>) -> bool {
    exists|i: int, j: int| 0 <= i < j < hs.len() && ambiguous(#[trigger] hs[i], #[trigger] hs[j])
}

/// Some two neighbouring hotkeys are ambiguous.
pub open spec fn has_adjacent_ambiguity(hs: Seq<Seq<Chord>>) -> bool {
    exists|i: int| 0 <= i < hs.len() - 1 && ambiguous(#[trigger] hs[i], hs[i + 1])
}

pub proof fn lemma_le_total(a: Seq<Chord>, b: Seq<Chord>)
    ensures
        hotkey_le(a, b) || hotkey_le(b, a),
    decreases a.len(),
{
    if a.len() > 0 && b.len() > 0 && a[0] == b[0] {
        lemma_le_total(a.skip(1), b.skip(1));
    }
}

pub proof fn lemma_le_transitive(a: Seq<Chord>, b: Seq<Chord>, c: Seq<Chord>)
    requires
        hotkey_le(a, b),
        hotkey_le(b, c),
    ensures
        hotkey_le(a, c),
    decreases a.len(),
{
    if a.len() > 0 && b.len() > 0 && c.len() > 0 && a[0] == b[0] && b[0] == c[0] {
        lemma_le_transitive(a.skip(1), b.skip(1), c.skip(1));
    }
}

pub(crate) proof fn lemma_le_antisymmetric(a: Seq<Chord>, b: Seq<Chord>)
    requires
        hotkey_le(a, b),
        hotkey_le(b, a),
    ensures
        a == b,
    decreases a.len(),
{
    if a.len() > 0 {
        lemma_le_antisymmetric(a.skip(1), b.skip(1));
        assert(a =~= seq![a[0]] + a.skip(1));
        assert(b =~= seq![b[0]] + b.skip(1));
    } else {
        assert(b.len() == 0);
        assert(a =~= b);
    }
}

proof fn lemma_start_le(a: Seq<Chord>, b: Seq<Chord>)
    requires
        starts(a, b),
    ensures
        hotkey_le(a, b),
    decreases a.len(),
{
    if a.len() > 0 {
        assert(a[0] == b.take(a.len() as int)[0]);
        assert(b.skip(1).take(a.len() - 1) =~= a.skip(1));
        lemma_start_le(a.skip(1), b.skip(1));
    }
}

/// A hotkey that starts a later one also starts every one in between.
proof fn lemma_start_between(a: Seq<Chord>, b: Seq<Chord>, c: Seq<Chord>)
    requires
        hotkey_le(a, b),
        hotkey_le(b, c),
        starts(a, c),
    ensures
        starts(a, b),
    decreases a.len(),
{
    if a.len() == 0 {
        assert(b.take(0) =~= a);
    } else {
        assert(c[0] == c.take(a.len() as int)[0]);
        assert(c.skip(1).take(a.len() - 1) =~= a.skip(1));
        lemma_start_between(a.skip(1), b.skip(1), c.skip(1));
        assert(b.take(a.len() as int) =~= seq![b[0]] + b.skip(1).take(a.len() - 1));
        assert(a =~= seq![a[0]] + a.skip(1));
    }
}

pub proof fn lemma_ambiguous_symmetric(a: Seq<Chord>, b: Seq<Chord>)
    ensures
        ambiguous(a, b) == ambiguous(b, a),
{
}

proof fn lemma_ambiguous_starts(a: Seq<Chord>, b: Seq<Chord>)
    ensures
        ambiguous(a, b) <==> (starts(a, b) || starts(b, a)),
{
    assert(a.take(a.len() as int) =~= a);
    assert(b.take(b.len() as int) =~= b);
}

/// In a sorted list of hotkeys, some two are ambiguous exactly when two
/// neighbours are.
pub proof fn lemma_sorted_ambiguity_is_adjacent(hs: Seq<Seq<Chord>>)
    requires
        sorted(hs),
    ensures
        has_ambiguity(hs) <==> has_adjacent_ambiguity(hs),
{
    if has_adjacent_ambiguity(hs) {
        let i = choose|i: int| 0 <= i < hs.len() - 1 && ambiguous(#[trigger] hs[i], hs[i + 1]);
        assert(ambiguous(hs[i], hs[i + 1]));
    }
    if has_ambiguity(hs) {
        let (i, j) = choose|i: int, j: int|
            0 <= i < j < hs.len() && ambiguous(#[trigger] hs[i], #[trigger] hs[j]);
        assert(hotkey_le(hs[i], hs[j]));
        lemma_ambiguous_starts(hs[i], hs[j]);
        lemma_ambiguous_starts(hs[i], hs[i + 1]);
        if starts(hs[j], hs[i]) {
            lemma_start_le(hs[j], hs[i]);
            lemma_le_antisymmetric(hs[i], hs[j]);
            assert(hs[i].take(hs[i].len() as int) =~= hs[i]);
        }
        assert(starts(hs[i], hs[j]));
        if i + 1 < j {
            assert(hotkey_le(hs[i], hs[i + 1]));
            assert(hotkey_le(hs[i + 1], hs[j]));
            lemma_start_between(hs[i], hs[i + 1], hs[j]);
        }
        assert(starts(hs[i], hs[i + 1]));
        assert(ambiguous(hs[i], hs[i + 1]));
    }
}

} // verus!
