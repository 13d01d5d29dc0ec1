//! The materializer: every variant of every entry, packed into two flat
//! buffers with one partition per shortcut.
use vstd::prelude::*;
use crate::body::{body_variant, find_open, fragments_from, group_end, picked, push_body_variant, texts, Fragment};
use crate::calculator::{lemma_product_positive, selection, Calculator};
use crate::error::ParseError;
use crate::head::{head_variant, push_head_variant, reports, HeadFault};
use crate::keys::{is_white, white, Chord};
use crate::sizing::{EntryBlobMetadata, UnparsedEntry};

verus! {

/// The first index in `[lo, hi)` that is not white space, or `hi`.
pub open spec fn trim_lo(s: Seq<char>, lo: int, hi: int) -> int
    decreases hi - lo,
{
    if lo < hi && is_white(s[lo]) {
        trim_lo(s, lo + 1, hi)
    } else {
        lo
    }
}

/// The end of `[lo, hi)` with white space at its end left out.
pub open spec fn trim_hi(s: Seq<char>, lo: int, hi: int) -> int
    decreases hi - lo,
{
    if lo < hi && is_white(s[hi - 1]) {
        trim_hi(s, lo, hi - 1)
    } else {
        hi
    }
}

/// The trigger and action of permutation `k` of entry `e`: the chords (or
/// what is wrong with them) and the action's fragments.
pub open spec fn variant(s: Seq<char>, e: UnparsedEntry, k: int) -> (
    Result<Seq<Chord>, HeadFault>,
    Seq<Seq<char>>,
) {
    let lo = trim_lo(s, e.body_start as int, e.body_end as int);
    let hi = trim_hi(s, lo, e.body_end as int);
    (
        head_variant(s, e.head_start as int, e.head_end as int, selection(e.head_sizes@, k)),
        body_variant(s, lo, hi, selection(e.body_sizes@, k)),
    )
}

/// Every permutation of `e`, in index order.
pub open spec fn entry_variants(s: Seq<char>, e: UnparsedEntry) -> Seq<
    (Result<Seq<Chord>, HeadFault>, Seq<Seq<char>>),
> {
    Seq::new(e.permutation_count as nat, |k: int| variant(s, e, k))
}

/// Every permutation of every entry, entry by entry.
pub open spec fn all_variants(s: Seq<char>, es: Seq<UnparsedEntry>) -> Seq<
    (Result<Seq<Chord>, HeadFault>, Seq<Seq<char>>),
>
    decreases es.len(),
{
    if es.len() == 0 {
        Seq::empty()
    } else {
        all_variants(s, es.drop_last()) + entry_variants(s, es.last())
    }
}

/// No trigger variant is at fault.
pub open spec fn compiles(vs: Seq<(Result<Seq<Chord>, HeadFault>, Seq<Seq<char>>)>) -> bool {
    forall|i: int| 0 <= i < vs.len() ==> (#[trigger] vs[i]).0 is Ok
}

/// The shortcuts of variants that compile.
pub open spec fn outputs(vs: Seq<(Result<Seq<Chord>, HeadFault>, Seq<Seq<char>>)>) -> Seq<
    (Seq<Chord>, Seq<Seq<char>>),
> {
    Seq::new(vs.len(), |i: int| (vs[i].0->Ok_0, vs[i].1))
}

pub open spec fn chord_total(parts: Seq<(usize, usize)>) -> int
    decreases parts.len(),
{
    if parts.len() == 0 {
        0
    } else {
        chord_total(parts.drop_last()) + parts.last().0
    }
}

pub open spec fn fragment_total(parts: Seq<(usize, usize)>) -> int
    decreases parts.len(),
{
    if parts.len() == 0 {
        0
    } else {
        fragment_total(parts.drop_last()) + parts.last().1
    }
}

/// Cuts the flat buffers into one (hotkey, action) pair per partition, each
/// partition giving how many chords and fragments it takes, in order.
pub open spec fn slices(parts: Seq<(usize, usize)>, c: Seq<Chord>, f: Seq<Seq<char>>) -> Seq<
    (Seq<Chord>, Seq<Seq<char>>),
>
    decreases parts.len(),
{
    if parts.len() == 0 {
        Seq::empty()
    } else {
        let (a, b) = parts.last();
        let ca = c.len() - a;
        let fb = f.len() - b;
        slices(parts.drop_last(), c.take(ca), f.take(fb)).push((c.skip(ca), f.skip(fb)))
    }
}

/// The flat buffers of all shortcuts of a source, and how they divide.
pub struct PermutationsGenerator {
    pub text: Vec<char>,
    pub partitioning: Vec<(usize, usize)>,
    pub chords_memory: Vec<Chord>,
    pub action_memory: Vec<Fragment>,
}

impl PermutationsGenerator {
    /// The partitions cover the buffers exactly, and every view lies in the
    /// text.
    pub open spec fn wf(&self) -> bool {
        &&& chord_total(self.partitioning@) == self.chords_memory@.len()
        &&& fragment_total(self.partitioning@) == self.action_memory@.len()
        &&& forall|i: int|
            0 <= i < self.action_memory@.len() ==> (#[trigger] self.action_memory@[i]).within(
                self.text@.len() as int,
            )
    }

    /// The shortcuts, in generation order, each as its hotkey and the texts
    /// of its action fragments.
    pub open spec fn shortcuts(&self) -> Seq<(Seq<Chord>, Seq<Seq<char>>)> {
        slices(self.partitioning@, self.chords_memory@, texts(self.action_memory@, self.text@))
    }
}

proof fn lemma_trim_bounds(s: Seq<char>, lo: int, hi: int)
    requires
        lo <= hi,
    ensures
        lo <= trim_lo(s, lo, hi) <= hi,
        lo <= trim_hi(s, lo, hi) <= hi,
    decreases hi - lo,
{
    if lo < hi {
        lemma_trim_bounds(s, lo + 1, hi);
        lemma_trim_bounds(s, lo, hi - 1);
    }
}

/// An entry without enumeration groups, whose action holds no `{{`, has
/// exactly one variant: its trigger read with no selection, and its trimmed
/// action text unchanged, as one fragment.
pub proof fn lemma_no_groups_one_variant(s: Seq<char>, e: UnparsedEntry)
    requires
        e.wf(s.len() as int),
        e.head_sizes@.len() == 0,
        e.body_sizes@.len() == 0,
        ({
            let lo = trim_lo(s, e.body_start as int, e.body_end as int);
            find_open(s, lo, trim_hi(s, lo, e.body_end as int)) == trim_hi(s, lo, e.body_end as int)
        }),
    ensures
        entry_variants(s, e).len() == 1,
        entry_variants(s, e)[0].0 == head_variant(
            s,
            e.head_start as int,
            e.head_end as int,
            Seq::empty(),
        ),
        ({
            let lo = trim_lo(s, e.body_start as int, e.body_end as int);
            entry_variants(s, e)[0].1 == seq![s.subrange(lo, trim_hi(s, lo, e.body_end as int))]
        }),
{
    let lo = trim_lo(s, e.body_start as int, e.body_end as int);
    let hi = trim_hi(s, lo, e.body_end as int);
    let sel = selection(e.body_sizes@, 0);
    assert(selection(e.head_sizes@, 0) =~= Seq::<usize>::empty());
    assert(e.permutation_count == 1);
    if lo < hi {
        assert(group_end(s, hi, hi) == hi);
        assert(picked(s, sel, hi, hi, 0, hi) =~= Seq::<Seq<char>>::empty());
        assert(fragments_from(s, sel, hi, 1, hi) =~= Seq::<Seq<char>>::empty());
        assert(fragments_from(s, sel, lo, 0, hi) =~= seq![s.subrange(lo, hi)]);
    } else {
        lemma_trim_bounds(s, e.body_start as int, e.body_end as int);
        lemma_trim_bounds(s, lo, e.body_end as int);
        assert(s.subrange(lo, hi) =~= Seq::<char>::empty());
    }
}

proof fn lemma_all_variants_prefix(s: Seq<char>, es: Seq<UnparsedEntry>, m: int)
    requires
        0 <= m <= es.len(),
    ensures
        all_variants(s, es.take(m)).len() <= all_variants(s, es).len(),
        all_variants(s, es.take(m)) == all_variants(s, es).take(
            all_variants(s, es.take(m)).len() as int,
        ),
    decreases es.len() - m,
{
    if m < es.len() {
        lemma_all_variants_prefix(s, es, m + 1);
        assert(es.take(m + 1).drop_last() =~= es.take(m));
        let a = all_variants(s, es.take(m));
        let b = all_variants(s, es.take(m + 1));
        assert(b == a + entry_variants(s, es.take(m + 1).last()));
        assert(b.take(a.len() as int) =~= a);
        assert(all_variants(s, es).take(b.len() as int) == b);
        assert(a.len() <= b.len());
        assert(all_variants(s, es).take(a.len() as int) =~= all_variants(s, es).take(
            b.len() as int,
        ).take(a.len() as int));
    } else {
        assert(es.take(m) =~= es);
        assert(all_variants(s, es).take(all_variants(s, es).len() as int) =~= all_variants(s, es));
    }
}

proof fn lemma_texts_split(fs: Seq<Fragment>, src: Seq<char>, n: int)
    requires
        0 <= n <= fs.len(),
    ensures
        texts(fs, src).take(n) == texts(fs.take(n), src),
        texts(fs, src).skip(n) == texts(fs.skip(n), src),
{
    assert(texts(fs, src).take(n) =~= texts(fs.take(n), src));
    assert(texts(fs, src).skip(n) =~= texts(fs.skip(n), src));
}

fn trim(s: &Vec<char>, lo: usize, hi: usize) -> (r: (usize, usize))
    requires
        lo <= hi <= s@.len(),
    ensures
        r.0 == trim_lo(s@, lo as int, hi as int),
        r.1 == trim_hi(s@, r.0 as int, hi as int),
        lo <= r.0 <= r.1 <= hi,
{
    let mut a = lo;
    while a < hi && white(s[a])
        invariant
            lo <= a <= hi <= s@.len(),
            trim_lo(s@, a as int, hi as int) == trim_lo(s@, lo as int, hi as int),
        decreases hi - a,
    {
        a += 1;
    }
    let mut b = hi;
    while a < b && white(s[b - 1])
        invariant
            a <= b <= hi <= s@.len(),
            trim_hi(s@, a as int, b as int) == trim_hi(s@, a as int, hi as int),
        decreases b - a,
    {
        b -= 1;
    }
    (a, b)
}

/// Generates every permutation of every entry: the second pass of the
/// compiler. Fails where a trigger variant names no key, an unknown key, or
/// two keys for one chord.
pub fn parse_into_shortcut_list(first_pass: EntryBlobMetadata) -> (r: Result<
    PermutationsGenerator,
    ParseError,
>)
    requires
        first_pass.wf(),
    ensures
        r is Ok <==> compiles(all_variants(first_pass.text@, first_pass.entries@)),
        r is Ok ==> r->Ok_0.wf() && r->Ok_0.text@ == first_pass.text@ && r->Ok_0.shortcuts()
            == outputs(all_variants(first_pass.text@, first_pass.entries@)),
        r is Err ==> exists|i: int|
            0 <= i < all_variants(first_pass.text@, first_pass.entries@).len() && (
            #[trigger] all_variants(first_pass.text@, first_pass.entries@)[i]).0 is Err && reports(
                r->Err_0,
                all_variants(first_pass.text@, first_pass.entries@)[i].0->Err_0,
            ),
{
    let ghost s = first_pass.text@;
    let ghost es = first_pass.entries@;
    let ghost all = all_variants(s, es);
    let text = first_pass.text;
    let entries = first_pass.entries;
    let mut partitioning: Vec<(usize, usize)> = Vec::new();
    let mut chords_memory: Vec<Chord> = Vec::new();
    let mut action_memory: Vec<Fragment> = Vec::with_capacity(first_pass.total_body_space);
    let mut ei: usize = 0;
    while ei < entries.len()
        invariant
            text@ == s,
            entries@ == es,
            all == all_variants(s, es),
            s == first_pass.text@,
            es == first_pass.entries@,
            ei <= es.len(),
            forall|i: int| 0 <= i < es.len() ==> (#[trigger] es[i]).wf(s.len() as int) && es[i].body_fits(),
            compiles(all_variants(s, es.take(ei as int))),
            chord_total(partitioning@) == chords_memory@.len(),
            fragment_total(partitioning@) == action_memory@.len(),
            forall|i: int|
                0 <= i < action_memory@.len() ==> (#[trigger] action_memory@[i]).within(s.len() as int),
            slices(partitioning@, chords_memory@, texts(action_memory@, s)) == outputs(
                all_variants(s, es.take(ei as int)),
            ),
        decreases es.len() - ei,
    {
        let e = &entries[ei];
        let ghost done = all_variants(s, es.take(ei as int));
        proof {
            assert(es.take(ei + 1).drop_last() =~= es.take(ei as int));
            assert(es.take(ei + 1).last() == es[ei as int]);
            lemma_product_positive(e.head_sizes@);
        }
        let mut head_calc = Calculator::new(&e.head_sizes);
        let mut body_calc = Calculator::new(&e.body_sizes);
        let (lo, hi) = trim(&text, e.body_start, e.body_end);
        let mut k: usize = 0;
        while k < e.permutation_count
            invariant
                text@ == s,
                entries@ == es,
                all == all_variants(s, es),
                s == first_pass.text@,
                es == first_pass.entries@,
                ei < es.len(),
                *e == es[ei as int],
                e.wf(s.len() as int),
                done == all_variants(s, es.take(ei as int)),
                all_variants(s, es.take(ei + 1)) == done + entry_variants(s, *e),
                head_calc.wf(),
                head_calc.set_sizes@ == e.head_sizes@,
                body_calc.wf(),
                body_calc.set_sizes@ == e.body_sizes@,
                lo == trim_lo(s, e.body_start as int, e.body_end as int),
                hi == trim_hi(s, lo as int, e.body_end as int),
                lo <= hi <= s.len(),
                k <= e.permutation_count,
                compiles(done + entry_variants(s, *e).take(k as int)),
                chord_total(partitioning@) == chords_memory@.len(),
                fragment_total(partitioning@) == action_memory@.len(),
                forall|i: int|
                    0 <= i < action_memory@.len() ==> (#[trigger] action_memory@[i]).within(
                        s.len() as int,
                    ),
                slices(partitioning@, chords_memory@, texts(action_memory@, s)) == outputs(
                    done + entry_variants(s, *e).take(k as int),
                ),
            decreases e.permutation_count - k,
        {
            head_calc.permute(k);
            body_calc.permute(k);
            let ghost v = variant(s, *e, k as int);
            let ghost old_chords = chords_memory@;
            let ghost old_frags = action_memory@;
            let ghost old_parts = partitioning@;
            let pushed = push_head_variant(
                &mut chords_memory,
                &text,
                e.head_start,
                e.head_end,
                &head_calc.permutation,
                e.row,
            );
            let chord_count = match pushed {
                Ok(c) => c,
                Err(err) => {
                    proof {
                        let idx = done.len() + k;
                        lemma_all_variants_prefix(s, es, ei + 1);
                        let ev = entry_variants(s, *e);
                        assert(ev[k as int] == v);
                        assert((done + ev)[idx as int] == v);
                        let b = all_variants(s, es.take(ei + 1));
                        assert(b[idx as int] == v);
                        assert(all.take(b.len() as int)[idx as int] == v);
                        assert(b.len() == done.len() + e.permutation_count);
                        assert(all[idx as int] == v);
                        assert(v.0 is Err);
                        assert(all[idx as int].0 is Err && reports(err, all[idx as int].0->Err_0));
                    }
                    return Err(err);
                },
            };
            let width = push_body_variant(&mut action_memory, &text, lo, hi, &body_calc.permutation);
            partitioning.push((chord_count, width));
            proof {
                let ev = entry_variants(s, *e);
                let pre = done + ev.take(k as int);
                let post = done + ev.take(k + 1);
                assert(ev[k as int] == v);
                assert(post =~= pre.push(v));
                assert(partitioning@.drop_last() =~= old_parts);
                assert forall|i: int| 0 <= i < action_memory@.len() implies (
                #[trigger] action_memory@[i]).within(s.len() as int) by {
                    if i < old_frags.len() {
                        assert(action_memory@[i] == action_memory@.take(old_frags.len() as int)[i]);
                    }
                }
                lemma_texts_split(action_memory@, s, old_frags.len() as int);
                assert(chords_memory@.take(old_chords.len() as int) =~= old_chords);
                assert(chords_memory@.skip(old_chords.len() as int) =~= v.0->Ok_0);
                assert(outputs(post) =~= outputs(pre).push((v.0->Ok_0, v.1)));
            }
            k += 1;
        }
        proof {
            assert(entry_variants(s, *e).take(k as int) =~= entry_variants(s, *e));
        }
        ei += 1;
    }
    proof {
        assert(es.take(ei as int) =~= es);
    }
    Ok(PermutationsGenerator { text, partitioning, chords_memory, action_memory })
}

} // verus!
