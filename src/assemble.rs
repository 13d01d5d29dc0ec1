//! The assembler: slicing the flat buffers into shortcuts, sorting them by
//! hotkey, and rejecting ambiguous hotkeys.
use vstd::prelude::*;
use crate::body::{texts, Fragment};
use crate::error::ParseError;
use crate::generator::{chord_total, fragment_total, slices, PermutationsGenerator};
use crate::keys::Chord;
use crate::order::{
    ambiguous, has_adjacent_ambiguity, has_ambiguity, hotkey_le, lemma_le_total,
    lemma_ambiguous_symmetric, lemma_le_antisymmetric, lemma_le_transitive, lemma_sorted_ambiguity_is_adjacent, sorted,
};

verus! {

/// A hotkey and the text of the action it runs.
#[derive(Debug)]
pub struct Shortcut {
    pub hotkey: Vec<Chord>,
    pub action: Vec<char>,
}

/// The texts, one after another.
pub open spec fn join(fs: Seq<Seq<char>>) -> Seq<char>
    decreases fs.len(),
{
    if fs.len() == 0 {
        Seq::empty()
    } else {
        join(fs.drop_last()) + fs.last()
    }
}

/// Each shortcut with its action's fragments joined.
pub open spec fn joined(xs: Seq<(Seq<Chord>, Seq<Seq<char>>)>) -> Seq<(Seq<Chord>, Seq<char>)> {
    Seq::new(xs.len(), |i: int| (xs[i].0, join(xs[i].1)))
}

pub open spec fn views(v: Seq<Shortcut>) -> Seq<(Seq<Chord>, Seq<char>)> {
    Seq::new(v.len(), |i: int| (v[i].hotkey@, v[i].action@))
}

pub open spec fn hotkeys_of(xs: Seq<(Seq<Chord>, Seq<char>)>) -> Seq<Seq<Chord>> {
    Seq::new(xs.len(), |i: int| xs[i].0)
}

/// `p` reorders `n` places: each place once.
pub open spec fn permutes(p: Seq<usize>, n: int) -> bool {
    &&& p.len() == n
    &&& forall|i: int| 0 <= i < n ==> p[i] < n
    &&& forall|i: int, j: int| 0 <= i < j < n ==> p[i] != p[j]
    &&& forall|x: usize| x < n ==> p.contains(x)
}

proof fn lemma_orders_agree_below(
    hk: Seq<Seq<Chord>>,
    p: Seq<usize>,
    q: Seq<usize>,
    i: int,
)
    requires
        !has_ambiguity(hk),
        permutes(p, hk.len() as int),
        permutes(q, hk.len() as int),
        sorted(Seq::new(hk.len(), |k: int| hk[p[k] as int])),
        sorted(Seq::new(hk.len(), |k: int| hk[q[k] as int])),
        0 <= i <= hk.len(),
    ensures
        forall|k: int| 0 <= k < i ==> p[k] == q[k],
    decreases i,
{
    if i > 0 {
        let n = hk.len() as int;
        let a = Seq::new(hk.len(), |k: int| hk[p[k] as int]);
        let b = Seq::new(hk.len(), |k: int| hk[q[k] as int]);
        let m = i - 1;
        lemma_orders_agree_below(hk, p, q, m);
        assert(q.contains(p[m]));
        assert(p.contains(q[m]));
        let j = choose|j: int| 0 <= j < n && q[j] == p[m];
        let j2 = choose|j: int| 0 <= j < n && p[j] == q[m];
        if j < m {
            assert(p[j] == q[j]);
            assert(false);
        }
        if j2 < m {
            assert(p[j2] == q[j2]);
            assert(false);
        }
        if j != m && j2 != m {
            assert(hotkey_le(b[m], b[j]));
            assert(hotkey_le(a[m], a[j2]));
            lemma_le_antisymmetric(a[m], b[m]);
            let x = p[m] as int;
            let y = q[m] as int;
            if x != y {
                assert(hk[x] == hk[y]);
                assert(hk[x].take(hk[x].len() as int) == hk[y].take(hk[y].len() as int));
                lemma_ambiguous_symmetric(hk[x], hk[y]);
                if x < y {
                    assert(ambiguous(hk[x], hk[y]));
                } else {
                    assert(ambiguous(hk[y], hk[x]));
                }
                assert(has_ambiguity(hk));
            }
        }
    }
}

/// Sorting decides the order: two reorderings of the same shortcuts that
/// both sort them by hotkey, where no two hotkeys are ambiguous, are the
/// same reordering. So compiling one source twice gives one list.
pub proof fn lemma_sorted_order_unique(hk: Seq<Seq<Chord>>, p: Seq<usize>, q: Seq<usize>)
    requires
        !has_ambiguity(hk),
        permutes(p, hk.len() as int),
        permutes(q, hk.len() as int),
        sorted(Seq::new(hk.len(), |k: int| hk[p[k] as int])),
        sorted(Seq::new(hk.len(), |k: int| hk[q[k] as int])),
    ensures
        p == q,
{
    lemma_orders_agree_below(hk, p, q, hk.len() as int);
    assert(p =~= q);
}

proof fn lemma_total_prefix(parts: Seq<(usize, usize)>, i: int)
    requires
        0 <= i <= parts.len(),
    ensures
        chord_total(parts.take(i)) <= chord_total(parts),
        fragment_total(parts.take(i)) <= fragment_total(parts),
    decreases parts.len() - i,
{
    if i < parts.len() {
        lemma_total_prefix(parts, i + 1);
        assert(parts.take(i + 1).drop_last() =~= parts.take(i));
    } else {
        assert(parts.take(i) =~= parts);
    }
}

fn copy_chords(c: &Vec<Chord>, a: usize, b: usize) -> (r: Vec<Chord>)
    requires
        a <= b <= c@.len(),
    ensures
        r@ == c@.subrange(a as int, b as int),
{
    let mut out: Vec<Chord> = Vec::new();
    let mut i = a;
    while i < b
        invariant
            a <= i <= b <= c@.len(),
            out@ == c@.subrange(a as int, i as int),
        decreases b - i,
    {
        out.push(c[i]);
        i += 1;
        assert(out@ =~= c@.subrange(a as int, i as int));
    }
    out
}

fn append_chars(out: &mut Vec<char>, s: &Vec<char>, a: usize, b: usize)
    requires
        a <= b <= s@.len(),
    ensures
        final(out)@ == old(out)@ + s@.subrange(a as int, b as int),
{
    let mut i = a;
    while i < b
        invariant
            a <= i <= b <= s@.len(),
            out@ == old(out)@ + s@.subrange(a as int, i as int),
        decreases b - i,
    {
        out.push(s[i]);
        i += 1;
        assert(out@ =~= old(out)@ + s@.subrange(a as int, i as int));
    }
}

fn append_fragment(out: &mut Vec<char>, text: &Vec<char>, f: &Fragment)
    requires
        f.within(text@.len() as int),
    ensures
        final(out)@ == old(out)@ + f.text(text@),
{
    match f {
        Fragment::View { start, end } => append_chars(out, text, *start, *end),
        Fragment::Owned(v) => {
            append_chars(out, v, 0, v.len());
            assert(v@.subrange(0, v@.len() as int) =~= v@);
        },
    }
}

/// Whether `a` comes no later than `b`.
pub fn hotkey_le_exec(a: &Vec<Chord>, b: &Vec<Chord>) -> (r: bool)
    ensures
        r == hotkey_le(a@, b@),
{
    let mut i: usize = 0;
    assert(a@.skip(0) =~= a@);
    assert(b@.skip(0) =~= b@);
    while i < a.len() && i < b.len() && a[i] == b[i]
        invariant
            i <= a@.len(),
            i <= b@.len(),
            hotkey_le(a@.skip(i as int), b@.skip(i as int)) == hotkey_le(a@, b@),
        decreases a@.len() - i,
    {
        assert(a@.skip(i as int).skip(1) =~= a@.skip(i + 1));
        assert(b@.skip(i as int).skip(1) =~= b@.skip(i + 1));
        i += 1;
    }
    if i == a.len() {
        true
    } else if i == b.len() {
        false
    } else {
        let x = a[i];
        let y = b[i];
        x.key < y.key || (x.key == y.key && x.modifiers < y.modifiers)
    }
}

/// Whether one of `a` and `b` starts the other.
pub fn ambiguous_exec(a: &Vec<Chord>, b: &Vec<Chord>) -> (r: bool)
    ensures
        r == ambiguous(a@, b@),
{
    let n = if a.len() <= b.len() { a.len() } else { b.len() };
    let mut i: usize = 0;
    while i < n
        invariant
            n == (if a@.len() <= b@.len() { a@.len() } else { b@.len() }),
            i <= n,
            forall|j: int| 0 <= j < i ==> a@[j] == b@[j],
        decreases n - i,
    {
        if a[i] != b[i] {
            assert(a@.take(n as int)[i as int] != b@.take(n as int)[i as int]);
            return false;
        }
        i += 1;
    }
    assert(a@.take(n as int) =~= b@.take(n as int));
    true
}

impl PermutationsGenerator {
    /// The shortcuts in generation order, each cut out of the flat buffers.
    fn allocate_unsorted_unchecked_shortcut_list(&self) -> (r: Vec<Shortcut>)
        requires
            self.wf(),
        ensures
            views(r@) == joined(self.shortcuts()),
    {
        let ghost parts = self.partitioning@;
        let ghost t = texts(self.action_memory@, self.text@);
        let n = self.partitioning.len();
        let chord_len = self.chords_memory.len();
        let fragment_len = self.action_memory.len();
        let mut list: Vec<Shortcut> = Vec::new();
        let mut oc: usize = 0;
        let mut of: usize = 0;
        let mut i: usize = 0;
        while i < n
            invariant
                self.wf(),
                parts == self.partitioning@,
                t == texts(self.action_memory@, self.text@),
                n == parts.len(),
                chord_len == self.chords_memory@.len(),
                fragment_len == self.action_memory@.len(),
                i <= n,
                oc == chord_total(parts.take(i as int)),
                of == fragment_total(parts.take(i as int)),
                views(list@) == joined(
                    slices(parts.take(i as int), self.chords_memory@.take(oc as int), t.take(of as int)),
                ),
            decreases n - i,
        {
            let (a, b) = self.partitioning[i];
            proof {
                assert(parts.take(i + 1).drop_last() =~= parts.take(i as int));
                assert(parts.take(i + 1).last() == (a, b));
                lemma_total_prefix(parts, i + 1);
                assert(chord_total(parts.take(i + 1)) == oc + a);
                assert(fragment_total(parts.take(i + 1)) == of + b);
            }
            let hotkey = copy_chords(&self.chords_memory, oc, oc + a);
            let mut action: Vec<char> = Vec::new();
            let mut j: usize = 0;
            while j < b
                invariant
                    self.wf(),
                    t == texts(self.action_memory@, self.text@),
                    j <= b,
                    of + b <= fragment_len,
                    fragment_len == self.action_memory@.len(),
                    action@ == join(t.subrange(of as int, of + j)),
                decreases b - j,
            {
                append_fragment(&mut action, &self.text, &self.action_memory[of + j]);
                proof {
                    assert(t.subrange(of as int, of + j + 1).drop_last() =~= t.subrange(
                        of as int,
                        of + j,
                    ));
                }
                j += 1;
            }
            let ghost before = list@;
            list.push(Shortcut { hotkey, action });
            proof {
                let c = self.chords_memory@;
                let ct = c.take(oc + a);
                let ft = t.take(of + b);
                assert(ct.take(oc as int) =~= c.take(oc as int));
                assert(ct.skip(oc as int) =~= c.subrange(oc as int, oc + a));
                assert(ft.take(of as int) =~= t.take(of as int));
                assert(ft.skip(of as int) =~= t.subrange(of as int, of + b));
                assert(views(list@) =~= views(before).push((hotkey@, action@)));
                assert(views(list@) =~= joined(slices(parts.take(i + 1), ct, ft)));
            }
            oc = oc + a;
            of = of + b;
            i += 1;
        }
        proof {
            assert(parts.take(n as int) =~= parts);
            assert(self.chords_memory@.take(oc as int) =~= self.chords_memory@);
            assert(t.take(of as int) =~= t);
        }
        list
    }

    /// The shortcuts sorted by hotkey. Fails, naming both, where one
    /// hotkey starts another or two are equal.
    pub fn allocate_shortcut_list(&self) -> (r: Result<Vec<Shortcut>, ParseError>)
        requires
            self.wf(),
        ensures
            r is Ok <==> !has_ambiguity(hotkeys_of(joined(self.shortcuts()))),
            r is Ok ==> sorted(hotkeys_of(views(r->Ok_0@))) && exists|p: Seq<usize>|
                permutes(p, joined(self.shortcuts()).len() as int) && forall|i: int|
                    0 <= i < p.len() ==> views(r->Ok_0@)[i] == #[trigger] joined(
                        self.shortcuts(),
                    )[p[i] as int],
            r is Err ==> match r->Err_0 {
                ParseError::Ambiguous { first, second } => ambiguous(first@, second@) && exists|
                    i: int,
                    j: int,
                |
                    0 <= i < joined(self.shortcuts()).len() && 0 <= j < joined(
                        self.shortcuts(),
                    ).len() && i != j && #[trigger] joined(self.shortcuts())[i].0 == first@
                        && #[trigger] joined(self.shortcuts())[j].0 == second@,
                _ => false,
            },
    {
        let list = self.allocate_unsorted_unchecked_shortcut_list();
        let ghost all = views(list@);
        let ghost hk = hotkeys_of(all);
        let n = list.len();
        let mut order: Vec<usize> = Vec::new();
        let mut m: usize = 0;
        while m < n
            invariant
                n == list@.len(),
                all == views(list@),
                hk == hotkeys_of(all),
                m <= n,
                permutes(order@, m as int),
                sorted(Seq::new(m as nat, |i: int| hk[order@[i] as int])),
            decreases n - m,
        {
            let mut lo: usize = 0;
            let mut hi: usize = m;
            while lo < hi
                invariant
                    n == list@.len(),
                    all == views(list@),
                    hk == hotkeys_of(all),
                    m < n,
                    lo <= hi <= m,
                    permutes(order@, m as int),
                    sorted(Seq::new(m as nat, |i: int| hk[order@[i] as int])),
                    forall|q: int| 0 <= q < lo ==> hotkey_le(#[trigger] hk[order@[q] as int], hk[m as int]),
                    forall|q: int| hi <= q < m ==> !hotkey_le(#[trigger] hk[order@[q] as int], hk[m as int]),
                decreases hi - lo,
            {
                let mid = lo + (hi - lo) / 2;
                let ghost srt = Seq::new(m as nat, |i: int| hk[order@[i] as int]);
                if hotkey_le_exec(&list[order[mid]].hotkey, &list[m].hotkey) {
                    proof {
                        assert forall|q: int| 0 <= q < mid + 1 implies hotkey_le(
                            #[trigger] hk[order@[q] as int],
                            hk[m as int],
                        ) by {
                            if q < mid {
                                assert(hotkey_le(srt[q], srt[mid as int]));
                                lemma_le_transitive(srt[q], srt[mid as int], hk[m as int]);
                            }
                        }
                    }
                    lo = mid + 1;
                } else {
                    proof {
                        assert forall|q: int| mid <= q < m implies !hotkey_le(
                            #[trigger] hk[order@[q] as int],
                            hk[m as int],
                        ) by {
                            if q > mid && hotkey_le(srt[q], hk[m as int]) {
                                assert(hotkey_le(srt[mid as int], srt[q]));
                                lemma_le_transitive(srt[mid as int], srt[q], hk[m as int]);
                            }
                        }
                    }
                    hi = mid;
                }
            }
            let p = lo;
            let ghost old_order = order@;
            let ghost olds = Seq::new(m as nat, |i: int| hk[old_order[i] as int]);
            order.insert(p, m);
            proof {
                old_order.insert_ensures(p as int, m);
                let news = Seq::new((m + 1) as nat, |i: int| hk[order@[i] as int]);
                let x = hk[m as int];
                if p < m {
                    lemma_le_total(hk[old_order[p as int] as int], x);
                }
                assert forall|i: int, j: int| 0 <= i < j < m + 1 implies hotkey_le(
                    #[trigger] news[i],
                    #[trigger] news[j],
                ) by {
                    if j < p {
                        assert(olds[i] == news[i] && olds[j] == news[j]);
                    } else if j == p {
                        assert(news[i] == hk[old_order[i] as int]);
                    } else if i < p {
                        assert(olds[i] == news[i] && olds[j - 1] == news[j]);
                    } else if i == p {
                        assert(news[j] == olds[j - 1]);
                        if j - 1 > p {
                            assert(hotkey_le(olds[p as int], olds[j - 1]));
                            lemma_le_transitive(x, olds[p as int], olds[j - 1]);
                        }
                    } else {
                        assert(olds[i - 1] == news[i] && olds[j - 1] == news[j]);
                    }
                }
                assert forall|x: usize| x < m + 1 implies order@.contains(x) by {
                    if x == m {
                        assert(order@[p as int] == x);
                    } else {
                        assert(old_order.contains(x));
                        let k = choose|k: int| 0 <= k < old_order.len() && old_order[k] == x;
                        if k < p {
                            assert(order@[k] == x);
                        } else {
                            assert(order@[k + 1] == x);
                        }
                    }
                }
                assert forall|i: int, j: int| 0 <= i < j < m + 1 implies order@[i] != order@[j] by {
                    if i != p && j != p {
                        let a = if i < p { i } else { i - 1 };
                        let b = if j < p { j } else { j - 1 };
                        assert(order@[i] == old_order[a] && order@[j] == old_order[b]);
                    }
                }
                assert(sorted(news));
            }
            m += 1;
        }
        let mut out: Vec<Shortcut> = Vec::new();
        let mut i: usize = 0;
        while i < n
            invariant
                n == list@.len(),
                all == views(list@),
                permutes(order@, n as int),
                i <= n,
                views(out@) == Seq::new(i as nat, |k: int| all[order@[k] as int]),
            decreases n - i,
        {
            let src = &list[order[i]];
            let hotkey = copy_chords(&src.hotkey, 0, src.hotkey.len());
            let mut action: Vec<char> = Vec::new();
            append_chars(&mut action, &src.action, 0, src.action.len());
            proof {
                assert(src.hotkey@.subrange(0, src.hotkey@.len() as int) =~= src.hotkey@);
                assert(src.action@.subrange(0, src.action@.len() as int) =~= src.action@);
            }
            let ghost before = views(out@);
            out.push(Shortcut { hotkey, action });
            proof {
                assert(views(out@) =~= before.push(all[order@[i as int] as int]));
                assert(views(out@) =~= Seq::new((i + 1) as nat, |k: int| all[order@[k] as int]));
            }
            i += 1;
        }
        let ghost shk = hotkeys_of(views(out@));
        proof {
            assert(shk =~= Seq::new(n as nat, |k: int| hk[order@[k] as int]));
            assert(all == joined(self.shortcuts()));
        }
        let mut i: usize = 0;
        while n > 0 && i < n - 1
            invariant
                n == out@.len(),
                shk == hotkeys_of(views(out@)),
                shk == Seq::new(n as nat, |k: int| hk[order@[k] as int]),
                permutes(order@, n as int),
                hk == hotkeys_of(all),
                all == joined(self.shortcuts()),
                all.len() == n,
                i <= n,
                forall|k: int| 0 <= k < i ==> !ambiguous(#[trigger] shk[k], shk[k + 1]),
            decreases n - i,
        {
            if ambiguous_exec(&out[i].hotkey, &out[i + 1].hotkey) {
                let first = copy_chords(&out[i].hotkey, 0, out[i].hotkey.len());
                let second = copy_chords(&out[i + 1].hotkey, 0, out[i + 1].hotkey.len());
                proof {
                    assert(out@[i as int].hotkey@.subrange(0, out@[i as int].hotkey@.len() as int)
                        =~= out@[i as int].hotkey@);
                    assert(out@[i + 1].hotkey@.subrange(0, out@[i + 1].hotkey@.len() as int)
                        =~= out@[i + 1].hotkey@);
                    let x = order@[i as int] as int;
                    let y = order@[i + 1] as int;
                    assert(shk[i as int] == hk[x] && shk[i + 1] == hk[y]);
                    assert(shk[i as int] == out@[i as int].hotkey@);
                    assert(shk[i + 1] == out@[i + 1].hotkey@);
                    assert(hk[x] == all[x].0 && hk[y] == all[y].0);
                    assert(all[x].0 == first@ && all[y].0 == second@);
                    lemma_ambiguous_symmetric(hk[x], hk[y]);
                    if x < y {
                        assert(ambiguous(hk[x], hk[y]));
                    } else {
                        assert(ambiguous(hk[y], hk[x]));
                    }
                    assert(has_ambiguity(hk));
                }
                return Err(ParseError::Ambiguous { first, second });
            }
            i += 1;
        }
        proof {
            assert(!has_adjacent_ambiguity(shk));
            assert(sorted(shk));
            lemma_sorted_ambiguity_is_adjacent(shk);
            if has_ambiguity(hk) {
                let (x, y) = choose|x: int, y: int|
                    0 <= x < y < hk.len() && ambiguous(#[trigger] hk[x], #[trigger] hk[y]);
                assert(order@.contains(x as usize));
                assert(order@.contains(y as usize));
                let a = choose|a: int| 0 <= a < n && order@[a] == x as usize;
                let b = choose|b: int| 0 <= b < n && order@[b] == y as usize;
                assert(shk[a] == hk[x] && shk[b] == hk[y]);
                lemma_ambiguous_symmetric(hk[x], hk[y]);
                if a < b {
                    assert(ambiguous(shk[a], shk[b]));
                } else {
                    assert(ambiguous(shk[b], shk[a]));
                }
                assert(false);
            }
            assert(forall|k: int| 0 <= k < order@.len() ==> views(out@)[k] == #[trigger] all[order@[k] as int]);
        }
        Ok(out)
    }
}

} // verus!
