//! The action side of an entry: splitting its text into plain spans and
//! enumeration groups, and picking one member of each group, with escapes.
use vstd::prelude::*;

verus! {

/// A piece of action text: a span of the source, or text that escapes
/// changed and that is therefore held on its own.
#[derive(Debug)]
pub enum Fragment {
    View { start: usize, end: usize },
    Owned(Vec<char>),
}

impl Fragment {
    /// The characters of the fragment, where `src` is the source it spans.
    pub open spec fn text(&self, src: Seq<char>) -> Seq<char> {
        match self {
            Fragment::View { start, end } => src.subrange(*start as int, *end as int),
            Fragment::Owned(v) => v@,
        }
    }

    /// A view lies within the source.
    pub open spec fn within(&self, len: int) -> bool {
        match self {
            Fragment::View { start, end } => *start <= *end <= len,
            Fragment::Owned(_) => true,
        }
    }
}

/// The characters of each fragment.
pub open spec fn texts(fs: Seq<Fragment>, src: Seq<char>) -> Seq<Seq<char>> {
    Seq::new(fs.len(), |i: int| fs[i].text(src))
}

/// Where the first `{{` at or after `i` and before `hi` starts, or `hi`.
pub open spec fn find_open(s: Seq<char>, i: int, hi: int) -> int
    decreases hi - i,
{
    if i + 1 >= hi {
        hi
    } else if s[i] == '{' && s[i + 1] == '{' {
        i
    } else {
        find_open(s, i + 1, hi)
    }
}

/// Where a group whose members start at `j` ends: just after the first `}}`
/// that no backslash escapes, or `hi`.
pub open spec fn find_close(s: Seq<char>, j: int, hi: int) -> int
    decreases hi - j,
{
    if j >= hi {
        hi
    } else if s[j] == '\\' {
        if j + 1 >= hi {
            hi
        } else {
            find_close(s, j + 2, hi)
        }
    } else if s[j] == '}' {
        if j + 1 >= hi {
            hi
        } else if s[j + 1] == '}' {
            j + 2
        } else {
            find_close(s, j + 2, hi)
        }
    } else {
        find_close(s, j + 1, hi)
    }
}

/// The end of the group that starts at `st`, or `hi` where there is none.
pub open spec fn group_end(s: Seq<char>, st: int, hi: int) -> int {
    if st < hi {
        find_close(s, st + 2, hi)
    } else {
        hi
    }
}

/// State of a walk over a group's members: the members finished so far, the
/// one being read, whether a backslash is pending, and whether the group has
/// closed.
pub type MemberScan = (Seq<Seq<char>>, Seq<char>, bool, bool);

/// One character of a group's text. A backslash takes the next character
/// literally, but an escaped line break is dropped; a comma ends a member;
/// a closing brace ends the last one.
pub open spec fn scan_step(st: MemberScan, c: char) -> MemberScan {
    let (done, cur, escaped, closed) = st;
    if closed {
        st
    } else if escaped {
        (done, if c == '\n' { cur } else { cur.push(c) }, false, false)
    } else if c == '\\' {
        (done, cur, true, false)
    } else if c == ',' {
        (done.push(cur), Seq::empty(), false, false)
    } else if c == '}' {
        (done.push(cur), Seq::empty(), false, true)
    } else {
        (done, cur.push(c), false, false)
    }
}

/// The walk over `s[a..b)`.
pub open spec fn scan(s: Seq<char>, a: int, b: int) -> MemberScan
    decreases b - a,
{
    if b <= a {
        (Seq::empty(), Seq::empty(), false, false)
    } else {
        scan_step(scan(s, a, b - 1), s[b - 1])
    }
}

/// The unescaped members of the group whose text (after `{{`) is `s[a..b)`.
pub open spec fn members(s: Seq<char>, a: int, b: int) -> Seq<Seq<char>> {
    scan(s, a, b).0
}

/// The member of the group starting at `st` and ending at `cl` that the
/// `g`-th entry of `sel` picks, as a list of zero or one texts.
pub open spec fn picked(s: Seq<char>, sel: Seq<usize>, st: int, cl: int, g: int, hi: int) -> Seq<
    Seq<char>,
> {
    let ms = members(s, st + 2, cl);
    if st < hi && g < sel.len() && sel[g] < ms.len() {
        seq![ms[sel[g] as int]]
    } else {
        Seq::empty()
    }
}

/// The texts that the action `s[pos..hi)` gives for the selection `sel`,
/// whose `g`-th entry picks from the first group: each plain span, followed
/// by the picked member of the group after it.
pub open spec fn fragments_from(s: Seq<char>, sel: Seq<usize>, pos: int, g: int, hi: int) -> Seq<
    Seq<char>,
>
    decreases hi - pos,
{
    if pos >= hi {
        Seq::empty()
    } else {
        let st = find_open(s, pos, hi);
        let cl = group_end(s, st, hi);
        let here = seq![s.subrange(pos, st)] + picked(s, sel, st, cl, g, hi);
        if pos < cl <= hi {
            here + fragments_from(s, sel, cl, g + 1, hi)
        } else {
            here
        }
    }
}

/// The texts of one variant of the action `s[lo..hi)`: one empty text for an
/// empty action.
pub open spec fn body_variant(s: Seq<char>, lo: int, hi: int, sel: Seq<usize>) -> Seq<Seq<char>> {
    if lo >= hi {
        seq![Seq::empty()]
    } else {
        fragments_from(s, sel, lo, 0, hi)
    }
}

/// A backslash inside a group takes the character after it into the
/// member literally, a comma or a brace included, and drops it where it is
/// a line break; no member ends there.
pub proof fn lemma_escape(s: Seq<char>, a: int, b: int)
    requires
        a <= b - 2,
        b <= s.len(),
        s[b - 2] == '\\',
        !scan(s, a, b - 2).2,
        !scan(s, a, b - 2).3,
    ensures
        scan(s, a, b).0 == scan(s, a, b - 2).0,
        scan(s, a, b).1 == (if s[b - 1] == '\n' {
            scan(s, a, b - 2).1
        } else {
            scan(s, a, b - 2).1.push(s[b - 1])
        }),
        !scan(s, a, b).2,
        !scan(s, a, b).3,
{
    let before = scan(s, a, b - 2);
    assert(scan(s, a, b - 1) == scan_step(before, s[b - 2]));
    assert(scan(s, a, b - 1) == (before.0, before.1, true, false));
}

proof fn lemma_find_open_bounds(s: Seq<char>, i: int, hi: int)
    requires
        i <= hi,
    ensures
        i <= find_open(s, i, hi) <= hi,
        find_open(s, i, hi) < hi ==> find_open(s, i, hi) + 2 <= hi,
    decreases hi - i,
{
    if i + 1 < hi && !(s[i] == '{' && s[i + 1] == '{') {
        lemma_find_open_bounds(s, i + 1, hi);
    }
}

proof fn lemma_find_close_bounds(s: Seq<char>, j: int, hi: int)
    requires
        j <= hi,
    ensures
        j <= find_close(s, j, hi) <= hi,
    decreases hi - j,
{
    if j < hi {
        if s[j] == '\\' {
            if j + 1 < hi {
                lemma_find_close_bounds(s, j + 2, hi);
            }
        } else if s[j] == '}' {
            if j + 1 < hi && s[j + 1] != '}' {
                lemma_find_close_bounds(s, j + 2, hi);
            }
        } else {
            lemma_find_close_bounds(s, j + 1, hi);
        }
    }
}

/// Finds the first enumeration group of `s[pos..hi)`: where its `{{` starts
/// and where it ends, both `hi` where there is none.
pub fn split_brackets(s: &Vec<char>, pos: usize, hi: usize) -> (r: (usize, usize))
    requires
        pos <= hi <= s@.len(),
    ensures
        r.0 == find_open(s@, pos as int, hi as int),
        r.1 == group_end(s@, r.0 as int, hi as int),
        pos <= r.0 <= r.1 <= hi,
        r.0 < hi ==> r.0 + 2 <= r.1,
{
    let mut i = pos;
    while hi - i > 1 && !(s[i] == '{' && s[i + 1] == '{')
        invariant
            pos <= i <= hi <= s@.len(),
            find_open(s@, i as int, hi as int) == find_open(s@, pos as int, hi as int),
        decreases hi - i,
    {
        i += 1;
    }
    if hi - i <= 1 {
        return (hi, hi);
    }
    let start = i;
    let mut j = i + 2;
    proof {
        lemma_find_close_bounds(s@, j as int, hi as int);
    }
    loop
        invariant
            start + 2 <= j <= hi <= s@.len(),
            pos <= start < hi,
            start == find_open(s@, pos as int, hi as int),
            find_close(s@, j as int, hi as int) == find_close(s@, start + 2, hi as int),
        decreases hi - j,
    {
        if j >= hi {
            return (start, hi);
        }
        if s[j] == '\\' {
            if hi - j <= 1 {
                return (start, hi);
            }
            j += 2;
        } else if s[j] == '}' {
            if hi - j <= 1 {
                return (start, hi);
            }
            if s[j + 1] == '}' {
                return (start, j + 2);
            }
            j += 2;
        } else {
            j += 1;
        }
    }
}

/// The member that `choice` picks from the group whose text (after `{{`) is
/// `s[a..b)`, with its escapes resolved; `None` where the group has fewer
/// finished members.
pub fn select_member(s: &Vec<char>, a: usize, b: usize, choice: usize) -> (r: Option<Vec<char>>)
    requires
        a <= b <= s@.len(),
    ensures
        r is Some <==> choice < members(s@, a as int, b as int).len(),
        r is Some ==> r->0@ == members(s@, a as int, b as int)[choice as int],
{
    let mut found: Option<Vec<char>> = None;
    let mut count: usize = 0;
    let mut cur: Vec<char> = Vec::new();
    let mut escaped = false;
    let mut closed = false;
    let mut i = a;
    let ghost mut done: Seq<Seq<char>> = Seq::empty();
    while i < b
        invariant
            a <= i <= b <= s@.len(),
            scan(s@, a as int, i as int) == (done, cur@, escaped, closed),
            count == done.len(),
            count <= i - a,
            found is Some <==> choice < done.len(),
            found is Some ==> found->0@ == done[choice as int],
        decreases b - i,
    {
        let c = s[i];
        if closed {
        } else if escaped {
            if c != '\n' {
                cur.push(c);
            }
            escaped = false;
        } else if c == '\\' {
            escaped = true;
        } else if c == ',' || c == '}' {
            if count == choice {
                found = Some(cur.clone());
            }
            proof {
                done = done.push(cur@);
            }
            count += 1;
            cur = Vec::new();
            closed = c == '}';
        } else {
            cur.push(c);
        }
        i += 1;
    }
    found
}

/// Appends one variant of the action `s[lo..hi)` to `memory`: each plain
/// span as a view of `s`, each picked group member as owned text. Returns
/// how many fragments were appended.
pub fn push_body_variant(memory: &mut Vec<Fragment>, s: &Vec<char>, lo: usize, hi: usize, sel: &Vec<usize>) -> (r: usize)
    requires
        lo <= hi <= s@.len(),
    ensures
        final(memory)@.len() == old(memory)@.len() + r,
        final(memory)@.take(old(memory)@.len() as int) == old(memory)@,
        texts(final(memory)@.skip(old(memory)@.len() as int), s@) == body_variant(
            s@,
            lo as int,
            hi as int,
            sel@,
        ),
        forall|i: int|
            old(memory)@.len() <= i < final(memory)@.len() ==> (#[trigger] final(memory)@[i]).within(
                s@.len() as int,
            ),
{
    let start_len = memory.len();
    if lo == hi {
        memory.push(Fragment::View { start: lo, end: lo });
        proof {
            assert(memory@.skip(start_len as int) =~= seq![Fragment::View { start: lo, end: lo }]);
            assert(memory@.take(start_len as int) =~= old(memory)@);
            assert(s@.subrange(lo as int, lo as int) =~= Seq::<char>::empty());
            assert(texts(memory@.skip(start_len as int), s@) =~= seq![Seq::<char>::empty()]);
        }
        return 1;
    }
    let mut pos = lo;
    let mut g: usize = 0;
    while pos < hi
        invariant
            lo <= pos <= hi <= s@.len(),
            g <= pos,
            memory@.len() >= start_len,
            memory@.take(start_len as int) == old(memory)@,
            texts(memory@.skip(start_len as int), s@) + fragments_from(
                s@,
                sel@,
                pos as int,
                g as int,
                hi as int,
            ) == fragments_from(s@, sel@, lo as int, 0, hi as int),
            forall|i: int|
                start_len <= i < memory@.len() ==> (#[trigger] memory@[i]).within(s@.len() as int),
        decreases hi - pos,
    {
        let ghost before = memory@;
        let (st, cl) = split_brackets(s, pos, hi);
        proof {
            lemma_find_open_bounds(s@, pos as int, hi as int);
        }
        memory.push(Fragment::View { start: pos, end: st });
        let ghost mut added: Seq<Seq<char>> = seq![s@.subrange(pos as int, st as int)];
        if st < hi && g < sel.len() {
            match select_member(s, st + 2, cl, sel[g]) {
                Some(m) => {
                    proof {
                        added = added.push(m@);
                    }
                    memory.push(Fragment::Owned(m));
                },
                None => {},
            }
        }
        proof {
            let here = seq![s@.subrange(pos as int, st as int)] + picked(
                s@,
                sel@,
                st as int,
                cl as int,
                g as int,
                hi as int,
            );
            assert(added =~= here);
            assert(memory@.skip(start_len as int) =~= before.skip(start_len as int) + memory@.skip(
                before.len() as int,
            ));
            assert(texts(memory@.skip(before.len() as int), s@) =~= added);
            assert(texts(memory@.skip(start_len as int), s@) =~= texts(
                before.skip(start_len as int),
                s@,
            ) + added);
            assert(memory@.take(start_len as int) =~= before.take(start_len as int));
        }
        pos = cl;
        g += 1;
    }
    proof {
        assert(texts(memory@.skip(start_len as int), s@) + Seq::<Seq<char>>::empty() =~= texts(
            memory@.skip(start_len as int),
            s@,
        ));
    }
    memory.len() - start_len
}

} // verus!
