//! The state machine of the sizing pass.
use vstd::prelude::*;
use vstd::arithmetic::mul::*;
use crate::calculator::{all_positive, lemma_product_positive, lemma_product_push, product};
use crate::error::ParseError;
use crate::keys::{is_separator, is_white, separator, white, KEYSTR_MAX_LEN, PERMUTATION_LIMIT};
use crate::sizing::{capped, EntryBlobMetadata, UnparsedEntry};
use crate::text::{chars_of, copy_range};
use crate::walker::{row_at, skip_while, utf8_len, CharsWithIndex};

verus! {

/// Where the walk over the entry text is: in a trigger, in a trigger group,
/// in an action, or in an action group.
#[derive(Clone, Copy, Debug, PartialEq, Eq, Structural)]
pub enum State {
    Head,
    HeadBrackets,
    Body,
    BodyBrackets,
}

/// The end of the line that starts at `i`: the index of its line break, or
/// the end of the text.
pub open spec fn line_end(s: Seq<char>, i: int) -> int
    decreases s.len() - i,
{
    if i >= s.len() || s[i] == '\n' {
        i
    } else {
        line_end(s, i + 1)
    }
}

/// The first index in `[i, e)` that is not white space, or `e`.
pub open spec fn first_non_white(s: Seq<char>, i: int, e: int) -> int
    decreases e - i,
{
    if i >= e || !is_white(s[i]) {
        i
    } else {
        first_non_white(s, i + 1, e)
    }
}

/// Reads the lines before the first entry, from the line that starts at `i`,
/// `row` lines having been read. The first line that starts with `|` ends
/// the walk: the entry text starts after that `|`, on the line counted
/// last. A line before it must be blank or a comment (`#` after white
/// space); the error carries the row of the first that is not. Without a
/// `|` line the entry text is empty.
pub open spec fn preamble(s: Seq<char>, i: int, row: int) -> Result<(int, int), int>
    decreases s.len() - i,
{
    if i >= s.len() {
        Ok((s.len() as int, row))
    } else if s[i] == '|' {
        Ok((i + 1, row + 1))
    } else {
        let e = line_end(s, i);
        let f = first_non_white(s, i, e);
        if f < e && s[f] != '#' {
            Err(row + 1)
        } else if i <= e < s.len() {
            preamble(s, e + 1, row + 1)
        } else {
            Ok((s.len() as int, row + 1))
        }
    }
}

/// An entry as the sizing pass delimits it: where its trigger and action
/// lie, and the sizes of their groups.
pub struct EntryShape {
    pub head_start: int,
    pub head_end: int,
    pub body_start: int,
    pub body_end: int,
    pub head_sizes: Seq<usize>,
    pub body_sizes: Seq<usize>,
    pub row: int,
}

pub open spec fn shape_of(e: UnparsedEntry) -> EntryShape {
    EntryShape {
        head_start: e.head_start as int,
        head_end: e.head_end as int,
        body_start: e.body_start as int,
        body_end: e.body_end as int,
        head_sizes: e.head_sizes@,
        body_sizes: e.body_sizes@,
        row: e.row as int,
    }
}

pub open spec fn shapes(es: Seq<UnparsedEntry>) -> Seq<EntryShape> {
    Seq::new(es.len(), |i: int| shape_of(es[i]))
}

/// An entry that starts at `start` on line `row`, all trigger until the
/// end `len`.
pub open spec fn fresh_shape(start: int, len: int, row: int) -> EntryShape {
    EntryShape {
        head_start: start,
        head_end: len,
        body_start: len,
        body_end: len,
        head_sizes: Seq::empty(),
        body_sizes: Seq::empty(),
        row,
    }
}

/// The action groups have no more combinations than the trigger groups.
pub open spec fn fits(e: EntryShape) -> bool {
    product(e.body_sizes) <= product(e.head_sizes)
}

/// Where the sizing pass stands, over a text whose first line is
/// `base_row`: before the character at `at`, in `state`,
/// with a token that started at `key_start`, the members of the open group
/// counted so far, the entry being read and those finished, or failed.
pub struct Sizing {
    pub state: State,
    pub at: int,
    pub key_start: int,
    pub head_set_size: int,
    pub body_set_size: int,
    pub current: EntryShape,
    pub entries: Seq<EntryShape>,
    pub failed: bool,
    pub base_row: int,
}

pub open spec fn sizing_start(s: Seq<char>, base_row: int) -> Sizing {
    Sizing {
        state: State::Head,
        at: 0,
        key_start: 0,
        head_set_size: 0,
        body_set_size: 0,
        current: fresh_shape(0, s.len() as int, base_row),
        entries: Seq::empty(),
        failed: false,
        base_row,
    }
}

pub open spec fn fail(z: Sizing) -> Sizing {
    Sizing { failed: true, ..z }
}

/// The next character is `c`.
pub open spec fn next_is(s: Seq<char>, i: int, c: char) -> bool {
    0 <= i < s.len() && s[i] == c
}

/// Reads the character at `z.at` (and, for a brace pair, an escape or an
/// entry break, the one after it).
pub open spec fn sizing_step(s: Seq<char>, z: Sizing) -> Sizing {
    let c = s[z.at];
    let i = z.at + 1;
    let len = s.len() as int;
    match z.state {
        State::Head => if c == '|' {
            Sizing {
                state: State::Body,
                at: i,
                current: EntryShape { head_end: z.at, body_start: i, ..z.current },
                ..z
            }
        } else if c == '{' {
            if next_is(s, i, '{') {
                let j = skip_while(s, i + 1, false);
                Sizing { state: State::HeadBrackets, at: j, key_start: j, head_set_size: 0, ..z }
            } else {
                fail(z)
            }
        } else if c == ',' {
            fail(z)
        } else if c == ';' || is_separator(c) {
            let j = skip_while(s, i, false);
            Sizing { at: j, key_start: j, ..z }
        } else if c == '}' {
            fail(z)
        } else if utf8_len(s.subrange(z.key_start, i)) > KEYSTR_MAX_LEN {
            fail(z)
        } else {
            Sizing { at: i, ..z }
        },
        State::HeadBrackets => if c == '|' || c == '\\' {
            fail(z)
        } else if c == ',' {
            let j = skip_while(s, i, false);
            Sizing { at: j, key_start: j, head_set_size: z.head_set_size + 1, ..z }
        } else if c == '}' {
            if next_is(s, i, '}') {
                let sizes = z.current.head_sizes.push((z.head_set_size + 1) as usize);
                if product(sizes) > PERMUTATION_LIMIT {
                    fail(z)
                } else {
                    Sizing {
                        state: State::Head,
                        at: i + 1,
                        head_set_size: z.head_set_size + 1,
                        current: EntryShape { head_sizes: sizes, ..z.current },
                        ..z
                    }
                }
            } else {
                fail(z)
            }
        } else if is_separator(c) {
            let j = skip_while(s, i, true);
            Sizing { at: j, key_start: j, ..z }
        } else {
            Sizing { at: i, ..z }
        },
        State::Body => if c == '\n' && next_is(s, i, '|') {
            let done = EntryShape { body_end: i, ..z.current };
            if !fits(done) {
                fail(z)
            } else {
                let j = skip_while(s, i + 1, false);
                Sizing {
                    state: State::Head,
                    at: j,
                    key_start: j,
                    current: fresh_shape(i + 1, len, row_at(z.base_row, s, i + 1)),
                    entries: z.entries.push(done),
                    ..z
                }
            }
        } else if c == '{' && next_is(s, i, '{') {
            Sizing { state: State::BodyBrackets, at: i, body_set_size: 0, ..z }
        } else {
            Sizing { at: i, ..z }
        },
        State::BodyBrackets => if c == '\\' {
            Sizing { at: if i < len { i + 1 } else { i }, ..z }
        } else if c == ',' {
            Sizing { at: i, body_set_size: z.body_set_size + 1, ..z }
        } else if c == '}' {
            if next_is(s, i, '}') {
                Sizing {
                    state: State::Body,
                    at: i + 1,
                    body_set_size: z.body_set_size + 1,
                    current: EntryShape {
                        body_sizes: z.current.body_sizes.push((z.body_set_size + 1) as usize),
                        ..z.current
                    },
                    ..z
                }
            } else {
                fail(z)
            }
        } else {
            Sizing { at: i, ..z }
        },
    }
}

/// Closing a trigger group fails exactly when the entry's trigger groups,
/// that one included, would have more combinations than the limit allows:
/// reaching the limit is accepted, passing it is not.
pub proof fn lemma_limit_boundary(s: Seq<char>, z: Sizing)
    requires
        z.state == State::HeadBrackets,
        !z.failed,
        0 <= z.at,
        z.at + 1 < s.len(),
        s[z.at] == '}',
        s[z.at + 1] == '}',
    ensures
        sizing_step(s, z).failed <==> product(
            z.current.head_sizes.push((z.head_set_size + 1) as usize),
        ) > PERMUTATION_LIMIT,
        !sizing_step(s, z).failed ==> sizing_step(s, z).current.head_sizes == z.current.head_sizes.push(
            (z.head_set_size + 1) as usize,
        ),
{
}

/// Runs the sizing pass to the end of the text or the first failure.
pub open spec fn sizing_run(s: Seq<char>, z: Sizing) -> Sizing
    decreases s.len() - z.at,
{
    if z.failed || z.at < 0 || z.at >= s.len() {
        z
    } else {
        let n = sizing_step(s, z);
        if n.failed || n.at <= z.at || n.at > s.len() {
            n
        } else {
            sizing_run(s, n)
        }
    }
}

/// The entries of the entry text `s`, whose first line is `base_row`, or
/// `None` where the sizing pass rejects it.
pub open spec fn sizing_result(s: Seq<char>, base_row: int) -> Option<Seq<EntryShape>> {
    let z = sizing_run(s, sizing_start(s, base_row));
    if z.failed || z.state == State::HeadBrackets || z.state == State::BodyBrackets {
        None
    } else if z.current.head_end > z.current.head_start {
        if fits(z.current) {
            Some(z.entries.push(z.current))
        } else {
            None
        }
    } else {
        Some(z.entries)
    }
}

/// The trigger groups of `e` stay within the limit.
pub open spec fn within_limit(e: EntryShape) -> bool {
    product(e.head_sizes) <= PERMUTATION_LIMIT
}

/// Every finished entry stays within the limit and fits, and so does the
/// current entry's trigger.
pub open spec fn sizing_sound(z: Sizing) -> bool {
    &&& within_limit(z.current)
    &&& forall|k: int| 0 <= k < z.entries.len() ==> within_limit(#[trigger] z.entries[k]) && fits(
        z.entries[k],
    )
}

proof fn lemma_step_sound(s: Seq<char>, z: Sizing)
    requires
        sizing_sound(z),
        0 <= z.at < s.len(),
    ensures
        sizing_sound(sizing_step(s, z)),
{
    let n = sizing_step(s, z);
    assert(product(Seq::<usize>::empty()) == 1);
    if n.entries.len() > z.entries.len() {
        assert(n.entries.last() == EntryShape { body_end: z.at + 1, ..z.current });
    }
    assert forall|k: int| 0 <= k < n.entries.len() implies within_limit(#[trigger] n.entries[k])
        && fits(n.entries[k]) by {
        if k < z.entries.len() {
            assert(n.entries[k] == z.entries[k]);
        }
    }
}

proof fn lemma_run_sound(s: Seq<char>, z: Sizing)
    requires
        sizing_sound(z),
    ensures
        sizing_sound(sizing_run(s, z)),
    decreases s.len() - z.at,
{
    if !(z.failed || z.at < 0 || z.at >= s.len()) {
        lemma_step_sound(s, z);
        let n = sizing_step(s, z);
        if !(n.failed || n.at <= z.at || n.at > s.len()) {
            lemma_run_sound(s, n);
        }
    }
}

/// Exceeding the limit fails: every entry the sizing pass accepts has at
/// most `PERMUTATION_LIMIT` combinations of trigger groups, and no more
/// combinations of action groups than that.
pub proof fn lemma_accepted_entries_within_limit(s: Seq<char>, base_row: int)
    ensures
        sizing_result(s, base_row) is Some ==> forall|k: int|
            0 <= k < sizing_result(s, base_row)->Some_0.len() ==> within_limit(
                #[trigger] sizing_result(s, base_row)->Some_0[k],
            ) && fits(sizing_result(s, base_row)->Some_0[k]),
{
    let z0 = sizing_start(s, base_row);
    assert(product(Seq::<usize>::empty()) == 1);
    lemma_run_sound(s, z0);
    let z = sizing_run(s, z0);
    if sizing_result(s, base_row) is Some && z.current.head_end > z.current.head_start {
        let es = z.entries.push(z.current);
        assert forall|k: int| 0 <= k < es.len() implies within_limit(#[trigger] es[k]) && fits(
            es[k],
        ) by {
            if k < z.entries.len() {
                assert(es[k] == z.entries[k]);
            }
        }
    }
}

pub struct FiniteStateMachine {
    pub walker: CharsWithIndex,
    pub state: State,
    pub key_start_index: usize,
    pub head_set_size: usize,
    pub body_set_size: usize,
    pub entry_body_permutation_count: usize,
    pub entry: UnparsedEntry,
    pub metadata: EntryBlobMetadata,
}

proof fn lemma_capped_push(b: Seq<usize>, x: usize)
    requires
        all_positive(b),
        x >= 1,
    ensures
        capped(product(b.push(x))) == (if x > PERMUTATION_LIMIT {
            PERMUTATION_LIMIT + 1
        } else {
            capped(capped(product(b)) * x)
        }),
{
    lemma_product_push(b, x);
    lemma_product_positive(b);
    let p = product(b);
    lemma_mul_increases(x as int, p);
    lemma_mul_is_commutative(x as int, p);
    lemma_mul_increases(p, x as int);
    if p > PERMUTATION_LIMIT {
        lemma_mul_increases(x as int, PERMUTATION_LIMIT + 1);
        lemma_mul_is_commutative(x as int, PERMUTATION_LIMIT + 1);
    }
}

/// `a` and `b` have the same spans and row.
pub open spec fn same_spans(a: UnparsedEntry, b: UnparsedEntry) -> bool {
    &&& a.head_start == b.head_start
    &&& a.head_end == b.head_end
    &&& a.body_start == b.body_start
    &&& a.body_end == b.body_end
    &&& a.row == b.row
}

/// `e` with its body ending at `end`.
pub open spec fn ended(e: UnparsedEntry, end: usize) -> UnparsedEntry {
    UnparsedEntry { body_end: end, ..e }
}

impl FiniteStateMachine {
    /// What holds between any two characters.
    pub open spec fn inv(&self) -> bool {
        let l = self.metadata.text@.len() as int;
        &&& self.walker.wf()
        &&& self.walker.text() == self.metadata.text@
        &&& self.metadata.wf()
        &&& self.entry.wf(l)
        &&& self.entry_body_permutation_count == capped(product(self.entry.body_sizes@))
        &&& self.key_start_index <= self.walker.at
        &&& self.head_set_size <= self.walker.at
        &&& self.body_set_size <= self.walker.at
        &&& self.entry.head_start <= self.walker.at
        &&& (self.state == State::Body || self.state == State::BodyBrackets)
            ==> self.entry.body_start <= self.walker.at
        &&& (self.state == State::Head || self.state == State::HeadBrackets) ==> (
        self.entry.head_end == l && self.entry.body_start == l && self.entry.body_end == l)
    }

    /// Where the walk stands, as the sizing pass sees it, with the cursor
    /// at `at`.
    pub open spec fn view_at(&self, at: int) -> Sizing {
        Sizing {
            state: self.state,
            at,
            key_start: self.key_start_index as int,
            head_set_size: self.head_set_size as int,
            body_set_size: self.body_set_size as int,
            current: shape_of(self.entry),
            entries: shapes(self.metadata.entries@),
            failed: false,
            base_row: self.walker.first_row as int,
        }
    }

    /// A character has just been read.
    pub open spec fn ready(&self) -> bool {
        &&& self.head_set_size < self.walker.at
        &&& self.body_set_size < self.walker.at
        &&& self.entry.head_start < self.walker.at
    }

    /// `ch` is the character just read.
    pub open spec fn just_read(&self, ch: char) -> bool {
        &&& self.walker.at >= 1
        &&& self.walker.text()[self.walker.at - 1] == ch
    }

    /// The character after the one just read.
    pub open spec fn following(&self) -> Option<char> {
        if self.walker.at < self.walker.text().len() {
            Some(self.walker.text()[self.walker.at as int])
        } else {
            None
        }
    }

    /// What every step keeps: the text, and a cursor that only moves on.
    pub open spec fn moves_on(&self, next: &Self) -> bool {
        &&& next.metadata.text == self.metadata.text
        &&& next.walker.at >= self.walker.at
        &&& next.walker.first_row == self.walker.first_row
        &&& next.metadata.entries@.len() >= self.metadata.entries@.len()
    }

    fn head_set_start(&mut self)
        requires
            old(self).inv(),
        ensures
            final(self).walker.at == skip_while(old(self).walker.text(), old(self).walker.at as int, false),
            final(self).key_start_index == final(self).walker.at,
            final(self).metadata == old(self).metadata,
            final(self).body_set_size == old(self).body_set_size,
            final(self).inv(),
            old(self).moves_on(final(self)),
            final(self).head_set_size == 0,
            final(self).state == old(self).state,
            final(self).entry == old(self).entry,
    {
        self.walker.eat_separator();
        self.key_start_index = self.walker.at;
        self.head_set_size = 0;
    }

    fn head_set_member(&mut self)
        requires
            old(self).inv(),
            old(self).ready(),
        ensures
            final(self).walker.at == skip_while(old(self).walker.text(), old(self).walker.at as int, false),
            final(self).key_start_index == final(self).walker.at,
            final(self).metadata == old(self).metadata,
            final(self).body_set_size == old(self).body_set_size,
            final(self).inv(),
            old(self).moves_on(final(self)),
            final(self).head_set_size == old(self).head_set_size + 1,
            final(self).state == old(self).state,
            final(self).entry == old(self).entry,
    {
        self.walker.eat_separator();
        self.key_start_index = self.walker.at;
        self.head_set_size += 1;
    }

    /// Ends a trigger group: one more member than commas, and the entry's
    /// combinations multiplied by its size, which must stay within the limit.
    fn head_set_close(&mut self) -> (r: Result<(), ParseError>)
        requires
            old(self).inv(),
            old(self).ready(),
        ensures
            final(self).walker == old(self).walker,
            final(self).key_start_index == old(self).key_start_index,
            final(self).metadata == old(self).metadata,
            final(self).head_set_size == old(self).head_set_size + 1,
            final(self).body_set_size == old(self).body_set_size,
            old(self).moves_on(final(self)),
            final(self).state == old(self).state,
            product(old(self).entry.head_sizes@.push((old(self).head_set_size + 1) as usize))
                > PERMUTATION_LIMIT <==> r is Err,
            r is Err ==> r->Err_0 == (ParseError::TooManyPermutations { row: old(self).walker.row }),
            r is Ok ==> final(self).inv() && final(self).entry.head_sizes@ == old(self).entry.head_sizes@.push((old(self).head_set_size + 1) as usize),
            same_spans(final(self).entry, old(self).entry),
            final(self).entry.body_sizes == old(self).entry.body_sizes,
    {
        self.head_set_size += 1;
        let size = self.head_set_size;
        proof {
            lemma_product_push(self.entry.head_sizes@, size);
            lemma_product_positive(self.entry.head_sizes@);
            lemma_mul_increases(product(self.entry.head_sizes@), size as int);
        }
        if size > PERMUTATION_LIMIT {
            return Err(ParseError::TooManyPermutations { row: self.walker.row });
        }
        proof {
            lemma_mul_inequality(
                self.entry.permutation_count as int,
                PERMUTATION_LIMIT as int,
                size as int,
            );
            lemma_mul_inequality(size as int, PERMUTATION_LIMIT as int, PERMUTATION_LIMIT as int);
        }
        let p = self.entry.permutation_count * size;
        if p > PERMUTATION_LIMIT {
            return Err(ParseError::TooManyPermutations { row: self.walker.row });
        }
        self.entry.permutation_count = p;
        self.entry.head_sizes.push(size);
        self.entry.head_set_count = self.entry.head_sizes.len();
        proof {
            assert(all_positive(self.entry.head_sizes@));
        }
        Ok(())
    }

    fn body_set_start(&mut self)
        requires
            old(self).inv(),
        ensures
            final(self).walker == old(self).walker,
            final(self).key_start_index == old(self).key_start_index,
            final(self).metadata == old(self).metadata,
            final(self).head_set_size == old(self).head_set_size,
            final(self).inv(),
            old(self).moves_on(final(self)),
            final(self).body_set_size == 0,
            final(self).state == old(self).state,
            final(self).entry == old(self).entry,
    {
        self.body_set_size = 0;
    }

    fn body_set_member(&mut self)
        requires
            old(self).inv(),
            old(self).ready(),
        ensures
            final(self).walker == old(self).walker,
            final(self).key_start_index == old(self).key_start_index,
            final(self).metadata == old(self).metadata,
            final(self).head_set_size == old(self).head_set_size,
            final(self).inv(),
            old(self).moves_on(final(self)),
            final(self).body_set_size == old(self).body_set_size + 1,
            final(self).state == old(self).state,
            final(self).entry == old(self).entry,
    {
        self.body_set_size += 1;
    }

    /// Ends an action group: one more member than commas.
    fn body_set_close(&mut self)
        requires
            old(self).inv(),
            old(self).ready(),
        ensures
            final(self).walker == old(self).walker,
            final(self).key_start_index == old(self).key_start_index,
            final(self).metadata == old(self).metadata,
            final(self).head_set_size == old(self).head_set_size,
            final(self).body_set_size == old(self).body_set_size + 1,
            final(self).inv(),
            old(self).moves_on(final(self)),
            final(self).state == old(self).state,
            final(self).entry.body_sizes@ == old(self).entry.body_sizes@.push(
                (old(self).body_set_size + 1) as usize,
            ),
            final(self).entry.head_sizes@ == old(self).entry.head_sizes@,
            same_spans(final(self).entry, old(self).entry),
    {
        self.body_set_member();
        let size = self.body_set_size;
        proof {
            lemma_capped_push(self.entry.body_sizes@, size);
        }
        if size > PERMUTATION_LIMIT {
            self.entry_body_permutation_count = PERMUTATION_LIMIT + 1;
        } else {
            proof {
                lemma_mul_inequality(
                    self.entry_body_permutation_count as int,
                    PERMUTATION_LIMIT + 1,
                    size as int,
                );
                lemma_mul_inequality(size as int, PERMUTATION_LIMIT as int, PERMUTATION_LIMIT + 1);
                lemma_mul_is_commutative(size as int, PERMUTATION_LIMIT + 1);
            }
            let p = self.entry_body_permutation_count * size;
            self.entry_body_permutation_count = if p > PERMUTATION_LIMIT {
                PERMUTATION_LIMIT + 1
            } else {
                p
            };
        }
        self.entry.body_sizes.push(size);
        self.entry.body_set_count = self.entry.body_sizes.len();
        proof {
            assert(all_positive(self.entry.body_sizes@));
        }
    }

    /// Moves to `target`, opening or closing a group on the way.
    fn change_state(&mut self, target: State) -> (r: Result<(), ParseError>)
        requires
            old(self).inv(),
            old(self).ready(),
            old(self).state != target,
            old(self).state == State::HeadBrackets ==> target == State::Head,
            old(self).state == State::BodyBrackets ==> target == State::Body,
            target == State::HeadBrackets ==> old(self).state == State::Head,
            target == State::BodyBrackets ==> old(self).state == State::Body,
            target == State::Body || target == State::BodyBrackets ==> old(self).entry.body_start
                <= old(self).walker.at,
            target == State::Head || target == State::HeadBrackets ==> (old(self).entry.head_end
                == old(self).walker.text().len() && old(self).entry.body_start == old(
                self).walker.text().len() && old(self).entry.body_end == old(self).walker.text().len()),
        ensures
            target == State::HeadBrackets ==> final(self).walker.at == skip_while(old(self).walker.text(), old(self).walker.at as int, false)
                && final(self).key_start_index == final(self).walker.at && final(self).metadata == old(self).metadata
                && final(self).body_set_size == old(self).body_set_size,
            old(self).state == State::HeadBrackets && r is Ok ==> final(self).walker == old(self).walker
                && final(self).key_start_index == old(self).key_start_index && final(self).metadata == old(self).metadata
                && final(self).head_set_size == old(self).head_set_size + 1 && final(self).body_set_size == old(self).body_set_size
                && same_spans(final(self).entry, old(self).entry) && final(self).entry.body_sizes == old(self).entry.body_sizes,
            target == State::BodyBrackets ==> final(self).walker == old(self).walker
                && final(self).key_start_index == old(self).key_start_index && final(self).metadata == old(self).metadata
                && final(self).head_set_size == old(self).head_set_size && final(self).entry == old(self).entry,
            old(self).state == State::BodyBrackets ==> final(self).walker == old(self).walker
                && final(self).key_start_index == old(self).key_start_index && final(self).metadata == old(self).metadata
                && final(self).head_set_size == old(self).head_set_size && final(self).body_set_size == old(self).body_set_size + 1
                && same_spans(final(self).entry, old(self).entry) && final(self).entry.head_sizes@ == old(self).entry.head_sizes@,
            old(self).state == State::HeadBrackets && r is Ok ==> final(self).entry.head_sizes@ == old(self).entry.head_sizes@.push((old(self).head_set_size + 1) as usize),
            old(self).state == State::BodyBrackets ==> final(self).entry.body_sizes@ == old(self).entry.body_sizes@.push((old(self).body_set_size + 1) as usize),
            target == State::BodyBrackets ==> final(self).body_set_size == 0,
            old(self).moves_on(final(self)),
            r is Ok ==> final(self).inv() && final(self).state == target,
            target == State::HeadBrackets ==> r is Ok && final(self).head_set_size == 0
                && final(self).entry == old(self).entry,
            target != State::HeadBrackets && old(self).state == State::HeadBrackets ==> (r is Err
                <==> product(
                old(self).entry.head_sizes@.push((old(self).head_set_size + 1) as usize),
            ) > PERMUTATION_LIMIT),
            r is Err ==> r->Err_0 == (ParseError::TooManyPermutations { row: old(self).walker.row }),
            target != State::HeadBrackets && old(self).state != State::HeadBrackets ==> r is Ok,
    {
        if target == State::HeadBrackets {
            self.head_set_start();
        } else if self.state == State::HeadBrackets {
            self.head_set_close()?;
        } else if target == State::BodyBrackets {
            self.body_set_start();
        } else if self.state == State::BodyBrackets {
            self.body_set_close();
        } else if target == State::Head {
            self.walker.eat_separator();
            self.key_start_index = self.walker.at;
        }
        self.state = target;
        Ok(())
    }
    /// Finds where the entry text of `source` starts: the index after the
    /// first `|` that starts a line, and the row of that line.
    pub fn step_init_until_first(source: &Vec<char>) -> (r: Result<(usize, usize), ParseError>)
        ensures
            r is Ok ==> r->Ok_0.1 <= r->Ok_0.0 <= source@.len(),
            match preamble(source@, 0, 0) {
                Ok((start, row)) => r is Ok && r->Ok_0.0 == start && r->Ok_0.1 == row,
                Err(row) => r is Err && r->Err_0 == (ParseError::IllegalLine { row: row as usize }),
            },
    {
        let n = source.len();
        let mut i: usize = 0;
        let mut row: usize = 0;
        while i < n
            invariant
                n == source@.len(),
                i <= n,
                row <= i,
                preamble(source@, i as int, row as int) == preamble(source@, 0, 0),
            decreases n - i,
        {
            if source[i] == '|' {
                return Ok((i + 1, row + 1));
            }
            let mut e = i;
            while e < n && source[e] != '\n'
                invariant
                    i <= e <= n == source@.len(),
                    line_end(source@, e as int) == line_end(source@, i as int),
                decreases n - e,
            {
                e += 1;
            }
            let mut f = i;
            while f < e && white(source[f])
                invariant
                    i <= f <= e <= n == source@.len(),
                    first_non_white(source@, f as int, e as int) == first_non_white(
                        source@,
                        i as int,
                        e as int,
                    ),
                decreases e - f,
            {
                f += 1;
            }
            if f < e && source[f] != '#' {
                return Err(ParseError::IllegalLine { row: row + 1 });
            }
            row += 1;
            if e >= n {
                return Ok((n, row));
            }
            i = e + 1;
        }
        Ok((n, row))
    }

    /// A character of a trigger.
    fn step_head(&mut self, ch: char) -> (r: Result<(), ParseError>)
        requires
            old(self).inv(),
            old(self).ready(),
            old(self).state == State::Head,
            old(self).just_read(ch),
        ensures
            r is Ok <==> !sizing_step(old(self).walker.text(), old(self).view_at(old(self).walker.at - 1)).failed,
            r is Ok ==> final(self).view_at(final(self).walker.at as int) == sizing_step(old(self).walker.text(), old(self).view_at(old(self).walker.at - 1)),
            old(self).moves_on(final(self)),
            r is Ok ==> final(self).inv(),
            ch == ',' ==> r == Err::<(), ParseError>(
                ParseError::UnexpectedComma { row: old(self).walker.row },
            ),
            ch == '|' ==> r is Ok && final(self).state == State::Body && final(self).entry.head_end
                == old(self).walker.at - 1 && final(self).entry.body_start == old(self).walker.at,
            ch == '{' && old(self).following() == Some('{') ==> r is Ok && final(self).state
                == State::HeadBrackets,
            ch == '{' && old(self).following() != Some('{') ==> r is Err && r->Err_0 == (
            ParseError::MissingOpenBrace { row: old(self).walker.row }),
            ch == '}' ==> r == Err::<(), ParseError>(
                ParseError::UnmatchedClose { row: old(self).walker.row },
            ),
            ch != '|' && ch != '{' && r is Ok ==> final(self).state == State::Head,
    {
        if ch == '|' {
            self.entry.head_end = self.walker.at - 1;
            self.entry.body_start = self.walker.at;
            self.state = State::Body;
            Ok(())
        } else if ch == '{' {
            let row = self.walker.row;
            match self.walker.next() {
                Some('{') => self.change_state(State::HeadBrackets),
                _ => Err(ParseError::MissingOpenBrace { row }),
            }
        } else if ch == ',' {
            Err(ParseError::UnexpectedComma { row: self.walker.row })
        } else if ch == ';' || separator(ch) {
            self.walker.eat_separator();
            self.key_start_index = self.walker.at;
            Ok(())
        } else if ch == '}' {
            Err(ParseError::UnmatchedClose { row: self.walker.row })
        } else if self.walker.utf8_len_between(self.key_start_index, self.walker.at)
            > KEYSTR_MAX_LEN {
            Err(ParseError::TokenTooLong { row: self.walker.row })
        } else {
            Ok(())
        }
    }

    /// A character inside a trigger group.
    fn step_head_brackets(&mut self, ch: char) -> (r: Result<(), ParseError>)
        requires
            old(self).inv(),
            old(self).ready(),
            old(self).state == State::HeadBrackets,
            old(self).just_read(ch),
        ensures
            r is Ok <==> !sizing_step(old(self).walker.text(), old(self).view_at(old(self).walker.at - 1)).failed,
            r is Ok ==> final(self).view_at(final(self).walker.at as int) == sizing_step(old(self).walker.text(), old(self).view_at(old(self).walker.at - 1)),
            old(self).moves_on(final(self)),
            r is Ok ==> final(self).inv(),
            ch == '|' ==> r == Err::<(), ParseError>(
                ParseError::BarInGroup { row: old(self).walker.row },
            ),
            ch == '\\' ==> r == Err::<(), ParseError>(
                ParseError::BackslashInHead { row: old(self).walker.row },
            ),
            ch == ',' ==> r is Ok && final(self).head_set_size == old(self).head_set_size + 1
                && final(self).state == State::HeadBrackets,
            ch == '}' && old(self).following() != Some('}') ==> r is Err && r->Err_0 == (
            ParseError::MissingCloseBrace { row: old(self).walker.row }),
            ch == '}' && old(self).following() == Some('}') ==> (r is Err <==> product(
                old(self).entry.head_sizes@.push((old(self).head_set_size + 1) as usize),
            ) > PERMUTATION_LIMIT),
            ch == '}' && r is Ok ==> final(self).state == State::Head && final(self).entry.head_sizes@ == old(self).entry.head_sizes@.push(
                (old(self).head_set_size + 1) as usize,
            ),
            ch != '}' && r is Ok ==> final(self).state == State::HeadBrackets,
    {
        if ch == '|' {
            Err(ParseError::BarInGroup { row: self.walker.row })
        } else if ch == '\\' {
            Err(ParseError::BackslashInHead { row: self.walker.row })
        } else if ch == ',' {
            self.head_set_member();
            Ok(())
        } else if ch == '}' {
            let row = self.walker.row;
            match self.walker.next() {
                Some('}') => self.change_state(State::Head),
                _ => Err(ParseError::MissingCloseBrace { row }),
            }
        } else if separator(ch) {
            self.walker.eat_whitespace();
            self.key_start_index = self.walker.at;
            Ok(())
        } else {
            Ok(())
        }
    }

    /// A character of an action. A line break followed by `|` ends the
    /// entry, which is recorded, and starts the next one.
    fn step_body(&mut self, ch: char) -> (r: Result<(), ParseError>)
        requires
            old(self).inv(),
            old(self).ready(),
            old(self).state == State::Body,
            old(self).just_read(ch),
        ensures
            r is Ok <==> !sizing_step(old(self).walker.text(), old(self).view_at(old(self).walker.at - 1)).failed,
            r is Ok ==> final(self).view_at(final(self).walker.at as int) == sizing_step(old(self).walker.text(), old(self).view_at(old(self).walker.at - 1)),
            old(self).moves_on(final(self)),
            r is Ok ==> final(self).inv(),
            ch == '\n' && old(self).following() == Some('|') ==> (r is Err <==> !ended(
                old(self).entry,
                old(self).walker.at,
            ).body_fits()) && (r is Ok ==> final(self).state == State::Head && final(self).metadata.entries@ == old(self).metadata.entries@.push(
                ended(old(self).entry, old(self).walker.at),
            )),
            ch == '{' && old(self).following() == Some('{') ==> r is Ok && final(self).state
                == State::BodyBrackets && final(self).body_set_size == 0,
            !(ch == '\n' && old(self).following() == Some('|')) && !(ch == '{' && old(self).following() == Some('{')) ==> r is Ok && final(self).state == State::Body,
    {
        if ch == '\n' && self.walker.peek() == Some('|') {
            self.walker.next();
            self.entry.body_end = self.walker.at - 1;
            let len = self.walker.len();
            let mut done = UnparsedEntry::new(self.walker.at, self.walker.row, len);
            core::mem::swap(&mut self.entry, &mut done);
            let body_count = self.entry_body_permutation_count;
            self.entry_body_permutation_count = 1;
            proof {
                assert(product(self.entry.body_sizes@) == 1);
            }
            let ghost before = self.metadata.entries@;
            let ghost finished = done;
            self.metadata.push_entry(body_count, done)?;
            self.state = State::Head;
            self.walker.eat_separator();
            self.key_start_index = self.walker.at;
            proof {
                assert(shapes(self.metadata.entries@) =~= shapes(before).push(shape_of(finished)));
                assert(self.entry.head_sizes@ =~= Seq::<usize>::empty());
                assert(self.entry.body_sizes@ =~= Seq::<usize>::empty());
                assert(shape_of(self.entry) == fresh_shape(
                    self.entry.head_start as int,
                    self.walker.text().len() as int,
                    self.entry.row as int,
                ));
            }
            Ok(())
        } else if ch == '{' && self.walker.peek() == Some('{') {
            self.change_state(State::BodyBrackets)
        } else {
            Ok(())
        }
    }

    /// A character inside an action group. A backslash takes the next
    /// character with it.
    fn step_body_brackets(&mut self, ch: char) -> (r: Result<(), ParseError>)
        requires
            old(self).inv(),
            old(self).ready(),
            old(self).state == State::BodyBrackets,
            old(self).just_read(ch),
        ensures
            r is Ok <==> !sizing_step(old(self).walker.text(), old(self).view_at(old(self).walker.at - 1)).failed,
            r is Ok ==> final(self).view_at(final(self).walker.at as int) == sizing_step(old(self).walker.text(), old(self).view_at(old(self).walker.at - 1)),
            old(self).moves_on(final(self)),
            r is Ok ==> final(self).inv(),
            ch == ',' ==> r is Ok && final(self).body_set_size == old(self).body_set_size + 1
                && final(self).state == State::BodyBrackets,
            ch == '}' && old(self).following() != Some('}') ==> r is Err && r->Err_0 == (
            ParseError::MissingCloseBrace { row: old(self).walker.row }),
            ch == '}' && old(self).following() == Some('}') ==> r is Ok && final(self).state
                == State::Body && final(self).entry.body_sizes@ == old(self).entry.body_sizes@.push(
                (old(self).body_set_size + 1) as usize,
            ),
            ch != '}' ==> r is Ok && final(self).state == State::BodyBrackets,
    {
        if ch == '\\' {
            self.walker.next();
            Ok(())
        } else if ch == ',' {
            self.body_set_member();
            Ok(())
        } else if ch == '}' {
            let row = self.walker.row;
            match self.walker.next() {
                Some('}') => self.change_state(State::Body),
                _ => Err(ParseError::MissingCloseBrace { row }),
            }
        } else {
            Ok(())
        }
    }
}

/// Checks the format of `source` and splits its entry text into entries,
/// recording the sizes of each entry's groups: the first pass of the
/// compiler.
pub fn validate_and_calculate_allocations(source: &str) -> (r: Result<EntryBlobMetadata, ParseError>)
    requires
        source@.len() <= usize::MAX / 4,
    ensures
        match preamble(source@, 0, 0) {
            Err(row) => r is Err && r->Err_0 == (ParseError::IllegalLine { row: row as usize }),
            Ok((start, row)) => {
                let t = source@.subrange(start, source@.len() as int);
                &&& (r is Ok <==> sizing_result(t, row) is Some)
                &&& (r is Ok ==> r->Ok_0.wf() && r->Ok_0.text@ == t && shapes(r->Ok_0.entries@)
                    == sizing_result(t, row)->Some_0)
            },
        },
{
    let chars = chars_of(source);
    let (start, row) = match FiniteStateMachine::step_init_until_first(&chars) {
        Ok(found) => found,
        Err(e) => return Err(e),
    };
    assert(preamble(source@, 0, 0) == Ok::<(int, int), int>((start as int, row as int)));
    let text = copy_range(&chars, start, chars.len());
    let len = text.len();
    let walker = CharsWithIndex::over(copy_range(&chars, start, chars.len()), row);
    let mut fsm = FiniteStateMachine {
        walker,
        state: State::Head,
        key_start_index: 0,
        head_set_size: 0,
        body_set_size: 0,
        entry_body_permutation_count: 1,
        entry: UnparsedEntry::new(0, row, len),
        metadata: EntryBlobMetadata::new(text),
    };
    let ghost t = fsm.metadata.text@;
    proof {
        assert(product(fsm.entry.body_sizes@) == 1);
        assert(fsm.entry.head_sizes@ =~= Seq::<usize>::empty());
        assert(fsm.entry.body_sizes@ =~= Seq::<usize>::empty());
        assert(shapes(fsm.metadata.entries@) =~= Seq::<EntryShape>::empty());
        assert(fsm.view_at(0) == sizing_start(t, row as int));
    }
    while fsm.walker.at < fsm.walker.len()
        invariant
            t == fsm.metadata.text@,
            sizing_run(t, fsm.view_at(fsm.walker.at as int)) == sizing_run(t, sizing_start(t, row as int)),
            fsm.inv(),
            fsm.metadata.text@ == source@.subrange(start as int, source@.len() as int),
            preamble(source@, 0, 0) == Ok::<(int, int), int>((start as int, row as int)),
        decreases fsm.walker.text().len() - fsm.walker.at,
    {
        let ghost z = fsm.view_at(fsm.walker.at as int);
        let ch = fsm.walker.next().unwrap();
        assert(fsm.view_at(fsm.walker.at - 1) == z);
        let stepped = match fsm.state {
            State::Head => fsm.step_head(ch),
            State::HeadBrackets => fsm.step_head_brackets(ch),
            State::Body => fsm.step_body(ch),
            State::BodyBrackets => fsm.step_body_brackets(ch),
        };
        if let Err(e) = stepped {
            proof {
                assert(sizing_run(t, sizing_step(t, z)) == sizing_step(t, z));
            }
            return Err(e);
        }
    }
    let ghost z = fsm.view_at(fsm.walker.at as int);
    assert(sizing_run(t, z) == z);
    if fsm.state == State::HeadBrackets || fsm.state == State::BodyBrackets {
        return Err(ParseError::UnclosedGroup);
    }
    if fsm.entry.head_end > fsm.entry.head_start {
        let ghost before = fsm.metadata.entries@;
        let ghost last = fsm.entry;
        match fsm.metadata.push_entry(fsm.entry_body_permutation_count, fsm.entry) {
            Ok(()) => {},
            Err(e) => return Err(e),
        }
        proof {
            assert(shapes(fsm.metadata.entries@) =~= shapes(before).push(shape_of(last)));
        }
    }
    Ok(fsm.metadata)
}

} // verus!
