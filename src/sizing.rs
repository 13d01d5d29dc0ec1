//! The sizing pass: one walk over the entry text that checks its format and
//! splits it into entries, recording each entry's groups.
use vstd::prelude::*;
use vstd::arithmetic::mul::*;
use crate::calculator::{all_positive, lemma_product_positive, product};
use crate::error::ParseError;
use crate::keys::PERMUTATION_LIMIT;

verus! {

/// One entry of the source: where its trigger text (head) and action text
/// (body) lie in the entry text, and the sizes of its enumeration groups.
#[derive(Debug)]
pub struct UnparsedEntry {
    pub head_start: usize,
    pub head_end: usize,
    pub body_start: usize,
    pub body_end: usize,
    pub head_set_count: usize,
    pub body_set_count: usize,
    pub permutation_count: usize,
    pub row: usize,
    pub head_sizes: Vec<usize>,
    pub body_sizes: Vec<usize>,
}

impl UnparsedEntry {
    /// The spans lie in a text of length `len`, the counts match the sizes,
    /// and the permutation count is the number of combinations of the
    /// trigger groups, within the limit.
    pub open spec fn wf(&self, len: int) -> bool {
        &&& self.head_start <= self.head_end <= len
        &&& self.body_start <= self.body_end <= len
        &&& self.head_sizes@.len() == self.head_set_count
        &&& self.body_sizes@.len() == self.body_set_count
        &&& all_positive(self.head_sizes@)
        &&& all_positive(self.body_sizes@)
        &&& self.permutation_count == product(self.head_sizes@)
        &&& self.permutation_count <= PERMUTATION_LIMIT
    }

    /// The action groups have no more combinations than the trigger groups.
    pub open spec fn body_fits(&self) -> bool {
        product(self.body_sizes@) <= self.permutation_count
    }

    /// An entry whose head starts at `start` and runs to `len`, with no
    /// body and no groups yet.
    pub fn new(start: usize, row: usize, len: usize) -> (r: UnparsedEntry)
        requires
            start <= len,
        ensures
            r.wf(len as int),
            r.head_start == start,
            r.head_end == len,
            r.body_start == len,
            r.body_end == len,
            r.row == row,
            r.head_sizes@.len() == 0,
            r.body_sizes@.len() == 0,
    {
        let r = UnparsedEntry {
            head_start: start,
            head_end: len,
            body_start: len,
            body_end: len,
            head_set_count: 0,
            body_set_count: 0,
            permutation_count: 1,
            row,
            head_sizes: Vec::new(),
            body_sizes: Vec::new(),
        };
        assert(product(r.head_sizes@) == 1);
        r
    }
}

/// `p`, or one past the limit where `p` exceeds it.
pub open spec fn capped(p: int) -> int {
    if p > PERMUTATION_LIMIT {
        PERMUTATION_LIMIT + 1
    } else {
        p
    }
}

pub open spec fn max_head(es: Seq<UnparsedEntry>) -> int
    decreases es.len(),
{
    if es.len() == 0 {
        0
    } else {
        let m = max_head(es.drop_last());
        if m >= es.last().head_set_count { m } else { es.last().head_set_count as int }
    }
}

pub open spec fn max_body(es: Seq<UnparsedEntry>) -> int
    decreases es.len(),
{
    if es.len() == 0 {
        0
    } else {
        let m = max_body(es.drop_last());
        if m >= es.last().body_set_count { m } else { es.last().body_set_count as int }
    }
}

/// `a + b`, or `usize::MAX` where that is larger.
pub open spec fn saturated(a: int) -> int {
    if a > usize::MAX { usize::MAX as int } else { a }
}

/// An upper bound on the number of action fragments the entries produce:
/// per entry, two per action group and one more, for each permutation.
pub open spec fn body_space(es: Seq<UnparsedEntry>) -> int
    decreases es.len(),
{
    if es.len() == 0 {
        0
    } else {
        let e = es.last();
        saturated(
            body_space(es.drop_last()) + saturated((e.body_set_count * 2 + 1) * e.permutation_count),
        )
    }
}

/// The entries of a text, with the sizes needed for the buffers of the
/// materializer.
#[derive(Debug)]
pub struct EntryBlobMetadata {
    pub text: Vec<char>,
    pub entries: Vec<UnparsedEntry>,
    pub max_head_set_count: usize,
    pub max_body_set_count: usize,
    pub total_body_space: usize,
}

impl EntryBlobMetadata {
    pub open spec fn wf(&self) -> bool {
        &&& forall|i: int|
            0 <= i < self.entries@.len() ==> (#[trigger] self.entries@[i]).wf(
                self.text@.len() as int,
            ) && self.entries@[i].body_fits()
        &&& self.max_head_set_count == max_head(self.entries@)
        &&& self.max_body_set_count == max_body(self.entries@)
        &&& self.total_body_space == body_space(self.entries@)
    }

    /// No entries yet, over `text`.
    pub fn new(text: Vec<char>) -> (r: EntryBlobMetadata)
        ensures
            r.wf(),
            r.text@ == text@,
            r.entries@.len() == 0,
    {
        EntryBlobMetadata {
            text,
            entries: Vec::new(),
            max_head_set_count: 0,
            max_body_set_count: 0,
            total_body_space: 0,
        }
    }

    /// Adds an entry whose action groups have `body_permutation_count`
    /// combinations (capped past the limit); fails, changing nothing, where
    /// that is more than its trigger groups have.
    pub fn push_entry(&mut self, body_permutation_count: usize, entry: UnparsedEntry) -> (r: Result<
        (),
        ParseError,
    >)
        requires
            old(self).wf(),
            entry.wf(old(self).text@.len() as int),
            body_permutation_count == capped(product(entry.body_sizes@)),
        ensures
            !entry.body_fits() ==> r is Err && r->Err_0 == (ParseError::BodyExceedsHead {
                row: entry.row,
            }) && *final(self) == *old(self),
            entry.body_fits() ==> r is Ok && final(self).wf() && final(self).entries@ == old(self).entries@.push(entry) && final(self).text == old(self).text,
    {
        if body_permutation_count > entry.permutation_count {
            return Err(ParseError::BodyExceedsHead { row: entry.row });
        }
        let ghost es = self.entries@.push(entry);
        proof {
            assert(es.drop_last() =~= self.entries@);
        }
        if entry.head_set_count > self.max_head_set_count {
            self.max_head_set_count = entry.head_set_count;
        }
        if entry.body_set_count > self.max_body_set_count {
            self.max_body_set_count = entry.body_set_count;
        }
        let width = match entry.body_set_count.checked_mul(2) {
            Some(w) => w.saturating_add(1),
            None => usize::MAX,
        };
        let term = match width.checked_mul(entry.permutation_count) {
            Some(t) => t,
            None => usize::MAX,
        };
        proof {
            let w = entry.body_set_count * 2 + 1;
            lemma_product_positive(entry.head_sizes@);
            if entry.body_set_count * 2 > usize::MAX || w > usize::MAX {
                assert(width == usize::MAX);
                lemma_mul_inequality(usize::MAX as int, w, entry.permutation_count as int);
                lemma_mul_is_commutative(usize::MAX as int, entry.permutation_count as int);
                lemma_mul_increases(entry.permutation_count as int, usize::MAX as int);
            }
        }
        self.total_body_space = self.total_body_space.saturating_add(term);
        self.entries.push(entry);
        Ok(())
    }
}

} // verus!
