//! A cursor over the characters of a text that keeps the byte offsets of
//! the last character read, and its line and column.
use vstd::prelude::*;
use crate::keys::{is_separator, is_white, separator, white};
use crate::text::chars_of;

verus! {

/// The number of bytes of `c` in UTF-8.
pub open spec fn utf8_width(c: char) -> nat {
    let u = c as u32;
    if u < 0x80 {
        1
    } else if u < 0x800 {
        2
    } else if u < 0x10000 {
        3
    } else {
        4
    }
}

fn width_of(c: char) -> (r: usize)
    ensures
        r == utf8_width(c),
{
    let u = c as u32;
    if u < 0x80 {
        1
    } else if u < 0x800 {
        2
    } else if u < 0x10000 {
        3
    } else {
        4
    }
}

/// The number of bytes of `s` in UTF-8.
pub open spec fn utf8_len(s: Seq<char>) -> nat
    decreases s.len(),
{
    if s.len() == 0 {
        0
    } else {
        utf8_len(s.drop_last()) + utf8_width(s.last())
    }
}

/// The first index at or after `i` whose character `keep` rejects, or the end.
pub open spec fn skip_while(s: Seq<char>, i: int, white_space: bool) -> int
    decreases s.len() - i,
{
    if i >= s.len() {
        i
    } else if (if white_space { is_white(s[i]) } else { is_separator(s[i]) }) {
        skip_while(s, i + 1, white_space)
    } else {
        i
    }
}

/// The number of line breaks in `s`.
pub open spec fn newlines(s: Seq<char>) -> nat
    decreases s.len(),
{
    if s.len() == 0 {
        0
    } else {
        newlines(s.drop_last()) + if s.last() == '\n' { 1nat } else { 0 }
    }
}

/// The line of the character before index `at` of `s`, lines counted from
/// `first` (or `first` itself before any character): the line breaks before
/// that character.
pub open spec fn row_at(first: int, s: Seq<char>, at: int) -> int {
    if at <= 0 {
        first
    } else {
        first + newlines(s.take(at - 1))
    }
}

proof fn lemma_newlines_bound(s: Seq<char>)
    ensures
        newlines(s) <= s.len(),
    decreases s.len(),
{
    if s.len() > 0 {
        lemma_newlines_bound(s.drop_last());
    }
}

pub struct CharsWithIndex {
    pub chars: Vec<char>,
    /// How many characters have been read.
    pub at: usize,
    /// The byte offset of the last character read.
    pub prev: usize,
    /// The byte offset just after it.
    pub post: usize,
    /// The line of the last character read.
    pub row: usize,
    /// The line of the first character.
    pub first_row: usize,
    /// Its column, from 1.
    pub col: usize,
    pub last_char: char,
}

impl CharsWithIndex {
    pub open spec fn text(&self) -> Seq<char> {
        self.chars@
    }

    pub open spec fn wf(&self) -> bool {
        &&& self.at <= self.chars@.len() <= usize::MAX / 4
        &&& self.prev <= self.post == utf8_len(self.chars@.take(self.at as int))
        &&& self.first_row + self.chars@.len() <= usize::MAX
        &&& self.row == row_at(self.first_row as int, self.chars@, self.at as int)
        &&& (self.at >= 1 ==> self.last_char == self.chars@[self.at - 1])
        &&& (self.at == 0 ==> self.last_char == ' ')
        &&& self.col <= self.at
    }

    /// A cursor before the first character of `text`, on line `start_row`.
    pub fn new(text: &str, start_row: usize) -> (r: CharsWithIndex)
        requires
            text@.len() <= usize::MAX / 4,
            start_row + text@.len() <= usize::MAX,
        ensures
            r.wf(),
            r.text() == text@,
            r.at == 0,
            r.row == start_row,
            r.first_row == start_row,
    {
        CharsWithIndex::over(chars_of(text), start_row)
    }

    /// A cursor before the first of `chars`, on line `start_row`.
    pub fn over(chars: Vec<char>, start_row: usize) -> (r: CharsWithIndex)
        requires
            chars@.len() <= usize::MAX / 4,
            start_row + chars@.len() <= usize::MAX,
        ensures
            r.wf(),
            r.text() == chars@,
            r.at == 0,
            r.row == start_row,
            r.first_row == start_row,
    {
        proof {
            assert(chars@.take(0) =~= Seq::<char>::empty());
        }
        CharsWithIndex { chars, at: 0, prev: 0, post: 0, row: start_row, first_row: start_row, col: 0, last_char: ' ' }
    }

    pub fn len(&self) -> (r: usize)
        ensures
            r == self.text().len(),
    {
        self.chars.len()
    }

    pub fn char_at(&self, i: usize) -> (r: char)
        requires
            i < self.text().len(),
        ensures
            r == self.text()[i as int],
    {
        self.chars[i]
    }

    /// The number of bytes of the characters `a..b` in UTF-8.
    pub fn utf8_len_between(&self, a: usize, b: usize) -> (r: usize)
        requires
            self.wf(),
            a <= b <= self.text().len(),
        ensures
            r == utf8_len(self.text().subrange(a as int, b as int)),
    {
        let mut sum: usize = 0;
        let mut j = a;
        proof {
            assert(self.chars@.subrange(a as int, a as int) =~= Seq::<char>::empty());
        }
        while j < b
            invariant
                self.wf(),
                a <= j <= b <= self.chars@.len(),
                sum == utf8_len(self.chars@.subrange(a as int, j as int)),
                sum <= 4 * (j - a),
            decreases b - j,
        {
            proof {
                assert(self.chars@.subrange(a as int, j + 1).drop_last() =~= self.chars@.subrange(
                    a as int,
                    j as int,
                ));
            }
            sum = sum + width_of(self.chars[j]);
            j += 1;
        }
        sum
    }

    /// The next character, without reading it.
    pub fn peek(&self) -> (r: Option<char>)
        requires
            self.wf(),
        ensures
            self.at < self.text().len() ==> r == Some(self.text()[self.at as int]),
            self.at >= self.text().len() ==> r is None,
    {
        if self.at < self.chars.len() {
            Some(self.chars[self.at])
        } else {
            None
        }
    }

    proof fn lemma_width_bound(s: Seq<char>)
        ensures
            utf8_len(s) <= 4 * s.len(),
        decreases s.len(),
    {
        if s.len() > 0 {
            Self::lemma_width_bound(s.drop_last());
        }
    }

    /// Reads the next character.
    pub fn next(&mut self) -> (r: Option<char>)
        requires
            old(self).wf(),
        ensures
            final(self).wf(),
            final(self).text() == old(self).text(),
            old(self).at < old(self).text().len() ==> r == Some(old(self).text()[old(self).at as int])
                && final(self).at == old(self).at + 1 && final(self).prev == old(self).post
                && final(self).post == old(self).post + utf8_width(old(self).text()[old(self).at as int])
                && final(self).row == old(self).row + (if old(self).last_char == '\n' { 1int } else { 0 })
                && final(self).last_char == old(self).text()[old(self).at as int],
            old(self).at >= old(self).text().len() ==> r is None && final(self).at == old(self).at
                && final(self).prev == final(self).post && final(self).post == old(self).post,
            final(self).row >= old(self).row,
            final(self).first_row == old(self).first_row,
    {
        if self.at < self.chars.len() {
            let c = self.chars[self.at];
            proof {
                assert(self.chars@.take(self.at + 1).drop_last() =~= self.chars@.take(self.at as int));
                Self::lemma_width_bound(self.chars@.take(self.at + 1));
                if self.at >= 1 {
                    assert(self.chars@.take(self.at as int).drop_last() =~= self.chars@.take(
                        self.at - 1,
                    ));
                    lemma_newlines_bound(self.chars@.take(self.at - 1));
                } else {
                    assert(self.chars@.take(0) =~= Seq::<char>::empty());
                }
            }
            self.prev = self.post;
            self.post = self.post + width_of(c);
            self.at = self.at + 1;
            self.col = self.col + 1;
            if self.last_char == '\n' {
                self.row = self.row + 1;
                self.col = 1;
            }
            self.last_char = c;
            Some(c)
        } else {
            self.prev = self.post;
            None
        }
    }

    /// Reads on while the next character is white space.
    pub fn eat_whitespace(&mut self)
        requires
            old(self).wf(),
        ensures
            final(self).wf(),
            final(self).text() == old(self).text(),
            final(self).at == skip_while(old(self).text(), old(self).at as int, true),
            final(self).at >= old(self).at,
            final(self).row >= old(self).row,
            final(self).first_row == old(self).first_row,
    {
        while self.at < self.chars.len() && white(self.chars[self.at])
            invariant
                self.wf(),
                self.text() == old(self).text(),
                old(self).at <= self.at,
                self.row >= old(self).row,
                self.first_row == old(self).first_row,
                skip_while(self.text(), self.at as int, true) == skip_while(
                    old(self).text(),
                    old(self).at as int,
                    true,
                ),
            decreases self.text().len() - self.at,
        {
            self.next();
        }
    }

    /// Reads on while the next character is a separator.
    pub fn eat_separator(&mut self)
        requires
            old(self).wf(),
        ensures
            final(self).wf(),
            final(self).text() == old(self).text(),
            final(self).at == skip_while(old(self).text(), old(self).at as int, false),
            final(self).at >= old(self).at,
            final(self).row >= old(self).row,
            final(self).first_row == old(self).first_row,
    {
        while self.at < self.chars.len() && separator(self.chars[self.at])
            invariant
                self.wf(),
                self.text() == old(self).text(),
                old(self).at <= self.at,
                self.row >= old(self).row,
                self.first_row == old(self).first_row,
                skip_while(self.text(), self.at as int, false) == skip_while(
                    old(self).text(),
                    old(self).at as int,
                    false,
                ),
            decreases self.text().len() - self.at,
        {
            self.next();
        }
    }
}

} // verus!
