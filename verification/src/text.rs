//! Character-level groundwork shared by the markup and stylesheet parsers:
//! whitespace, scanning runs of characters, prefix tests, and a cursor
//! (`Scanner`) that both parsers drive left to right over trimmed input.

use vstd::prelude::*;

use crate::ParseError;

verus! {

/// The Unicode `White_Space` class: what the parsers trim at the edges of
/// the input and skip between tokens.
pub open spec fn is_space_char(c: char) -> bool {
    ||| c == '\t'
    ||| c == '\n'
    ||| c == '\u{000b}'
    ||| c == '\u{000c}'
    ||| c == '\r'
    ||| c == ' '
    ||| c == '\u{0085}'
    ||| c == '\u{00a0}'
    ||| c == '\u{1680}'
    ||| ('\u{2000}' <= c && c <= '\u{200a}')
    ||| c == '\u{2028}'
    ||| c == '\u{2029}'
    ||| c == '\u{202f}'
    ||| c == '\u{205f}'
    ||| c == '\u{3000}'
}

pub fn is_space(c: char) -> (r: bool)
    ensures
        r == is_space_char(c),
{
    c == '\t' || c == '\n' || c == '\u{000b}' || c == '\u{000c}' || c == '\r' || c == ' ' || c
        == '\u{0085}' || c == '\u{00a0}' || c == '\u{1680}' || ('\u{2000}' <= c && c
        <= '\u{200a}') || c == '\u{2028}' || c == '\u{2029}' || c == '\u{202f}' || c == '\u{205f}'
        || c == '\u{3000}'
}

/// End of the longest run of characters satisfying `pred` that starts at `p`.
pub open spec fn scan_end(s: Seq<char>, p: int, pred: spec_fn(char) -> bool) -> int
    decreases s.len() - p,
{
    if 0 <= p < s.len() && pred(s[p]) {
        scan_end(s, p + 1, pred)
    } else {
        p
    }
}

pub proof fn lemma_scan_end(s: Seq<char>, p: int, pred: spec_fn(char) -> bool)
    requires
        0 <= p <= s.len(),
    ensures
        p <= scan_end(s, p, pred) <= s.len(),
        forall|q: int| p <= q < scan_end(s, p, pred) ==> pred(s[q]),
        scan_end(s, p, pred) < s.len() ==> !pred(s[scan_end(s, p, pred)]),
    decreases s.len() - p,
{
    if 0 <= p < s.len() && pred(s[p]) {
        lemma_scan_end(s, p + 1, pred);
    }
}

/// `scan_end` is the unique position bounding a satisfying run.
pub proof fn lemma_scan_end_eq(s: Seq<char>, p: int, r: int, pred: spec_fn(char) -> bool)
    requires
        0 <= p <= r <= s.len(),
        forall|q: int| p <= q < r ==> pred(s[q]),
        r < s.len() ==> !pred(s[r]),
    ensures
        scan_end(s, p, pred) == r,
    decreases r - p,
{
    if p < r {
        lemma_scan_end_eq(s, p + 1, r, pred);
    }
}

pub open spec fn pred_space() -> spec_fn(char) -> bool {
    |c: char| is_space_char(c)
}

/// Where a run of whitespace starting at `p` ends.
pub open spec fn ws_end(s: Seq<char>, p: int) -> int {
    scan_end(s, p, pred_space())
}

/// Everything except the character `stop`.
pub open spec fn pred_not(stop: char) -> spec_fn(char) -> bool {
    |c: char| c != stop
}

/// A decimal digit.
pub open spec fn is_digit_char(c: char) -> bool {
    '0' <= c && c <= '9'
}

pub fn is_digit(c: char) -> (r: bool)
    ensures
        r == is_digit_char(c),
{
    '0' <= c && c <= '9'
}

pub open spec fn pred_digit() -> spec_fn(char) -> bool {
    |c: char| is_digit_char(c)
}

/// `t` occurs in `s` starting at position `p`.
pub open spec fn begins_with(s: Seq<char>, p: int, t: Seq<char>) -> bool {
    0 <= p && p + t.len() <= s.len() && s.subrange(p, p + t.len()) == t
}

/// Start of the text once leading whitespace is removed.
pub open spec fn trim_lo(s: Seq<char>) -> int {
    ws_end(s, 0)
}

/// End of the text once trailing whitespace is removed.
pub open spec fn trim_hi(s: Seq<char>, p: int) -> int
    decreases p,
{
    if 0 < p <= s.len() && is_space_char(s[p - 1]) {
        trim_hi(s, p - 1)
    } else {
        p
    }
}

/// The text with leading and trailing whitespace removed.
pub open spec fn spec_trim(s: Seq<char>) -> Seq<char> {
    if trim_lo(s) <= trim_hi(s, s.len() as int) {
        s.subrange(trim_lo(s), trim_hi(s, s.len() as int))
    } else {
        Seq::empty()
    }
}

proof fn lemma_trim_hi(s: Seq<char>, p: int)
    requires
        0 <= p <= s.len(),
    ensures
        0 <= trim_hi(s, p) <= p,
        trim_hi(s, p) > 0 ==> !is_space_char(s[trim_hi(s, p) - 1]),
        forall|q: int| trim_hi(s, p) <= q < p ==> is_space_char(s[q]),
    decreases p,
{
    if 0 < p <= s.len() && is_space_char(s[p - 1]) {
        lemma_trim_hi(s, p - 1);
    }
}

/// Does `hay` begin with `pre`?
pub fn str_begins(hay: &str, pre: &str) -> (r: bool)
    ensures
        r == begins_with(hay@, 0, pre@),
{
    let n: usize = pre.unicode_len();
    let m: usize = hay.unicode_len();
    if n > m {
        return false;
    }
    let mut i: usize = 0;
    while i < n
        invariant
            0 <= i <= n,
            n == pre@.len(),
            m == hay@.len(),
            n <= m,
            forall|q: int| 0 <= q < i ==> hay@[q] == pre@[q],
        decreases n - i,
    {
        if hay.get_char(i) != pre.get_char(i) {
            assert(hay@.subrange(0, n as int) != pre@) by {
                assert(hay@.subrange(0, n as int)[i as int] != pre@[i as int]);
            }
            return false;
        }
        i += 1;
    }
    assert(hay@.subrange(0, n as int) =~= pre@);
    true
}

/// Does `pat` occur in `hay` starting at position `p`?
fn begins_at(hay: &str, p: usize, pat: &str) -> (r: bool)
    requires
        p <= hay@.len(),
    ensures
        r == begins_with(hay@, p as int, pat@),
{
    let n: usize = pat.unicode_len();
    let m: usize = hay.unicode_len();
    if n > m - p {
        return false;
    }
    let mut j: usize = 0;
    while j < n
        invariant
            0 <= j <= n,
            p + n <= m,
            n == pat@.len(),
            m == hay@.len(),
            forall|q: int| 0 <= q < j ==> hay@[p + q] == pat@[q],
        decreases n - j,
    {
        let c1: char = hay.get_char(p + j);
        let c2: char = pat.get_char(j);
        assert(hay@[p as int + j as int] == c1);
        if c1 != c2 {
            assert(hay@.subrange(p as int, p + n as int) != pat@) by {
                assert(hay@.subrange(p as int, p + n as int)[j as int] != pat@[j as int]);
            }
            return false;
        }
        j += 1;
    }
    assert(hay@.subrange(p as int, p + n as int) =~= pat@);
    true
}

/// Character-for-character equality of two pieces of text.
pub fn str_eq(a: &str, b: &str) -> (r: bool)
    ensures
        r == (a@ == b@),
{
    let n: usize = a.unicode_len();
    let m: usize = b.unicode_len();
    if n != m {
        return false;
    }
    let r: bool = str_begins(a, b);
    proof {
        assert(a@.subrange(0, n as int) =~= a@);
    }
    r
}

/// Does `hay` contain `pat` anywhere?
pub fn str_contains(hay: &str, pat: &str) -> (r: bool)
    ensures
        r == exists|p: int| begins_with(hay@, p, pat@),
{
    let m: usize = hay.unicode_len();
    let mut i: usize = 0;
    while i < m
        invariant
            0 <= i <= m,
            m == hay@.len(),
            forall|p: int| 0 <= p < i ==> !begins_with(hay@, p, pat@),
        decreases m - i,
    {
        if begins_at(hay, i, pat) {
            return true;
        }
        i += 1;
    }
    if begins_at(hay, m, pat) {
        return true;
    }
    assert(forall|p: int| begins_with(hay@, p, pat@) ==> 0 <= p <= m);
    false
}

/// A left-to-right cursor over a trimmed piece of text.
pub struct Scanner {
    pub input: String,
    pub cursor: usize,
}

impl Scanner {
    /// The characters being scanned.
    pub open spec fn src(&self) -> Seq<char> {
        self.input@
    }

    /// The current position, as a mathematical index.
    pub open spec fn pos(&self) -> int {
        self.cursor as int
    }

    /// The cursor never passes the end of the text, and the text is
    /// addressable by machine indices.
    pub open spec fn wf(&self) -> bool {
        self.cursor <= self.input@.len() && self.input@.len() <= usize::MAX
    }

    /// Trim the input and stand at its first character.
    pub fn new(input: String) -> (r: Scanner)
        ensures
            r.src() == spec_trim(input@),
            r.pos() == 0,
            r.wf(),
    {
        let s: &str = input.as_str();
        let len: usize = s.unicode_len();
        proof {
            lemma_scan_end(s@, 0, pred_space());
        }
        let mut lo: usize = 0;
        while lo < len && is_space(s.get_char(lo))
            invariant
                0 <= lo <= len,
                len == s@.len(),
                ws_end(s@, 0) == ws_end(s@, lo as int),
            decreases len - lo,
        {
            lo += 1;
        }
        assert(ws_end(s@, lo as int) == lo);
        let mut hi: usize = len;
        proof {
            lemma_trim_hi(s@, len as int);
        }
        while hi > 0 && is_space(s.get_char(hi - 1))
            invariant
                0 <= hi <= len,
                len == s@.len(),
                trim_hi(s@, len as int) == trim_hi(s@, hi as int),
            decreases hi,
        {
            hi -= 1;
        }
        assert(trim_hi(s@, hi as int) == hi);
        if lo <= hi {
            let trimmed: String = s.substring_char(lo, hi).to_owned();
            Scanner { input: trimmed, cursor: 0 }
        } else {
            Scanner { input: String::new(), cursor: 0 }
        }
    }

    /// No characters remain.
    pub fn is_end(&self) -> (r: bool)
        requires
            self.wf(),
        ensures
            r == (self.pos() == self.src().len()),
    {
        self.cursor >= self.input.as_str().unicode_len()
    }

    /// The character under the cursor, without advancing.
    pub fn peek(&self) -> (c: char)
        requires
            self.wf(),
            self.pos() < self.src().len(),
        ensures
            c == self.src()[self.pos()],
    {
        self.input.as_str().get_char(self.cursor)
    }

    /// Does the remaining text begin with `t`?
    pub fn starts_with(&self, t: &str) -> (r: bool)
        requires
            self.wf(),
        ensures
            r == begins_with(self.src(), self.pos(), t@),
    {
        let n: usize = t.unicode_len();
        let m: usize = self.input.as_str().unicode_len();
        if n > m - self.cursor {
            return false;
        }
        let mut i: usize = 0;
        while i < n
            invariant
                0 <= i <= n,
                n == t@.len(),
                m == self.src().len(),
                self.cursor + n <= m,
                self.wf(),
                forall|q: int| 0 <= q < i ==> self.src()[self.pos() + q] == t@[q],
            decreases n - i,
        {
            if self.input.as_str().get_char(self.cursor + i) != t.get_char(i) {
                assert(self.src().subrange(self.pos(), self.pos() + n) != t@) by {
                    assert(self.src().subrange(self.pos(), self.pos() + n)[i as int]
                        != t@[i as int]);
                }
                return false;
            }
            i += 1;
        }
        assert(self.src().subrange(self.pos(), self.pos() + n) =~= t@);
        true
    }

    /// Advance past `t`, or report a structural mismatch and stay put.
    pub fn expect(&mut self, t: &str) -> (r: Result<(), ParseError>)
        requires
            old(self).wf(),
        ensures
            final(self).src() == old(self).src(),
            final(self).wf(),
            match r {
                Ok(()) => begins_with(old(self).src(), old(self).pos(), t@)
                    && final(self).pos() == old(self).pos() + t@.len(),
                Err(e) => {
                    &&& e == ParseError::StructuralMismatch
                    &&& !begins_with(old(self).src(), old(self).pos(), t@)
                    &&& *final(self) == *old(self)
                },
            },
    {
        if self.starts_with(t) {
            let n: usize = t.unicode_len();
            self.cursor = self.cursor + n;
            Ok(())
        } else {
            Err(ParseError::StructuralMismatch)
        }
    }

    /// The character under the cursor, advancing past it.
    pub fn bump(&mut self) -> (c: char)
        requires
            old(self).wf(),
            old(self).pos() < old(self).src().len(),
        ensures
            final(self).src() == old(self).src(),
            final(self).pos() == old(self).pos() + 1,
            final(self).wf(),
            c == old(self).src()[old(self).pos()],
    {
        let c: char = self.peek();
        self.cursor = self.cursor + 1;
        c
    }

    /// Skip whitespace.
    pub fn skip_ws(&mut self)
        requires
            old(self).wf(),
        ensures
            final(self).src() == old(self).src(),
            final(self).pos() == ws_end(old(self).src(), old(self).pos()),
            old(self).pos() <= final(self).pos(),
            final(self).wf(),
    {
        proof {
            lemma_scan_end(self.input@, self.cursor as int, pred_space());
        }
        let len: usize = self.input.as_str().unicode_len();
        while self.cursor < len && is_space(self.input.as_str().get_char(self.cursor))
            invariant
                self.wf(),
                self.input@ == old(self).input@,
                len == self.input@.len(),
                old(self).cursor <= self.cursor,
                ws_end(self.src(), old(self).pos()) == ws_end(self.src(), self.pos()),
            decreases len - self.cursor,
        {
            self.cursor += 1;
        }
        assert(ws_end(self.src(), self.pos()) == self.pos());
    }

    /// Take the run of identifier characters under the cursor.
    pub fn take_tag(&mut self) -> (r: String)
        requires
            old(self).wf(),
        ensures
            final(self).src() == old(self).src(),
            final(self).wf(),
            final(self).pos() == scan_end(
                old(self).src(),
                old(self).pos(),
                crate::validation::pred_tag(),
            ),
            old(self).pos() <= final(self).pos(),
            r@ == old(self).src().subrange(old(self).pos(), final(self).pos()),
            forall|q: int|
                0 <= q < r@.len() ==> crate::validation::is_tag_char_spec(#[trigger] r@[q]),
    {
        proof {
            lemma_scan_end(self.input@, self.cursor as int, crate::validation::pred_tag());
        }
        let start: usize = self.cursor;
        let len: usize = self.input.as_str().unicode_len();
        while self.cursor < len && crate::validation::is_tag_char(
            self.input.as_str().get_char(self.cursor),
        )
            invariant
                self.wf(),
                self.input@ == old(self).input@,
                len == self.input@.len(),
                old(self).cursor <= self.cursor,
                scan_end(self.src(), old(self).pos(), crate::validation::pred_tag()) == scan_end(
                    self.src(),
                    self.pos(),
                    crate::validation::pred_tag(),
                ),
            decreases len - self.cursor,
        {
            self.cursor += 1;
        }
        assert(scan_end(self.src(), self.pos(), crate::validation::pred_tag()) == self.pos());
        self.token_from(start)
    }

    /// Take characters up to (not including) `stop` or the end.
    pub fn take_until(&mut self, stop: char) -> (r: String)
        requires
            old(self).wf(),
        ensures
            final(self).src() == old(self).src(),
            final(self).wf(),
            final(self).pos() == scan_end(old(self).src(), old(self).pos(), pred_not(stop)),
            old(self).pos() <= final(self).pos(),
            r@ == old(self).src().subrange(old(self).pos(), final(self).pos()),
            final(self).pos() < final(self).src().len() ==> final(self).src()[final(self).pos()]
                == stop,
    {
        proof {
            lemma_scan_end(self.input@, self.cursor as int, pred_not(stop));
        }
        let start: usize = self.cursor;
        let len: usize = self.input.as_str().unicode_len();
        while self.cursor < len && self.input.as_str().get_char(self.cursor) != stop
            invariant
                self.wf(),
                self.input@ == old(self).input@,
                len == self.input@.len(),
                old(self).cursor <= self.cursor,
                scan_end(self.src(), old(self).pos(), pred_not(stop)) == scan_end(
                    self.src(),
                    self.pos(),
                    pred_not(stop),
                ),
            decreases len - self.cursor,
        {
            self.cursor += 1;
        }
        assert(scan_end(self.src(), self.pos(), pred_not(stop)) == self.pos());
        self.token_from(start)
    }

    /// Take the run of decimal digits under the cursor.
    pub fn take_digits(&mut self) -> (r: String)
        requires
            old(self).wf(),
        ensures
            final(self).src() == old(self).src(),
            final(self).wf(),
            final(self).pos() == scan_end(old(self).src(), old(self).pos(), pred_digit()),
            old(self).pos() <= final(self).pos(),
            r@ == old(self).src().subrange(old(self).pos(), final(self).pos()),
            forall|q: int| 0 <= q < r@.len() ==> is_digit_char(#[trigger] r@[q]),
    {
        proof {
            lemma_scan_end(self.input@, self.cursor as int, pred_digit());
        }
        let start: usize = self.cursor;
        let len: usize = self.input.as_str().unicode_len();
        while self.cursor < len && is_digit(self.input.as_str().get_char(self.cursor))
            invariant
                self.wf(),
                self.input@ == old(self).input@,
                len == self.input@.len(),
                old(self).cursor <= self.cursor,
                scan_end(self.src(), old(self).pos(), pred_digit()) == scan_end(
                    self.src(),
                    self.pos(),
                    pred_digit(),
                ),
            decreases len - self.cursor,
        {
            self.cursor += 1;
        }
        assert(scan_end(self.src(), self.pos(), pred_digit()) == self.pos());
        self.token_from(start)
    }

    /// The piece of text from `from` up to the cursor.
    pub fn token_from(&self, from: usize) -> (r: String)
        requires
            self.wf(),
            from <= self.cursor,
        ensures
            r@ == self.src().subrange(from as int, self.pos()),
    {
        self.input.as_str().substring_char(from, self.cursor).to_owned()
    }
}

} // verus!
