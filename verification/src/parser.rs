//! The character-level recursive-descent parser.
//!
//! Every production follows one contract: on success the cursor stands past
//! what was parsed; on failure the cursor is restored to the index held at
//! entry and an error carrying an index is returned. The input text itself is
//! never changed.
use vstd::prelude::*;

use crate::elements::{
    inline_view, item_view, items_view, meta_opt_view, text_line_view, InlineV, ListItemV,
    opt_str_view, Block, BoldText, Cell, CodeBlock, Document, Header, Image, Inline,
    InlineMetadata, ItalicText, Line, List, ListItem, MonospaceText, Paragraph, PlainText,
    Quote, Row, Section, StrikedText, Table, TextLine, UnderlinedText, Url,
};
use crate::shims::{is_numeric_char, is_ws, regex_is_match, regex_match};
use crate::tokens::{
    block_special_chars, inline_special_chars, inline_special_chars_second, is_block_special,
    is_inline_special, is_inline_special_second, is_list_special, list_special_chars, ASTERISK,
    BACKTICK, DESC_CLOSE, DESC_OPEN, EXPR_URI, HASH, IMG_START, LB, META_CLOSE, META_OPEN,
    MINUS, PIPE, QUOTE_START, SPECIAL_ESCAPE, TILDE, UNDERSCR, URL_CLOSE, URL_OPEN,
};

verus! {

broadcast use crate::elements::lemma_items_view_len, crate::elements::lemma_items_view_index;

/// A parse failure, carrying the cursor index of the failing attempt.
pub struct ParseError {
    pub index: usize,
}

impl ParseError {
    pub fn new(index: usize) -> (r: Self)
        ensures
            r.index == index,
    {
        Self { index }
    }

    pub fn get_index(&self) -> (r: usize)
        ensures
            r == self.index,
    {
        self.index
    }
}

/// The scanning cursor over the input characters, with the two fields that
/// drive section parsing: the currently open nesting level and a pending
/// heading level handed back by a failed deeper section attempt.
pub struct Parser {
    pub index: usize,
    pub text: Vec<char>,
    pub current_char: char,
    pub section_nesting: u8,
    pub section_return: Option<u8>,
}

/// Whether position `i` is preceded by the escape character.
pub open spec fn escaped_at(t: Seq<char>, i: int) -> bool {
    1 <= i && i - 1 < t.len() && t[i - 1] == SPECIAL_ESCAPE
}

/// Whether an unescaped line break stands at position `i`.
pub open spec fn lb_at(t: Seq<char>, i: int) -> bool {
    0 <= i && i < t.len() && t[i] == LB && !escaped_at(t, i)
}

/// Whether character `c` stands unescaped at position `i`.
pub open spec fn special_at(t: Seq<char>, i: int, c: char) -> bool {
    0 <= i && i < t.len() && t[i] == c && !escaped_at(t, i)
}

/// First position at or after `i` that does not hold whitespace, stopping
/// also at an unescaped line break.
pub open spec fn skip_inline_ws(t: Seq<char>, i: int) -> int
    decreases t.len() - i,
{
    if i < 0 || i >= t.len() || !is_ws(t[i]) || lb_at(t, i) {
        i
    } else {
        skip_inline_ws(t, i + 1)
    }
}

/// First position at or after `i` that does not hold whitespace.
pub open spec fn skip_ws(t: Seq<char>, i: int) -> int
    decreases t.len() - i,
{
    if i < 0 || i >= t.len() || !is_ws(t[i]) {
        i
    } else {
        skip_ws(t, i + 1)
    }
}

impl Parser {
    /// The cursor invariant: the index stays within the text (one past the
    /// end at most), the cached character mirrors the text, and the three
    /// trailing sentinel characters are in place.
    pub open spec fn wf(self) -> bool {
        &&& 3 <= self.text@.len()
        &&& self.index <= self.text@.len()
        &&& self.index < self.text@.len() ==> self.current_char == self.text@[self.index as int]
        &&& self.index == self.text@.len() ==> self.current_char == self.text@[self.text@.len()
            - 1]
        &&& self.text@[self.text@.len() - 1] == LB
        &&& self.text@[self.text@.len() - 2] == ' '
        &&& self.text@[self.text@.len() - 3] == LB
    }

    /// Everything but the cursor position is unchanged.
    pub open spec fn frame(self, post: Parser) -> bool {
        &&& post.text@ == self.text@
        &&& post.section_nesting == self.section_nesting
        &&& post.section_return == self.section_return
    }

    /// The cursor stands where it stood.
    pub open spec fn restored(self, post: Parser) -> bool {
        &&& post.index == self.index
        &&& post.current_char == self.current_char
    }

    pub fn new(text: String) -> (p: Parser)
        ensures
            p.wf(),
            p.index == 0,
            p.section_nesting == 0,
            p.section_return is None,
            p.text@ == text@ + seq![LB, ' ', LB],
    {
        let n = text.as_str().unicode_len();
        let mut chars: Vec<char> = Vec::new();
        let mut i: usize = 0;
        while i < n
            invariant
                i <= n,
                n == text@.len(),
                chars@ == text@.subrange(0, i as int),
            decreases n - i,
        {
            chars.push(text.as_str().get_char(i));
            proof {
                assert(chars@ =~= text@.subrange(0, i + 1));
            }
            i += 1;
        }
        proof {
            assert(chars@ =~= text@);
        }
        chars.push(LB);
        chars.push(' ');
        chars.push(LB);
        let current_char = chars[0];
        Parser {
            index: 0,
            text: chars,
            current_char,
            section_nesting: 0,
            section_return: None,
        }
    }

    /// Steps the cursor one character forward and returns the new current
    /// character, or nothing at the end of the input.
    pub fn next_char(&mut self) -> (r: Option<char>)
        requires
            old(self).wf(),
        ensures
            final(self).wf(),
            old(self).frame(*final(self)),
            old(self).index + 1 < old(self).text@.len() ==> {
                &&& final(self).index == old(self).index + 1
                &&& final(self).current_char == old(self).text@[old(self).index + 1]
                &&& r == Some(final(self).current_char)
            },
            old(self).index + 1 >= old(self).text@.len() ==> {
                &&& final(self).index == old(self).text@.len()
                &&& final(self).current_char == old(self).current_char
                &&& r is None
            },
    {
        if self.index < self.text.len() - 1 {
            self.index = self.index + 1;
            self.current_char = self.text[self.index];
            Some(self.current_char)
        } else {
            self.index = self.text.len();
            None
        }
    }

    /// Returns the cursor to an absolute index; fails if it is out of range.
    pub fn revert_to(&mut self, index: usize) -> (r: Result<(), ParseError>)
        requires
            old(self).wf(),
        ensures
            final(self).wf(),
            old(self).frame(*final(self)),
            index < old(self).text@.len() ==> {
                &&& r is Ok
                &&& final(self).index == index
                &&& final(self).current_char == old(self).text@[index as int]
            },
            index >= old(self).text@.len() ==> {
                &&& r == Err::<(), ParseError>(ParseError { index })
                &&& old(self).restored(*final(self))
            },
    {
        if index < self.text.len() {
            self.index = index;
            self.current_char = self.text[index];
            Ok(())
        } else {
            Err(ParseError::new(index))
        }
    }

    /// Returns the cursor to `index` and hands back an error carrying the
    /// index the cursor stood at.
    pub fn revert_with_error(&mut self, index: usize) -> (r: ParseError)
        requires
            old(self).wf(),
        ensures
            final(self).wf(),
            old(self).frame(*final(self)),
            index < old(self).text@.len() ==> {
                &&& final(self).index == index
                &&& final(self).current_char == old(self).text@[index as int]
                &&& r.index == old(self).index
            },
            index >= old(self).text@.len() ==> {
                &&& old(self).restored(*final(self))
                &&& r.index == index
            },
    {
        let err = ParseError::new(self.index);
        match self.revert_to(index) {
            Err(revert_err) => revert_err,
            Ok(_) => err,
        }
    }

    /// Whether the current character is preceded by the escape character.
    pub fn check_escaped(&self) -> (r: bool)
        requires
            self.wf(),
        ensures
            r == escaped_at(self.text@, self.index as int),
    {
        if self.index == 0 {
            return false;
        }
        if self.index - 1 < self.text.len() {
            if self.text[self.index - 1] == SPECIAL_ESCAPE {
                return true;
            }
        }
        false
    }

    /// Whether the current character equals `character` and is not escaped.
    pub fn check_special(&self, character: &char) -> (r: bool)
        requires
            self.wf(),
        ensures
            r == (self.current_char == character && !escaped_at(
                self.text@,
                self.index as int,
            )),
    {
        self.current_char == *character && !self.check_escaped()
    }

    /// Whether the current character belongs to `chars` and is not escaped.
    pub fn check_special_group(&self, chars: &Vec<char>) -> (r: bool)
        requires
            self.wf(),
        ensures
            r == (chars@.contains(self.current_char) && !escaped_at(
                self.text@,
                self.index as int,
            )),
    {
        let mut found = false;
        let mut k: usize = 0;
        while k < chars.len()
            invariant
                k <= chars@.len(),
                found == exists|j: int| 0 <= j < k && chars@[j] == self.current_char,
            decreases chars@.len() - k,
        {
            if chars[k] == self.current_char {
                found = true;
            }
            k += 1;
        }
        found && !self.check_escaped()
    }

    /// Whether the current character is an unescaped line break.
    pub fn check_linebreak(&self) -> (r: bool)
        requires
            self.wf(),
        ensures
            r == (self.current_char == LB && !escaped_at(self.text@, self.index as int)),
            self.index < self.text@.len() ==> r == lb_at(self.text@, self.index as int),
    {
        self.current_char == LB && !self.check_escaped()
    }

    /// Skips whitespace, stopping at an unescaped line break.
    pub fn seek_inline_whitespace(&mut self)
        requires
            old(self).wf(),
        ensures
            final(self).wf(),
            old(self).frame(*final(self)),
            final(self).index == skip_inline_ws(old(self).text@, old(self).index as int),
            final(self).index >= old(self).index,
    {
        proof {
            lemma_skip_inline_ws_bounds(self.text@, self.index as int);
        }
        if self.current_char.is_whitespace() && !self.check_linebreak() {
            if self.index == self.text.len() {
                return ;
            }
            loop
                invariant_except_break
                    self.index < self.text@.len(),
                    is_ws(self.text@[self.index as int]),
                    !lb_at(self.text@, self.index as int),
                invariant
                    self.wf(),
                    old(self).frame(*self),
                    old(self).index <= self.index,
                    skip_inline_ws(self.text@, old(self).index as int) == skip_inline_ws(
                        self.text@,
                        self.index as int,
                    ),
                ensures
                    self.index == skip_inline_ws(self.text@, self.index as int),
                    self.wf(),
                    old(self).frame(*self),
                    old(self).index <= self.index,
                    self.index == skip_inline_ws(self.text@, old(self).index as int),
                decreases self.text@.len() - self.index,
            {
                proof {
                    lemma_skip_inline_ws_bounds(self.text@, self.index as int);
                }
                let ghost prev = self.index as int;
                match self.next_char() {
                    None => {
                        proof {
                            assert(skip_inline_ws(self.text@, prev) == skip_inline_ws(
                                self.text@,
                                prev + 1,
                            ));
                            assert(skip_inline_ws(self.text@, prev + 1) == self.text@.len());
                        }
                        break ;
                    },
                    Some(next) => {
                        proof {
                            assert(skip_inline_ws(self.text@, prev) == skip_inline_ws(
                                self.text@,
                                self.index as int,
                            ));
                        }
                        if !next.is_whitespace() || self.check_linebreak() {
                            break ;
                        }
                    },
                }
            }
        }
    }

    /// Skips all whitespace, line breaks included.
    pub fn seek_whitespace(&mut self)
        requires
            old(self).wf(),
        ensures
            final(self).wf(),
            old(self).frame(*final(self)),
            final(self).index == skip_ws(old(self).text@, old(self).index as int),
            final(self).index >= old(self).index,
    {
        proof {
            lemma_skip_ws_bounds(self.text@, self.index as int);
        }
        if self.current_char.is_whitespace() {
            if self.index == self.text.len() {
                return ;
            }
            loop
                invariant_except_break
                    self.index < self.text@.len(),
                    is_ws(self.text@[self.index as int]),
                invariant
                    self.wf(),
                    old(self).frame(*self),
                    old(self).index <= self.index,
                    skip_ws(self.text@, old(self).index as int) == skip_ws(
                        self.text@,
                        self.index as int,
                    ),
                ensures
                    self.index == skip_ws(self.text@, self.index as int),
                    self.wf(),
                    old(self).frame(*self),
                    old(self).index <= self.index,
                    self.index == skip_ws(self.text@, old(self).index as int),
                decreases self.text@.len() - self.index,
            {
                proof {
                    lemma_skip_ws_bounds(self.text@, self.index as int);
                }
                let ghost prev = self.index as int;
                match self.next_char() {
                    None => {
                        proof {
                            assert(skip_ws(self.text@, prev) == skip_ws(self.text@, prev + 1));
                            assert(skip_ws(self.text@, prev + 1) == self.text@.len());
                        }
                        break ;
                    },
                    Some(next) => {
                        proof {
                            assert(skip_ws(self.text@, prev) == skip_ws(
                                self.text@,
                                self.index as int,
                            ));
                        }
                        if !next.is_whitespace() {
                            break ;
                        }
                    },
                }
            }
        }
    }

    /// Skips inline whitespace and reports whether any was skipped.
    pub fn check_seek_inline_whitespace(&mut self) -> (r: bool)
        requires
            old(self).wf(),
        ensures
            final(self).wf(),
            old(self).frame(*final(self)),
            final(self).index == skip_inline_ws(old(self).text@, old(self).index as int),
            final(self).index >= old(self).index,
            r == (final(self).index > old(self).index),
    {
        let start_index = self.index;
        self.seek_inline_whitespace();
        self.index > start_index
    }
}



/// The character the cursor shows at position `p`: the text's character
/// there, or, one past the end, the last character, which the cursor keeps.
pub open spec fn cur_at(t: Seq<char>, p: int) -> char {
    if 0 <= p < t.len() {
        t[p]
    } else {
        t[t.len() - 1]
    }
}

/// The index a failed sequence match reports: the position of the first
/// mismatching character, or the text's length where the match ran off the
/// end of the input.
pub open spec fn seq_fail_index(t: Seq<char>, j: int, s: Seq<char>) -> int
    decreases s.len(),
{
    if s.len() == 0 {
        j
    } else if !(cur_at(t, j) == s[0] && !escaped_at(t, j)) {
        j
    } else if j + 1 >= t.len() {
        t.len() as int
    } else {
        seq_fail_index(t, j + 1, s.drop_first())
    }
}

/// Where a plain-text run that began at `start` stops when it has reached
/// `k`: at an unescaped always-special character, or, after the first
/// character, at an unescaped sometimes-special one.
pub open spec fn plain_stop(t: Seq<char>, start: int, k: int) -> bool {
    (is_inline_special(t[k]) && !escaped_at(t, k)) || (k > start && is_inline_special_second(
        t[k],
    ) && !escaped_at(t, k))
}

/// The end of the plain-text run beginning at `start`, scanning from `k`.
pub open spec fn plain_end(t: Seq<char>, start: int, k: int) -> int
    decreases t.len() - k,
{
    if !(start <= k < t.len()) {
        k
    } else if plain_stop(t, start, k) {
        k
    } else {
        plain_end(t, start, k + 1)
    }
}

pub proof fn lemma_plain_end_bounds(t: Seq<char>, start: int, k: int)
    requires
        start <= k <= t.len(),
    ensures
        k <= plain_end(t, start, k) <= t.len(),
    decreases t.len() - k,
{
    if start <= k < t.len() && !plain_stop(t, start, k) {
        lemma_plain_end_bounds(t, start, k + 1);
    }
}

/// The first position at or after `k` holding the unescaped character `c`
/// or an unescaped line break; the length of the text if there is none.
pub open spec fn scan_end(t: Seq<char>, k: int, c: char) -> int
    decreases t.len() - k,
{
    if !(0 <= k < t.len()) {
        t.len() as int
    } else if special_at(t, k, c) || lb_at(t, k) {
        k
    } else {
        scan_end(t, k + 1, c)
    }
}

pub proof fn lemma_scan_end_bounds(t: Seq<char>, k: int, c: char)
    requires
        0 <= k <= t.len(),
    ensures
        k <= scan_end(t, k, c) <= t.len(),
        scan_end(t, k, c) < t.len() ==> special_at(t, scan_end(t, k, c), c) || lb_at(
            t,
            scan_end(t, k, c),
        ),
    decreases t.len() - k,
{
    if 0 <= k < t.len() && !(special_at(t, k, c) || lb_at(t, k)) {
        lemma_scan_end_bounds(t, k + 1, c);
    }
}


/// When the last character of the text is an unescaped line break, a scan
/// that starts before it stops before the end of the text.
pub proof fn lemma_scan_end_hits_lb(t: Seq<char>, k: int, c: char)
    requires
        0 <= k <= t.len() - 1,
        lb_at(t, t.len() - 1),
    ensures
        scan_end(t, k, c) <= t.len() - 1,
    decreases t.len() - k,
{
    if 0 <= k < t.len() && !(special_at(t, k, c) || lb_at(t, k)) {
        lemma_scan_end_hits_lb(t, k + 1, c);
    }
}

/// The first position at or after `k` holding an unescaped line break; the
/// length of the text if there is none.
pub open spec fn lb_end(t: Seq<char>, k: int) -> int
    decreases t.len() - k,
{
    if !(0 <= k < t.len()) {
        t.len() as int
    } else if lb_at(t, k) {
        k
    } else {
        lb_end(t, k + 1)
    }
}

pub proof fn lemma_lb_end_bounds(t: Seq<char>, k: int)
    requires
        0 <= k <= t.len(),
    ensures
        k <= lb_end(t, k) <= t.len(),
    decreases t.len() - k,
{
    if 0 <= k < t.len() && !lb_at(t, k) {
        lemma_lb_end_bounds(t, k + 1);
    }
}


/// When the last character of the text is an unescaped line break, the scan
/// for a line break stops before the end of the text.
pub proof fn lemma_lb_end_hits(t: Seq<char>, k: int)
    requires
        0 <= k <= t.len() - 1,
        lb_at(t, t.len() - 1),
    ensures
        lb_end(t, k) <= t.len() - 1,
    decreases t.len() - k,
{
    if 0 <= k < t.len() && !lb_at(t, k) {
        lemma_lb_end_hits(t, k + 1);
    }
}

/// Whether the characters of `s` stand unescaped at position `j`, with one
/// more character after them.
pub open spec fn matches_seq_at(t: Seq<char>, j: int, s: Seq<char>) -> bool {
    &&& 0 <= j
    &&& j + s.len() < t.len()
    &&& forall|k: int| 0 <= k < s.len() ==> t[j + k] == #[trigger] s[k]
    &&& forall|k: int| 0 <= k < s.len() ==> !escaped_at(t, #[trigger] (j + k))
}

/// The backtick fence that delimits a code block.
pub open spec fn code_fence() -> Seq<char> {
    seq![BACKTICK, BACKTICK, BACKTICK]
}

/// Whether a code fence stands at `p` once whitespace is skipped.
pub open spec fn fence_after_ws(t: Seq<char>, p: int) -> bool {
    matches_seq_at(t, skip_ws(t, p), code_fence())
}

/// The first position at or after `k` from which skipping whitespace leads
/// to a closing code fence; the length of the text if there is none.
pub open spec fn code_close(t: Seq<char>, k: int) -> int
    decreases t.len() - k,
{
    if !(0 <= k < t.len()) {
        t.len() as int
    } else if fence_after_ws(t, k) {
        k
    } else {
        code_close(t, k + 1)
    }
}

pub proof fn lemma_code_close_bounds(t: Seq<char>, k: int)
    requires
        0 <= k <= t.len(),
    ensures
        k <= code_close(t, k) <= t.len(),
    decreases t.len() - k,
{
    if 0 <= k < t.len() && !fence_after_ws(t, k) {
        lemma_code_close_bounds(t, k + 1);
    }
}

impl Parser {
    /// Whether the next characters, after skipping whitespace, are exactly
    /// `sequence`, each unescaped. On success the cursor stands on the last
    /// character of the sequence; on failure it is restored.
    pub fn check_special_sequence(&mut self, sequence: &Vec<char>) -> (r: Result<(), ParseError>)
        requires
            old(self).wf(),
            sequence@.len() >= 1,
        ensures
            final(self).wf(),
            old(self).frame(*final(self)),
            r is Ok <==> matches_seq_at(
                old(self).text@,
                skip_ws(old(self).text@, old(self).index as int),
                sequence@,
            ),
            r is Ok ==> final(self).index == skip_ws(old(self).text@, old(self).index as int)
                + sequence@.len() - 1,
            r is Err ==> old(self).restored(*final(self)),
            r matches Err(e) ==> e.index as int == seq_fail_index(
                old(self).text@,
                skip_ws(old(self).text@, old(self).index as int),
                sequence@,
            ),
    {
        let ghost t = self.text@;
        let start_index = self.index;
        self.seek_whitespace();
        let ghost j = self.index as int;
        let n = sequence.len();
        let mut k: usize = 0;
        proof {
            assert(sequence@.skip(0) =~= sequence@);
        }
        loop
            invariant_except_break
                k < n,
            invariant
                self.wf(),
                old(self).frame(*self),
                n == sequence@.len(),
                k <= n,
                self.index == j + k,
                j + k <= t.len(),
                forall|m: int| 0 <= m < k ==> t[j + m] == #[trigger] sequence@[m],
                forall|m: int| 0 <= m < k ==> !escaped_at(t, #[trigger] (j + m)),
                k > 0 ==> j + k < t.len(),
                t == self.text@,
                j == skip_ws(t, old(self).index as int),
                start_index == old(self).index,
                old(self).index < t.len() ==> old(self).current_char == t[old(
                    self,
                ).index as int],
                old(self).index == t.len() ==> old(self).current_char == t[t.len() - 1],
                seq_fail_index(t, j, sequence@) == seq_fail_index(
                    t,
                    j + k,
                    sequence@.skip(k as int),
                ),
            ensures
                k == sequence@.len(),
                self.index == j + k,
                j + k < t.len(),
            decreases sequence@.len() - k,
        {
            proof {
                assert(sequence@.skip(k as int)[0] == sequence@[k as int]);
                assert(sequence@.skip(k as int).drop_first() =~= sequence@.skip(k as int + 1));
            }
            if !self.check_special(&sequence[k]) {
                proof {
                    assert(cur_at(t, j + k) == self.current_char);
                    assert(seq_fail_index(t, j + k, sequence@.skip(k as int)) == j + k);
                }
                let e = self.revert_with_error(start_index);
                proof {
                    assert(!matches_seq_at(t, j, sequence@)) by {
                        if matches_seq_at(t, j, sequence@) {
                            assert(t[j + k] == sequence@[k as int]);
                            assert(!escaped_at(t, j + k));
                        }
                    }
                }
                return Err(e);
            }
            if self.next_char().is_none() {
                proof {
                    assert(cur_at(t, j + k) == sequence@[k as int]);
                    assert(seq_fail_index(t, j + k, sequence@.skip(k as int)) == t.len());
                    assert(self.index == t.len());
                }
                let e = self.revert_with_error(start_index);
                proof {
                    assert(!matches_seq_at(t, j, sequence@)) by {
                        if matches_seq_at(t, j, sequence@) {
                            assert(j + sequence@.len() < t.len());
                        }
                    }
                }
                return Err(e);
            }
            k += 1;
            if k >= n {
                break ;
            }
        }
        if self.index > 0 {
            match self.revert_to(self.index - 1) {
                Ok(_) => {},
                Err(e) => {
                    return Err(e);
                },
            }
        }
        Ok(())
    }

    /// A run of plain text: characters up to the next special character. On
    /// success the run is returned and the cursor stands at its end; an
    /// empty run is a failure.
    pub fn parse_plain_text(&mut self) -> (r: Result<PlainText, ParseError>)
        requires
            old(self).wf(),
        ensures
            final(self).wf(),
            old(self).frame(*final(self)),
            ({
                let t = old(self).text@;
                let i = old(self).index as int;
                let e = plain_end(t, i, i);
                &&& (r is Ok <==> e > i)
                &&& (r matches Ok(p) ==> p.value@ == t.subrange(i, e) && final(self).index == e)
                &&& (r is Err ==> old(self).restored(*final(self)))
                &&& (r matches Err(err) ==> err.index == old(self).index)
            }),
        decreases old(self).text@.len() - old(self).index, 0int,
    {
        let ghost t = self.text@;
        let ghost start = self.index as int;
        let specials = inline_special_chars();
        let specials_second = inline_special_chars_second();
        let start_index = self.index;
        let mut characters = String::new();
        proof {
            lemma_plain_end_bounds(t, start, start);
        }
        loop
            invariant
                self.wf(),
                old(self).frame(*self),
                t == self.text@,
                start == start_index as int,
                start <= self.index <= t.len(),
                characters@ == t.subrange(start, self.index as int),
                plain_end(t, start, start) == plain_end(t, start, self.index as int),
                forall|c: char| specials@.contains(c) <==> is_inline_special(c),
                forall|c: char| specials_second@.contains(c) <==> is_inline_special_second(c),
            ensures
                self.wf(),
                old(self).frame(*self),
                t == self.text@,
                characters@ == t.subrange(start, self.index as int),
                self.index == plain_end(t, start, start),
            decreases t.len() - self.index,
        {
            if self.check_special_group(&specials) || (self.index > start_index
                && self.check_special_group(&specials_second)) {
                proof {
                    if self.index < t.len() {
                        assert(plain_stop(t, start, self.index as int));
                    }
                }
                break ;
            }
            proof {
                if self.index == t.len() {
                    assert(self.current_char == t[t.len() - 1]);
                    assert(is_inline_special(LB));
                    assert(false);
                }
            }
            characters.push(self.current_char);
            proof {
                assert(characters@ =~= t.subrange(start, self.index + 1));
            }
            if self.next_char().is_none() {
                break ;
            }
        }
        if characters.as_str().unicode_len() > 0 {
            proof {
                lemma_plain_end_bounds(t, start, start);
            }
            Ok(PlainText { value: characters })
        } else {
            proof {
                assert(t.subrange(start, self.index as int).len() == 0);
            }
            Err(ParseError::new(self.index))
        }
    }

    /// Brace-delimited metadata, kept raw: the characters between the brace
    /// and the matching unescaped closing brace on the same line. The cursor
    /// is left on the closing brace.
    pub fn parse_inline_metadata(&mut self) -> (r: Result<InlineMetadata, ParseError>)
        requires
            old(self).wf(),
        ensures
            final(self).wf(),
            old(self).frame(*final(self)),
            ({
                let t = old(self).text@;
                let i = old(self).index as int;
                let e = scan_end(t, i + 1, META_CLOSE);
                &&& (r is Ok <==> special_at(t, i, META_OPEN) && special_at(t, e, META_CLOSE)
                    && e > i + 1)
                &&& (r matches Ok(m) ==> m.data@ == t.subrange(i + 1, e) && final(self).index
                    == e)
                &&& (r is Err ==> old(self).restored(*final(self)))
                &&& (r matches Err(err) ==> err.index as int == (if special_at(t, i, META_OPEN) {
                    e
                } else {
                    i
                }))
            }),
    {
        let ghost t = self.text@;
        let ghost i = self.index as int;
        let start_index = self.index;
        if !self.check_special(&META_OPEN) {
            return Err(ParseError::new(self.index));
        }
        let mut text = String::new();
        proof {
            lemma_scan_end_bounds(t, i + 1, META_CLOSE);
        }
        loop
            invariant_except_break
                text@ == t.subrange(i + 1, self.index + 1),
                scan_end(t, i + 1, META_CLOSE) == scan_end(t, self.index + 1, META_CLOSE),
            invariant
                self.wf(),
                old(self).frame(*self),
                t == self.text@,
                i == start_index as int,
                i <= self.index < t.len(),
                special_at(t, i, META_OPEN),
            ensures
                self.wf(),
                old(self).frame(*self),
                t == self.text@,
                text@ == t.subrange(i + 1, self.index as int),
                self.index == scan_end(t, i + 1, META_CLOSE),
                i < self.index < t.len(),
            decreases t.len() - self.index,
        {
            let ghost prev = self.index as int;
            match self.next_char() {
                None => {
                    proof {
                        assert(self.index == t.len());
                        assert(lb_at(t, t.len() - 1));
                        lemma_scan_end_hits_lb(t, i + 1, META_CLOSE);
                        assert(false);
                    }
                },
                Some(character) => {
                    if self.check_special(&META_CLOSE) || self.check_linebreak() {
                        proof {
                            assert(special_at(t, self.index as int, META_CLOSE) || lb_at(
                                t,
                                self.index as int,
                            ));
                            assert(scan_end(t, self.index as int, META_CLOSE)
                                == self.index as int);
                            assert(text@ == t.subrange(i + 1, self.index as int));
                        }
                        break ;
                    }
                    text.push(character);
                    proof {
                        assert(text@ =~= t.subrange(i + 1, self.index + 1));
                    }
                },
            }
        }
        proof {
            lemma_scan_end_bounds(t, i + 1, META_CLOSE);
        }
        if self.check_linebreak() || text.as_str().unicode_len() == 0 {
            return Err(self.revert_with_error(start_index));
        }
        Ok(InlineMetadata { data: text })
    }
}


/// Whether the URI predicate accepts a target: the regular expression
/// engine, given the URI pattern, answers that it matches.
pub open spec fn is_uri(s: Seq<char>) -> bool {
    regex_match(EXPR_URI@, s) == Some(true)
}

/// What a link production finds at position `i`: the description (if a
/// nonempty bracketed one stands there), the target, and the position after
/// the closing parenthesis — or nothing where the production fails.
pub open spec fn url_scan(t: Seq<char>, i: int) -> Option<(Option<Seq<char>>, Seq<char>, int)> {
    let j = skip_inline_ws(t, i);
    if special_at(t, j, DESC_OPEN) {
        let dend = scan_end(t, j + 1, DESC_CLOSE);
        if special_at(t, dend, DESC_CLOSE) && dend + 1 < t.len() {
            let d = if dend > j + 1 {
                Some(t.subrange(j + 1, dend))
            } else {
                None
            };
            url_scan_target(t, dend + 1, d)
        } else {
            None
        }
    } else {
        url_scan_target(t, j, None)
    }
}

/// The parenthesized-target half of the link production, at position `p`.
pub open spec fn url_scan_target(t: Seq<char>, p: int, d: Option<Seq<char>>) -> Option<
    (Option<Seq<char>>, Seq<char>, int),
> {
    if special_at(t, p, URL_OPEN) {
        let uend = scan_end(t, p + 1, URL_CLOSE);
        if special_at(t, uend, URL_CLOSE) && uend > p + 1 && uend + 1 < t.len() && is_uri(
            t.subrange(p + 1, uend),
        ) {
            Some((d, t.subrange(p + 1, uend), uend + 1))
        } else {
            None
        }
    } else {
        None
    }
}


/// What the image production finds at `i`: the link's description and
/// target, the optional trailing metadata, and the position after it — or
/// nothing where the production fails.
pub open spec fn image_scan(t: Seq<char>, i: int) -> Option<
    (Option<Seq<char>>, Seq<char>, Option<Seq<char>>, int),
> {
    let j = skip_inline_ws(t, i);
    if !special_at(t, j, IMG_START) {
        None
    } else if j + 1 >= t.len() {
        None
    } else {
        match url_scan(t, j + 1) {
            None => None,
            Some((d, target, e)) => {
                let m = scan_end(t, e + 1, META_CLOSE);
                if special_at(t, e, META_OPEN) && special_at(t, m, META_CLOSE) && m > e + 1 {
                    if m + 1 >= t.len() {
                        None
                    } else {
                        Some((d, target, Some(t.subrange(e + 1, m)), m + 1))
                    }
                } else {
                    Some((d, target, None, e))
                }
            },
        }
    }
}

/// The inline span the subtext production yields at `i`, with the position
/// after it — or nothing where the production fails: an image or link
/// attempt first, then the dispatch on the current character, then a plain
/// run.
pub open spec fn subtext_scan(t: Seq<char>, i: int) -> Option<(InlineV, int)>
    decreases t.len() - i, 3int,
{
    if i >= t.len() || lb_at(t, i) {
        None
    } else {
        match image_scan(t, i) {
            Some((d, target, meta, e)) => Some((InlineV::Image(d, target, meta), e)),
            None => {
                match url_scan(t, i) {
                    Some((d, target, e)) => Some((InlineV::Url(d, target), e)),
                    None => {
                        if special_at(t, i, ASTERISK) {
                            if i + 1 >= t.len() {
                                None
                            } else if special_at(t, i + 1, ASTERISK) {
                                if i + 2 >= t.len() {
                                    None
                                } else {
                                    match subtext_scan(t, i + 2) {
                                        None => None,
                                        Some((v, p)) => {
                                            if special_at(t, p, ASTERISK) {
                                                if p + 1 >= t.len() {
                                                    None
                                                } else if special_at(t, p + 1, ASTERISK) {
                                                    if p + 2 >= t.len() {
                                                        None
                                                    } else {
                                                        Some(
                                                            (
                                                                InlineV::Bold(Box::new(v)),
                                                                p + 2,
                                                            ),
                                                        )
                                                    }
                                                } else {
                                                    Some((InlineV::Bold(Box::new(v)), p + 1))
                                                }
                                            } else {
                                                Some((InlineV::Bold(Box::new(v)), p))
                                            }
                                        },
                                    }
                                }
                            } else {
                                match subtext_scan(t, i + 1) {
                                    None => None,
                                    Some((v, p)) => {
                                        if p + 1 >= t.len() {
                                            None
                                        } else {
                                            Some((InlineV::Italic(Box::new(v)), p + 1))
                                        }
                                    },
                                }
                            }
                        } else if special_at(t, i, UNDERSCR) {
                            if i + 1 >= t.len() {
                                None
                            } else {
                                match subtext_scan(t, i + 1) {
                                    None => None,
                                    Some((v, p)) => {
                                        if p + 1 >= t.len() {
                                            None
                                        } else {
                                            Some((InlineV::Underlined(Box::new(v)), p + 1))
                                        }
                                    },
                                }
                            }
                        } else if special_at(t, i, TILDE) {
                            if i + 1 >= t.len() {
                                None
                            } else {
                                match subtext_scan(t, i + 1) {
                                    None => None,
                                    Some((v, p)) => {
                                        if special_at(t, p, TILDE) {
                                            if p + 1 >= t.len() {
                                                None
                                            } else {
                                                Some((InlineV::Striked(Box::new(v)), p + 1))
                                            }
                                        } else {
                                            Some((InlineV::Striked(Box::new(v)), p))
                                        }
                                    },
                                }
                            }
                        } else if special_at(t, i, BACKTICK) {
                            if i + 1 >= t.len() {
                                None
                            } else {
                                let e2 = plain_end(t, i + 1, i + 1);
                                if e2 == i + 1 {
                                    None
                                } else {
                                    let content = InlineV::Monospace(t.subrange(i + 1, e2));
                                    if special_at(t, e2, BACKTICK) {
                                        if e2 + 1 >= t.len() {
                                            None
                                        } else {
                                            Some((content, e2 + 1))
                                        }
                                    } else {
                                        Some((content, e2))
                                    }
                                }
                            }
                        } else if special_at(t, i, PIPE) {
                            None
                        } else {
                            let e = plain_end(t, i, i);
                            if e > i {
                                Some((InlineV::Plain(t.subrange(i, e)), e))
                            } else {
                                None
                            }
                        }
                    },
                }
            },
        }
    }
}

/// A successful link scan moves the position forward and stays inside the
/// text.
pub proof fn lemma_url_scan_bounds(t: Seq<char>, i: int)
    requires
        0 <= i <= t.len(),
    ensures
        url_scan(t, i) matches Some(u) ==> i < u.2 <= t.len(),
{
    lemma_skip_inline_ws_bounds(t, i);
    let j = skip_inline_ws(t, i);
    if special_at(t, j, DESC_OPEN) {
        lemma_scan_end_bounds(t, j + 1, DESC_CLOSE);
        let dend = scan_end(t, j + 1, DESC_CLOSE);
        if special_at(t, dend, DESC_CLOSE) && dend + 1 < t.len() {
            lemma_scan_end_bounds(t, dend + 2, URL_CLOSE);
        }
    } else {
        if special_at(t, j, URL_OPEN) {
            lemma_scan_end_bounds(t, j + 1, URL_CLOSE);
        }
    }
}

/// A successful image scan moves the position forward and stays inside the
/// text.
pub proof fn lemma_image_scan_bounds(t: Seq<char>, i: int)
    requires
        0 <= i <= t.len(),
    ensures
        image_scan(t, i) matches Some(im) ==> i < im.3 <= t.len(),
{
    lemma_skip_inline_ws_bounds(t, i);
    let j = skip_inline_ws(t, i);
    if special_at(t, j, IMG_START) && j + 1 < t.len() {
        lemma_url_scan_bounds(t, j + 1);
        match url_scan(t, j + 1) {
            Some((d, target, e)) => {
                lemma_scan_end_bounds(t, e + 1, META_CLOSE);
            },
            None => {},
        }
    }
}

/// A successful subtext scan moves the position forward and stays inside
/// the text.
pub proof fn lemma_subtext_scan_bounds(t: Seq<char>, i: int)
    requires
        0 <= i,
    ensures
        subtext_scan(t, i) matches Some(s) ==> i < s.1 <= t.len(),
    decreases t.len() - i, 3int,
{
    if i >= t.len() || lb_at(t, i) {
    } else {
        lemma_image_scan_bounds(t, i);
        lemma_url_scan_bounds(t, i);
        if image_scan(t, i) is None && url_scan(t, i) is None {
            if special_at(t, i, ASTERISK) {
                if i + 1 < t.len() {
                    if special_at(t, i + 1, ASTERISK) {
                        if i + 2 < t.len() {
                            lemma_subtext_scan_bounds(t, i + 2);
                        }
                    } else {
                        lemma_subtext_scan_bounds(t, i + 1);
                    }
                }
            } else if special_at(t, i, UNDERSCR) || special_at(t, i, TILDE) {
                if i + 1 < t.len() {
                    lemma_subtext_scan_bounds(t, i + 1);
                }
            } else if special_at(t, i, BACKTICK) {
                if i + 1 < t.len() {
                    lemma_plain_end_bounds(t, i + 1, i + 1);
                }
            } else if special_at(t, i, PIPE) {
            } else {
                lemma_plain_end_bounds(t, i, i);
            }
        }
    }
}


/// The run of inline spans collected from `i` on, with the position the
/// run ends at: spans are taken while the subtext production succeeds, and
/// a span ending on the last character ends the run at the very end of the
/// text.
pub open spec fn subtexts_scan(t: Seq<char>, i: int) -> (Seq<InlineV>, int)
    decreases t.len() - i, 4int,
        via subtexts_scan_decreases
{
    if i < 0 {
        (Seq::<InlineV>::empty(), i)
    } else {
        match subtext_scan(t, i) {
            None => (Seq::<InlineV>::empty(), i),
            Some((v, p)) => {
                if p + 1 >= t.len() {
                    (seq![v], t.len() as int)
                } else {
                    let rest = subtexts_scan(t, p);
                    (seq![v] + rest.0, rest.1)
                }
            },
        }
    }
}

#[via_fn]
proof fn subtexts_scan_decreases(t: Seq<char>, i: int) {
    if i >= 0 {
        lemma_subtext_scan_bounds(t, i);
    }
}

/// What the text-line production yields at `i`: its spans and the position
/// after the line — or nothing where it can consume nothing, or where the
/// line break that ends it is the last character of the text.
pub open spec fn text_scan(t: Seq<char>, i: int) -> Option<(Seq<InlineV>, int)> {
    let s = subtexts_scan(t, i);
    let p = s.1;
    if p >= t.len() {
        None
    } else if lb_at(t, p) {
        if p + 1 >= t.len() {
            None
        } else {
            Some((s.0, p + 1))
        }
    } else {
        if s.0.len() == 0 {
            None
        } else {
            Some((s.0, p))
        }
    }
}

/// A successful text scan moves the position forward and stays inside the
/// text.
pub proof fn lemma_text_scan_bounds(t: Seq<char>, i: int)
    requires
        0 <= i,
    ensures
        text_scan(t, i) matches Some(l) ==> i < l.1 <= t.len(),
        i <= subtexts_scan(t, i).1 <= t.len() || subtexts_scan(t, i).1 == i,
    decreases t.len() - i, 5int,
{
    lemma_subtext_scan_bounds(t, i);
    match subtext_scan(t, i) {
        None => {},
        Some((v, p)) => {
            if p + 1 < t.len() {
                lemma_text_scan_bounds(t, p);
            }
        },
    }
}


/// The first whitespace strictly after `m`, or the length of the text:
/// where the list-item marker word ends.
pub open spec fn ws_after(t: Seq<char>, m: int) -> int
    decreases t.len() - m,
{
    if m + 1 >= t.len() {
        t.len() as int
    } else if is_ws(t[m + 1]) {
        m + 1
    } else {
        ws_after(t, m + 1)
    }
}

/// What the list-item production finds at `i`: the item's indentation
/// level, its line's spans, and the position after it — or nothing where
/// the marker is neither a list character nor numeric, the marker word
/// runs off the end, the indentation overflows the level field, or the
/// line fails.
pub open spec fn list_item_scan(t: Seq<char>, i: int) -> Option<((int, Seq<InlineV>), int)> {
    let m = skip_inline_ws(t, i);
    let c = cur_at(t, m);
    if !((is_list_special(c) && !escaped_at(t, m)) || is_numeric_char(c)) {
        None
    } else {
        let w = ws_after(t, m);
        if w + 1 >= t.len() {
            None
        } else if m - i > 65535 {
            None
        } else {
            let q = skip_inline_ws(t, w + 1);
            match text_scan(t, q) {
                None => None,
                Some((spans, e)) => Some(((m - i, spans), e)),
            }
        }
    }
}

/// The spans a line shows: those of a text line, nothing otherwise.
pub open spec fn line_spans(l: Line) -> Seq<InlineV> {
    match l {
        Line::Text(tl) => text_line_view(tl),
        _ => Seq::<InlineV>::empty(),
    }
}

pub open spec fn lines_view(s: Seq<Line>) -> Seq<Seq<InlineV>> {
    s.map(|k: int, l: Line| line_spans(l))
}

/// The lines the paragraph production collects from `i` on, with the
/// position it stops at: text lines while they parse, stopping once a line
/// ends before a character that opens another kind of block.
pub open spec fn para_lines(t: Seq<char>, i: int) -> (Seq<Seq<InlineV>>, int)
    decreases t.len() - i, 6int,
        via para_lines_decreases
{
    if i < 0 {
        (Seq::<Seq<InlineV>>::empty(), i)
    } else {
        match text_scan(t, i) {
            None => (Seq::<Seq<InlineV>>::empty(), i),
            Some((spans, p)) => {
                if is_block_special(cur_at(t, p)) && !escaped_at(t, p) {
                    (seq![spans], p)
                } else {
                    let rest = para_lines(t, p);
                    (seq![spans] + rest.0, rest.1)
                }
            },
        }
    }
}

#[via_fn]
proof fn para_lines_decreases(t: Seq<char>, i: int) {
    if i >= 0 {
        lemma_text_scan_bounds(t, i);
    }
}


pub open spec fn cells_view(s: Seq<Cell>) -> Seq<Seq<InlineV>> {
    s.map(|k: int, c: Cell| line_spans(c.text))
}

/// The cells the row production collects from `q` on, with the position it
/// stops at: one cell per line run, a `|` between cells consumed, the row
/// ending at an unescaped line break or the end of the text.
pub open spec fn row_cells(t: Seq<char>, q: int) -> (Seq<Seq<InlineV>>, int)
    decreases t.len() - q, 6int,
        via row_cells_decreases
{
    if q < 0 {
        (Seq::<Seq<InlineV>>::empty(), q)
    } else {
        match text_scan(t, q) {
            None => (Seq::<Seq<InlineV>>::empty(), q),
            Some((spans, p)) => {
                if special_at(t, p, PIPE) {
                    if p + 1 >= t.len() {
                        (seq![spans], t.len() as int)
                    } else if lb_at(t, p + 1) {
                        (seq![spans], p + 1)
                    } else {
                        let rest = row_cells(t, p + 1);
                        (seq![spans] + rest.0, rest.1)
                    }
                } else {
                    if p >= t.len() || lb_at(t, p) {
                        (seq![spans], p)
                    } else {
                        let rest = row_cells(t, p);
                        (seq![spans] + rest.0, rest.1)
                    }
                }
            },
        }
    }
}

#[via_fn]
proof fn row_cells_decreases(t: Seq<char>, q: int) {
    if q >= 0 {
        lemma_text_scan_bounds(t, q);
    }
}

/// What the row production finds at `i`: its cells and the position after
/// the row — or nothing where no leading `|` stands after the inline
/// whitespace, or no cell parses.
pub open spec fn row_scan(t: Seq<char>, i: int) -> Option<(Seq<Seq<InlineV>>, int)> {
    let j = skip_inline_ws(t, i);
    if !special_at(t, j, PIPE) {
        None
    } else if j + 1 >= t.len() {
        None
    } else {
        let cells = row_cells(t, j + 1);
        if cells.0.len() == 0 {
            None
        } else {
            Some(cells)
        }
    }
}


pub open spec fn tlines_view(s: Seq<TextLine>) -> Seq<Seq<InlineV>> {
    s.map(|k: int, l: TextLine| text_line_view(l))
}

/// The lines the quote production collects from `q` on, with the position
/// it stops at: lines while each begins with the quote marker, at least one
/// inline whitespace, and a line that parses.
pub open spec fn quote_lines(t: Seq<char>, q: int) -> (Seq<Seq<InlineV>>, int)
    decreases t.len() - q, 6int,
        via quote_lines_decreases
{
    if q < 0 {
        (Seq::<Seq<InlineV>>::empty(), q)
    } else if !special_at(t, q, QUOTE_START) {
        (Seq::<Seq<InlineV>>::empty(), q)
    } else if q + 1 >= t.len() {
        (Seq::<Seq<InlineV>>::empty(), t.len() as int)
    } else {
        let s2 = skip_inline_ws(t, q + 1);
        if s2 == q + 1 {
            (Seq::<Seq<InlineV>>::empty(), q + 1)
        } else {
            match text_scan(t, s2) {
                None => (Seq::<Seq<InlineV>>::empty(), s2),
                Some((spans, p)) => {
                    let rest = quote_lines(t, p);
                    (seq![spans] + rest.0, rest.1)
                },
            }
        }
    }
}

#[via_fn]
proof fn quote_lines_decreases(t: Seq<char>, q: int) {
    if q >= 0 && special_at(t, q, QUOTE_START) && q + 1 < t.len() {
        lemma_skip_inline_ws_bounds(t, q + 1);
        lemma_text_scan_bounds(t, skip_inline_ws(t, q + 1));
    }
}

/// What the quote production finds at `i`: the optional metadata text, the
/// quoted lines, and the position after them — or nothing where no line
/// matches.
pub open spec fn quote_scan(t: Seq<char>, i: int) -> Option<
    ((Option<Seq<char>>, Seq<Seq<InlineV>>), int),
> {
    let j = skip_ws(t, i);
    let e = scan_end(t, j + 1, META_CLOSE);
    if special_at(t, j, META_OPEN) && special_at(t, e, META_CLOSE) && e > j + 1 {
        if e + 1 >= t.len() {
            None
        } else {
            let ls = quote_lines(t, e + 1);
            if ls.0.len() == 0 {
                None
            } else {
                Some(((Some(t.subrange(j + 1, e)), ls.0), ls.1))
            }
        }
    } else if special_at(t, j, META_CLOSE) {
        if j + 1 >= t.len() {
            None
        } else {
            let ls = quote_lines(t, j + 1);
            if ls.0.len() == 0 {
                None
            } else {
                Some(((None, ls.0), ls.1))
            }
        }
    } else {
        let ls = quote_lines(t, j);
        if ls.0.len() == 0 {
            None
        } else {
            Some(((None, ls.0), ls.1))
        }
    }
}

/// The first plain line-break character strictly after `m`, or the length
/// of the text: where the discarded rest of the separator line ends.
pub open spec fn plain_lb_after(t: Seq<char>, m: int) -> int
    decreases t.len() - m,
{
    if m + 1 >= t.len() {
        t.len() as int
    } else if t[m + 1] == LB {
        m + 1
    } else {
        plain_lb_after(t, m + 1)
    }
}

pub open spec fn rows_view(s: Seq<Row>) -> Seq<Seq<Seq<InlineV>>> {
    s.map(|k: int, rr: Row| cells_view(rr.cells@))
}

/// A collected row run never moves backwards and stays inside the text.
pub proof fn lemma_row_cells_bounds(t: Seq<char>, q: int)
    requires
        0 <= q <= t.len(),
    ensures
        q <= row_cells(t, q).1 <= t.len(),
    decreases t.len() - q, 7int,
{
    lemma_text_scan_bounds(t, q);
    match text_scan(t, q) {
        None => {},
        Some((spans, p)) => {
            if special_at(t, p, PIPE) {
                if p + 1 < t.len() && !lb_at(t, p + 1) {
                    lemma_row_cells_bounds(t, p + 1);
                }
            } else {
                if !(p >= t.len() || lb_at(t, p)) {
                    lemma_row_cells_bounds(t, p);
                }
            }
        },
    }
}

/// A successful row scan moves the position forward and stays inside the
/// text.
pub proof fn lemma_row_scan_bounds(t: Seq<char>, i: int)
    requires
        0 <= i,
    ensures
        row_scan(t, i) matches Some(sc) ==> i < sc.1 <= t.len(),
{
    if 0 <= i <= t.len() {
        lemma_skip_inline_ws_bounds(t, i);
    }
    let j = skip_inline_ws(t, i);
    if special_at(t, j, PIPE) && j + 1 < t.len() {
        lemma_row_cells_bounds(t, j + 1);
    }
}

/// The rows the table production collects from `q` on, with the position it
/// stops at, whitespace between rows skipped.
pub open spec fn table_rows(t: Seq<char>, q: int) -> (Seq<Seq<Seq<InlineV>>>, int)
    decreases t.len() - q, 7int,
        via table_rows_decreases
{
    if q < 0 {
        (Seq::<Seq<Seq<InlineV>>>::empty(), q)
    } else {
        match row_scan(t, q) {
            None => (Seq::<Seq<Seq<InlineV>>>::empty(), q),
            Some((cells, p)) => {
                let q2 = skip_ws(t, p);
                let rest = table_rows(t, q2);
                (seq![cells] + rest.0, rest.1)
            },
        }
    }
}

#[via_fn]
proof fn table_rows_decreases(t: Seq<char>, q: int) {
    if q >= 0 {
        lemma_row_scan_bounds(t, q);
        match row_scan(t, q) {
            Some((cells, p)) => {
                lemma_skip_ws_bounds(t, p);
            },
            None => {},
        }
    }
}

/// What the table production finds at `i`: the header row's cells, the body
/// rows, and the position after them — or nothing where the header row or
/// the mandatory separator line is missing.
pub open spec fn table_scan(t: Seq<char>, i: int) -> Option<
    ((Seq<Seq<InlineV>>, Seq<Seq<Seq<InlineV>>>), int),
> {
    match row_scan(t, i) {
        None => None,
        Some((header, p1)) => {
            let j2 = skip_ws(t, p1);
            if !special_at(t, j2, MINUS) {
                None
            } else if j2 + 1 >= t.len() {
                None
            } else if t[j2 + 1] != PIPE {
                None
            } else {
                let nl = plain_lb_after(t, j2 + 1);
                let q = skip_ws(t, nl);
                let rows = table_rows(t, q);
                Some(((header, rows.0), rows.1))
            }
        },
    }
}


/// The flat run of list items scanned from `q` on: their levels and lines,
/// with the position the run ends at.
pub open spec fn list_items_scan(t: Seq<char>, q: int) -> (Seq<(int, Seq<InlineV>)>, int)
    decreases t.len() - q, 7int,
        via list_items_scan_decreases
{
    if q < 0 {
        (Seq::<(int, Seq<InlineV>)>::empty(), q)
    } else {
        match list_item_scan(t, q) {
            None => (Seq::<(int, Seq<InlineV>)>::empty(), q),
            Some(((lvl, spans), p)) => {
                let rest = list_items_scan(t, p);
                (seq![(lvl, spans)] + rest.0, rest.1)
            },
        }
    }
}

/// A successful list-item scan moves the position forward.
pub proof fn lemma_list_item_scan_bounds(t: Seq<char>, q: int)
    requires
        0 <= q,
    ensures
        list_item_scan(t, q) matches Some(sc) ==> q < sc.1 <= t.len(),
{
    if q <= t.len() {
        lemma_skip_inline_ws_bounds(t, q);
    }
    let m = skip_inline_ws(t, q);
    lemma_ws_after_low(t, m);
    let w = ws_after(t, m);
    if 0 <= w + 1 && w + 1 <= t.len() {
        lemma_skip_inline_ws_bounds(t, w + 1);
        let q2 = skip_inline_ws(t, w + 1);
        if 0 <= q2 {
            lemma_text_scan_bounds(t, q2);
        }
    }
}

/// The marker word's end never falls below the marker.
pub proof fn lemma_ws_after_low(t: Seq<char>, m: int)
    ensures
        ws_after(t, m) >= m + 1 || ws_after(t, m) == t.len(),
    decreases t.len() - m,
{
    if m + 1 < t.len() && !is_ws(t[m + 1]) {
        lemma_ws_after_low(t, m + 1);
    }
}

#[via_fn]
proof fn list_items_scan_decreases(t: Seq<char>, q: int) {
    if q >= 0 {
        lemma_list_item_scan_bounds(t, q);
    }
}

/// One step of the re-nesting stack: a new item pops entries of its level
/// or deeper, each popped entry joining the children of the entry above it
/// — or the completed roots where none is — and is then pushed.
pub open spec fn list_push(
    roots: Seq<ListItemV>,
    stack: Seq<ListItemV>,
    item: ListItemV,
) -> (Seq<ListItemV>, Seq<ListItemV>)
    decreases stack.len(),
{
    if stack.len() == 0 {
        (roots, stack.push(item))
    } else {
        let top = stack.last();
        if top.level < item.level {
            (roots, stack.push(item))
        } else if top.level == item.level {
            let popped = stack.drop_last();
            if popped.len() == 0 {
                (roots.push(top), popped.push(item))
            } else {
                let pp = popped.last();
                let pp2 = ListItemV { children: pp.children.push(top), ..pp };
                (roots, popped.drop_last().push(pp2).push(item))
            }
        } else {
            let popped = stack.drop_last();
            if popped.len() == 0 {
                (roots.push(top), popped.push(item))
            } else {
                let pp = popped.last();
                let pp2 = ListItemV { children: pp.children.push(top), ..pp };
                list_push(roots, popped.drop_last().push(pp2), item)
            }
        }
    }
}

/// Draining the stack at the end of the scan: each entry joins the children
/// of the entry above it, the bottom entry becoming the last root.
pub open spec fn list_drain(roots: Seq<ListItemV>, stack: Seq<ListItemV>) -> Seq<ListItemV>
    decreases stack.len(),
{
    if stack.len() <= 1 {
        roots + stack
    } else {
        let top = stack.last();
        let pp = stack.drop_last().last();
        let pp2 = ListItemV { children: pp.children.push(top), ..pp };
        list_drain(roots, stack.drop_last().drop_last().push(pp2))
    }
}

/// The forest the re-nesting pass builds from a flat run of items.
pub open spec fn list_fold(
    roots: Seq<ListItemV>,
    stack: Seq<ListItemV>,
    flat: Seq<(int, Seq<InlineV>)>,
    ordered: bool,
) -> Seq<ListItemV>
    decreases flat.len(),
{
    if flat.len() == 0 {
        list_drain(roots, stack)
    } else {
        let item = ListItemV {
            level: flat[0].0,
            line: flat[0].1,
            ordered,
            children: Seq::<ListItemV>::empty(),
        };
        let st = list_push(roots, stack, item);
        list_fold(st.0, st.1, flat.drop_first(), ordered)
    }
}

/// The re-nested forest of a flat run of items, per the nesting pass.
pub open spec fn spec_nest(flat: Seq<(int, Seq<InlineV>)>, ordered: bool) -> Seq<ListItemV> {
    list_fold(Seq::<ListItemV>::empty(), Seq::<ListItemV>::empty(), flat, ordered)
}


/// The stack never empties while items are being pushed, and roots only
/// grow.
pub proof fn lemma_list_push_counts(
    roots: Seq<ListItemV>,
    stack: Seq<ListItemV>,
    item: ListItemV,
)
    ensures
        list_push(roots, stack, item).1.len() >= 1,
        list_push(roots, stack, item).0.len() >= roots.len(),
    decreases stack.len(),
{
    if stack.len() > 0 {
        let top = stack.last();
        if !(top.level < item.level) && top.level > item.level && stack.drop_last().len() > 0 {
            let popped = stack.drop_last();
            let pp = popped.last();
            let pp2 = ListItemV { children: pp.children.push(top), ..pp };
            lemma_list_push_counts(roots, popped.drop_last().push(pp2), item);
        }
    }
}

/// Draining a nonempty stack yields exactly one root more.
pub proof fn lemma_list_drain_len(roots: Seq<ListItemV>, stack: Seq<ListItemV>)
    requires
        stack.len() >= 1,
    ensures
        list_drain(roots, stack).len() == roots.len() + 1,
    decreases stack.len(),
{
    if stack.len() > 1 {
        let top = stack.last();
        let pp = stack.drop_last().last();
        let pp2 = ListItemV { children: pp.children.push(top), ..pp };
        lemma_list_drain_len(roots, stack.drop_last().drop_last().push(pp2));
    }
}

/// With a nonempty stack the fold yields at least one item.
pub proof fn lemma_list_fold_nonempty(
    roots: Seq<ListItemV>,
    stack: Seq<ListItemV>,
    flat: Seq<(int, Seq<InlineV>)>,
    ordered: bool,
)
    requires
        stack.len() >= 1,
    ensures
        list_fold(roots, stack, flat, ordered).len() >= roots.len() + 1,
    decreases flat.len(),
{
    if flat.len() == 0 {
        lemma_list_drain_len(roots, stack);
    } else {
        let item = ListItemV {
            level: flat[0].0,
            line: flat[0].1,
            ordered,
            children: Seq::<ListItemV>::empty(),
        };
        lemma_list_push_counts(roots, stack, item);
        let st = list_push(roots, stack, item);
        lemma_list_fold_nonempty(st.0, st.1, flat.drop_first(), ordered);
    }
}


/// The index a failed link production reports: where its scan stopped, or
/// the length of the text where it ran off the end.
pub open spec fn url_fail_index(t: Seq<char>, i: int) -> int {
    let j = skip_inline_ws(t, i);
    if special_at(t, j, DESC_OPEN) {
        let dend = scan_end(t, j + 1, DESC_CLOSE);
        if !special_at(t, dend, DESC_CLOSE) {
            dend
        } else if dend + 1 >= t.len() {
            t.len() as int
        } else {
            url_fail_target(t, dend + 1)
        }
    } else {
        url_fail_target(t, j)
    }
}

pub open spec fn url_fail_target(t: Seq<char>, p: int) -> int {
    if !special_at(t, p, URL_OPEN) {
        p
    } else {
        let uend = scan_end(t, p + 1, URL_CLOSE);
        if !(special_at(t, uend, URL_CLOSE) && uend > p + 1) {
            uend
        } else if uend + 1 >= t.len() {
            t.len() as int
        } else {
            uend + 1
        }
    }
}

/// The index a failed image production reports.
pub open spec fn image_fail_index(t: Seq<char>, i: int) -> int {
    let j = skip_inline_ws(t, i);
    if !special_at(t, j, IMG_START) {
        j
    } else if j + 1 >= t.len() {
        t.len() as int
    } else {
        match url_scan(t, j + 1) {
            None => j + 1,
            Some(u) => t.len() as int,
        }
    }
}


/// The index a failed subtext production reports: the entry index for a
/// line break, a pipe or an empty plain run, the restored position of a
/// failed inner span, or the length of the text where a step ran off the
/// end.
pub open spec fn subtext_fail_index(t: Seq<char>, i: int) -> int {
    if i >= t.len() || lb_at(t, i) {
        i
    } else if image_scan(t, i) is Some || url_scan(t, i) is Some {
        i
    } else if special_at(t, i, ASTERISK) {
        if i + 1 >= t.len() {
            t.len() as int
        } else if special_at(t, i + 1, ASTERISK) {
            if i + 2 >= t.len() {
                t.len() as int
            } else {
                match subtext_scan(t, i + 2) {
                    None => i + 2,
                    Some(sp) => t.len() as int,
                }
            }
        } else {
            match subtext_scan(t, i + 1) {
                None => i + 1,
                Some(sp) => t.len() as int,
            }
        }
    } else if special_at(t, i, UNDERSCR) || special_at(t, i, TILDE) {
        if i + 1 >= t.len() {
            t.len() as int
        } else {
            match subtext_scan(t, i + 1) {
                None => i + 1,
                Some(sp) => t.len() as int,
            }
        }
    } else if special_at(t, i, BACKTICK) {
        if i + 1 >= t.len() {
            t.len() as int
        } else if plain_end(t, i + 1, i + 1) == i + 1 {
            i + 1
        } else {
            t.len() as int
        }
    } else {
        i
    }
}

impl Parser {
    /// A fenced code block: the first line after the fence names the
    /// language, the verbatim body runs to the next fence (or, unclosed, to
    /// the end of the input).
    pub fn parse_code_block(&mut self) -> (r: Result<CodeBlock, ParseError>)
        requires
            old(self).wf(),
        ensures
            final(self).wf(),
            old(self).frame(*final(self)),
            ({
                let t = old(self).text@;
                let i = old(self).index as int;
                let j = skip_ws(t, i);
                &&& (r is Ok <==> matches_seq_at(t, j, code_fence()))
                &&& (r is Err ==> old(self).restored(*final(self)))
                &&& (r matches Err(e) ==> e.index as int == seq_fail_index(t, j, code_fence()))
                &&& (r matches Ok(cb) ==> {
                    let lend = lb_end(t, j + 3);
                    let cend = code_close(t, lend + 1);
                    &&& cb.language@ == t.subrange(j + 3, lend)
                    &&& cb.code@ == t.subrange(lend + 1, cend)
                    &&& final(self).index > i
                    &&& final(self).index as int == (if cend < t.len() {
                        skip_ws(t, cend) + 2
                    } else {
                        t.len() as int
                    })
                })
            }),
    {
        let ghost t = self.text@;
        let ghost i = self.index as int;
        let mut language = String::new();
        match self.check_special_sequence(&crate::tokens::code_fence_chars()) {
            Err(e) => {
                return Err(e);
            },
            Ok(_) => {},
        }
        let ghost j = skip_ws(t, i);
        proof {
            lemma_lb_end_bounds(t, j + 3);
            lemma_lb_end_hits(t, j + 3);
        }
        loop
            invariant_except_break
                language@ == t.subrange(j + 3, self.index + 1),
                lb_end(t, j + 3) == lb_end(t, self.index + 1),
                j + 2 <= self.index < t.len(),
            invariant
                self.wf(),
                old(self).frame(*self),
                t == self.text@,
                j + 3 < t.len(),
                matches_seq_at(t, j, code_fence()),
            ensures
                self.wf(),
                old(self).frame(*self),
                t == self.text@,
                language@ == t.subrange(j + 3, self.index as int),
                self.index == lb_end(t, j + 3),
                j + 2 < self.index < t.len(),
                lb_at(t, self.index as int),
            decreases t.len() - self.index,
        {
            let ghost prev = self.index as int;
            match self.next_char() {
                None => {
                    proof {
                        assert(self.index == t.len());
                        assert(lb_at(t, t.len() - 1));
                        lemma_lb_end_hits(t, j + 3);
                        assert(false);
                    }
                },
                Some(character) => {
                    if self.check_linebreak() {
                        proof {
                            assert(lb_at(t, self.index as int));
                            assert(lb_end(t, self.index as int) == self.index as int);
                            assert(language@ == t.subrange(j + 3, self.index as int));
                        }
                        break ;
                    }
                    language.push(character);
                    proof {
                        assert(language@ =~= t.subrange(j + 3, self.index + 1));
                    }
                },
            }
        }
        let ghost lend = self.index as int;
        let mut text = String::new();
        proof {
            lemma_code_close_bounds(t, lend + 1);
            lemma_skip_ws_bounds(t, i);
        }
        loop
            invariant_except_break
                text@ == t.subrange(lend + 1, self.index + 1),
                code_close(t, lend + 1) == code_close(t, self.index + 1),
                lend <= self.index < t.len(),
            invariant
                self.wf(),
                old(self).frame(*self),
                t == self.text@,
                0 <= lend < t.len(),
                lend == lb_end(t, j + 3),
                j + 2 < lend,
                0 <= i <= j,
                j + 3 < t.len(),
                matches_seq_at(t, j, code_fence()),
            ensures
                self.wf(),
                old(self).frame(*self),
                t == self.text@,
                text@ == t.subrange(lend + 1, code_close(t, lend + 1)),
                self.index > i,
                self.index as int == (if code_close(t, lend + 1) < t.len() {
                    skip_ws(t, code_close(t, lend + 1)) + 2
                } else {
                    t.len() as int
                }),
            decreases t.len() - self.index,
        {
            let ghost prev = self.index as int;
            match self.next_char() {
                None => {
                    proof {
                        assert(self.index == t.len());
                        assert(text@ =~= t.subrange(lend + 1, t.len() as int));
                        assert(code_close(t, t.len() as int) == t.len());
                    }
                    break ;
                },
                Some(character) => {
                    let ghost p = self.index as int;
                    match self.check_special_sequence(&crate::tokens::code_fence_chars()) {
                        Ok(_) => {
                            proof {
                                assert(fence_after_ws(t, p));
                                assert(code_close(t, p) == p);
                                assert(text@ == t.subrange(lend + 1, p));
                                lemma_skip_ws_bounds(t, p);
                                assert(self.index == skip_ws(t, p) + 2);
                                assert(p >= lend + 1);
                                assert(self.index > i);
                            }
                            break ;
                        },
                        Err(_) => {
                            proof {
                                assert(!fence_after_ws(t, p));
                                assert(self.index == p);
                            }
                            text.push(character);
                            proof {
                                assert(text@ =~= t.subrange(lend + 1, self.index + 1));
                            }
                        },
                    }
                },
            }
        }
        Ok(CodeBlock { language, code: text })
    }

    /// A link: an optional bracketed description, then a parenthesized
    /// target that the URI predicate must accept; on any failure, including
    /// a rejected target, the whole production backtracks to its start.
    pub fn parse_url(&mut self) -> (r: Result<Url, ParseError>)
        requires
            old(self).wf(),
        ensures
            final(self).wf(),
            old(self).frame(*final(self)),
            ({
                let t = old(self).text@;
                let i = old(self).index as int;
                &&& (r is Ok <==> url_scan(t, i) is Some)
                &&& (r is Err ==> old(self).restored(*final(self)))
                &&& (r matches Err(e) ==> e.index as int == url_fail_index(t, i))
                &&& (r matches Ok(u) ==> url_scan(t, i) matches Some((d, target, e)) && {
                    &&& u.url@ == target
                    &&& opt_str_view(u.description) == d
                    &&& final(self).index == e
                    &&& is_uri(u.url@)
                    &&& e > i
                })
            }),
        decreases old(self).text@.len() - old(self).index, 1int,
    {
        let ghost t = self.text@;
        let ghost i = self.index as int;
        let start_index = self.index;
        self.seek_inline_whitespace();
        let ghost j = self.index as int;

        let mut description = String::new();
        let ghost mut p: int = j;
        if self.check_special(&DESC_OPEN) {
            proof {
                lemma_scan_end_bounds(t, j + 1, DESC_CLOSE);
            }
            loop
                invariant_except_break
                    description@ == t.subrange(j + 1, self.index + 1),
                    scan_end(t, j + 1, DESC_CLOSE) == scan_end(t, self.index + 1, DESC_CLOSE),
                invariant
                    self.wf(),
                    old(self).frame(*self),
                    t == self.text@,
                    j <= self.index < t.len(),
                    special_at(t, j, DESC_OPEN),
                    j == skip_inline_ws(t, i),
                    start_index == old(self).index,
                    i == old(self).index as int,
                ensures
                    self.wf(),
                    old(self).frame(*self),
                    t == self.text@,
                    description@ == t.subrange(j + 1, self.index as int),
                    self.index == scan_end(t, j + 1, DESC_CLOSE),
                    j < self.index < t.len(),
                decreases t.len() - self.index,
            {
                match self.next_char() {
                    None => {
                        proof {
                            assert(self.index == t.len());
                            assert(lb_at(t, t.len() - 1));
                            lemma_scan_end_hits_lb(t, j + 1, DESC_CLOSE);
                            assert(false);
                        }
                    },
                    Some(character) => {
                        if self.check_special(&DESC_CLOSE) || self.check_linebreak() {
                            proof {
                                assert(scan_end(t, self.index as int, DESC_CLOSE)
                                    == self.index as int);
                                assert(description@ == t.subrange(j + 1, self.index as int));
                            }
                            break ;
                        }
                        description.push(character);
                        proof {
                            assert(description@ =~= t.subrange(j + 1, self.index + 1));
                        }
                    },
                }
            }
            let ghost dend = self.index as int;
            if !self.check_special(&DESC_CLOSE) {
                return Err(self.revert_with_error(start_index));
            }
            if self.next_char().is_none() {
                return Err(self.revert_with_error(start_index));
            }
            proof {
                p = dend + 1;
            }
        }

        if !self.check_special(&URL_OPEN) {
            return Err(self.revert_with_error(start_index));
        }
        proof {
            assert(special_at(t, p, URL_OPEN));
            assert(!is_ws(URL_OPEN));
            assert(skip_inline_ws(t, p) == p);
        }
        self.seek_inline_whitespace();
        let mut url = String::new();
        proof {
            lemma_scan_end_bounds(t, p + 1, URL_CLOSE);
            assert(t[t.len() - 1] == LB);
            assert(special_at(t, p, URL_OPEN) && t[t.len() - 1] == LB ==> p < t.len() - 1);
        }
        loop
            invariant_except_break
                url@ == t.subrange(p + 1, self.index + 1),
                scan_end(t, p + 1, URL_CLOSE) == scan_end(t, self.index + 1, URL_CLOSE),
            invariant
                self.wf(),
                old(self).frame(*self),
                t == self.text@,
                p <= self.index < t.len(),
                p < t.len() - 1,
                special_at(t, p, URL_OPEN),
                start_index == old(self).index,
                i == old(self).index as int,
            ensures
                self.wf(),
                old(self).frame(*self),
                t == self.text@,
                url@ == t.subrange(p + 1, self.index as int),
                self.index == scan_end(t, p + 1, URL_CLOSE),
                p < self.index < t.len(),
            decreases t.len() - self.index,
        {
            match self.next_char() {
                None => {
                    proof {
                        assert(self.index == t.len());
                        assert(lb_at(t, t.len() - 1));
                        lemma_scan_end_hits_lb(t, p + 1, URL_CLOSE);
                        assert(false);
                    }
                },
                Some(character) => {
                    if self.check_special(&URL_CLOSE) || self.check_linebreak() {
                        proof {
                            assert(scan_end(t, self.index as int, URL_CLOSE)
                                == self.index as int);
                            assert(url@ == t.subrange(p + 1, self.index as int));
                        }
                        break ;
                    }
                    url.push(character);
                    proof {
                        assert(url@ =~= t.subrange(p + 1, self.index + 1));
                    }
                },
            }
        }
        proof {
            lemma_scan_end_bounds(t, p + 1, URL_CLOSE);
        }
        if !self.check_special(&URL_CLOSE) || url.as_str().unicode_len() == 0 {
            return Err(self.revert_with_error(start_index));
        }
        if self.next_char().is_none() {
            return Err(self.revert_with_error(start_index));
        }
        let matched = match regex_is_match(EXPR_URI, url.as_str()) {
            Some(true) => true,
            _ => false,
        };
        if !matched {
            return Err(self.revert_with_error(start_index));
        }
        if description.as_str().unicode_len() == 0 {
            Ok(Url::new(None, url))
        } else {
            Ok(Url::new(Some(description), url))
        }
    }

    /// An inline image: a leading marker, then a link, then optional
    /// trailing metadata.
    pub fn parse_image(&mut self) -> (r: Result<Image, ParseError>)
        requires
            old(self).wf(),
        ensures
            final(self).wf(),
            old(self).frame(*final(self)),
            r is Err ==> old(self).restored(*final(self)),
            !special_at(
                old(self).text@,
                skip_inline_ws(old(self).text@, old(self).index as int),
                IMG_START,
            ) ==> r is Err,
            r is Err <==> image_scan(old(self).text@, old(self).index as int) is None,
            r matches Err(e) ==> e.index as int == image_fail_index(
                old(self).text@,
                old(self).index as int,
            ),
            r matches Ok(img) ==> image_scan(old(self).text@, old(self).index as int) matches Some(
                im,
            ) && {
                &&& opt_str_view(img.url.description) == im.0
                &&& img.url.url@ == im.1
                &&& meta_opt_view(img.metadata) == im.2
                &&& final(self).index as int == im.3
            },
            r matches Ok(img) ==> is_uri(img.url.url@) && final(self).index > old(self).index,
        decreases old(self).text@.len() - old(self).index, 2int,
    {
        let ghost t = self.text@;
        let start_index = self.index;
        self.seek_inline_whitespace();

        if !self.check_special(&IMG_START) {
            return Err(self.revert_with_error(start_index));
        }
        if self.next_char().is_none() {
            return Err(self.revert_with_error(start_index));
        }
        match self.parse_url() {
            Ok(url) => {
                let metadata = match self.parse_inline_metadata() {
                    Ok(meta) => {
                        if self.check_special(&META_CLOSE) {
                            if self.next_char().is_none() {
                                return Err(self.revert_with_error(start_index));
                            }
                        }
                        Some(meta)
                    },
                    Err(_) => None,
                };
                Ok(Image { url, metadata })
            },
            Err(_) => Err(self.revert_with_error(start_index)),
        }
    }
}


impl Parser {
    /// One inline span: an image or link attempt first, then dispatch on
    /// the current character — double-asterisk lookahead picks bold over
    /// italic — and otherwise a plain-text run. An escaped special
    /// character never selects a formatting arm.
    pub fn parse_subtext(&mut self) -> (r: Result<Inline, ParseError>)
        requires
            old(self).wf(),
        ensures
            final(self).wf(),
            old(self).frame(*final(self)),
            r is Err ==> old(self).restored(*final(self)),
            r is Ok ==> final(self).index > old(self).index,
            ({
                let t = old(self).text@;
                let i = old(self).index as int;
                &&& ((old(self).current_char == LB && !escaped_at(t, i)) ==> r is Err)
                &&& (special_at(t, i, PIPE) ==> r is Err)
                &&& (r matches Ok(Inline::Bold(_)) ==> special_at(t, i, ASTERISK) && i + 1
                    < t.len() && t[i + 1] == ASTERISK)
                &&& (r matches Ok(Inline::Italic(_)) ==> special_at(t, i, ASTERISK) && i + 1
                    < t.len() && t[i + 1] != ASTERISK)
                &&& (r matches Ok(Inline::Underlined(_)) ==> special_at(t, i, UNDERSCR))
                &&& (r matches Ok(Inline::Striked(_)) ==> special_at(t, i, TILDE))
                &&& (r matches Ok(Inline::Monospace(m)) ==> special_at(t, i, BACKTICK)
                    && m.value.value@ == t.subrange(i + 1, plain_end(t, i + 1, i + 1)))
                &&& (r matches Ok(Inline::Plain(p)) ==> p.value@ == t.subrange(
                    i,
                    plain_end(t, i, i),
                ) && final(self).index == plain_end(t, i, i))
                &&& ((i < t.len() && !(is_inline_special(t[i]) && !escaped_at(t, i)) && !(
                is_inline_special_second(t[i]) && !escaped_at(t, i))) ==> r is Ok)
                &&& (r is Err <==> subtext_scan(t, i) is None)
                &&& (r matches Err(e) ==> e.index as int == subtext_fail_index(t, i))
                &&& (r matches Ok(s) ==> subtext_scan(t, i) == Some(
                    (inline_view(s), final(self).index as int),
                ))
            }),
        decreases old(self).text@.len() - old(self).index, 3int,
    {
        let ghost t = self.text@;
        let ghost i = self.index as int;
        if self.check_linebreak() {
            proof {
                if i < t.len() {
                    assert(lb_at(t, i));
                }
                assert(subtext_scan(t, i) is None);
            }
            return Err(ParseError::new(self.index));
        }
        proof {
            assert(i < t.len());
            assert(!lb_at(t, i));
        }
        match self.parse_image() {
            Ok(image) => {
                proof {
                    assert(subtext_scan(t, i) == Some(
                        (inline_view(Inline::Image(image)), self.index as int),
                    ));
                }
                return Ok(Inline::Image(image));
            },
            Err(_) => {},
        }
        match self.parse_url() {
            Ok(url) => {
                proof {
                    assert(image_scan(t, i) is None);
                    assert(subtext_scan(t, i) == Some(
                        (inline_view(Inline::Url(url)), self.index as int),
                    ));
                }
                return Ok(Inline::Url(url));
            },
            Err(_) => {},
        }
        proof {
            assert(image_scan(t, i) is None);
            assert(url_scan(t, i) is None);
        }
        let start_index = self.index;
        if self.check_special(&ASTERISK) {
            proof {
                assert(special_at(t, i, ASTERISK));
            }
            if self.next_char().is_none() {
                proof {
                    assert(i + 1 >= t.len());
                    assert(subtext_scan(t, i) is None);
                }
                return Err(self.revert_with_error(start_index));
            }
            if self.check_special(&ASTERISK) {
                proof {
                    assert(special_at(t, i + 1, ASTERISK));
                }
                if self.next_char().is_none() {
                    proof {
                        assert(i + 2 >= t.len());
                        assert(subtext_scan(t, i) is None);
                    }
                    return Err(self.revert_with_error(start_index));
                }
                let subtext = match self.parse_subtext() {
                    Ok(st) => st,
                    Err(_) => {
                        proof {
                            assert(subtext_scan(t, i + 2) is None);
                            assert(subtext_scan(t, i) is None);
                        }
                        return Err(self.revert_with_error(start_index));
                    },
                };
                let ghost p = self.index as int;
                proof {
                    assert(subtext_scan(t, i + 2) == Some((inline_view(subtext), p)));
                }
                if self.check_special(&ASTERISK) {
                    proof {
                        assert(special_at(t, p, ASTERISK));
                    }
                    if self.next_char().is_none() {
                        proof {
                            assert(p + 1 >= t.len());
                            assert(subtext_scan(t, i) is None);
                        }
                        return Err(self.revert_with_error(start_index));
                    }
                    if self.check_special(&ASTERISK) {
                        proof {
                            assert(special_at(t, p + 1, ASTERISK));
                        }
                        if self.next_char().is_none() {
                            proof {
                                assert(p + 2 >= t.len());
                                assert(subtext_scan(t, i) is None);
                            }
                            return Err(self.revert_with_error(start_index));
                        }
                    } else {
                        proof {
                            assert(!special_at(t, p + 1, ASTERISK));
                        }
                    }
                } else {
                    proof {
                        assert(!special_at(t, p, ASTERISK));
                    }
                }
                let r = Inline::Bold(BoldText { value: Box::new(subtext) });
                proof {
                    assert(subtext_scan(t, i) == Some((inline_view(r), self.index as int)));
                }
                Ok(r)
            } else {
                proof {
                    assert(!special_at(t, i + 1, ASTERISK));
                }
                let subtext = match self.parse_subtext() {
                    Ok(st) => st,
                    Err(_) => {
                        proof {
                            assert(subtext_scan(t, i + 1) is None);
                            assert(subtext_scan(t, i) is None);
                        }
                        return Err(self.revert_with_error(start_index));
                    },
                };
                let ghost p = self.index as int;
                if self.next_char().is_none() {
                    proof {
                        assert(p + 1 >= t.len());
                        assert(subtext_scan(t, i) is None);
                    }
                    return Err(self.revert_with_error(start_index));
                }
                let r = Inline::Italic(ItalicText { value: Box::new(subtext) });
                proof {
                    assert(subtext_scan(t, i) == Some((inline_view(r), self.index as int)));
                }
                Ok(r)
            }
        } else if self.check_special(&UNDERSCR) {
            proof {
                assert(!special_at(t, i, ASTERISK));
                assert(special_at(t, i, UNDERSCR));
            }
            if self.next_char().is_none() {
                proof {
                    assert(i + 1 >= t.len());
                    assert(subtext_scan(t, i) is None);
                }
                return Err(self.revert_with_error(start_index));
            }
            let subtext = match self.parse_subtext() {
                Ok(st) => st,
                Err(_) => {
                    proof {
                        assert(subtext_scan(t, i + 1) is None);
                        assert(subtext_scan(t, i) is None);
                    }
                    return Err(self.revert_with_error(start_index));
                },
            };
            let ghost p = self.index as int;
            if self.next_char().is_none() {
                proof {
                    assert(p + 1 >= t.len());
                    assert(subtext_scan(t, i) is None);
                }
                return Err(self.revert_with_error(start_index));
            }
            let r = Inline::Underlined(UnderlinedText { value: Box::new(subtext) });
            proof {
                assert(subtext_scan(t, i) == Some((inline_view(r), self.index as int)));
            }
            Ok(r)
        } else if self.check_special(&TILDE) {
            proof {
                assert(!special_at(t, i, ASTERISK));
                assert(!special_at(t, i, UNDERSCR));
                assert(special_at(t, i, TILDE));
            }
            if self.next_char().is_none() {
                proof {
                    assert(i + 1 >= t.len());
                    assert(subtext_scan(t, i) is None);
                }
                return Err(self.revert_with_error(start_index));
            }
            let subtext = match self.parse_subtext() {
                Ok(st) => st,
                Err(_) => {
                    proof {
                        assert(subtext_scan(t, i + 1) is None);
                        assert(subtext_scan(t, i) is None);
                    }
                    return Err(self.revert_with_error(start_index));
                },
            };
            let ghost p = self.index as int;
            if self.check_special(&TILDE) {
                proof {
                    assert(special_at(t, p, TILDE));
                }
                if self.next_char().is_none() {
                    proof {
                        assert(p + 1 >= t.len());
                        assert(subtext_scan(t, i) is None);
                    }
                    return Err(self.revert_with_error(start_index));
                }
            } else {
                proof {
                    assert(!special_at(t, p, TILDE));
                }
            }
            let r = Inline::Striked(StrikedText { value: Box::new(subtext) });
            proof {
                assert(subtext_scan(t, i) == Some((inline_view(r), self.index as int)));
            }
            Ok(r)
        } else if self.check_special(&BACKTICK) {
            proof {
                assert(!special_at(t, i, ASTERISK));
                assert(!special_at(t, i, UNDERSCR));
                assert(!special_at(t, i, TILDE));
                assert(special_at(t, i, BACKTICK));
            }
            if self.next_char().is_none() {
                proof {
                    assert(i + 1 >= t.len());
                    assert(subtext_scan(t, i) is None);
                }
                return Err(self.revert_with_error(start_index));
            }
            let plain_text = match self.parse_plain_text() {
                Ok(p) => p,
                Err(_) => {
                    proof {
                        lemma_plain_end_bounds(t, i + 1, i + 1);
                        assert(plain_end(t, i + 1, i + 1) == i + 1);
                        assert(subtext_scan(t, i) is None);
                    }
                    return Err(self.revert_with_error(start_index));
                },
            };
            let ghost e2 = self.index as int;
            proof {
                assert(e2 == plain_end(t, i + 1, i + 1));
                assert(e2 > i + 1);
            }
            if self.check_special(&BACKTICK) {
                proof {
                    assert(special_at(t, e2, BACKTICK));
                }
                if self.next_char().is_none() {
                    proof {
                        assert(e2 + 1 >= t.len());
                        assert(subtext_scan(t, i) is None);
                    }
                    return Err(self.revert_with_error(start_index));
                }
            } else {
                proof {
                    assert(!special_at(t, e2, BACKTICK));
                }
            }
            let r = Inline::Monospace(MonospaceText { value: plain_text });
            proof {
                assert(subtext_scan(t, i) == Some((inline_view(r), self.index as int)));
            }
            Ok(r)
        } else if self.check_special(&PIPE) {
            proof {
                assert(subtext_scan(t, i) is None);
            }
            Err(ParseError::new(self.index))
        } else {
            proof {
                assert(!special_at(t, i, ASTERISK));
                assert(!special_at(t, i, UNDERSCR));
                assert(!special_at(t, i, TILDE));
                assert(!special_at(t, i, BACKTICK));
                assert(!special_at(t, i, PIPE));
                if i < t.len() && !(is_inline_special(t[i]) && !escaped_at(t, i)) {
                    lemma_plain_end_bounds(t, i, i + 1);
                }
                lemma_plain_end_bounds(t, i, i);
            }
            match self.parse_plain_text() {
                Ok(p) => {
                    proof {
                        assert(plain_end(t, i, i) > i);
                        assert(subtext_scan(t, i) == Some(
                            (inline_view(Inline::Plain(p)), self.index as int),
                        ));
                    }
                    Ok(Inline::Plain(p))
                },
                Err(e) => {
                    proof {
                        assert(plain_end(t, i, i) == i);
                        assert(subtext_scan(t, i) is None);
                    }
                    Err(e)
                },
            }
        }
    }

    /// One line of text: a run of inline spans, consuming the line break
    /// that ends it. A call that can consume nothing at all fails.
    pub fn parse_text(&mut self) -> (r: Result<TextLine, ParseError>)
        requires
            old(self).wf(),
        ensures
            final(self).wf(),
            old(self).frame(*final(self)),
            r is Err ==> old(self).restored(*final(self)),
            r is Ok ==> final(self).index > old(self).index,
            ({
                let t = old(self).text@;
                let i = old(self).index as int;
                &&& ((lb_at(t, i) && i + 1 < t.len()) ==> r is Ok)
                &&& ((lb_at(t, i) && r is Ok) ==> final(self).index == i + 1)
                &&& ((lb_at(t, i) && i + 1 >= t.len()) ==> r is Err)
                &&& (r is Err <==> text_scan(t, i) is None)
                &&& (r matches Ok(l) ==> text_scan(t, i) == Some(
                    (text_line_view(l), final(self).index as int),
                ))
                &&& (r matches Err(e) ==> e.index as int == (if subtexts_scan(t, i).1 + 1
                    >= t.len() {
                    t.len() as int
                } else {
                    i
                }))
            }),
        decreases old(self).text@.len() - old(self).index, 4int,
    {
        let ghost t = self.text@;
        let start_index = self.index;
        let mut text = TextLine::new();
        proof {
            assert(text_line_view(text) =~= Seq::<InlineV>::empty());
        }
        loop
            invariant
                self.wf(),
                old(self).frame(*self),
                t == self.text@,
                start_index == old(self).index,
                old(self).index <= self.index,
                text.subtext@.len() == 0 ==> self.index == start_index && self.current_char
                    == old(self).current_char,
                text.subtext@.len() > 0 ==> self.index > start_index,
                lb_at(t, start_index as int) ==> text.subtext@.len() == 0,
                subtexts_scan(t, start_index as int).0 == text_line_view(text)
                    + subtexts_scan(t, self.index as int).0,
                subtexts_scan(t, start_index as int).1 == subtexts_scan(
                    t,
                    self.index as int,
                ).1,
            ensures
                self.wf(),
                old(self).frame(*self),
                t == self.text@,
                old(self).index <= self.index,
                text.subtext@.len() == 0 ==> self.index == start_index && self.current_char
                    == old(self).current_char,
                text.subtext@.len() > 0 ==> self.index > start_index,
                lb_at(t, start_index as int) ==> text.subtext@.len() == 0,
                subtexts_scan(t, start_index as int).0 == text_line_view(text),
                subtexts_scan(t, start_index as int).1 == self.index as int,
            decreases t.len() - self.index, 3int,
        {
            let ghost q = self.index as int;
            let ghost tv0 = text_line_view(text);
            match self.parse_subtext() {
                Err(_) => {
                    proof {
                        assert(subtexts_scan(t, q) == (Seq::<InlineV>::empty(), q));
                        assert(text_line_view(text) + Seq::<InlineV>::empty()
                            =~= text_line_view(text));
                    }
                    break ;
                },
                Ok(subtext) => {
                    let ghost sv = inline_view(subtext);
                    text.add_subtext(subtext);
                    proof {
                        assert(text_line_view(text) =~= tv0 + seq![sv]);
                    }
                    let current_index = self.index;
                    let ghost p = self.index as int;
                    if self.next_char().is_none() {
                        proof {
                            assert(p + 1 >= t.len());
                            assert(subtexts_scan(t, q) == (seq![sv], t.len() as int));
                            assert(tv0 + seq![sv] + Seq::<InlineV>::empty() =~= tv0 + (seq![sv]
                                + Seq::<InlineV>::empty()));
                            assert(seq![sv] + Seq::<InlineV>::empty() =~= seq![sv]);
                            assert(self.index == t.len());
                            assert(subtexts_scan(t, self.index as int).0 =~= Seq::<
                                InlineV,
                            >::empty());
                        }
                        break ;
                    }
                    proof {
                        assert(p + 1 < t.len());
                        assert(subtexts_scan(t, q).0 == seq![sv] + subtexts_scan(t, p).0);
                        assert(tv0 + (seq![sv] + subtexts_scan(t, p).0) =~= (tv0 + seq![sv])
                            + subtexts_scan(t, p).0);
                    }
                    if let Err(e) = self.revert_to(current_index) {
                        proof {
                            assert(false);
                        }
                        return Err(e);
                    }
                },
            }
        }
        let ghost pend = self.index as int;
        if self.check_linebreak() {
            if self.next_char().is_none() {
                proof {
                    assert(pend + 1 >= t.len());
                    if pend < t.len() {
                        assert(lb_at(t, pend));
                    }
                    assert(text_scan(t, start_index as int) is None);
                }
                return Err(self.revert_with_error(start_index));
            }
            proof {
                assert(pend < t.len());
                assert(lb_at(t, pend));
                assert(text_scan(t, start_index as int) == Some(
                    (text_line_view(text), pend + 1),
                ));
            }
        } else {
            proof {
                assert(pend < t.len() ==> !lb_at(t, pend));
                if pend >= t.len() {
                    assert(self.current_char == t[t.len() - 1]);
                    assert(false);
                }
            }
        }
        if text.subtext.len() == 0 && self.index == start_index {
            proof {
                assert(text_line_view(text).len() == 0);
                assert(text_scan(t, start_index as int) is None);
            }
            return Err(ParseError::new(self.index));
        }
        proof {
            if !lb_at(t, pend) {
                if text.subtext@.len() == 0 {
                    assert(self.index == start_index);
                    assert(false);
                }
                assert(text_line_view(text).len() > 0);
                assert(text_scan(t, start_index as int) == Some(
                    (text_line_view(text), pend),
                ));
            }
        }
        Ok(text)
    }

    /// One line, as the paragraph and row productions consume it.
    pub fn parse_inline(&mut self) -> (r: Result<Line, ParseError>)
        requires
            old(self).wf(),
        ensures
            final(self).wf(),
            old(self).frame(*final(self)),
            r is Err ==> old(self).restored(*final(self)),
            r is Ok ==> final(self).index > old(self).index,
            r matches Ok(l) ==> l is Text,
            ({
                let t = old(self).text@;
                let i = old(self).index as int;
                &&& ((lb_at(t, i) && i + 1 < t.len()) ==> r is Ok)
                &&& ((lb_at(t, i) && r is Ok) ==> final(self).index == i + 1)
                &&& (r is Err <==> text_scan(t, i) is None)
                &&& (r matches Ok(l) ==> l matches Line::Text(tl) && text_scan(t, i) == Some(
                    (text_line_view(tl), final(self).index as int),
                ))
                &&& (r matches Err(e) ==> e.index as int == (if subtexts_scan(t, i).1 + 1
                    >= t.len() {
                    t.len() as int
                } else {
                    i
                }))
            }),
        decreases old(self).text@.len() - old(self).index, 5int,
    {
        if self.index > self.text.len() {
            proof {
                assert(false);
            }
            Err(ParseError::new(self.index))
        } else {
            match self.parse_text() {
                Ok(text) => Ok(Line::Text(text)),
                Err(e) => Err(e),
            }
        }
    }

    /// The header of a section: its title line. The nesting level is
    /// latched in by the section production, and the anchor slug is
    /// assigned by a later collaborator.
    pub fn parse_header(&mut self) -> (r: Result<Header, ParseError>)
        requires
            old(self).wf(),
        ensures
            final(self).wf(),
            old(self).frame(*final(self)),
            r is Err ==> old(self).restored(*final(self)),
            r is Ok ==> final(self).index > old(self).index,
            r is Err <==> text_scan(old(self).text@, old(self).index as int) is None,
            r matches Err(e) ==> e.index as int == (if subtexts_scan(
                old(self).text@,
                old(self).index as int,
            ).1 + 1 >= old(self).text@.len() {
                old(self).text@.len() as int
            } else {
                old(self).index as int
            }),
            r matches Ok(h) ==> {
                &&& h.size == 0
                &&& h.anchor@ == Seq::<char>::empty()
                &&& h.line matches Line::Text(tl) && text_scan(
                    old(self).text@,
                    old(self).index as int,
                ) == Some((text_line_view(tl), final(self).index as int))
            },
        decreases old(self).text@.len() - old(self).index, 6int,
    {
        match self.parse_inline() {
            Ok(line) => Ok(Header { size: 0, line, anchor: String::new() }),
            Err(e) => Err(e),
        }
    }
}


/// The end of the unescaped `#` run beginning at `k`.
pub open spec fn hash_end(t: Seq<char>, k: int) -> int
    decreases t.len() - k,
{
    if !(0 <= k < t.len()) {
        k
    } else if special_at(t, k, HASH) {
        hash_end(t, k + 1)
    } else {
        k
    }
}

pub proof fn lemma_hash_end_bounds(t: Seq<char>, k: int)
    requires
        0 <= k <= t.len(),
        t.len() >= 1,
        t[t.len() - 1] == LB,
    ensures
        k <= hash_end(t, k) <= t.len() - 1 || k == t.len(),
        hash_end(t, k) < t.len() ==> !special_at(t, hash_end(t, k), HASH),
    decreases t.len() - k,
{
    if 0 <= k < t.len() && special_at(t, k, HASH) {
        lemma_hash_end_bounds(t, k + 1);
    }
}

impl Parser {
    /// A section: a run of `#` giving the nesting level, mandatory
    /// whitespace, a header line, then child blocks until one fails. A
    /// heading whose level does not exceed the open nesting level fails and
    /// latches that level into the pending section return, so the enclosing
    /// call recognizes the same heading without rescanning.
    pub fn parse_section(&mut self) -> (r: Result<Section, ParseError>)
        requires
            old(self).wf(),
        ensures
            final(self).wf(),
            final(self).text@ == old(self).text@,
            final(self).section_nesting >= old(self).section_nesting,
            r is Err ==> old(self).restored(*final(self)) && final(self).section_nesting == old(
                self,
            ).section_nesting,
            r is Ok ==> final(self).index > old(self).index,
            ({
                let t = old(self).text@;
                let i = old(self).index as int;
                let j = skip_ws(t, i);
                let he = hash_end(t, j);
                &&& (!special_at(t, j, HASH) ==> r is Err && final(self).section_return == old(
                    self,
                ).section_return)
                &&& (r is Err ==> final(self).section_return == old(self).section_return || (he
                    - j <= old(self).section_nesting && final(self).section_return == Some(
                    (he - j) as u8,
                )))
                &&& ((special_at(t, j, HASH) && he - j <= old(self).section_nesting) ==> (r
                    is Err && final(self).section_return == Some(((he - j) as u8))
                    && old(self).restored(*final(self))))
                &&& (r matches Err(e) ==> e.index as int == (if !special_at(t, j, HASH) {
                    j
                } else if he - j > 255 {
                    he
                } else if he - j <= old(self).section_nesting || !(he < t.len() && is_ws(
                    t[he],
                )) {
                    he
                } else {
                    skip_inline_ws(t, he)
                }))
                &&& (r matches Ok(sec) ==> {
                    &&& special_at(t, j, HASH)
                    &&& sec.header.size as int == he - j
                    &&& old(self).section_nesting < sec.header.size <= 255
                    &&& final(self).section_nesting + 1 >= sec.header.size
                })
                &&& ((special_at(t, j, HASH) && he - j > old(self).section_nesting && he - j
                    <= 255 && he < t.len() && is_ws(t[he]) && text_scan(
                    t,
                    skip_inline_ws(t, he),
                ) is Some) ==> r is Ok)
                &&& (r matches Ok(sec) ==> ({
                    let hs = text_scan(t, skip_inline_ws(t, he));
                    &&& sec.header.anchor@ == Seq::<char>::empty()
                    &&& sec.metadata is None
                    &&& hs matches Some(h0)
                    &&& sec.header.line matches Line::Text(tl) && text_line_view(tl)
                        == hs->Some_0.0
                }))
            }),
        decreases old(self).text@.len() - old(self).index, 8int,
    {
        let ghost t = self.text@;
        let ghost i = self.index as int;
        let start_index = self.index;
        self.seek_whitespace();
        let ghost j = self.index as int;
        if self.check_special(&HASH) {
            proof {
                lemma_hash_end_bounds(t, j);
            }
            let mut size: usize = 1;
            loop
                invariant_except_break
                    self.index == j + size - 1,
                invariant
                    self.wf(),
                    old(self).frame(*self),
                    t == self.text@,
                    0 <= j,
                    1 <= size <= t.len(),
                    j + size - 1 < t.len(),
                    forall|m: int| j <= m < j + size ==> #[trigger] special_at(t, m, HASH),
                    hash_end(t, j) == hash_end(t, j + size),
                ensures
                    self.wf(),
                    old(self).frame(*self),
                    t == self.text@,
                    1 <= size,
                    self.index == j + size,
                    self.index == hash_end(t, j),
                    self.index < t.len(),
                decreases t.len() - self.index,
            {
                match self.next_char() {
                    None => {
                        proof {
                            assert(special_at(t, j + size - 1, HASH));
                            assert(t[t.len() - 1] == LB);
                            assert(j + size - 1 < t.len() - 1 ==> self.index != t.len());
                            assert(false);
                        }
                    },
                    Some(_) => {
                        if self.check_special(&HASH) {
                            let text_len = self.text.len();
                            proof {
                                assert(self.index == j + size);
                                assert(size <= self.index);
                                assert(self.index < text_len);
                            }
                            size += 1;
                        } else {
                            proof {
                                assert(!special_at(t, self.index as int, HASH));
                                assert(hash_end(t, self.index as int) == self.index as int);
                            }
                            break ;
                        }
                    },
                }
            }
            let ghost he = self.index as int;
            if size > 255 {
                return Err(self.revert_with_error(start_index));
            }
            if size <= self.section_nesting as usize || !self.current_char.is_whitespace() {
                if size <= self.section_nesting as usize {
                    self.section_return = Some(size as u8);
                }
                proof {
                    assert(self.current_char == cur_at(t, he));
                }
                return Err(self.revert_with_error(start_index));
            }
            proof {
                assert(self.current_char == t[he]);
                assert(is_ws(t[he]));
            }
            self.seek_inline_whitespace();
            let ghost q = self.index as int;
            proof {
                assert(q == skip_inline_ws(t, he));
            }
            let mut header = match self.parse_header() {
                Ok(h) => h,
                Err(_) => {
                    proof {
                        assert(text_scan(t, q) is None);
                    }
                    return Err(self.revert_with_error(start_index));
                },
            };
            proof {
                assert(header.line matches Line::Text(tl) && text_scan(t, q) matches Some(hs)
                    && text_line_view(tl) == hs.0);
                assert(header.anchor@ == Seq::<char>::empty());
            }
            header.size = size as u8;
            let ghost hline = header.line;
            let ghost entry_nesting = self.section_nesting;
            self.section_nesting = size as u8;
            let mut section = Section::new(header);
            loop
                invariant
                    self.wf(),
                    t == self.text@,
                    t == old(self).text@,
                    i == old(self).index as int,
                    self.section_nesting >= size,
                    size <= 255,
                    self.index > i,
                    section.header.size as int == he - j,
                    section.header.line == hline,
                    section.header.anchor@ == Seq::<char>::empty(),
                    section.metadata is None,
                ensures
                    self.wf(),
                    t == self.text@,
                    self.section_nesting >= size,
                    self.index > i,
                    section.header.size as int == he - j,
                    section.header.line == hline,
                    section.header.anchor@ == Seq::<char>::empty(),
                    section.metadata is None,
                decreases t.len() - self.index,
            {
                match self.parse_block() {
                    Ok(block) => {
                        section.add_element(block);
                    },
                    Err(_) => {
                        break ;
                    },
                }
            }
            self.section_nesting = self.section_nesting - 1;
            Ok(section)
        } else {
            Err(self.revert_with_error(start_index))
        }
    }

    /// One block: the alternatives are tried in fixed priority order —
    /// section, list, table, code block, quote — with paragraph as the
    /// required fallback. A pending section return at or below the open
    /// nesting level fails immediately, handing the heading to the
    /// enclosing call.
    pub fn parse_block(&mut self) -> (r: Result<Block, ParseError>)
        requires
            old(self).wf(),
        ensures
            final(self).wf(),
            final(self).text@ == old(self).text@,
            final(self).section_nesting >= old(self).section_nesting,
            r is Err ==> old(self).restored(*final(self)) && final(self).section_nesting == old(
                self,
            ).section_nesting,
            r is Ok ==> final(self).index > old(self).index,
            (old(self).section_return matches Some(s) && s <= old(self).section_nesting) ==> (r
                is Err && final(self).section_return == old(self).section_return),
            ({
                let t = old(self).text@;
                let i = old(self).index as int;
                (old(self).section_return is None && !special_at(t, skip_ws(t, i), HASH)
                    && lb_at(t, i) && i + 1 < t.len()) ==> r is Ok
            }),
            (r is Err && final(self).section_return is None) ==> text_scan(
                old(self).text@,
                old(self).index as int,
            ) is None,
            r matches Err(e) ==> e.index == old(self).index,
            r matches Ok(Block::Paragraph(p)) ==> ({
                let t = old(self).text@;
                let i = old(self).index as int;
                &&& lines_view(p.elements@) == para_lines(t, i).0
                &&& final(self).index as int == para_lines(t, i).1
            }),
            r matches Ok(Block::CodeBlock(cb)) ==> ({
                let t = old(self).text@;
                let j = skip_ws(t, old(self).index as int);
                let lend = lb_end(t, j + 3);
                let cend = code_close(t, lend + 1);
                &&& matches_seq_at(t, j, code_fence())
                &&& cb.language@ == t.subrange(j + 3, lend)
                &&& cb.code@ == t.subrange(lend + 1, cend)
            }),
            r matches Ok(Block::Quote(q)) ==> ({
                let t = old(self).text@;
                let i = old(self).index as int;
                let scan = quote_scan(t, i);
                &&& q.text@.len() >= 1
                &&& scan matches Some(sc)
                &&& meta_opt_view(q.metadata) == scan->Some_0.0.0
                &&& tlines_view(q.text@) == scan->Some_0.0.1
                &&& final(self).index as int == scan->Some_0.1
            }),
            r matches Ok(Block::Table(tb)) ==> ({
                let t = old(self).text@;
                let i = old(self).index as int;
                let scan = table_scan(t, i);
                &&& scan matches Some(sc)
                &&& cells_view(tb.header.cells@) == scan->Some_0.0.0
                &&& rows_view(tb.rows@) == scan->Some_0.0.1
                &&& final(self).index as int == scan->Some_0.1
            }),
            r matches Ok(Block::List(l)) ==> ({
                let t = old(self).text@;
                let flat = list_items_scan(t, skip_ws(t, old(self).index as int));
                &&& l.items@.len() >= 1
                &&& items_view(l.items@) == spec_nest(flat.0, l.ordered)
                &&& final(self).index as int == flat.1
            }),
        decreases old(self).text@.len() - old(self).index, 9int,
    {
        match self.section_return {
            Some(section) => {
                if section <= self.section_nesting {
                    return Err(ParseError::new(self.index));
                } else {
                    self.section_return = None;
                }
            },
            None => {},
        }
        match self.parse_section() {
            Ok(section) => {
                return Ok(Block::Section(section));
            },
            Err(_) => {},
        }
        if self.section_return.is_some() {
            return Err(ParseError::new(self.index));
        }
        match self.parse_list() {
            Ok(list) => {
                return Ok(Block::List(list));
            },
            Err(_) => {},
        }
        match self.parse_table() {
            Ok(table) => {
                return Ok(Block::Table(table));
            },
            Err(_) => {},
        }
        match self.parse_code_block() {
            Ok(code_block) => {
                return Ok(Block::CodeBlock(code_block));
            },
            Err(_) => {},
        }
        match self.parse_quote() {
            Ok(quote) => {
                return Ok(Block::Quote(quote));
            },
            Err(_) => {},
        }
        match self.parse_paragraph() {
            Ok(paragraph) => Ok(Block::Paragraph(paragraph)),
            Err(e) => Err(e),
        }
    }

    /// A paragraph: one or more text lines, stopping before a character
    /// that opens another kind of block. At least one line is required.
    pub fn parse_paragraph(&mut self) -> (r: Result<Paragraph, ParseError>)
        requires
            old(self).wf(),
        ensures
            final(self).wf(),
            old(self).frame(*final(self)),
            r is Err ==> old(self).restored(*final(self)),
            r matches Ok(p) ==> p.elements@.len() >= 1 && final(self).index > old(self).index,
            ({
                let t = old(self).text@;
                let i = old(self).index as int;
                (lb_at(t, i) && i + 1 < t.len()) ==> r is Ok
            }),
            r is Err <==> text_scan(old(self).text@, old(self).index as int) is None,
            r matches Err(e) ==> e.index == old(self).index,
            r matches Ok(p) ==> lines_view(p.elements@) == para_lines(
                old(self).text@,
                old(self).index as int,
            ).0 && final(self).index as int == para_lines(
                old(self).text@,
                old(self).index as int,
            ).1,
        decreases old(self).text@.len() - old(self).index, 8int,
    {
        let ghost t = self.text@;
        let start_index = self.index;
        let specials = block_special_chars();
        let mut paragraph = Paragraph::new();
        proof {
            assert(lines_view(paragraph.elements@) =~= Seq::<Seq<InlineV>>::empty());
        }
        loop
            invariant_except_break
                para_lines(t, start_index as int).0 == lines_view(paragraph.elements@)
                    + para_lines(t, self.index as int).0,
                para_lines(t, start_index as int).1 == para_lines(t, self.index as int).1,
            invariant
                self.wf(),
                old(self).frame(*self),
                t == self.text@,
                start_index == old(self).index,
                old(self).index <= self.index,
                paragraph.elements@.len() == 0 ==> self.index == start_index
                    && self.current_char == old(self).current_char,
                paragraph.elements@.len() > 0 ==> self.index > start_index,
                forall|c: char| specials@.contains(c) <==> is_block_special(c),
            ensures
                self.wf(),
                old(self).frame(*self),
                t == self.text@,
                paragraph.elements@.len() == 0 ==> self.index == start_index
                    && self.current_char == old(self).current_char,
                paragraph.elements@.len() > 0 ==> self.index > start_index,
                (lb_at(t, start_index as int) && start_index + 1 < t.len())
                    ==> paragraph.elements@.len() > 0,
                para_lines(t, start_index as int).0 == lines_view(paragraph.elements@),
                para_lines(t, start_index as int).1 == self.index as int,
            decreases t.len() - self.index, 6int,
        {
            let ghost q = self.index as int;
            let ghost lv0 = lines_view(paragraph.elements@);
            match self.parse_inline() {
                Err(_) => {
                    proof {
                        assert(text_scan(t, q) is None);
                        assert(para_lines(t, q) == (Seq::<Seq<InlineV>>::empty(), q));
                        assert(lv0 + Seq::<Seq<InlineV>>::empty() =~= lv0);
                    }
                    break ;
                },
                Ok(token) => {
                    let ghost p = self.index as int;
                    let ghost spans = line_spans(token);
                    paragraph.add_element(token);
                    proof {
                        assert(lines_view(paragraph.elements@) =~= lv0 + seq![spans]);
                        assert(text_scan(t, q) == Some((spans, p)));
                    }
                    if self.check_special_group(&specials) {
                        proof {
                            assert(self.current_char == cur_at(t, p));
                            assert(is_block_special(cur_at(t, p)) && !escaped_at(t, p));
                            assert(para_lines(t, q) == (seq![spans], p));
                            assert(lv0 + seq![spans] =~= lines_view(paragraph.elements@));
                        }
                        break ;
                    }
                    proof {
                        assert(self.current_char == cur_at(t, p));
                        assert(!(is_block_special(cur_at(t, p)) && !escaped_at(t, p)));
                        assert(para_lines(t, q).0 == seq![spans] + para_lines(t, p).0);
                        assert(lv0 + (seq![spans] + para_lines(t, p).0) =~= (lv0 + seq![spans])
                            + para_lines(t, p).0);
                    }
                },
            }
        }
        if paragraph.elements.len() > 0 {
            proof {
                assert(lines_view(paragraph.elements@).len() == paragraph.elements@.len());
                assert(para_lines(t, start_index as int).0.len() > 0);
                assert(text_scan(t, start_index as int) is Some);
            }
            Ok(paragraph)
        } else {
            proof {
                assert(para_lines(t, start_index as int).0.len() == 0);
                assert(text_scan(t, start_index as int) is None);
            }
            Err(ParseError::new(self.index))
        }
    }

    /// One list item: its indentation level is the count of leading inline
    /// whitespace, its marker a list character or a digit, its text the
    /// rest of the line.
    pub fn parse_list_item(&mut self, ordered: bool) -> (r: Result<ListItem, ParseError>)
        requires
            old(self).wf(),
        ensures
            final(self).wf(),
            old(self).frame(*final(self)),
            r is Err ==> old(self).restored(*final(self)),
            r matches Ok(item) ==> {
                &&& final(self).index > old(self).index
                &&& item.level as int == skip_inline_ws(old(self).text@, old(self).index as int)
                    - old(self).index
                &&& item.ordered == ordered
                &&& item.children@.len() == 0
            },
            r is Err <==> list_item_scan(old(self).text@, old(self).index as int) is None,
            r matches Ok(item) ==> list_item_scan(old(self).text@, old(self).index as int)
                matches Some(sc) && {
                &&& item.level as int == sc.0.0
                &&& item.text matches Line::Text(tl) && text_line_view(tl) == sc.0.1
                &&& final(self).index as int == sc.1
            },
        decreases old(self).text@.len() - old(self).index, 6int,
    {
        let ghost t = self.text@;
        let ghost i = self.index as int;
        let start_index = self.index;
        self.seek_inline_whitespace();
        let ghost m = self.index as int;
        let level: usize = self.index - start_index;
        let markers = list_special_chars();
        if !self.check_special_group(&markers) && !self.current_char.is_numeric() {
            proof {
                assert(self.current_char == cur_at(t, m));
                assert(list_item_scan(t, i) is None);
            }
            return Err(self.revert_with_error(start_index));
        }
        proof {
            assert(self.current_char == cur_at(t, m));
            assert((is_list_special(cur_at(t, m)) && !escaped_at(t, m)) || is_numeric_char(
                cur_at(t, m),
            ));
        }
        loop
            invariant_except_break
                ws_after(t, m) == ws_after(t, self.index as int),
            invariant
                self.wf(),
                old(self).frame(*self),
                t == self.text@,
                m <= self.index <= t.len(),
                old(self).index <= m,
                start_index == old(self).index,
            ensures
                self.wf(),
                old(self).frame(*self),
                t == self.text@,
                self.index >= old(self).index,
                start_index == old(self).index,
                self.index as int == ws_after(t, m),
            decreases t.len() - self.index,
        {
            let ghost q = self.index as int;
            match self.next_char() {
                None => {
                    proof {
                        assert(q + 1 >= t.len());
                        assert(ws_after(t, q) == t.len());
                        assert(self.index == t.len());
                        assert(ws_after(t, t.len() as int) == t.len());
                    }
                    break ;
                },
                Some(character) => {
                    proof {
                        assert(self.index == q + 1);
                        assert(character == t[q + 1]);
                    }
                    if character.is_whitespace() {
                        proof {
                            assert(ws_after(t, q) == q + 1);
                            assert(ws_after(t, q + 1) == ws_after(t, q + 1));
                        }
                        break ;
                    }
                    proof {
                        assert(ws_after(t, q) == ws_after(t, q + 1));
                    }
                },
            }
        }
        let ghost w = self.index as int;
        if self.next_char().is_none() {
            proof {
                assert(w + 1 >= t.len());
                assert(list_item_scan(t, i) is None);
            }
            return Err(self.revert_with_error(start_index));
        }
        self.seek_inline_whitespace();
        let ghost q2 = self.index as int;
        if level > 65535 {
            proof {
                assert(m - i > 65535);
                assert(list_item_scan(t, i) is None);
            }
            return Err(self.revert_with_error(start_index));
        }
        proof {
            assert(q2 == skip_inline_ws(t, w + 1));
        }
        let line = match self.parse_inline() {
            Ok(l) => l,
            Err(_) => {
                proof {
                    assert(text_scan(t, q2) is None);
                    assert(list_item_scan(t, i) is None);
                }
                return Err(self.revert_with_error(start_index));
            },
        };
        proof {
            assert(list_item_scan(t, i) matches Some(sc) && sc.0.0 == m - i && sc.1
                == self.index as int);
        }
        Ok(ListItem::new(line, level as u16, ordered))
    }

    /// A list: a marker class selecting ordered or unordered, then items
    /// scanned flat and re-nested by indentation — a stack is kept shallow
    /// to deep, each popped entry becoming a child of the item above it, so
    /// that an item's children are the following items of strictly greater
    /// level and equal indentation makes a sibling.
    pub fn parse_list(&mut self) -> (r: Result<List, ParseError>)
        requires
            old(self).wf(),
        ensures
            final(self).wf(),
            old(self).frame(*final(self)),
            r is Err ==> old(self).restored(*final(self)),
            r matches Ok(l) ==> {
                let t = old(self).text@;
                let j = skip_ws(t, old(self).index as int);
                &&& l.items@.len() >= 1
                &&& final(self).index > old(self).index
                &&& l.ordered == !(is_list_special(t[j]) && !escaped_at(t, j) && j < t.len())
            },
            r is Err <==> list_items_scan(
                old(self).text@,
                skip_ws(old(self).text@, old(self).index as int),
            ).0.len() == 0,
            r matches Err(e) ==> e.index as int == skip_ws(
                old(self).text@,
                old(self).index as int,
            ),
            r matches Ok(l) ==> ({
                let t = old(self).text@;
                let flat = list_items_scan(t, skip_ws(t, old(self).index as int));
                &&& items_view(l.items@) == spec_nest(flat.0, l.ordered)
                &&& final(self).index as int == flat.1
            }),
        decreases old(self).text@.len() - old(self).index, 8int,
    {
        let ghost t = self.text@;
        let ghost i = self.index as int;
        let mut list = List::new();
        let start_index = self.index;
        self.seek_whitespace();
        let ghost j = self.index as int;
        let markers = list_special_chars();
        let ordered = !self.check_special_group(&markers);
        proof {
            assert(j == self.index as int);
            assert(t == self.text@);
            if j < t.len() {
                assert(self.current_char == t[j]);
                assert(markers@.contains(t[j]) <==> is_list_special(t[j]));
                assert(ordered == !(markers@.contains(self.current_char) && !escaped_at(t, j)));
                assert(ordered == !(is_list_special(t[j]) && !escaped_at(t, j)));
            } else {
                assert(j == t.len());
                assert(self.current_char == t[t.len() - 1]);
                assert(t[t.len() - 1] == LB);
                assert(!is_list_special(LB));
                assert(!markers@.contains(LB));
                assert(ordered);
            }
            assert(ordered == !(is_list_special(t[j]) && !escaped_at(t, j) && j < t.len()));
        }
        list.ordered = ordered;
        let ghost flat_full = list_items_scan(t, j);
        let mut list_hierarchy: Vec<ListItem> = Vec::new();
        proof {
            assert(items_view(list.items@) =~= Seq::<ListItemV>::empty());
            assert(items_view(list_hierarchy@) =~= Seq::<ListItemV>::empty());
        }
        loop
            invariant_except_break
                spec_nest(flat_full.0, ordered) == list_fold(
                    items_view(list.items@),
                    items_view(list_hierarchy@),
                    list_items_scan(t, self.index as int).0,
                    ordered,
                ),
                flat_full.1 == list_items_scan(t, self.index as int).1,
            invariant
                self.wf(),
                old(self).frame(*self),
                t == self.text@,
                t == old(self).text@,
                start_index == old(self).index,
                old(self).index <= self.index,
                0 <= self.index,
                list.ordered == ordered,
                j == skip_ws(t, old(self).index as int),
                ordered == !(is_list_special(t[j]) && !escaped_at(t, j) && j < t.len()),
                list.items@.len() > 0 ==> self.index > start_index,
                list_hierarchy@.len() > 0 ==> self.index > start_index,
                flat_full == list_items_scan(t, j),
                list.items@.len() + list_hierarchy@.len() == 0 ==> self.index as int == j,
                list.items@.len() + list_hierarchy@.len() > 0 ==> list_hierarchy@.len() >= 1,
                list.items@.len() + list_hierarchy@.len() > 0 ==> flat_full.0.len() > 0,
            ensures
                self.wf(),
                old(self).frame(*self),
                t == self.text@,
                old(self).index <= self.index,
                list.ordered == ordered,
                j == skip_ws(t, old(self).index as int),
                ordered == !(is_list_special(t[j]) && !escaped_at(t, j) && j < t.len()),
                list.items@.len() > 0 ==> self.index > start_index,
                list_hierarchy@.len() > 0 ==> self.index > start_index,
                spec_nest(flat_full.0, ordered) == list_drain(
                    items_view(list.items@),
                    items_view(list_hierarchy@),
                ),
                flat_full.1 == self.index as int,
                flat_full.0.len() == 0 ==> list.items@.len() + list_hierarchy@.len() == 0,
                flat_full.0.len() > 0 ==> list_hierarchy@.len() >= 1,
            decreases t.len() - self.index, 6int,
        {
            let ghost q = self.index as int;
            match self.parse_list_item(ordered) {
                Err(_) => {
                    proof {
                        assert(list_item_scan(t, q) is None);
                        assert(list_items_scan(t, q).0 =~= Seq::<(int, Seq<InlineV>)>::empty());
                        if list.items@.len() + list_hierarchy@.len() == 0 {
                            assert(q == j);
                            assert(flat_full.0.len() == 0);
                        }
                    }
                    break ;
                },
                Ok(item) => {
                    let ghost itemv = item_view(item);
                    let ghost p = self.index as int;
                    proof {
                        assert(list_item_scan(t, q) matches Some(sc) && sc.1 == p);
                        assert(itemv.level == list_item_scan(t, q)->Some_0.0.0);
                        assert(itemv.line == list_item_scan(t, q)->Some_0.0.1);
                        assert(itemv.ordered == ordered);
                        assert(itemv.children =~= Seq::<ListItemV>::empty());
                        assert(list_items_scan(t, q).0 == seq![
                            (itemv.level, itemv.line),
                        ] + list_items_scan(t, p).0);
                        assert(list_items_scan(t, q).1 == list_items_scan(t, p).1);
                        assert((seq![(itemv.level, itemv.line)] + list_items_scan(t, p).0)[0]
                            == (itemv.level, itemv.line));
                        assert(list_items_scan(t, q).0.drop_first() =~= list_items_scan(
                            t,
                            p,
                        ).0);
                        assert(itemv == (ListItemV {
                            level: itemv.level,
                            line: itemv.line,
                            ordered,
                            children: Seq::<ListItemV>::empty(),
                        }));
                    }
                    let ghost roots0 = items_view(list.items@);
                    let ghost stack0 = items_view(list_hierarchy@);
                    loop
                        invariant_except_break
                            list_push(roots0, stack0, itemv) == list_push(
                                items_view(list.items@),
                                items_view(list_hierarchy@),
                                itemv,
                            ),
                        invariant
                            self.wf(),
                            old(self).frame(*self),
                            t == self.text@,
                            t == old(self).text@,
                            start_index == old(self).index,
                            self.index > start_index,
                            self.index as int == p,
                            list.ordered == ordered,
                            j == skip_ws(t, old(self).index as int),
                            ordered == !(is_list_special(t[j]) && !escaped_at(t, j) && j
                                < t.len()),
                            flat_full == list_items_scan(t, j),
                            itemv == item_view(item),
                            itemv.ordered == ordered,
                            itemv.children == Seq::<ListItemV>::empty(),
                            list_items_scan(t, q).0 == seq![
                                (itemv.level, itemv.line),
                            ] + list_items_scan(t, p).0,
                            list_items_scan(t, q).1 == list_items_scan(t, p).1,
                            spec_nest(flat_full.0, ordered) == list_fold(
                                roots0,
                                stack0,
                                list_items_scan(t, q).0,
                                ordered,
                            ),
                            flat_full.1 == list_items_scan(t, q).1,
                            flat_full.0.len() > 0,
                        ensures
                            self.wf(),
                            old(self).frame(*self),
                            t == self.text@,
                            t == old(self).text@,
                            start_index == old(self).index,
                            self.index > start_index,
                            self.index as int == p,
                            list.ordered == ordered,
                            j == skip_ws(t, old(self).index as int),
                            ordered == !(is_list_special(t[j]) && !escaped_at(t, j) && j
                                < t.len()),
                            flat_full == list_items_scan(t, j),
                            itemv == item_view(item),
                            list_items_scan(t, q).0 == seq![
                                (itemv.level, itemv.line),
                            ] + list_items_scan(t, p).0,
                            list_items_scan(t, q).1 == list_items_scan(t, p).1,
                            spec_nest(flat_full.0, ordered) == list_fold(
                                roots0,
                                stack0,
                                list_items_scan(t, q).0,
                                ordered,
                            ),
                            flat_full.1 == list_items_scan(t, q).1,
                            flat_full.0.len() > 0,
                            items_view(list.items@) == list_push(roots0, stack0, itemv).0,
                            items_view(list_hierarchy@).push(itemv) == list_push(
                                roots0,
                                stack0,
                                itemv,
                            ).1,
                        decreases list_hierarchy@.len(),
                    {
                        let ghost curr = items_view(list.items@);
                        let ghost curs = items_view(list_hierarchy@);
                        let ghost hier0 = list_hierarchy@;
                        match list_hierarchy.pop() {
                            None => {
                                proof {
                                    assert(curs.len() == 0);
                                    assert(list_push(curr, curs, itemv) == (
                                        curr,
                                        curs.push(itemv),
                                    ));
                                    assert(items_view(list_hierarchy@).push(itemv)
                                        =~= curs.push(itemv));
                                }
                                break ;
                            },
                            Some(parent_item) => {
                                let ghost topv = item_view(parent_item);
                                proof {
                                    assert(hier0.len() >= 1);
                                    assert(curs.len() == hier0.len());
                                    assert(curs.last() == topv);
                                    assert(items_view(list_hierarchy@) =~= curs.drop_last());
                                }
                                if parent_item.level < item.level {
                                    proof {
                                        assert(topv.level < itemv.level);
                                    }
                                    list_hierarchy.push(parent_item);
                                    proof {
                                        assert(items_view(list_hierarchy@) =~= curs);
                                        assert(list_push(curr, curs, itemv) == (
                                            curr,
                                            curs.push(itemv),
                                        ));
                                    }
                                    break ;
                                } else if parent_item.level == item.level {
                                    proof {
                                        assert(topv.level == itemv.level);
                                    }
                                    if list_hierarchy.len() == 0 {
                                        list.add_item(parent_item);
                                        proof {
                                            assert(items_view(list.items@) =~= curr.push(topv));
                                            assert(curs.drop_last().len() == 0);
                                            assert(list_push(curr, curs, itemv) == (
                                                curr.push(topv),
                                                curs.drop_last().push(itemv),
                                            ));
                                            assert(items_view(list_hierarchy@).push(itemv)
                                                =~= curs.drop_last().push(itemv));
                                        }
                                    } else {
                                        match list_hierarchy.pop() {
                                            Some(mut parent_parent) => {
                                                let ghost ppv = item_view(parent_parent);
                                                proof {
                                                    assert(curs.drop_last().len() >= 1);
                                                    assert(curs.drop_last().last() == ppv);
                                                    assert(items_view(list_hierarchy@)
                                                        =~= curs.drop_last().drop_last());
                                                }
                                                let ghost pchildren = parent_parent.children@;
                                                proof {
                                                    assert(ppv.children == items_view(pchildren));
                                                }
                                                parent_parent.add_child(parent_item);
                                                proof {
                                                    assert(items_view(parent_parent.children@)
                                                        =~= items_view(pchildren).push(topv));
                                                    assert(items_view(parent_parent.children@)
                                                        =~= ppv.children.push(topv));
                                                    assert(item_view(parent_parent)
                                                        == (ListItemV {
                                                        children: ppv.children.push(topv),
                                                        ..ppv
                                                    }));
                                                }
                                                list_hierarchy.push(parent_parent);
                                                proof {
                                                    assert(items_view(list_hierarchy@)
                                                        =~= curs.drop_last().drop_last().push(
                                                        item_view(parent_parent),
                                                    ));
                                                    assert(list_push(curr, curs, itemv) == (
                                                        curr,
                                                        curs.drop_last().drop_last().push(
                                                            item_view(parent_parent),
                                                        ).push(itemv),
                                                    ));
                                                    assert(items_view(list_hierarchy@).push(
                                                        itemv,
                                                    ) =~= curs.drop_last().drop_last().push(
                                                        item_view(parent_parent),
                                                    ).push(itemv));
                                                }
                                            },
                                            None => {
                                                proof {
                                                    assert(false);
                                                }
                                            },
                                        }
                                    }
                                    break ;
                                } else {
                                    proof {
                                        assert(topv.level > itemv.level);
                                    }
                                    if list_hierarchy.len() == 0 {
                                        list.add_item(parent_item);
                                        proof {
                                            assert(items_view(list.items@) =~= curr.push(topv));
                                            assert(curs.drop_last().len() == 0);
                                            assert(list_push(curr, curs, itemv) == (
                                                curr.push(topv),
                                                curs.drop_last().push(itemv),
                                            ));
                                            assert(items_view(list_hierarchy@) =~= curs.drop_last());
                                            assert(list_push(curr, curs, itemv) == list_push(
                                                items_view(list.items@),
                                                items_view(list_hierarchy@),
                                                itemv,
                                            ));
                                        }
                                    } else {
                                        match list_hierarchy.pop() {
                                            Some(mut parent_parent) => {
                                                let ghost ppv = item_view(parent_parent);
                                                proof {
                                                    assert(curs.drop_last().len() >= 1);
                                                    assert(curs.drop_last().last() == ppv);
                                                    assert(items_view(list_hierarchy@)
                                                        =~= curs.drop_last().drop_last());
                                                }
                                                let ghost pchildren = parent_parent.children@;
                                                proof {
                                                    assert(ppv.children == items_view(pchildren));
                                                }
                                                parent_parent.add_child(parent_item);
                                                proof {
                                                    assert(items_view(parent_parent.children@)
                                                        =~= items_view(pchildren).push(topv));
                                                    assert(items_view(parent_parent.children@)
                                                        =~= ppv.children.push(topv));
                                                    assert(item_view(parent_parent)
                                                        == (ListItemV {
                                                        children: ppv.children.push(topv),
                                                        ..ppv
                                                    }));
                                                }
                                                list_hierarchy.push(parent_parent);
                                                proof {
                                                    assert(items_view(list_hierarchy@)
                                                        =~= curs.drop_last().drop_last().push(
                                                        item_view(parent_parent),
                                                    ));
                                                    assert(list_push(curr, curs, itemv)
                                                        == list_push(
                                                        items_view(list.items@),
                                                        items_view(list_hierarchy@),
                                                        itemv,
                                                    ));
                                                }
                                            },
                                            None => {
                                                proof {
                                                    assert(false);
                                                }
                                            },
                                        }
                                    }
                                }
                            },
                        }
                    }
                    let ghost hpre = list_hierarchy@;
                    list_hierarchy.push(item);
                    proof {
                        assert(items_view(list_hierarchy@) =~= items_view(hpre).push(itemv));
                        lemma_list_push_counts(roots0, stack0, itemv);
                        let lp = list_push(roots0, stack0, itemv);
                        assert(items_view(list.items@) == lp.0);
                        assert(items_view(list_hierarchy@) == lp.1);
                        assert(list_fold(roots0, stack0, list_items_scan(t, q).0, ordered)
                            == list_fold(lp.0, lp.1, list_items_scan(t, q).0.drop_first(), ordered));
                        assert(list_items_scan(t, q).0.drop_first() =~= list_items_scan(
                            t,
                            p,
                        ).0);
                        assert(lp.0.len() >= roots0.len());
                        assert(lp.1.len() >= 1);
                    }
                },
            }
        }
        let ghost drain_roots = items_view(list.items@);
        let ghost drain_stack = items_view(list_hierarchy@);
        let ghost final_index = self.index as int;
        loop
            invariant_except_break
                list_drain(drain_roots, drain_stack) == list_drain(
                    items_view(list.items@),
                    items_view(list_hierarchy@),
                ),
            invariant
                self.wf(),
                old(self).frame(*self),
                t == self.text@,
                start_index == old(self).index,
                old(self).index <= self.index,
                self.index as int == final_index,
                list.items@.len() > 0 ==> self.index > start_index,
                list_hierarchy@.len() > 0 ==> self.index > start_index,
                list.ordered == ordered,
                j == skip_ws(t, old(self).index as int),
                ordered == !(is_list_special(t[j]) && !escaped_at(t, j) && j < t.len()),
                spec_nest(flat_full.0, ordered) == list_drain(drain_roots, drain_stack),
                flat_full.1 == final_index,
                flat_full.0.len() == 0 ==> drain_roots.len() + drain_stack.len() == 0,
                flat_full.0.len() > 0 ==> drain_stack.len() >= 1,
                flat_full == list_items_scan(t, j),
                flat_full.0.len() == 0 ==> list.items@.len() + list_hierarchy@.len() == 0,
            ensures
                self.wf(),
                old(self).frame(*self),
                t == self.text@,
                old(self).index <= self.index,
                self.index as int == final_index,
                list.items@.len() > 0 ==> self.index > start_index,
                list_hierarchy@.len() > 0 ==> self.index > start_index,
                list.ordered == ordered,
                j == skip_ws(t, old(self).index as int),
                ordered == !(is_list_special(t[j]) && !escaped_at(t, j) && j < t.len()),
                spec_nest(flat_full.0, ordered) == list_drain(drain_roots, drain_stack),
                flat_full.1 == final_index,
                flat_full.0.len() == 0 ==> drain_roots.len() + drain_stack.len() == 0,
                flat_full.0.len() > 0 ==> drain_stack.len() >= 1,
                flat_full == list_items_scan(t, j),
                flat_full.0.len() == 0 ==> list.items@.len() + list_hierarchy@.len() == 0,
                list_drain(drain_roots, drain_stack) == items_view(list.items@) + items_view(
                    list_hierarchy@,
                ),
            decreases list_hierarchy@.len(),
        {
            let ghost curr = items_view(list.items@);
            let ghost curs = items_view(list_hierarchy@);
            match list_hierarchy.pop() {
                None => {
                    proof {
                        assert(curs.len() == 0);
                        assert(list_drain(curr, curs) =~= curr + curs);
                    }
                    break ;
                },
                Some(item) => {
                    let ghost topv = item_view(item);
                    proof {
                        assert(curs.last() == topv);
                        assert(items_view(list_hierarchy@) =~= curs.drop_last());
                    }
                    if list_hierarchy.len() > 0 {
                        match list_hierarchy.pop() {
                            Some(mut parent_item) => {
                                let ghost ppv = item_view(parent_item);
                                proof {
                                    assert(curs.drop_last().len() >= 1);
                                    assert(curs.drop_last().last() == ppv);
                                    assert(items_view(list_hierarchy@) =~= curs.drop_last(
                                    ).drop_last());
                                }
                                let ghost pchildren = parent_item.children@;
                                proof {
                                    assert(ppv.children == items_view(pchildren));
                                }
                                parent_item.add_child(item);
                                proof {
                                    assert(items_view(parent_item.children@) =~= items_view(
                                        pchildren,
                                    ).push(topv));
                                    assert(items_view(parent_item.children@) =~= ppv.children.push(
                                        topv,
                                    ));
                                    assert(item_view(parent_item) == (ListItemV {
                                        children: ppv.children.push(topv),
                                        ..ppv
                                    }));
                                }
                                list_hierarchy.push(parent_item);
                                proof {
                                    assert(items_view(list_hierarchy@) =~= curs.drop_last(
                                    ).drop_last().push(item_view(parent_item)));
                                    assert(list_drain(curr, curs) == list_drain(
                                        curr,
                                        curs.drop_last().drop_last().push(
                                            item_view(parent_item),
                                        ),
                                    ));
                                }
                            },
                            None => {
                                proof {
                                    assert(false);
                                }
                            },
                        }
                    } else {
                        list_hierarchy.push(item);
                        proof {
                            assert(items_view(list_hierarchy@) =~= curs);
                            assert(curs.len() == 1);
                            assert(list_drain(curr, curs) =~= curr + curs);
                        }
                        break ;
                    }
                },
            }
        }
        let ghost pre_items = list.items@;
        let ghost pre_hier = list_hierarchy@;
        list.items.append(&mut list_hierarchy);
        proof {
            assert(items_view(list.items@) =~= items_view(pre_items) + items_view(pre_hier));
        }
        if list.items.len() > 0 {
            proof {
                assert(items_view(list.items@).len() == list.items@.len());
                assert(flat_full.0.len() > 0) by {
                    if flat_full.0.len() == 0 {
                        assert(items_view(pre_items).len() + items_view(pre_hier).len() == 0);
                    }
                }
                assert(items_view(list.items@) == spec_nest(flat_full.0, ordered));
            }
            Ok(list)
        } else {
            proof {
                assert(flat_full.0.len() == 0) by {
                    if flat_full.0.len() > 0 {
                        assert(drain_stack.len() >= 1);
                        lemma_list_drain_len(drain_roots, drain_stack);
                        assert(list_drain(drain_roots, drain_stack).len() >= 1);
                        assert(items_view(list.items@).len() >= 1);
                    }
                }
            }
            Err(self.revert_with_error(start_index))
        }
    }

    /// A table row: a leading unescaped `|`, then one cell per inline run
    /// up to the next `|` or the end of the line. At least one cell is
    /// required.
    pub fn parse_row(&mut self) -> (r: Result<Row, ParseError>)
        requires
            old(self).wf(),
        ensures
            final(self).wf(),
            old(self).frame(*final(self)),
            r is Err ==> old(self).restored(*final(self)),
            !special_at(
                old(self).text@,
                skip_inline_ws(old(self).text@, old(self).index as int),
                PIPE,
            ) ==> r is Err,
            r matches Ok(row) ==> row.cells@.len() >= 1 && final(self).index > old(self).index,
            r is Err <==> row_scan(old(self).text@, old(self).index as int) is None,
            r matches Err(e) ==> ({
                let t = old(self).text@;
                let j = skip_inline_ws(t, old(self).index as int);
                e.index as int == (if !special_at(t, j, PIPE) {
                    j
                } else if j + 1 >= t.len() {
                    t.len() as int
                } else {
                    j + 1
                })
            }),
            r matches Ok(row) ==> row_scan(old(self).text@, old(self).index as int) matches Some(
                sc,
            ) && cells_view(row.cells@) == sc.0 && final(self).index as int == sc.1,
        decreases old(self).text@.len() - old(self).index, 6int,
    {
        let ghost t = self.text@;
        let ghost i = self.index as int;
        let start_index = self.index;
        self.seek_inline_whitespace();
        let ghost j = self.index as int;

        if self.check_special(&PIPE) {
            if self.next_char().is_none() {
                proof {
                    assert(j + 1 >= t.len());
                    assert(row_scan(t, i) is None);
                }
                return Err(self.revert_with_error(start_index));
            }
        } else {
            proof {
                assert(self.current_char == cur_at(t, j));
                assert(!special_at(t, j, PIPE));
                assert(row_scan(t, i) is None);
            }
            return Err(self.revert_with_error(start_index));
        }
        let mut row = Row::new();
        proof {
            assert(cells_view(row.cells@) =~= Seq::<Seq<InlineV>>::empty());
        }
        loop
            invariant_except_break
                row_cells(t, j + 1).0 == cells_view(row.cells@) + row_cells(
                    t,
                    self.index as int,
                ).0,
                row_cells(t, j + 1).1 == row_cells(t, self.index as int).1,
            invariant
                self.wf(),
                old(self).frame(*self),
                t == self.text@,
                start_index == old(self).index,
                self.index > start_index,
                j + 1 <= self.index,
            ensures
                self.wf(),
                old(self).frame(*self),
                t == self.text@,
                self.index > start_index,
                row_cells(t, j + 1).0 == cells_view(row.cells@),
                row_cells(t, j + 1).1 == self.index as int,
            decreases t.len() - self.index, 6int,
        {
            let ghost q = self.index as int;
            let ghost cv0 = cells_view(row.cells@);
            match self.parse_inline() {
                Err(_) => {
                    proof {
                        assert(text_scan(t, q) is None);
                        assert(row_cells(t, q) == (Seq::<Seq<InlineV>>::empty(), q));
                        assert(cv0 + Seq::<Seq<InlineV>>::empty() =~= cv0);
                    }
                    break ;
                },
                Ok(element) => {
                    let ghost p = self.index as int;
                    let ghost spans = line_spans(element);
                    proof {
                        assert(text_scan(t, q) == Some((spans, p)));
                    }
                    row.add_cell(Cell { text: element });
                    proof {
                        assert(cells_view(row.cells@) =~= cv0 + seq![spans]);
                    }
                    if self.check_special(&PIPE) {
                        proof {
                            assert(self.current_char == cur_at(t, p));
                            assert(special_at(t, p, PIPE));
                        }
                        if self.next_char().is_none() {
                            proof {
                                assert(p + 1 >= t.len());
                                assert(self.index == t.len());
                                assert(row_cells(t, q) == (seq![spans], t.len() as int));
                                assert(cv0 + seq![spans] =~= cells_view(row.cells@));
                            }
                            break ;
                        }
                        proof {
                            assert(self.index == p + 1);
                        }
                        if self.check_linebreak() {
                            proof {
                                assert(lb_at(t, p + 1));
                                assert(row_cells(t, q) == (seq![spans], p + 1));
                            }
                            break ;
                        }
                        proof {
                            assert(!lb_at(t, p + 1));
                            assert(row_cells(t, q).0 == seq![spans] + row_cells(t, p + 1).0);
                            assert(cv0 + (seq![spans] + row_cells(t, p + 1).0) =~= (cv0 + seq![
                                spans,
                            ]) + row_cells(t, p + 1).0);
                        }
                    } else {
                        proof {
                            assert(self.current_char == cur_at(t, p));
                            assert(!special_at(t, p, PIPE));
                        }
                        if self.check_linebreak() {
                            proof {
                                if p < t.len() {
                                    assert(lb_at(t, p));
                                }
                                assert(row_cells(t, q) == (seq![spans], p));
                            }
                            break ;
                        }
                        proof {
                            assert(p < t.len() ==> !lb_at(t, p));
                            if p >= t.len() {
                                assert(self.current_char == t[t.len() - 1]);
                                assert(false);
                            }
                            assert(row_cells(t, q).0 == seq![spans] + row_cells(t, p).0);
                            assert(cv0 + (seq![spans] + row_cells(t, p).0) =~= (cv0 + seq![
                                spans,
                            ]) + row_cells(t, p).0);
                        }
                    }
                },
            }
        }
        if row.cells.len() > 0 {
            proof {
                assert(cells_view(row.cells@).len() == row.cells@.len());
                assert(row_scan(t, i) matches Some(sc) && sc.0 == cells_view(row.cells@)
                    && sc.1 == self.index as int);
            }
            Ok(row)
        } else {
            proof {
                assert(cells_view(row.cells@).len() == 0);
                assert(row_cells(t, j + 1).0.len() == 0);
                assert(row_scan(t, i) is None);
            }
            Err(self.revert_with_error(start_index))
        }
    }

    /// A table: a header row, a mandatory separator line — a `-` then a
    /// `|`, the rest of the line discarded — and any number of body rows.
    pub fn parse_table(&mut self) -> (r: Result<Table, ParseError>)
        requires
            old(self).wf(),
        ensures
            final(self).wf(),
            old(self).frame(*final(self)),
            r is Err ==> old(self).restored(*final(self)),
            r is Ok ==> final(self).index > old(self).index,
            r is Err <==> table_scan(old(self).text@, old(self).index as int) is None,
            r matches Err(e) ==> ({
                let t = old(self).text@;
                let i = old(self).index as int;
                match row_scan(t, i) {
                    None => ({
                        let j = skip_inline_ws(t, i);
                        e.index as int == (if !special_at(t, j, PIPE) {
                            j
                        } else if j + 1 >= t.len() {
                            t.len() as int
                        } else {
                            j + 1
                        })
                    }),
                    Some(hd) => ({
                        let j2 = skip_ws(t, hd.1);
                        e.index as int == (if !special_at(t, j2, MINUS) {
                            j2
                        } else if j2 + 1 >= t.len() {
                            t.len() as int
                        } else {
                            j2 + 1
                        })
                    }),
                }
            }),
            r matches Ok(tb) ==> ({
                let scan = table_scan(old(self).text@, old(self).index as int);
                &&& scan matches Some(sc)
                &&& cells_view(tb.header.cells@) == scan->Some_0.0.0
                &&& rows_view(tb.rows@) == scan->Some_0.0.1
                &&& final(self).index as int == scan->Some_0.1
            }),
        decreases old(self).text@.len() - old(self).index, 8int,
    {
        let ghost t = self.text@;
        let ghost i = self.index as int;
        let start_index = self.index;
        let header = match self.parse_row() {
            Ok(h) => h,
            Err(e) => {
                proof {
                    assert(row_scan(t, i) is None);
                    assert(table_scan(t, i) is None);
                }
                return Err(e);
            },
        };
        let ghost p1 = self.index as int;
        proof {
            assert(row_scan(t, i) matches Some(sc) && sc.0 == cells_view(header.cells@)
                && sc.1 == p1);
        }
        self.seek_whitespace();
        let ghost j2 = self.index as int;
        if !self.check_special(&MINUS) {
            proof {
                assert(self.current_char == cur_at(t, j2));
                assert(!special_at(t, j2, MINUS));
                assert(table_scan(t, i) is None);
            }
            return Err(self.revert_with_error(start_index));
        }
        proof {
            assert(special_at(t, j2, MINUS));
        }
        let separator_ok = match self.next_char() {
            Some(c) => c == PIPE,
            None => false,
        };
        if !separator_ok {
            proof {
                assert(j2 + 1 >= t.len() || t[j2 + 1] != PIPE);
                assert(table_scan(t, i) is None);
            }
            return Err(self.revert_with_error(start_index));
        }
        proof {
            assert(j2 + 1 < t.len() && t[j2 + 1] == PIPE);
            assert(self.index == j2 + 1);
        }
        loop
            invariant_except_break
                plain_lb_after(t, j2 + 1) == plain_lb_after(t, self.index as int),
            invariant
                self.wf(),
                old(self).frame(*self),
                t == self.text@,
                self.index > old(self).index,
                j2 + 1 <= self.index <= t.len(),
            ensures
                self.wf(),
                old(self).frame(*self),
                t == self.text@,
                self.index > old(self).index,
                self.index as int == plain_lb_after(t, j2 + 1),
            decreases t.len() - self.index,
        {
            let ghost m = self.index as int;
            match self.next_char() {
                None => {
                    proof {
                        assert(m + 1 >= t.len());
                        assert(plain_lb_after(t, m) == t.len());
                        assert(self.index == t.len());
                    }
                    break ;
                },
                Some(character) => {
                    proof {
                        assert(self.index == m + 1);
                        assert(character == t[m + 1]);
                    }
                    if character == LB {
                        proof {
                            assert(plain_lb_after(t, m) == m + 1);
                        }
                        break ;
                    }
                    proof {
                        assert(plain_lb_after(t, m) == plain_lb_after(t, m + 1));
                    }
                },
            }
        }
        self.seek_whitespace();
        let ghost q = self.index as int;
        proof {
            assert(q == skip_ws(t, plain_lb_after(t, j2 + 1)));
        }
        let mut table = Table::new(header);
        proof {
            assert(rows_view(table.rows@) =~= Seq::<Seq<Seq<InlineV>>>::empty());
        }
        loop
            invariant_except_break
                table_rows(t, q).0 == rows_view(table.rows@) + table_rows(
                    t,
                    self.index as int,
                ).0,
                table_rows(t, q).1 == table_rows(t, self.index as int).1,
            invariant
                self.wf(),
                old(self).frame(*self),
                t == self.text@,
                self.index > old(self).index,
                0 <= q <= self.index,
                table.header == header,
            ensures
                self.wf(),
                old(self).frame(*self),
                t == self.text@,
                self.index > old(self).index,
                table.header == header,
                table_rows(t, q).0 == rows_view(table.rows@),
                table_rows(t, q).1 == self.index as int,
            decreases t.len() - self.index, 6int,
        {
            let ghost qq = self.index as int;
            let ghost rv0 = rows_view(table.rows@);
            match self.parse_row() {
                Err(_) => {
                    proof {
                        assert(row_scan(t, qq) is None);
                        assert(table_rows(t, qq) == (Seq::<Seq<Seq<InlineV>>>::empty(), qq));
                        assert(rv0 + Seq::<Seq<Seq<InlineV>>>::empty() =~= rv0);
                    }
                    break ;
                },
                Ok(row) => {
                    let ghost pr = self.index as int;
                    let ghost cells = cells_view(row.cells@);
                    proof {
                        assert(row_scan(t, qq) == Some((cells, pr)));
                    }
                    table.add_row(row);
                    self.seek_whitespace();
                    proof {
                        assert(self.index as int == skip_ws(t, pr));
                        assert(rows_view(table.rows@) =~= rv0 + seq![cells]);
                        assert(table_rows(t, qq).0 == seq![cells] + table_rows(
                            t,
                            self.index as int,
                        ).0);
                        assert(rv0 + (seq![cells] + table_rows(t, self.index as int).0) =~= (rv0
                            + seq![cells]) + table_rows(t, self.index as int).0);
                    }
                },
            }
        }
        proof {
            assert(table_scan(t, i) matches Some(sc) && sc.0.0 == cells_view(header.cells@)
                && sc.0.1 == rows_view(table.rows@) && sc.1 == self.index as int);
        }
        Ok(table)
    }

    /// A quote: optional brace metadata, then one or more lines each
    /// beginning with the quote marker and inline whitespace. Zero matched
    /// lines is a failure.
    pub fn parse_quote(&mut self) -> (r: Result<Quote, ParseError>)
        requires
            old(self).wf(),
        ensures
            final(self).wf(),
            old(self).frame(*final(self)),
            r is Err ==> old(self).restored(*final(self)),
            r matches Ok(q) ==> q.text@.len() >= 1 && final(self).index > old(self).index,
            r matches Ok(q) && q.metadata is Some ==> special_at(
                old(self).text@,
                skip_ws(old(self).text@, old(self).index as int),
                META_OPEN,
            ),
            r is Err <==> quote_scan(old(self).text@, old(self).index as int) is None,
            r matches Err(e) ==> ({
                let t = old(self).text@;
                let j = skip_ws(t, old(self).index as int);
                let m = scan_end(t, j + 1, META_CLOSE);
                let meta_ok = special_at(t, j, META_OPEN) && special_at(t, m, META_CLOSE) && m
                    > j + 1;
                let q0 = if meta_ok {
                    m + 1
                } else if special_at(t, j, META_CLOSE) {
                    j + 1
                } else {
                    j
                };
                e.index as int == (if (meta_ok && m + 1 >= t.len()) || (!meta_ok && special_at(
                    t,
                    j,
                    META_CLOSE,
                ) && j + 1 >= t.len()) {
                    t.len() as int
                } else {
                    quote_lines(t, q0).1
                })
            }),
            r matches Ok(q) ==> ({
                let scan = quote_scan(old(self).text@, old(self).index as int);
                &&& scan matches Some(sc)
                &&& meta_opt_view(q.metadata) == scan->Some_0.0.0
                &&& tlines_view(q.text@) == scan->Some_0.0.1
                &&& final(self).index as int == scan->Some_0.1
            }),
        decreases old(self).text@.len() - old(self).index, 8int,
    {
        let ghost t = self.text@;
        let ghost i = self.index as int;
        let start_index = self.index;
        self.seek_whitespace();
        let ghost j = self.index as int;
        let ghost e = scan_end(t, j + 1, META_CLOSE);
        let ghost meta_ok = special_at(t, j, META_OPEN) && special_at(t, e, META_CLOSE) && e > j
            + 1;
        let metadata = match self.parse_inline_metadata() {
            Ok(meta) => Some(meta),
            Err(_) => None,
        };
        proof {
            assert(metadata is Some <==> meta_ok);
            if meta_ok {
                assert(metadata->Some_0.data@ == t.subrange(j + 1, e));
                assert(self.index as int == e);
            }
        }
        if self.check_special(&META_CLOSE) {
            if self.next_char().is_none() {
                proof {
                    if meta_ok {
                        assert(e + 1 >= t.len());
                    } else {
                        assert(special_at(t, j, META_CLOSE));
                        assert(j + 1 >= t.len());
                    }
                    assert(quote_scan(t, i) is None);
                }
                return Err(self.revert_with_error(start_index));
            }
        } else {
            proof {
                if !meta_ok {
                    assert(self.current_char == cur_at(t, j));
                    assert(!special_at(t, j, META_CLOSE));
                }
            }
        }
        let ghost q0 = self.index as int;
        proof {
            if meta_ok {
                assert(q0 == e + 1);
            } else if special_at(t, j, META_CLOSE) {
                assert(q0 == j + 1);
            } else {
                assert(q0 == j);
            }
        }
        let mut quote = Quote::new(metadata);
        proof {
            assert(tlines_view(quote.text@) =~= Seq::<Seq<InlineV>>::empty());
        }
        loop
            invariant_except_break
                quote_lines(t, q0).0 == tlines_view(quote.text@) + quote_lines(
                    t,
                    self.index as int,
                ).0,
                quote_lines(t, q0).1 == quote_lines(t, self.index as int).1,
            invariant
                self.wf(),
                old(self).frame(*self),
                t == self.text@,
                start_index == old(self).index,
                old(self).index <= self.index,
                0 <= q0 <= self.index,
                quote.text@.len() > 0 ==> self.index > start_index,
                quote.metadata is Some ==> special_at(t, skip_ws(t, start_index as int), META_OPEN),
                quote.metadata == metadata,
            ensures
                self.wf(),
                old(self).frame(*self),
                t == self.text@,
                old(self).index <= self.index,
                quote.text@.len() > 0 ==> self.index > start_index,
                quote.metadata is Some ==> special_at(t, skip_ws(t, start_index as int), META_OPEN),
                quote.metadata == metadata,
                quote_lines(t, q0).0 == tlines_view(quote.text@),
                quote_lines(t, q0).1 == self.index as int,
            decreases t.len() - self.index, 6int,
        {
            let ghost q = self.index as int;
            let ghost qv0 = tlines_view(quote.text@);
            if !self.check_special(&QUOTE_START) {
                proof {
                    assert(self.current_char == cur_at(t, q));
                    assert(!special_at(t, q, QUOTE_START));
                    assert(quote_lines(t, q) == (Seq::<Seq<InlineV>>::empty(), q));
                    assert(qv0 + Seq::<Seq<InlineV>>::empty() =~= qv0);
                }
                break ;
            }
            proof {
                assert(special_at(t, q, QUOTE_START));
            }
            if self.next_char().is_none() {
                proof {
                    assert(q + 1 >= t.len());
                    assert(self.index == t.len());
                    assert(quote_lines(t, q) == (Seq::<Seq<InlineV>>::empty(), t.len() as int));
                    assert(qv0 + Seq::<Seq<InlineV>>::empty() =~= qv0);
                }
                break ;
            }
            if !self.check_seek_inline_whitespace() {
                proof {
                    assert(skip_inline_ws(t, q + 1) == q + 1);
                    assert(self.index == q + 1);
                    assert(quote_lines(t, q) == (Seq::<Seq<InlineV>>::empty(), q + 1));
                    assert(qv0 + Seq::<Seq<InlineV>>::empty() =~= qv0);
                }
                break ;
            }
            let ghost s2 = self.index as int;
            proof {
                assert(s2 == skip_inline_ws(t, q + 1));
                assert(s2 != q + 1);
            }
            match self.parse_text() {
                Ok(text) => {
                    let ghost p = self.index as int;
                    let ghost spans = text_line_view(text);
                    proof {
                        assert(text_scan(t, s2) == Some((spans, p)));
                        assert(quote_lines(t, q).0 == seq![spans] + quote_lines(t, p).0);
                    }
                    quote.add_text(text);
                    proof {
                        assert(tlines_view(quote.text@) =~= qv0 + seq![spans]);
                        assert(qv0 + (seq![spans] + quote_lines(t, p).0) =~= (qv0 + seq![spans])
                            + quote_lines(t, p).0);
                    }
                },
                Err(_) => {
                    proof {
                        assert(text_scan(t, s2) is None);
                        assert(quote_lines(t, q) == (Seq::<Seq<InlineV>>::empty(), s2));
                        assert(qv0 + Seq::<Seq<InlineV>>::empty() =~= qv0);
                    }
                    break ;
                },
            }
        }
        if quote.text.len() == 0 {
            proof {
                assert(tlines_view(quote.text@).len() == 0);
                assert(quote_lines(t, q0).0.len() == 0);
                assert(quote_scan(t, i) is None);
            }
            return Err(self.revert_with_error(start_index));
        }
        proof {
            assert(tlines_view(quote.text@).len() == quote.text@.len());
            assert(quote_lines(t, q0).0.len() > 0);
            assert(quote_scan(t, i) matches Some(sc) && sc.0.1 == tlines_view(quote.text@)
                && sc.1 == self.index as int);
        }
        Ok(quote)
    }

    /// Parses the whole input into a flat document. A block attempt that
    /// fails emits no node; the loop then advances one character, so
    /// unparseable input is skipped rather than looped over.
    pub fn parse(&mut self) -> (doc: Document)
        requires
            old(self).wf(),
        ensures
            final(self).wf(),
            final(self).text@ == old(self).text@,
            final(self).index >= old(self).index,
            doc.is_root == true,
            doc.path is None,
            doc.placeholders@.len() == 0,
            doc.bibliography.entries@.len() == 0,
    {
        let mut document = Document::new(true);
        loop
            invariant
                self.wf(),
                self.text@ == old(self).text@,
                self.index >= old(self).index,
                document.is_root == true,
                document.path is None,
                document.placeholders@.len() == 0,
                document.bibliography.entries@.len() == 0,
            ensures
                self.wf(),
                self.text@ == old(self).text@,
                self.index >= old(self).index,
                document.is_root == true,
                document.path is None,
                document.placeholders@.len() == 0,
                document.bibliography.entries@.len() == 0,
            decreases self.text@.len() - self.index,
        {
            if self.index >= self.text.len() {
                break ;
            }
            match self.parse_block() {
                Ok(token) => {
                    document.add_element(token);
                },
                Err(_) => {
                    let _ = self.next_char();
                },
            }
        }
        document
    }
}

/// The position reached by skipping inline whitespace never runs past the
/// end of the text and never moves backwards.
pub proof fn lemma_skip_inline_ws_bounds(t: Seq<char>, i: int)
    requires
        0 <= i <= t.len(),
    ensures
        i <= skip_inline_ws(t, i) <= t.len(),
        skip_inline_ws(t, i) < t.len() ==> !is_ws(t[skip_inline_ws(t, i)]) || lb_at(
            t,
            skip_inline_ws(t, i),
        ),
    decreases t.len() - i,
{
    if i < t.len() && is_ws(t[i]) && !lb_at(t, i) {
        lemma_skip_inline_ws_bounds(t, i + 1);
    }
}

/// The position reached by skipping whitespace never runs past the end of
/// the text and never moves backwards.
pub proof fn lemma_skip_ws_bounds(t: Seq<char>, i: int)
    requires
        0 <= i <= t.len(),
    ensures
        i <= skip_ws(t, i) <= t.len(),
        skip_ws(t, i) < t.len() ==> !is_ws(t[skip_ws(t, i)]),
    decreases t.len() - i,
{
    if i < t.len() && is_ws(t[i]) {
        lemma_skip_ws_bounds(t, i + 1);
    }
}

} // verus!
