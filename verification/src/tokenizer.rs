//! The literal tokenizer: turns the input characters into the token runs of
//! the mapping table, accumulating everything between literals as plain
//! text. The character tape it scans over comes from an outside crate and
//! is used through contracts stated against that crate's source.
use vstd::prelude::*;

use crate::tokens::{
    clone_token, entry_safe, get_mappings, lemma_mappings_view_index,
    lemma_mappings_view_len, mapping_view, mappings_safe, mappings_view, spec_mappings,
    strs_view, TextToken, Token, SPECIAL_ESCAPE,
};
use charred::tapemachine::CharTapeMachine;

verus! {

broadcast use lemma_mappings_view_len, lemma_mappings_view_index;

/// The scanned character tape of the outside crate, used opaquely.
#[verifier::external_type_specification]
#[verifier::external_body]
pub struct ExCharTapeMachine(CharTapeMachine);

/// The characters a tape machine scans over.
pub uninterp spec fn ctm_text(m: CharTapeMachine) -> Seq<char>;

/// The position the tape machine stands at.
pub uninterp spec fn ctm_index(m: CharTapeMachine) -> int;

/// Whether position `i` is escaped: preceded by an odd run of escape
/// characters, as the tape machine counts them.
pub open spec fn esc_at(t: Seq<char>, i: int) -> bool
    decreases i,
{
    if i <= 0 || i > t.len() {
        false
    } else if t[i - 1] == SPECIAL_ESCAPE {
        !esc_at(t, i - 1)
    } else {
        false
    }
}

/// Whether the literal `pat` stands unescaped at position `i` with at least
/// one character after it, which is what the tape machine's sequence check
/// answers for.
pub open spec fn str_match_at(t: Seq<char>, i: int, pat: Seq<char>) -> bool {
    &&& pat.len() >= 1
    &&& 0 <= i
    &&& i + pat.len() < t.len()
    &&& forall|k: int| 0 <= k < pat.len() ==> t[i + k] == #[trigger] pat[k]
    &&& !esc_at(t, i)
}

/// The first alternative of `alts` matching at position `i`, if any.
pub open spec fn first_alt(alts: Seq<Seq<char>>, t: Seq<char>, i: int) -> Option<int>
    decreases alts.len(),
{
    if alts.len() == 0 {
        None
    } else if str_match_at(t, i, alts[0]) {
        Some(0int)
    } else {
        match first_alt(alts.drop_first(), t, i) {
            Some(j) => Some(j + 1),
            None => None,
        }
    }
}

pub proof fn lemma_first_alt(alts: Seq<Seq<char>>, t: Seq<char>, i: int)
    ensures
        first_alt(alts, t, i) matches Some(j) ==> 0 <= j < alts.len() && str_match_at(
            t,
            i,
            alts[j],
        ),
    decreases alts.len(),
{
    if alts.len() > 0 && !str_match_at(t, i, alts[0]) {
        lemma_first_alt(alts.drop_first(), t, i);
    }
}

/// The first table entry with an alternative matching at `i`: its token and
/// the length of the matched alternative.
pub open spec fn first_token_in(
    maps: Seq<(Seq<Seq<char>>, Token)>,
    t: Seq<char>,
    i: int,
) -> Option<(Token, int)>
    decreases maps.len(),
{
    if maps.len() == 0 {
        None
    } else {
        match first_alt(maps[0].0, t, i) {
            Some(j) => Some((maps[0].1, maps[0].0[j].len() as int)),
            None => first_token_in(maps.drop_first(), t, i),
        }
    }
}

pub open spec fn first_token(t: Seq<char>, i: int) -> Option<(Token, int)> {
    first_token_in(spec_mappings(), t, i)
}

pub proof fn lemma_first_token_in(maps: Seq<(Seq<Seq<char>>, Token)>, t: Seq<char>, i: int)
    ensures
        first_token_in(maps, t, i) matches Some(p) ==> p.1 >= 1 && i + p.1 < t.len(),
    decreases maps.len(),
{
    if maps.len() > 0 {
        lemma_first_alt(maps[0].0, t, i);
        if first_alt(maps[0].0, t, i) is None {
            lemma_first_token_in(maps.drop_first(), t, i);
        }
    }
}

/// Entries before `k` that match nothing may be skipped.
pub proof fn lemma_first_token_skip(
    maps: Seq<(Seq<Seq<char>>, Token)>,
    t: Seq<char>,
    i: int,
    k: int,
)
    requires
        0 <= k <= maps.len(),
        forall|j: int| 0 <= j < k ==> first_alt((#[trigger] maps[j]).0, t, i) is None,
    ensures
        first_token_in(maps, t, i) == first_token_in(maps.skip(k), t, i),
    decreases k,
{
    if k == 0 {
        assert(maps.skip(0) =~= maps);
    } else {
        assert(first_alt(maps[0].0, t, i) is None);
        assert(forall|j: int|
            0 <= j < k - 1 ==> maps.drop_first()[j] == maps[j + 1]);
        lemma_first_token_skip(maps.drop_first(), t, i, k - 1);
        assert(maps.drop_first().skip(k - 1) =~= maps.skip(k));
    }
}

/// The shape of a token: a plain-text token as its characters, any other
/// token as itself.
pub enum TokenV {
    Plain(Seq<char>),
    Tok(Token),
}

pub open spec fn token_view(t: Token) -> TokenV {
    match t {
        Token::Text(TextToken::Plain(s)) => TokenV::Plain(s@),
        other => TokenV::Tok(other),
    }
}

pub open spec fn tokens_view(s: Seq<Token>) -> Seq<TokenV>
    decreases s,
{
    if s.len() == 0 {
        Seq::<TokenV>::empty()
    } else {
        seq![token_view(s[0])] + tokens_view(s.drop_first())
    }
}

pub broadcast proof fn lemma_tokens_view_len(s: Seq<Token>)
    ensures
        (#[trigger] tokens_view(s)).len() == s.len(),
    decreases s,
{
    if s.len() > 0 {
        lemma_tokens_view_len(s.drop_first());
    }
}

pub broadcast proof fn lemma_tokens_view_index(s: Seq<Token>, i: int)
    requires
        0 <= i < s.len(),
    ensures
        #[trigger] tokens_view(s)[i] == token_view(s[i]),
    decreases s,
{
    lemma_tokens_view_len(s.drop_first());
    if i > 0 {
        lemma_tokens_view_index(s.drop_first(), i - 1);
        assert(s.drop_first()[i - 1] == s[i]);
    }
}


pub proof fn lemma_tokens_view_push(s: Seq<Token>, x: Token)
    ensures
        tokens_view(s.push(x)) == tokens_view(s) + seq![token_view(x)],
{
    broadcast use lemma_tokens_view_len, lemma_tokens_view_index;

    assert(tokens_view(s.push(x)) =~= tokens_view(s) + seq![token_view(x)]);
}

/// What tokenizing yields from position `i` on, with `pending` plain text
/// accumulated: at each position the first matching literal's token is
/// emitted — any pending text flushed first — and otherwise the character
/// joins the pending text; pending text left at the end is dropped.
pub open spec fn spec_tokenize(t: Seq<char>, i: int, pending: Seq<char>) -> Seq<TokenV>
    decreases t.len() - i,
{
    if i < 0 || i >= t.len() {
        Seq::<TokenV>::empty()
    } else {
        match first_token(t, i) {
            Some(p) => {
                let step = if 1 <= p.1 && i + p.1 <= t.len() {
                    p.1
                } else {
                    1
                };
                (if pending.len() > 0 {
                    seq![TokenV::Plain(pending)]
                } else {
                    Seq::<TokenV>::empty()
                }) + seq![token_view(p.0)] + spec_tokenize(t, i + step, Seq::<char>::empty())
            },
            None => spec_tokenize(t, i + 1, pending.push(t[i])),
        }
    }
}

/// Relies on charred's CharTapeMachine::new: the machine scans the given
/// characters from position zero.
#[verifier::external_body]
fn ctm_new(chars: Vec<char>) -> (m: CharTapeMachine)
    ensures
        ctm_text(m) == chars@,
        ctm_index(m) == 0,
{
    CharTapeMachine::new(chars)
}

/// Relies on charred's CharTapeMachine::check_eof: whether the position has
/// reached the end of the characters.
#[verifier::external_body]
fn ctm_check_eof(m: &CharTapeMachine) -> (r: bool)
    ensures
        r == (ctm_index(*m) >= ctm_text(*m).len()),
{
    m.check_eof()
}

/// Relies on charred's CharTapeMachine::get_current: the character at the
/// current position.
#[verifier::external_body]
fn ctm_get_current(m: &CharTapeMachine) -> (c: char)
    requires
        0 <= ctm_index(*m) < ctm_text(*m).len(),
    ensures
        c == ctm_text(*m)[ctm_index(*m)],
{
    m.get_current()
}

/// Relies on charred's CharTapeMachine::seek_one: steps one position
/// forward when not at the end, and answers whether a character remains.
#[verifier::external_body]
fn ctm_seek_one(m: &mut CharTapeMachine) -> (r: bool)
    requires
        0 <= ctm_index(*old(m)) <= ctm_text(*old(m)).len(),
    ensures
        ctm_text(*final(m)) == ctm_text(*old(m)),
        ctm_index(*old(m)) < ctm_text(*old(m)).len() ==> ctm_index(*final(m)) == ctm_index(
            *old(m),
        ) + 1,
        ctm_index(*old(m)) >= ctm_text(*old(m)).len() ==> ctm_index(*final(m)) == ctm_index(
            *old(m),
        ),
        r == (ctm_index(*old(m)) + 1 < ctm_text(*old(m)).len()),
    {
    m.seek_one().is_ok()
}

/// Relies on charred's CharTapeMachine::check_any_str_sequence: probes the
/// alternatives in order; the first one standing unescaped at the current
/// position — with a character left after it — matches, and the machine
/// then stands on the match's last character; otherwise nothing moves. The
/// alternatives must be nonempty and free of the escape character, and the
/// text must not open with the escape character, or the machine's escape
/// scan is not defined.
#[verifier::external_body]
fn ctm_check_any_str_sequence(m: &mut CharTapeMachine, sequences: &Vec<String>) -> (r: bool)
    requires
        ctm_text(*old(m)).len() >= 1 ==> ctm_text(*old(m))[0] != SPECIAL_ESCAPE,
        entry_safe(strs_view(sequences@)),
        0 <= ctm_index(*old(m)) <= ctm_text(*old(m)).len(),
    ensures
        ctm_text(*final(m)) == ctm_text(*old(m)),
        match first_alt(strs_view(sequences@), ctm_text(*old(m)), ctm_index(*old(m))) {
            Some(j) => r && ctm_index(*final(m)) == ctm_index(*old(m)) + strs_view(
                sequences@,
            )[j].len() - 1,
            None => !r && ctm_index(*final(m)) == ctm_index(*old(m)),
        },
{
    let refs: Vec<&str> = sequences.iter().map(|s| s.as_str()).collect();
    m.check_any_str_sequence(&refs)
}

/// The literal tokenizer over a character tape.
pub struct Tokenizer {
    pub ctm: CharTapeMachine,
}

impl Tokenizer {
    /// A tokenizer over the given text with one line break appended.
    pub fn new(text: String) -> (r: Tokenizer)
        ensures
            ctm_text(r.ctm) == text@ + seq!['\n'],
            ctm_index(r.ctm) == 0,
    {
        let n = text.as_str().unicode_len();
        let mut chars: Vec<char> = Vec::new();
        let mut i: usize = 0;
        while i < n
            invariant
                i <= n,
                n == text@.len(),
                chars@ == text@.subrange(0, i as int),
            decreases n - i,
        {
            chars.push(text.as_str().get_char(i));
            proof {
                assert(chars@ =~= text@.subrange(0, i + 1));
            }
            i += 1;
        }
        chars.push('\n');
        proof {
            assert(chars@ =~= text@ + seq!['\n']);
        }
        Tokenizer { ctm: ctm_new(chars) }
    }

    /// The first literal of the mapping table standing at the current
    /// position, as its token; the machine then stands on the literal's
    /// last character. With no literal matching, nothing moves.
    pub fn parse_literal_token(&mut self, table: &Vec<(Vec<String>, Token)>) -> (r: Option<
        Token,
    >)
        requires
            mappings_view(table@) == spec_mappings(),
            mappings_safe(spec_mappings()),
            ctm_text(old(self).ctm).len() >= 1 ==> ctm_text(old(self).ctm)[0] != SPECIAL_ESCAPE,
            0 <= ctm_index(old(self).ctm) <= ctm_text(old(self).ctm).len(),
        ensures
            ctm_text(final(self).ctm) == ctm_text(old(self).ctm),
            match first_token(ctm_text(old(self).ctm), ctm_index(old(self).ctm)) {
                Some(p) => r == Some(p.0) && ctm_index(final(self).ctm) == ctm_index(
                    old(self).ctm,
                ) + p.1 - 1,
                None => r is None && ctm_index(final(self).ctm) == ctm_index(old(self).ctm),
            },
    {
        let ghost t = ctm_text(self.ctm);
        let ghost i = ctm_index(self.ctm);
        let n = table.len();
        let mut k: usize = 0;
        proof {
            lemma_first_token_skip(spec_mappings(), t, i, 0);
            assert(spec_mappings().skip(0) =~= spec_mappings());
        }
        loop
            invariant_except_break
                k < n,
            invariant
                k <= n,
                n == table@.len(),
                table@.len() == spec_mappings().len(),
                mappings_view(table@) == spec_mappings(),
                mappings_safe(spec_mappings()),
                t == ctm_text(self.ctm),
                i == ctm_index(self.ctm),
                t == ctm_text(old(self).ctm),
                i == ctm_index(old(self).ctm),
                0 <= i <= t.len(),
                t.len() >= 1 ==> t[0] != SPECIAL_ESCAPE,
                forall|j: int|
                    0 <= j < k ==> first_alt((#[trigger] spec_mappings()[j]).0, t, i) is None,
            ensures
                k == n,
                t == ctm_text(self.ctm),
                i == ctm_index(self.ctm),
                t == ctm_text(old(self).ctm),
                i == ctm_index(old(self).ctm),
                forall|j: int|
                    0 <= j < n ==> first_alt((#[trigger] spec_mappings()[j]).0, t, i) is None,
            decreases n - k,
        {
            proof {
                assert(mapping_view(table@[k as int]) == spec_mappings()[k as int]);
                assert(strs_view(table@[k as int].0@) == spec_mappings()[k as int].0);
                assert(entry_safe(strs_view(table@[k as int].0@)));
            }
            let hit = ctm_check_any_str_sequence(&mut self.ctm, &table[k].0);
            if hit {
                proof {
                    lemma_first_token_skip(spec_mappings(), t, i, k as int);
                    assert(spec_mappings().skip(k as int)[0] == spec_mappings()[k as int]);
                    assert(spec_mappings().skip(k as int).len() > 0);
                    lemma_first_alt(spec_mappings()[k as int].0, t, i);
                    let j = first_alt(spec_mappings()[k as int].0, t, i)->Some_0;
                    assert(first_token(t, i) == Some(
                        (spec_mappings()[k as int].1, spec_mappings()[k as int].0[j].len() as int),
                    ));
                    assert(table@[k as int].1 == mapping_view(table@[k as int]).1);
                    assert(mapping_view(table@[k as int]).1 == spec_mappings()[k as int].1);
                }
                return Some(clone_token(&table[k].1));
            }
            k += 1;
            if k >= n {
                break ;
            }
        }
        proof {
            lemma_first_token_skip(spec_mappings(), t, i, n as int);
            assert(spec_mappings().skip(n as int).len() == 0);
        }
        None
    }

    /// Tokenizes the whole input: the token runs of the mapping table in
    /// match order, each preceded by whatever plain text accumulated before
    /// it. The input must not open with the escape character, which the
    /// tape machine's escape scan cannot stand.
    pub fn parse(&mut self) -> (tokens: Vec<Token>)
        requires
            ctm_text(old(self).ctm).len() >= 1 ==> ctm_text(old(self).ctm)[0] != SPECIAL_ESCAPE,
            0 <= ctm_index(old(self).ctm) <= ctm_text(old(self).ctm).len(),
        ensures
            ctm_text(final(self).ctm) == ctm_text(old(self).ctm),
            tokens_view(tokens@) == spec_tokenize(
                ctm_text(old(self).ctm),
                ctm_index(old(self).ctm),
                Seq::<char>::empty(),
            ),
    {
        broadcast use lemma_tokens_view_len, lemma_tokens_view_index;

        let ghost t = ctm_text(self.ctm);
        let ghost i0 = ctm_index(self.ctm);
        let table = get_mappings();
        let mut tokens: Vec<Token> = Vec::new();
        let mut temp_text = String::new();
        loop
            invariant
                t == ctm_text(self.ctm),
                t == ctm_text(old(self).ctm),
                i0 == ctm_index(old(self).ctm),
                0 <= ctm_index(self.ctm) <= t.len(),
                t.len() >= 1 ==> t[0] != SPECIAL_ESCAPE,
                mappings_view(table@) == spec_mappings(),
                mappings_safe(spec_mappings()),
                tokens_view(tokens@) + spec_tokenize(t, ctm_index(self.ctm), temp_text@)
                    == spec_tokenize(t, i0, Seq::<char>::empty()),
            ensures
                t == ctm_text(self.ctm),
                t == ctm_text(old(self).ctm),
                i0 == ctm_index(old(self).ctm),
                tokens_view(tokens@) + spec_tokenize(t, ctm_index(self.ctm), temp_text@)
                    == spec_tokenize(t, i0, Seq::<char>::empty()),
                ctm_index(self.ctm) >= t.len(),
            decreases t.len() - ctm_index(self.ctm),
        {
            if ctm_check_eof(&self.ctm) {
                break ;
            }
            let ghost idx = ctm_index(self.ctm);
            let ghost pending = temp_text@;
            let ghost toks0 = tokens@;
            match self.parse_literal_token(&table) {
                Some(token) => {
                    proof {
                        lemma_first_token_in(spec_mappings(), t, idx);
                    }
                    if temp_text.as_str().unicode_len() > 0 {
                        let mut flushed = String::new();
                        core::mem::swap(&mut temp_text, &mut flushed);
                        let ftok = Token::Text(TextToken::Plain(flushed));
                        proof {
                            assert(token_view(ftok) == TokenV::Plain(pending));
                            lemma_tokens_view_push(tokens@, ftok);
                        }
                        tokens.push(ftok);
                    }
                    let ghost mid = tokens@;
                    proof {
                        lemma_tokens_view_push(mid, token);
                    }
                    tokens.push(token);
                    let _ = ctm_seek_one(&mut self.ctm);
                    proof {
                        let p = first_token(t, idx)->Some_0;
                        assert(p.1 >= 1 && idx + p.1 < t.len());
                        assert(ctm_index(self.ctm) == idx + p.1);
                        assert(spec_tokenize(t, idx, pending) == (if pending.len() > 0 {
                            seq![TokenV::Plain(pending)]
                        } else {
                            Seq::<TokenV>::empty()
                        }) + seq![token_view(p.0)] + spec_tokenize(
                            t,
                            idx + p.1,
                            Seq::<char>::empty(),
                        ));
                        assert(temp_text@ =~= Seq::<char>::empty());
                        assert(token == p.0);
                        if pending.len() > 0 {
                            assert(tokens_view(mid) == tokens_view(toks0) + seq![
                                TokenV::Plain(pending),
                            ]);
                            assert(tokens_view(tokens@) =~= tokens_view(toks0) + seq![
                                TokenV::Plain(pending),
                            ] + seq![token_view(p.0)]);
                        } else {
                            assert(mid == toks0);
                            assert(tokens_view(tokens@) =~= tokens_view(toks0) + seq![
                                token_view(p.0),
                            ]);
                        }
                        assert(tokens_view(tokens@) + spec_tokenize(
                            t,
                            ctm_index(self.ctm),
                            temp_text@,
                        ) =~= spec_tokenize(t, i0, Seq::<char>::empty()));
                    }
                },
                None => {
                    let c = ctm_get_current(&self.ctm);
                    temp_text.push(c);
                    let _ = ctm_seek_one(&mut self.ctm);
                    proof {
                        assert(temp_text@ == pending.push(t[idx]));
                        assert(spec_tokenize(t, idx, pending) == spec_tokenize(
                            t,
                            idx + 1,
                            pending.push(t[idx]),
                        ));
                    }
                },
            }
        }
        proof {
            assert(spec_tokenize(t, ctm_index(self.ctm), temp_text@) =~= Seq::<TokenV>::empty());
            assert(tokens_view(tokens@) =~= tokens_view(tokens@) + Seq::<TokenV>::empty());
        }
        tokens
    }
}

} // verus!
