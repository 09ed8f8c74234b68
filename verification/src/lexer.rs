//! The tokenizer.
//!
//! Text is cut into lexemes by maximal munch: whitespace separates, a letter
//! starts a run of letters and numbers, a number starts a run of numbers, and
//! any other character stands alone. A term is a lexeme in canonical case.

use vstd::prelude::*;
use vstd::slice::slice_subrange;
use crate::chars::{alphabetic, alphanumeric, numeric, whitespace};
use crate::text::{chars_of, string_of, upper, upper_string_of};

verus! {

/// How many whitespace characters `s` begins with.
pub open spec fn space_len(s: Seq<char>) -> nat
    decreases s.len(),
{
    if s.len() > 0 && whitespace(s[0]) {
        1 + space_len(s.skip(1))
    } else {
        0
    }
}

/// How many letters and numbers `s` begins with.
pub open spec fn word_len(s: Seq<char>) -> nat
    decreases s.len(),
{
    if s.len() > 0 && alphanumeric(s[0]) {
        1 + word_len(s.skip(1))
    } else {
        0
    }
}

/// How many numbers `s` begins with.
pub open spec fn number_len(s: Seq<char>) -> nat
    decreases s.len(),
{
    if s.len() > 0 && numeric(s[0]) {
        1 + number_len(s.skip(1))
    } else {
        0
    }
}

/// `s` without its leading whitespace.
pub open spec fn trimmed(s: Seq<char>) -> Seq<char> {
    s.skip(space_len(s) as int)
}

/// Length of the lexeme that `s` begins with, where `s` begins with no whitespace.
/// The class of the first character alone decides how far the lexeme runs.
pub open spec fn lexeme_len(s: Seq<char>) -> nat {
    if s.len() == 0 {
        0
    } else if alphabetic(s[0]) {
        word_len(s)
    } else if numeric(s[0]) {
        number_len(s)
    } else {
        1
    }
}

/// The lexeme that `s` yields first, once leading whitespace is skipped.
pub open spec fn first_lexeme(s: Seq<char>) -> Seq<char> {
    trimmed(s).take(lexeme_len(trimmed(s)) as int)
}

/// What is left of `s` after its first lexeme.
pub open spec fn after_first(s: Seq<char>) -> Seq<char> {
    trimmed(s).skip(lexeme_len(trimmed(s)) as int)
}

/// The lexemes of `s`, in order.
pub open spec fn lexemes(s: Seq<char>) -> Seq<Seq<char>>
    decreases s.len(),
    via lexemes_decreases
{
    if trimmed(s).len() == 0 {
        Seq::empty()
    } else {
        seq![first_lexeme(s)] + lexemes(after_first(s))
    }
}

#[via_fn]
proof fn lexemes_decreases(s: Seq<char>) {
    if trimmed(s).len() != 0 {
        lemma_lexeme_bounds(s);
    }
}

/// The term that a lexeme stands for: a lexeme that starts with a letter is
/// folded to upper case, any other is kept as it is.
pub open spec fn term_of(lexeme: Seq<char>) -> Seq<char> {
    if lexeme.len() > 0 && alphabetic(lexeme[0]) {
        upper(lexeme)
    } else {
        lexeme
    }
}

/// The terms of `s`, in order: each lexeme in canonical case.
pub open spec fn terms(s: Seq<char>) -> Seq<Seq<char>> {
    Seq::new(lexemes(s).len(), |i: int| term_of(lexemes(s)[i]))
}

/// The runs of whitespace of `s`, in order: the one before each lexeme, and
/// the one after the last lexeme. A run may be empty.
pub open spec fn gaps(s: Seq<char>) -> Seq<Seq<char>>
    decreases s.len(),
    via gaps_decreases
{
    if trimmed(s).len() == 0 {
        seq![s]
    } else {
        seq![s.take(space_len(s) as int)] + gaps(after_first(s))
    }
}

#[via_fn]
proof fn gaps_decreases(s: Seq<char>) {
    if trimmed(s).len() != 0 {
        lemma_lexeme_bounds(s);
    }
}

/// The text that begins with the first gap, goes on with the first lexeme,
/// the second gap, the second lexeme, and so on, and ends with the gap
/// after the last lexeme.
pub open spec fn interleaved(between: Seq<Seq<char>>, words: Seq<Seq<char>>) -> Seq<char>
    decreases words.len(),
{
    if between.len() == 0 {
        Seq::empty()
    } else if words.len() == 0 {
        between[0]
    } else {
        between[0] + words[0] + interleaved(between.skip(1), words.skip(1))
    }
}

/// The characters of `s` that are not whitespace, in order.
pub open spec fn visible(s: Seq<char>) -> Seq<char> {
    s.filter(|c: char| !whitespace(c))
}

/// The whitespace that `s` begins with is whitespace, and what follows it is not.
proof fn lemma_space_len_holds(s: Seq<char>)
    ensures
        space_len(s) <= s.len(),
        forall|i: int| 0 <= i < space_len(s) ==> whitespace(#[trigger] s[i]),
        space_len(s) < s.len() ==> !whitespace(s[space_len(s) as int]),
    decreases s.len(),
{
    if s.len() > 0 && whitespace(s[0]) {
        let rest = s.skip(1);
        lemma_space_len_holds(rest);
        assert forall|i: int| 0 <= i < space_len(s) implies whitespace(#[trigger] s[i]) by {
            if i > 0 {
                assert(s[i] == rest[i - 1]);
            }
        }
        if space_len(s) < s.len() {
            assert(s[space_len(s) as int] == rest[space_len(rest) as int]);
        }
    }
}

/// The word that `s` begins with is made of letters and numbers.
proof fn lemma_word_len_holds(s: Seq<char>)
    ensures
        word_len(s) <= s.len(),
        forall|i: int| 0 <= i < word_len(s) ==> alphanumeric(#[trigger] s[i]),
    decreases s.len(),
{
    if s.len() > 0 && alphanumeric(s[0]) {
        let rest = s.skip(1);
        lemma_word_len_holds(rest);
        assert forall|i: int| 0 <= i < word_len(s) implies alphanumeric(#[trigger] s[i]) by {
            if i > 0 {
                assert(s[i] == rest[i - 1]);
            }
        }
    }
}

/// The number that `s` begins with is made of numbers.
proof fn lemma_number_len_holds(s: Seq<char>)
    ensures
        number_len(s) <= s.len(),
        forall|i: int| 0 <= i < number_len(s) ==> numeric(#[trigger] s[i]),
    decreases s.len(),
{
    if s.len() > 0 && numeric(s[0]) {
        let rest = s.skip(1);
        lemma_number_len_holds(rest);
        assert forall|i: int| 0 <= i < number_len(s) implies numeric(#[trigger] s[i]) by {
            if i > 0 {
                assert(s[i] == rest[i - 1]);
            }
        }
    }
}

/// If the first `n` characters of `s` are whitespace and the next one is not,
/// the leading whitespace of `s` is those `n` characters.
proof fn lemma_space_len_is(s: Seq<char>, n: nat)
    requires
        n <= s.len(),
        forall|i: int| 0 <= i < n ==> whitespace(#[trigger] s[i]),
        n < s.len() ==> !whitespace(s[n as int]),
    ensures
        space_len(s) == n,
    decreases n,
{
    if n > 0 {
        let rest = s.skip(1);
        assert forall|i: int| 0 <= i < n - 1 implies whitespace(#[trigger] rest[i]) by {
            assert(rest[i] == s[i + 1]);
        }
        lemma_space_len_is(rest, (n - 1) as nat);
    }
}

/// If the first `n` characters of `s` are letters or numbers and the next one
/// is not, the leading word of `s` is those `n` characters.
proof fn lemma_word_len_is(s: Seq<char>, n: nat)
    requires
        n <= s.len(),
        forall|i: int| 0 <= i < n ==> alphanumeric(#[trigger] s[i]),
        n < s.len() ==> !alphanumeric(s[n as int]),
    ensures
        word_len(s) == n,
    decreases n,
{
    if n > 0 {
        let rest = s.skip(1);
        assert forall|i: int| 0 <= i < n - 1 implies alphanumeric(#[trigger] rest[i]) by {
            assert(rest[i] == s[i + 1]);
        }
        lemma_word_len_is(rest, (n - 1) as nat);
    }
}

/// If the first `n` characters of `s` are numbers and the next one is not,
/// the leading number of `s` is those `n` characters.
proof fn lemma_number_len_is(s: Seq<char>, n: nat)
    requires
        n <= s.len(),
        forall|i: int| 0 <= i < n ==> numeric(#[trigger] s[i]),
        n < s.len() ==> !numeric(s[n as int]),
    ensures
        number_len(s) == n,
    decreases n,
{
    if n > 0 {
        let rest = s.skip(1);
        assert forall|i: int| 0 <= i < n - 1 implies numeric(#[trigger] rest[i]) by {
            assert(rest[i] == s[i + 1]);
        }
        lemma_number_len_is(rest, (n - 1) as nat);
    }
}

/// Where text is left after trimming, the first lexeme is not empty, lies
/// within the trimmed text, and what follows it is shorter than the text.
pub proof fn lemma_lexeme_bounds(s: Seq<char>)
    requires
        trimmed(s).len() > 0,
    ensures
        trimmed(s).len() <= s.len(),
        1 <= lexeme_len(trimmed(s)) <= trimmed(s).len(),
        first_lexeme(s).len() == lexeme_len(trimmed(s)),
        after_first(s).len() < s.len(),
{
    lemma_space_len_holds(s);
    let t = trimmed(s);
    lemma_word_len_holds(t);
    lemma_number_len_holds(t);
}

/// The terms of a text are the term of its first lexeme followed by the terms
/// of what comes after it; a text of whitespace alone has none.
pub proof fn lemma_terms_unfold(s: Seq<char>)
    ensures
        trimmed(s).len() == 0 ==> terms(s) == Seq::<Seq<char>>::empty(),
        trimmed(s).len() > 0 ==> terms(s) == seq![term_of(first_lexeme(s))] + terms(
            after_first(s),
        ),
{
    if trimmed(s).len() == 0 {
        assert(terms(s) =~= Seq::<Seq<char>>::empty());
    } else {
        let rest = lexemes(after_first(s));
        assert(lexemes(s) == seq![first_lexeme(s)] + rest);
        assert(terms(s) =~= seq![term_of(first_lexeme(s))] + terms(after_first(s)));
    }
}

/// A text has at most as many terms as it has characters.
pub proof fn lemma_terms_len_bound(s: Seq<char>)
    ensures
        terms(s).len() == lexemes(s).len(),
        lexemes(s).len() <= s.len(),
    decreases s.len(),
{
    if trimmed(s).len() > 0 {
        lemma_lexeme_bounds(s);
        lemma_terms_len_bound(after_first(s));
    }
}

/// A cursor over the characters of a text that yields its terms one by one.
pub struct Lexer<'a> {
    content: &'a [char],
}

impl<'a> View for Lexer<'a> {
    type V = Seq<char>;

    /// The characters not yet consumed.
    closed spec fn view(&self) -> Seq<char> {
        self.content@
    }
}

impl<'a> Lexer<'a> {
    /// A lexer at the start of `content`.
    pub fn new(content: &'a [char]) -> (lexer: Self)
        ensures
            lexer@ == content@,
    {
        Self { content }
    }

    /// Skips the whitespace that the remaining text begins with.
    pub fn trim_left(&mut self)
        ensures
            final(self)@ == trimmed(old(self)@),
    {
        let ghost start = self.content@;
        let mut i: usize = 0;
        while i < self.content.len() && self.content[i].is_whitespace()
            invariant
                self.content@ == start,
                i <= start.len(),
                forall|j: int| 0 <= j < i ==> whitespace(#[trigger] start[j]),
            decreases start.len() - i,
        {
            i += 1;
        }
        proof {
            lemma_space_len_is(start, i as nat);
        }
        self.content = slice_subrange(self.content, i, self.content.len());
    }

    /// Consumes the longest run of leading characters that `predicate` accepts
    /// and returns it.
    pub fn chop_while<P: Fn(&char) -> bool>(&mut self, predicate: P) -> (token: &'a [char])
        requires
            forall|c: char| #[trigger] predicate.requires((&c,)),
        ensures
            token@ + final(self)@ == old(self)@,
            forall|i: int| 0 <= i < token@.len() ==> predicate.ensures((&#[trigger] token@[i],), true),
            final(self)@.len() > 0 ==> predicate.ensures((&final(self)@[0],), false),
    {
        let ghost start = self.content@;
        let mut i: usize = 0;
        loop
            invariant
                self.content@ == start,
                i <= start.len(),
                forall|c: char| #[trigger] predicate.requires((&c,)),
                forall|j: int| 0 <= j < i ==> predicate.ensures((&#[trigger] start[j],), true),
            ensures
                i < start.len() ==> predicate.ensures((&start[i as int],), false),
            decreases start.len() - i,
        {
            if i >= self.content.len() {
                break;
            }
            let accepted = predicate(&self.content[i]);
            if !accepted {
                break;
            }
            i += 1;
        }
        let token = self.chop(i);
        assert(token@ + self.content@ =~= start);
        token
    }

    /// Consumes the first `i` remaining characters and returns them.
    pub fn chop(&mut self, i: usize) -> (token: &'a [char])
        requires
            i <= old(self)@.len(),
        ensures
            token@ == old(self)@.take(i as int),
            final(self)@ == old(self)@.skip(i as int),
    {
        let token = slice_subrange(self.content, 0, i);
        self.content = slice_subrange(self.content, i, self.content.len());
        token
    }

    /// Skips whitespace, then consumes the next lexeme and returns its term;
    /// `None` once nothing but whitespace is left.
    pub fn next_token(&mut self) -> (term: Option<String>)
        ensures
            match term {
                Some(t) => {
                    &&& trimmed(old(self)@).len() > 0
                    &&& t@ == term_of(first_lexeme(old(self)@))
                    &&& t@.len() > 0
                    &&& final(self)@ == after_first(old(self)@)
                },
                None => trimmed(old(self)@).len() == 0 && final(self)@.len() == 0,
            },
    {
        self.trim_left();
        if self.content.len() == 0 {
            return None;
        }
        let ghost rest = self.content@;
        if self.content[0].is_alphabetic() {
            let in_word = |c: &char| -> (b: bool)
                ensures
                    b == alphanumeric(*c),
            {
                c.is_alphanumeric()
            };
            let word = self.chop_while(in_word);
            proof {
                assert(word@.len() <= rest.len());
                lemma_word_len_is(rest, word@.len());
                assert(word@ =~= rest.take(word@.len() as int));
                assert(self.content@ =~= rest.skip(word@.len() as int));
            }
            Some(upper_string_of(word))
        } else if self.content[0].is_numeric() {
            let in_number = |c: &char| -> (b: bool)
                ensures
                    b == numeric(*c),
            {
                c.is_numeric()
            };
            let number = self.chop_while(in_number);
            proof {
                lemma_number_len_is(rest, number@.len());
                assert(number@ =~= rest.take(number@.len() as int));
                assert(self.content@ =~= rest.skip(number@.len() as int));
            }
            Some(string_of(number))
        } else {
            let symbol = self.chop(1);
            Some(string_of(symbol))
        }
    }
}

/// The terms of `text`, in order.
pub fn tokenize(text: &str) -> (out: Vec<String>)
    ensures
        out.deep_view() == terms(text@),
        forall|i: int| 0 <= i < out.len() ==> (#[trigger] out[i])@.len() > 0,
{
    let chars = chars_of(text);
    let mut lexer = Lexer::new(chars.as_slice());
    let mut out: Vec<String> = Vec::new();
    assert(out.deep_view() + terms(lexer@) =~= terms(text@));
    loop
        invariant
            out.deep_view() + terms(lexer@) == terms(text@),
            forall|i: int| 0 <= i < out.len() ==> (#[trigger] out[i])@.len() > 0,
        ensures
            out.deep_view() == terms(text@),
            forall|i: int| 0 <= i < out.len() ==> (#[trigger] out[i])@.len() > 0,
        decreases lexer@.len(),
    {
        let ghost before = lexer@;
        let ghost done = out.deep_view();
        proof {
            lemma_terms_unfold(before);
        }
        match lexer.next_token() {
            Some(term) => {
                proof {
                    lemma_lexeme_bounds(before);
                }
                out.push(term);
                assert(out.deep_view() =~= done.push(term@));
                assert(done.push(term@) + terms(lexer@) =~= done + terms(before));
            },
            None => {
                assert(done + terms(before) =~= done);
                break;
            },
        }
    }
    out
}

/// No lexeme is empty, and neither is any term.
pub proof fn lemma_terms_not_empty(s: Seq<char>, i: int)
    requires
        0 <= i < lexemes(s).len(),
    ensures
        terms(s).len() == lexemes(s).len(),
        lexemes(s)[i].len() > 0,
        terms(s)[i].len() > 0,
    decreases s.len(),
{
    lemma_lexeme_bounds(s);
    if i > 0 {
        lemma_terms_not_empty(after_first(s), i - 1);
    }
}

/// A text is its lexemes in order with its runs of whitespace between
/// them, and those runs hold whitespace only: the lexer consumes the whole
/// text, and what it leaves out of the lexemes is whitespace.
pub proof fn lemma_text_is_gaps_and_lexemes(s: Seq<char>)
    ensures
        gaps(s).len() == lexemes(s).len() + 1,
        forall|i: int, j: int|
            0 <= i < gaps(s).len() && 0 <= j < gaps(s)[i].len() ==> whitespace(
                #[trigger] gaps(s)[i][j],
            ),
        interleaved(gaps(s), lexemes(s)) == s,
    decreases s.len(),
{
    let k = space_len(s) as int;
    lemma_space_len_holds(s);
    if trimmed(s).len() == 0 {
        assert(k == s.len());
        assert(gaps(s)[0] == s);
    } else {
        lemma_lexeme_bounds(s);
        let rest = after_first(s);
        lemma_text_is_gaps_and_lexemes(rest);
        let between = gaps(s);
        let words = lexemes(s);
        assert(between == seq![s.take(k)] + gaps(rest));
        assert(words == seq![first_lexeme(s)] + lexemes(rest));
        assert forall|i: int, j: int|
            0 <= i < between.len() && 0 <= j < between[i].len() implies whitespace(
            #[trigger] between[i][j],
        ) by {
            if i > 0 {
                assert(between[i] == gaps(rest)[i - 1]);
            }
        }
        assert(between.skip(1) =~= gaps(rest));
        assert(words.skip(1) =~= lexemes(rest));
        assert(s.take(k) + first_lexeme(s) + rest =~= s);
    }
}

/// A text of whitespace alone has no visible character.
proof fn lemma_visible_of_spaces(s: Seq<char>)
    requires
        forall|i: int| 0 <= i < s.len() ==> whitespace(#[trigger] s[i]),
    ensures
        visible(s) == Seq::<char>::empty(),
    decreases s.len(),
{
    reveal(Seq::filter);
    if s.len() > 0 {
        lemma_visible_of_spaces(s.drop_last());
    }
}

/// A text without whitespace is visible as a whole.
proof fn lemma_visible_of_solid(s: Seq<char>)
    requires
        forall|i: int| 0 <= i < s.len() ==> !whitespace(#[trigger] s[i]),
    ensures
        visible(s) == s,
    decreases s.len(),
{
    reveal(Seq::filter);
    if s.len() > 0 {
        lemma_visible_of_solid(s.drop_last());
        assert(s.drop_last().push(s.last()) =~= s);
    }
}

/// No lexeme crosses whitespace: it holds no whitespace character.
///
/// Stated, as the next one, for texts in which no letter or number is at
/// the same time whitespace.
pub proof fn lemma_lexemes_hold_no_whitespace(s: Seq<char>, i: int, j: int)
    requires
        forall|k: int| 0 <= k < s.len() ==> !(whitespace(#[trigger] s[k]) && alphanumeric(s[k])),
        0 <= i < lexemes(s).len(),
        0 <= j < lexemes(s)[i].len(),
    ensures
        !whitespace(lexemes(s)[i][j]),
    decreases s.len(),
{
    let k = space_len(s) as int;
    let t = trimmed(s);
    lemma_space_len_holds(s);
    lemma_lexeme_bounds(s);
    lemma_word_len_holds(t);
    lemma_number_len_holds(t);
    let n = lexeme_len(t) as int;
    if i == 0 {
        assert(lexemes(s)[0][j] == t[j]);
        assert(t[j] == s[k + j]);
        assert(t[0] == s[k]);
    } else {
        let tail = after_first(s);
        assert forall|m: int| 0 <= m < tail.len() implies !(whitespace(#[trigger] tail[m])
            && alphanumeric(tail[m])) by {
            assert(tail[m] == s[k + n + m]);
        }
        assert(lexemes(s)[i] == lexemes(tail)[i - 1]);
        lemma_lexemes_hold_no_whitespace(tail, i - 1, j);
    }
}

/// Joined in order, the lexemes of a text are the text without its whitespace:
/// tokenizing drops whitespace and nothing else, and keeps the order.
///
/// Stated for texts in which no letter or number is at the same time
/// whitespace. Unicode has no such character, so this holds of every text;
/// the classes being tables, it is asked for here.
pub proof fn lemma_lexemes_rebuild_text(s: Seq<char>)
    requires
        forall|i: int| 0 <= i < s.len() ==> !(whitespace(#[trigger] s[i]) && alphanumeric(s[i])),
    ensures
        lexemes(s).flatten() == visible(s),
    decreases s.len(),
{
    let k = space_len(s) as int;
    lemma_space_len_holds(s);
    let t = trimmed(s);
    assert(s =~= s.take(k) + t);
    Seq::filter_distributes_over_add(s.take(k), t, |c: char| !whitespace(c));
    lemma_visible_of_spaces(s.take(k));
    assert(visible(s) =~= visible(t));
    if t.len() == 0 {
        reveal(Seq::filter);
    } else {
        lemma_lexeme_bounds(s);
        let n = lexeme_len(t) as int;
        let head = first_lexeme(s);
        let tail = after_first(s);
        lemma_word_len_holds(t);
        lemma_number_len_holds(t);
        assert(t[0] == s[k]);
        assert forall|i: int| 0 <= i < head.len() implies !whitespace(#[trigger] head[i]) by {
            assert(head[i] == t[i]);
            assert(t[i] == s[k + i]);
        }
        assert forall|i: int| 0 <= i < tail.len() implies !(whitespace(#[trigger] tail[i])
            && alphanumeric(tail[i])) by {
            assert(tail[i] == s[k + n + i]);
        }
        lemma_lexemes_rebuild_text(tail);
        assert(t =~= head + tail);
        Seq::filter_distributes_over_add(head, tail, |c: char| !whitespace(c));
        lemma_visible_of_solid(head);
        let all = lexemes(s);
        assert(all == seq![head] + lexemes(tail));
        assert(all.first() == head);
        assert(all.drop_first() =~= lexemes(tail));
    }
}

} // verus!
