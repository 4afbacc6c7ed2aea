//! The tokenizer: raw text to an ordered sequence of normalized terms.
//!
//! A text is cut at runs of white space. Of each fragment only the
//! alphanumeric characters and the math symbols stay, in lower case. A
//! fragment of which nothing stays, or only math symbols, yields no term.

use vstd::prelude::*;
use crate::strings::{unicode_whitespace, unicode_alphanumeric, unicode_lowercase, lowercase_of};

verus! {

/// The math symbols that a term keeps beside alphanumeric characters.
pub open spec fn math_symbol(c: char) -> bool {
    c == '+' || c == '-' || c == '*' || c == '/' || c == '=' || c == '<' || c == '>'
}

/// What the tokenizer has to know of one character of the text.
#[derive(Debug)]
pub struct CharInfo {
    /// The character itself.
    pub value: char,
    /// Whether it separates fragments.
    pub whitespace: bool,
    /// Whether it is a letter or a digit.
    pub alphanumeric: bool,
    /// The characters that stand for it in lower case.
    pub lowercase: Vec<char>,
    /// Whether one of those characters is a letter or a digit.
    pub lowercase_alphanumeric: bool,
}

/// The mathematical value of a `CharInfo`.
pub struct CharFacts {
    pub value: char,
    pub whitespace: bool,
    pub alphanumeric: bool,
    pub lowercase: Seq<char>,
    pub lowercase_alphanumeric: bool,
}

impl View for CharInfo {
    type V = CharFacts;

    open spec fn view(&self) -> CharFacts {
        CharFacts {
            value: self.value,
            whitespace: self.whitespace,
            alphanumeric: self.alphanumeric,
            lowercase: self.lowercase@,
            lowercase_alphanumeric: self.lowercase_alphanumeric,
        }
    }
}

impl DeepView for CharInfo {
    type V = CharFacts;

    open spec fn deep_view(&self) -> CharFacts {
        self@
    }
}

/// The facts about `c` as Unicode has them.
pub open spec fn facts_of(c: char) -> CharFacts {
    CharFacts {
        value: c,
        whitespace: unicode_whitespace(c),
        alphanumeric: unicode_alphanumeric(c),
        lowercase: unicode_lowercase(c),
        lowercase_alphanumeric: exists|k: int|
            0 <= k < unicode_lowercase(c).len() && unicode_alphanumeric(
                #[trigger] unicode_lowercase(c)[k],
            ),
    }
}

/// Whether a character stays in its fragment.
pub open spec fn stays(f: CharFacts) -> bool {
    f.alphanumeric || math_symbol(f.value)
}

/// What one character adds to the term of its fragment.
pub open spec fn contribution(f: CharFacts) -> Seq<char> {
    if stays(f) {
        f.lowercase
    } else {
        Seq::empty()
    }
}

/// Whether a character puts a letter or a digit into the term of its fragment.
pub open spec fn counts(f: CharFacts) -> bool {
    stays(f) && f.lowercase_alphanumeric
}

/// The length of the fragment that `s` starts with: the number of characters
/// before the first white space.
pub open spec fn fragment_len(s: Seq<CharFacts>) -> nat
    decreases s.len(),
{
    if s.len() == 0 || s[0].whitespace {
        0
    } else {
        1 + fragment_len(s.drop_first())
    }
}

/// The term of a fragment: what its characters add, one after the other.
pub open spec fn fragment_term(f: Seq<CharFacts>) -> Seq<char>
    decreases f.len(),
{
    if f.len() == 0 {
        Seq::empty()
    } else {
        fragment_term(f.drop_last()) + contribution(f.last())
    }
}

/// Whether the term of a fragment holds a letter or a digit.
pub open spec fn fragment_has_alphanumeric(f: Seq<CharFacts>) -> bool {
    exists|k: int| 0 <= k < f.len() && counts(#[trigger] f[k])
}

/// Whether a fragment yields a term.
pub open spec fn fragment_is_term(f: Seq<CharFacts>) -> bool {
    fragment_term(f).len() > 0 && fragment_has_alphanumeric(f)
}

/// The terms of a text, in the order of the text.
pub open spec fn terms_of(s: Seq<CharFacts>) -> Seq<Seq<char>>
    decreases s.len(),
    via terms_of_decreases
{
    if s.len() == 0 {
        Seq::empty()
    } else if s[0].whitespace {
        terms_of(s.drop_first())
    } else {
        let n = fragment_len(s) as int;
        let fragment = s.take(n);
        if fragment_is_term(fragment) {
            seq![fragment_term(fragment)] + terms_of(s.skip(n))
        } else {
            terms_of(s.skip(n))
        }
    }
}

#[via_fn]
proof fn terms_of_decreases(s: Seq<CharFacts>) {
    if s.len() > 0 && !s[0].whitespace {
        lemma_fragment_len_bounds(s);
    }
}

/// A fragment ends within its text, and holds the first character unless
/// that is white space.
pub proof fn lemma_fragment_len_bounds(s: Seq<CharFacts>)
    ensures
        fragment_len(s) <= s.len(),
        s.len() > 0 && !s[0].whitespace ==> fragment_len(s) >= 1,
    decreases s.len(),
{
    if s.len() > 0 && !s[0].whitespace {
        lemma_fragment_len_bounds(s.drop_first());
    }
}

/// The term of a fragment that yields one is not empty.
pub proof fn lemma_terms_not_empty(s: Seq<CharFacts>)
    ensures
        forall|i: int| 0 <= i < terms_of(s).len() ==> (#[trigger] terms_of(s)[i]).len() > 0,
    decreases s.len(),
{
    let all = terms_of(s);
    if s.len() == 0 {
        assert(all.len() == 0);
    } else if s[0].whitespace {
        lemma_terms_not_empty(s.drop_first());
        assert(all == terms_of(s.drop_first()));
    } else {
        lemma_fragment_len_bounds(s);
        let n = fragment_len(s) as int;
        let rest = terms_of(s.skip(n));
        lemma_terms_not_empty(s.skip(n));
        if fragment_is_term(s.take(n)) {
            assert(all == seq![fragment_term(s.take(n))] + rest);
            assert forall|i: int| 0 <= i < all.len() implies (#[trigger] all[i]).len() > 0 by {
                if i > 0 {
                    assert(all[i] == rest[i - 1]);
                }
            }
        } else {
            assert(all == rest);
        }
    }
}

/// A text in which no character puts a letter or a digit into a term has no
/// terms: the empty text, white space, and fragments of math symbols and
/// punctuation alone.
pub proof fn lemma_terms_need_alphanumeric(s: Seq<CharFacts>)
    requires
        forall|i: int| 0 <= i < s.len() ==> !counts(#[trigger] s[i]),
    ensures
        terms_of(s).len() == 0,
    decreases s.len(),
{
    if s.len() > 0 {
        if s[0].whitespace {
            let rest = s.drop_first();
            assert forall|i: int| 0 <= i < rest.len() implies !counts(#[trigger] rest[i]) by {
                assert(rest[i] == s[i + 1]);
            }
            lemma_terms_need_alphanumeric(rest);
        } else {
            lemma_fragment_len_bounds(s);
            let n = fragment_len(s) as int;
            let rest = s.skip(n);
            assert forall|i: int| 0 <= i < rest.len() implies !counts(#[trigger] rest[i]) by {
                assert(rest[i] == s[i + n]);
            }
            lemma_terms_need_alphanumeric(rest);
            let fragment = s.take(n);
            if fragment_has_alphanumeric(fragment) {
                let k = choose|k: int| 0 <= k < fragment.len() && counts(#[trigger] fragment[k]);
                assert(fragment[k] == s[k]);
            }
        }
    }
}

/// The terms of a text as the standard library's Unicode tables give them.
pub open spec fn tokens(text: Seq<char>) -> Seq<Seq<char>> {
    terms_of(text.map_values(|c: char| facts_of(c)))
}

pub fn is_math_symbol(c: char) -> (r: bool)
    ensures
        r == math_symbol(c),
{
    c == '+' || c == '-' || c == '*' || c == '/' || c == '=' || c == '<' || c == '>'
}

/// Looks up what the tokenizer has to know of `c`.
pub fn classify(c: char) -> (info: CharInfo)
    ensures
        info@ == facts_of(c),
{
    let lowercase = lowercase_of(c);
    let mut found = false;
    let mut k: usize = 0;
    while k < lowercase.len()
        invariant
            k <= lowercase.len(),
            lowercase@ == unicode_lowercase(c),
            found == exists|j: int| 0 <= j < k && unicode_alphanumeric(#[trigger] lowercase@[j]),
        decreases lowercase.len() - k,
    {
        if lowercase[k].is_alphanumeric() {
            found = true;
        }
        k += 1;
    }
    CharInfo {
        value: c,
        whitespace: c.is_whitespace(),
        alphanumeric: c.is_alphanumeric(),
        lowercase,
        lowercase_alphanumeric: found,
    }
}

/// Classifies every character of a text, in order.
pub fn classify_text(text: &str) -> (infos: Vec<CharInfo>)
    ensures
        infos.deep_view() == text@.map_values(|c: char| facts_of(c)),
{
    let mut infos: Vec<CharInfo> = Vec::new();
    for c in it: text.chars()
        invariant
            it.seq() == text@,
            infos.len() == it.index(),
            forall|j: int| 0 <= j < infos.len() ==> (#[trigger] infos[j])@ == facts_of(text@[j]),
    {
        let info = classify(c);
        infos.push(info);
    }
    assert(infos.deep_view() =~= text@.map_values(|c: char| facts_of(c)));
    infos
}

/// The length of a fragment is known once its end is found.
proof fn lemma_fragment_len_is(s: Seq<CharFacts>, n: int)
    requires
        0 <= n <= s.len(),
        forall|k: int| 0 <= k < n ==> !(#[trigger] s[k]).whitespace,
        n == s.len() || s[n].whitespace,
    ensures
        fragment_len(s) == n,
    decreases n,
{
    if n > 0 {
        let rest = s.drop_first();
        assert forall|k: int| 0 <= k < n - 1 implies !(#[trigger] rest[k]).whitespace by {
            assert(rest[k] == s[k + 1]);
        }
        lemma_fragment_len_is(rest, n - 1);
    }
}

/// Appends the characters of `chars` to `term`.
fn push_chars(term: &mut String, chars: &Vec<char>)
    ensures
        final(term)@ == old(term)@ + chars@,
{
    let mut k: usize = 0;
    while k < chars.len()
        invariant
            k <= chars.len(),
            term@ == old(term)@ + chars@.take(k as int),
        decreases chars.len() - k,
    {
        term.push(chars[k]);
        assert(chars@.take(k + 1) =~= chars@.take(k as int).push(chars@[k as int]));
        k += 1;
    }
    assert(chars@.take(k as int) =~= chars@);
}

/// The terms of a text whose characters are classified: see `terms_of`.
pub fn words_of_chars(chars: &Vec<CharInfo>) -> (words: Vec<String>)
    ensures
        words.deep_view() == terms_of(chars.deep_view()),
{
    let ghost all = chars.deep_view();
    let mut words: Vec<String> = Vec::new();
    let mut i: usize = 0;
    assert(all.skip(0) =~= all);
    while i < chars.len()
        invariant
            i <= chars.len(),
            all == chars.deep_view(),
            words.deep_view() + terms_of(all.skip(i as int)) == terms_of(all),
        decreases chars.len() - i,
    {
        let ghost rest = all.skip(i as int);
        let ghost before = words.deep_view();
        assert(rest[0] == chars[i as int]@);
        if chars[i].whitespace {
            assert(rest.drop_first() =~= all.skip(i + 1));
            i += 1;
        } else {
            let start: usize = i;
            let mut term = String::new();
            let mut has_alphanumeric = false;
            while i < chars.len() && !chars[i].whitespace
                invariant
                    start <= i <= chars.len(),
                    all == chars.deep_view(),
                    forall|k: int| start <= k < i ==> !(#[trigger] all[k]).whitespace,
                    term@ == fragment_term(all.subrange(start as int, i as int)),
                    has_alphanumeric == fragment_has_alphanumeric(
                        all.subrange(start as int, i as int),
                    ),
                decreases chars.len() - i,
            {
                let ghost so_far = all.subrange(start as int, i as int);
                let ghost longer = all.subrange(start as int, i + 1);
                assert(longer.drop_last() =~= so_far);
                assert(longer.last() == chars[i as int]@);
                if chars[i].alphanumeric || is_math_symbol(chars[i].value) {
                    push_chars(&mut term, &chars[i].lowercase);
                    if chars[i].lowercase_alphanumeric {
                        has_alphanumeric = true;
                    }
                }
                proof {
                    if fragment_has_alphanumeric(so_far) {
                        let k = choose|k: int| 0 <= k < so_far.len() && counts(#[trigger] so_far[k]);
                        assert(longer[k] == so_far[k]);
                    }
                    if counts(longer.last()) {
                        assert(longer[longer.len() - 1] == longer.last());
                    }
                    if fragment_has_alphanumeric(longer) {
                        let k = choose|k: int| 0 <= k < longer.len() && counts(#[trigger] longer[k]);
                        if k < so_far.len() {
                            assert(so_far[k] == longer[k]);
                        }
                    }
                }
                i += 1;
            }
            proof {
                let n = i - start;
                assert forall|k: int| 0 <= k < n implies !(#[trigger] rest[k]).whitespace by {
                    assert(rest[k] == all[start + k]);
                }
                if n < rest.len() {
                    assert(rest[n] == all[i as int]);
                }
                lemma_fragment_len_is(rest, n);
                assert(rest.take(n) =~= all.subrange(start as int, i as int));
                assert(rest.skip(n) =~= all.skip(i as int));
            }
            if !term.as_str().is_empty() && has_alphanumeric {
                words.push(term);
                assert(words.deep_view() =~= before + seq![term@]);
                assert((before + seq![term@]) + terms_of(all.skip(i as int)) =~= before + (seq![
                    term@,
                ] + terms_of(all.skip(i as int))));
            }
        }
    }
    assert(all.skip(i as int) =~= Seq::<CharFacts>::empty());
    assert(words.deep_view() + Seq::<Seq<char>>::empty() =~= words.deep_view());
    words
}

/// Turns a text into its terms: the pieces between white space, each reduced
/// to its alphanumeric characters and math symbols in lower case, without
/// those that hold no letter or digit.
pub fn collect_words_in_document(document: &String) -> (words: Vec<String>)
    ensures
        words.deep_view() == tokens(document@),
        forall|i: int| 0 <= i < words.len() ==> (#[trigger] words[i])@.len() > 0,
{
    let chars = classify_text(document.as_str());
    let words = words_of_chars(&chars);
    proof {
        lemma_terms_not_empty(chars.deep_view());
        assert forall|i: int| 0 <= i < words.len() implies (#[trigger] words[i])@.len() > 0 by {
            assert(words.deep_view()[i] == words[i]@);
        }
    }
    words
}

} // verus!
