//! Text normalization: turning raw text into a sequence of tokens.
//!
//! A token is a maximal run of alphanumeric characters of the lowercased
//! text. Every other character (punctuation as well as whitespace) only
//! separates tokens and appears in none of them.

use vstd::prelude::*;

verus! {

/// The characters that `str::to_lowercase` produces for the characters `s`.
/// The Unicode lowercase mapping takes pages to state, so it is only named
/// here; the name stands for a fixed function of `s` alone.
pub uninterp spec fn lower_of(s: Seq<char>) -> Seq<char>;

/// Whether `char::is_alphanumeric` holds of `c`: whether `c` is a Unicode
/// letter or number. Named rather than spelled out, since the class is given
/// by Unicode tables; the name stands for a fixed predicate on `c` alone.
pub uninterp spec fn alphanumeric(c: char) -> bool;

/// Relies on `str::to_lowercase`: the result is determined by the input
/// characters alone, by the Unicode lowercase mapping.
#[verifier::external_body]
fn lowercase(s: &str) -> (r: String)
    ensures
        r@ == lower_of(s@),
{
    s.to_lowercase()
}

/// Relies on `char::is_alphanumeric`: a pure predicate of the character,
/// true exactly on Unicode letters and numbers.
#[verifier::external_body]
fn is_alphanumeric(c: char) -> (r: bool)
    ensures
        r == alphanumeric(c),
{
    c.is_alphanumeric()
}

/// Relies on `String`'s `FromIterator<char>`: collecting characters yields
/// the string of exactly those characters in order.
#[verifier::external_body]
fn string_from_chars(cs: &Vec<char>) -> (r: String)
    ensures
        r@ == cs@,
{
    cs.iter().collect()
}

/// The tokens of `s` when a (possibly empty) run `cur` of alphanumeric
/// characters is still open to the left of `s`: each maximal alphanumeric
/// run becomes one token, read left to right, and `cur` is the start of the
/// first of them.
pub open spec fn tokens_from(s: Seq<char>, cur: Seq<char>) -> Seq<Seq<char>>
    decreases s.len(),
{
    if s.len() == 0 {
        if cur.len() == 0 {
            Seq::empty()
        } else {
            seq![cur]
        }
    } else if alphanumeric(s[0]) {
        tokens_from(s.drop_first(), cur.push(s[0]))
    } else if cur.len() == 0 {
        tokens_from(s.drop_first(), cur)
    } else {
        seq![cur] + tokens_from(s.drop_first(), Seq::empty())
    }
}

/// The maximal runs of alphanumeric characters of `s`, left to right.
pub open spec fn split_tokens(s: Seq<char>) -> Seq<Seq<char>> {
    tokens_from(s, Seq::empty())
}

/// The tokens of raw text: lowercase it, then split it into maximal
/// alphanumeric runs. This is what `SimpleTokenizer::tokenize` returns.
pub open spec fn tokens_of(text: Seq<char>) -> Seq<Seq<char>> {
    split_tokens(lower_of(text))
}

/// Every character of `t` is alphanumeric.
pub open spec fn all_alphanumeric(t: Seq<char>) -> bool {
    forall|k: int| 0 <= k < t.len() ==> alphanumeric(t[k])
}

pub struct SimpleTokenizer;

impl SimpleTokenizer {
    /// Lowercase `text`, replace every non-alphanumeric character by a
    /// separator, and return the separated words in order of appearance.
    pub fn tokenize(text: &str) -> (r: Vec<String>)
        ensures
            r.deep_view() == tokens_of(text@),
    {
        let lowered = lowercase(text);
        let ls = lowered.as_str();
        let n = ls.unicode_len();
        let mut tokens: Vec<String> = Vec::new();
        let mut cur: Vec<char> = Vec::new();
        let mut i: usize = 0;
        proof {
            assert(ls@.skip(0) =~= ls@);
            assert(tokens.deep_view() + tokens_from(ls@.skip(0), cur@) =~= tokens_of(text@));
        }
        while i < n
            invariant
                n == ls@.len(),
                ls@ == lower_of(text@),
                i <= n,
                tokens.deep_view() + tokens_from(ls@.skip(i as int), cur@) == tokens_of(text@),
            decreases n - i,
        {
            let ghost rest = ls@.skip(i as int);
            proof {
                assert(rest.len() > 0);
                assert(rest[0] == ls@[i as int]);
                assert(rest.drop_first() =~= ls@.skip(i + 1));
            }
            let c = ls.get_char(i);
            if is_alphanumeric(c) {
                cur.push(c);
            } else if cur.len() > 0 {
                let ghost done = cur@;
                let tok = string_from_chars(&cur);
                tokens.push(tok);
                cur.clear();
                proof {
                    assert(tokens.deep_view() =~= tokens.deep_view().drop_last() + seq![done]);
                    assert((tokens.deep_view().drop_last() + seq![done]) + tokens_from(
                        ls@.skip(i + 1),
                        cur@,
                    ) =~= tokens.deep_view().drop_last() + (seq![done] + tokens_from(
                        ls@.skip(i + 1),
                        cur@,
                    )));
                }
            }
            i += 1;
        }
        proof {
            assert(ls@.skip(n as int) =~= Seq::<char>::empty());
        }
        if cur.len() > 0 {
            let tok = string_from_chars(&cur);
            let ghost done = cur@;
            tokens.push(tok);
            proof {
                assert(tokens.deep_view() =~= tokens.deep_view().drop_last() + seq![done]);
            }
        } else {
            proof {
                assert(tokens.deep_view() + tokens_from(Seq::<char>::empty(), cur@)
                    =~= tokens.deep_view());
            }
        }
        tokens
    }
}

/// Tokenizing is deterministic: two runs on the same text yield the same
/// token sequence, since the result is a function of the text alone.
pub proof fn lemma_tokenize_deterministic(text: Seq<char>, r1: Seq<Seq<char>>, r2: Seq<Seq<char>>)
    requires
        r1 == tokens_of(text),
        r2 == tokens_of(text),
    ensures
        r1 == r2,
{
}

proof fn lemma_tokens_from_alphanumeric(s: Seq<char>, cur: Seq<char>)
    requires
        all_alphanumeric(cur),
    ensures
        forall|i: int|
            0 <= i < tokens_from(s, cur).len() ==> all_alphanumeric(
                #[trigger] tokens_from(s, cur)[i],
            ),
    decreases s.len(),
{
    if s.len() == 0 {
        if cur.len() != 0 {
            assert(tokens_from(s, cur)[0] == cur);
        }
    } else if alphanumeric(s[0]) {
        assert(all_alphanumeric(cur.push(s[0])));
        lemma_tokens_from_alphanumeric(s.drop_first(), cur.push(s[0]));
        assert(tokens_from(s, cur) == tokens_from(s.drop_first(), cur.push(s[0])));
    } else if cur.len() == 0 {
        lemma_tokens_from_alphanumeric(s.drop_first(), cur);
        assert(tokens_from(s, cur) == tokens_from(s.drop_first(), cur));
    } else {
        lemma_tokens_from_alphanumeric(s.drop_first(), Seq::empty());
        assert((seq![cur] + tokens_from(s.drop_first(), Seq::empty()))[0] == cur);
        assert(forall|i: int|
            1 <= i < (seq![cur] + tokens_from(s.drop_first(), Seq::empty())).len()
                ==> (seq![cur] + tokens_from(s.drop_first(), Seq::empty()))[i] == tokens_from(
                s.drop_first(),
                Seq::empty(),
            )[i - 1]);
    }
}

/// Every token of any text consists of alphanumeric characters only: the
/// separators (punctuation and whitespace) appear in no token.
pub proof fn lemma_tokens_alphanumeric(text: Seq<char>)
    ensures
        forall|i: int|
            0 <= i < tokens_of(text).len() ==> all_alphanumeric(#[trigger] tokens_of(text)[i]),
{
    lemma_tokens_from_alphanumeric(lower_of(text), Seq::empty());
}

} // verus!
