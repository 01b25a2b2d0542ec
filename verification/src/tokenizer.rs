//! Text normalization and tokenization.
//!
//! A token is a maximal run of word characters (alphanumeric or underscore,
//! Unicode-aware) of the lower-cased input; empty fragments are dropped and
//! tokens keep their left-to-right order of occurrence.

use vstd::prelude::*;

verus! {

/// What `char::is_alphanumeric` returns: a fact of the character alone.
pub uninterp spec fn is_alnum(c: char) -> bool;

/// What `str::to_lowercase` returns: a function of the characters alone.
pub uninterp spec fn lower_of(s: Seq<char>) -> Seq<char>;

/// A word character: alphanumeric or underscore.
pub open spec fn is_word_char(c: char) -> bool {
    is_alnum(c) || c == '_'
}

/// Relies on `char::is_alphanumeric`: whether the character is alphanumeric,
/// a property of the character alone.
#[verifier::external_body]
fn char_alnum(c: char) -> (r: bool)
    ensures
        r == is_alnum(c),
{
    c.is_alphanumeric()
}

/// Relies on `str::to_lowercase`: the result depends on the characters alone,
/// and an empty string stays empty.
#[verifier::external_body]
pub(crate) fn lowercase(s: &str) -> (r: String)
    ensures
        r@ == lower_of(s@),
        s@.len() == 0 ==> r@.len() == 0,
{
    s.to_lowercase()
}

/// Relies on `str::chars` and `Vec::from_iter`: collects the characters of
/// the string, in order.
#[verifier::external_body]
pub(crate) fn chars_of(s: &str) -> (r: Vec<char>)
    ensures
        r@ == s@,
{
    s.chars().collect()
}

/// Relies on `String::from_iter`: builds the string holding exactly the given
/// characters, in order.
#[verifier::external_body]
fn string_from_chars(cs: &Vec<char>) -> (r: String)
    ensures
        r@ == cs@,
{
    cs.iter().collect()
}

/// One tokenizing step over the characters, left to right: a word character
/// extends the current word; a separator closes a non-empty current word and
/// is otherwise skipped.
pub open spec fn split_step(done: Seq<Seq<char>>, cur: Seq<char>, c: char) -> (Seq<Seq<char>>, Seq<
    char,
>) {
    if is_word_char(c) {
        (done, cur.push(c))
    } else if cur.len() > 0 {
        (done.push(cur), Seq::empty())
    } else {
        (done, cur)
    }
}

/// The tokenizing state after reading all of `s`: the closed words and the
/// still-open trailing word.
pub open spec fn split_state(s: Seq<char>) -> (Seq<Seq<char>>, Seq<char>)
    decreases s.len(),
{
    if s.len() == 0 {
        (Seq::empty(), Seq::empty())
    } else {
        let p = split_state(s.drop_last());
        split_step(p.0, p.1, s.last())
    }
}

/// The maximal runs of word characters of `s`, in order of occurrence.
pub open spec fn split_words(s: Seq<char>) -> Seq<Seq<char>> {
    let st = split_state(s);
    if st.1.len() > 0 {
        st.0.push(st.1)
    } else {
        st.0
    }
}

/// The token sequence of a text: lower-cased, then split on every maximal run
/// of non-word characters.
pub open spec fn tokens_of(s: Seq<char>) -> Seq<Seq<char>> {
    split_words(lower_of(s))
}

/// The views of a sequence of strings.
pub open spec fn views_of(ts: Seq<String>) -> Seq<Seq<char>> {
    ts.map_values(|t: String| t@)
}

/// Splits free text into normalized tokens: lower-cases the input, then splits
/// on every maximal run of non-word characters, dropping empty fragments.
/// Duplicates are kept; ordering follows the source text.
pub fn tokenize(s: &str) -> (r: Vec<String>)
    ensures
        views_of(r@) == tokens_of(s@),
        s@.len() == 0 ==> r@.len() == 0,
{
    let low = lowercase(s);
    let cs = chars_of(low.as_str());
    let mut done: Vec<String> = Vec::new();
    let mut cur: Vec<char> = Vec::new();
    let mut i: usize = 0;
    proof {
        assert(views_of(done@) =~= Seq::<Seq<char>>::empty());
        assert(cs@.take(0) =~= Seq::<char>::empty());
    }
    while i < cs.len()
        invariant
            i <= cs.len(),
            cs@ == lower_of(s@),
            (views_of(done@), cur@) == split_state(cs@.take(i as int)),
        decreases cs.len() - i,
    {
        let ghost prev_done = views_of(done@);
        let ghost prev_cur = cur@;
        let c = cs[i];
        if char_alnum(c) || c == '_' {
            cur.push(c);
        } else if cur.len() > 0 {
            let w = string_from_chars(&cur);
            done.push(w);
            cur = Vec::new();
            proof {
                assert(views_of(done@) =~= prev_done.push(prev_cur));
            }
        }
        proof {
            let t = cs@.take(i + 1);
            assert(t.drop_last() =~= cs@.take(i as int));
            assert(t.last() == cs@[i as int]);
        }
        i = i + 1;
    }
    proof {
        assert(cs@.take(cs@.len() as int) =~= cs@);
    }
    if cur.len() > 0 {
        let w = string_from_chars(&cur);
        done.push(w);
        proof {
            assert(views_of(done@) =~= split_state(cs@).0.push(split_state(cs@).1));
        }
    }
    done
}

} // verus!
