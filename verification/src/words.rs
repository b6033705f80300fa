//! Words of a transcript: cutting a text at white space, and dropping words
//! said twice in a row.

use vstd::prelude::*;
use vstd::string::*;
use crate::text::{
    chars_of, is_white_space, is_whitespace, join, join_spec, lowercase_of, string_of,
    to_lowercase, views,
};

verus! {

/// The words of a text: the longest runs of characters that are not white
/// space, in order.
pub open spec fn words_spec(s: Seq<char>) -> Seq<Seq<char>>
    decreases s.len(),
{
    if s.len() == 0 {
        Seq::empty()
    } else {
        let before = words_spec(s.drop_last());
        let c = s.last();
        if is_white_space(c) {
            before
        } else if s.len() >= 2 && !is_white_space(s[s.len() - 2]) {
            before.drop_last().push(before.last().push(c))
        } else {
            before.push(seq![c])
        }
    }
}

/// The lower-case form of each word.
pub open spec fn lowercase_words(words: Seq<Seq<char>>) -> Seq<Seq<char>> {
    Seq::new(words.len(), |i: int| lowercase_of(words[i]))
}

/// The first `n` words without those whose key is the key of the word just
/// before them.
pub open spec fn kept_words(words: Seq<Seq<char>>, keys: Seq<Seq<char>>, n: int) -> Seq<
    Seq<char>,
>
    decreases n,
{
    if n <= 0 {
        Seq::empty()
    } else {
        let before = kept_words(words, keys, n - 1);
        if n == 1 || keys[n - 1] != keys[n - 2] {
            before.push(words[n - 1])
        } else {
            before
        }
    }
}

/// The words of `text`, in order.
pub fn split_words(text: &str) -> (words: Vec<String>)
    ensures
        views(words@) == words_spec(text@),
{
    let chars = chars_of(text);
    let len: usize = chars.len();
    let mut words: Vec<String> = Vec::new();
    // Start of the word that is being read, if one is.
    let mut start: usize = 0;
    let mut inside: bool = false;
    let mut i: usize = 0;
    assert(chars@.take(0) =~= Seq::<char>::empty());
    while i < len
        invariant
            i <= len,
            len == chars.len(),
            chars@ == text@,
            start <= i,
            inside ==> start < i,
            inside == (i > 0 && !is_white_space(chars@[i - 1])),
            inside ==> words_spec(chars@.take(i as int)) == views(words@).push(
                chars@.subrange(start as int, i as int),
            ),
            !inside ==> words_spec(chars@.take(i as int)) == views(words@),
        decreases len - i,
    {
        let c = chars[i];
        let ghost seen = chars@.take(i as int);
        let ghost grown = chars@.take(i + 1);
        proof {
            assert(grown.drop_last() =~= seen);
            assert(grown.last() == c);
            if i > 0 {
                assert(grown[grown.len() - 2] == chars@[i - 1]);
            }
        }
        if is_whitespace(c) {
            if inside {
                let ghost before = views(words@);
                words.push(string_of(&chars, start, i));
                assert(views(words@) =~= before.push(chars@.subrange(start as int, i as int)));
                inside = false;
            }
        } else {
            if inside {
                proof {
                    let before = words_spec(seen);
                    assert(before.drop_last() =~= views(words@));
                    assert(before.last().push(c) =~= chars@.subrange(start as int, i + 1));
                }
            } else {
                start = i;
                inside = true;
                assert(seq![c] =~= chars@.subrange(i as int, i + 1));
            }
        }
        i = i + 1;
    }
    assert(chars@.take(len as int) =~= chars@);
    if inside {
        let ghost before = views(words@);
        words.push(string_of(&chars, start, len));
        assert(views(words@) =~= before.push(chars@.subrange(start as int, len as int)));
    }
    words
}

/// The lower-case form of each word.
pub fn lowercase_each(words: &Vec<String>) -> (keys: Vec<String>)
    ensures
        views(keys@) == lowercase_words(views(words@)),
{
    let mut keys: Vec<String> = Vec::new();
    let mut i: usize = 0;
    while i < words.len()
        invariant
            i <= words.len(),
            keys.len() == i,
            forall|k: int| 0 <= k < i ==> (#[trigger] keys[k])@ == lowercase_of(words[k]@),
        decreases words.len() - i,
    {
        keys.push(to_lowercase(words[i].as_str()));
        i = i + 1;
    }
    assert(views(keys@) =~= lowercase_words(views(words@)));
    keys
}

/// Joins `words` with single spaces, leaving out each word whose key is
/// the key of the word just before it. Word `i` goes with `keys[i]`.
pub fn dedup_words(words: &Vec<String>, keys: &Vec<String>) -> (text: String)
    requires
        keys.len() == words.len(),
    ensures
        text@ == join_spec(
            kept_words(views(words@), views(keys@), words.len() as int),
            seq![' '],
        ),
{
    let mut kept: Vec<String> = Vec::new();
    let mut i: usize = 0;
    while i < words.len()
        invariant
            i <= words.len(),
            keys.len() == words.len(),
            views(kept@) == kept_words(views(words@), views(keys@), i as int),
        decreases words.len() - i,
    {
        let fresh: bool = i == 0 || keys[i] != keys[i - 1];
        if fresh {
            let ghost before = views(kept@);
            kept.push(words[i].clone());
            assert(views(kept@) =~= before.push(words@[i as int]@));
        }
        i = i + 1;
    }
    proof {
        reveal_strlit(" ");
        assert(" "@ =~= seq![' ']);
    }
    join(&kept, " ")
}

/// Removes words that repeat the word before them, whatever their case:
/// `your your Your thing` becomes `your thing`. The words are joined by
/// single spaces; the first of a run of equal words is the one kept.
pub fn dedup_consecutive_words(text: &str) -> (cleaned: String)
    ensures
        cleaned@ == join_spec(
            kept_words(
                words_spec(text@),
                lowercase_words(words_spec(text@)),
                words_spec(text@).len() as int,
            ),
            seq![' '],
        ),
{
    let words = split_words(text);
    let keys = lowercase_each(&words);
    assert(words.len() == views(words@).len());
    assert(keys.len() == views(keys@).len());
    dedup_words(&words, &keys)
}

} // verus!
