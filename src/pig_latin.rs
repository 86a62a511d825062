//! Pig Latin: a word that starts with a lowercase vowel gains `-hay`; any other
//! word moves its first character to the end, as in `ello-hay`.
use vstd::prelude::*;

use crate::words::{split_words, words_of};

verus! {

pub open spec fn is_vowel(c: char) -> bool {
    c == 'a' || c == 'e' || c == 'i' || c == 'o' || c == 'u'
}

/// The Pig Latin form of a non-empty word.
pub open spec fn pig_latin(w: Seq<char>) -> Seq<char>
    recommends
        w.len() > 0,
{
    if is_vowel(w[0]) {
        w + "-hay"@
    } else {
        w.drop_first() + "-"@ + seq![w[0]] + "ay"@
    }
}

/// The words joined with one space between each two.
pub open spec fn join_words(ws: Seq<Seq<char>>) -> Seq<char>
    decreases ws.len(),
{
    if ws.len() == 0 {
        seq![]
    } else if ws.len() == 1 {
        ws[0]
    } else {
        join_words(ws.drop_last()) + " "@ + ws.last()
    }
}

/// Relies on `String::push`: the character is appended.
#[verifier::external_body]
fn push_char(s: &mut String, c: char)
    ensures
        final(s)@ == old(s)@.push(c),
{
    s.push(c);
}

/// A string of the characters of `input`, in order.
pub fn construct_string(input: &[char]) -> (r: String)
    ensures
        r@ == input@,
{
    let mut r = String::new();
    let mut i: usize = 0;
    while i < input.len()
        invariant
            i <= input@.len(),
            r@ == input@.take(i as int),
        decreases input@.len() - i,
    {
        push_char(&mut r, input[i]);
        assert(input@.take(i + 1) =~= input@.take(i as int).push(input@[i as int]));
        i = i + 1;
    }
    assert(input@.take(input@.len() as int) =~= input@);
    r
}

/// The Pig Latin form of `word`.
pub fn pig_latinize(word: &str) -> (r: String)
    requires
        word@.len() > 0,
    ensures
        r@ == pig_latin(word@),
{
    let n = word.unicode_len();
    let c = word.get_char(0);
    if c == 'a' || c == 'e' || c == 'i' || c == 'o' || c == 'u' {
        let mut r = String::from_str(word);
        r.append("-hay");
        r
    } else {
        let mut rem: Vec<char> = Vec::new();
        let mut i: usize = 1;
        while i < n
            invariant
                n == word@.len(),
                1 <= i <= n,
                rem@ == word@.subrange(1, i as int),
            decreases n - i,
        {
            rem.push(word.get_char(i));
            assert(word@.subrange(1, i + 1) =~= word@.subrange(1, i as int).push(word@[i as int]));
            i = i + 1;
        }
        assert(word@.subrange(1, n as int) =~= word@.drop_first());
        let mut r = construct_string(rem.as_slice());
        r.append("-");
        push_char(&mut r, c);
        r.append("ay");
        assert(r@ =~= word@.drop_first() + "-"@ + seq![c] + "ay"@);
        r
    }
}

/// Each word of `line` in Pig Latin, joined by single spaces.
pub fn pig_latin_line(line: &str) -> (r: String)
    ensures
        r@ == join_words(words_of(line@).map_values(|w: Seq<char>| pig_latin(w))),
{
    let words = split_words(line);
    let ghost ws = words_of(line@).map_values(|w: Seq<char>| pig_latin(w));
    let n = words.len();
    let mut r = String::new();
    let mut i: usize = 0;
    while i < n
        invariant
            n == words@.len(),
            i <= n,
            words@.map_values(|w: &str| w@) == words_of(line@),
            forall|k: int| 0 <= k < words@.len() ==> (#[trigger] words@[k])@.len() > 0,
            ws == words_of(line@).map_values(|w: Seq<char>| pig_latin(w)),
            r@ == join_words(ws.take(i as int)),
        decreases n - i,
    {
        assert(words_of(line@)[i as int] == words@[i as int]@);
        let p = pig_latinize(words[i]);
        if i > 0 {
            r.append(" ");
        }
        r.append(p.as_str());
        proof {
            assert(ws.take(i + 1).drop_last() =~= ws.take(i as int));
            if i == 0 {
                assert(ws.take(1)[0] == p@);
            }
        }
        i = i + 1;
    }
    assert(ws.take(n as int) =~= ws);
    r
}

} // verus!
