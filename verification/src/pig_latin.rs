//! Pig-latin conversion of a single word: a word that starts with a vowel is
//! kept whole and gets "-hay"; otherwise the first letter moves behind a "-"
//! and "ay" follows it.

use vstd::prelude::*;
use vstd::string::StrSliceExecFns;
use vstd::string::StringExecFns;

verus! {

/// The vowels that keep a word's first letter in place.
pub open spec fn is_vowel(c: char) -> bool {
    c == 'a' || c == 'e' || c == 'i' || c == 'o' || c == 'u'
}

/// Whether `c` is a single lowercase vowel.
pub fn is_gather(c: &str) -> (r: bool)
    ensures
        r == (c@.len() == 1 && is_vowel(c@[0])),
{
    if c.unicode_len() == 1 {
        let ch = c.get_char(0);
        ch == 'a' || ch == 'e' || ch == 'i' || ch == 'o' || ch == 'u'
    } else {
        false
    }
}

/// The pig-latin form of a non-empty word.
pub open spec fn pig_latin_of(s: Seq<char>) -> Seq<char>
    recommends
        s.len() >= 1,
{
    if is_vowel(s[0]) {
        s + seq!['-', 'h', 'a', 'y']
    } else {
        s.drop_first() + seq!['-', s[0], 'a', 'y']
    }
}

/// Converts one non-empty word to pig latin.
pub fn to_pig_latin(word: &str) -> (r: String)
    requires
        word@.len() >= 1,
    ensures
        r@ == pig_latin_of(word@),
{
    let n = word.unicode_len();
    let first = word.substring_char(0, 1);
    if is_gather(first) {
        let mut r = String::from_str(word);
        r.append("-hay");
        proof {
            reveal_strlit("-hay");
            assert(r@ =~= pig_latin_of(word@));
        }
        r
    } else {
        let mut r = String::from_str(word.substring_char(1, n));
        r.append("-");
        r.append(first);
        r.append("ay");
        proof {
            reveal_strlit("-");
            reveal_strlit("ay");
            assert(word@.subrange(1, n as int) =~= word@.drop_first());
            assert(r@ =~= pig_latin_of(word@));
        }
        r
    }
}

} // verus!
