//! Answers to a confirmation question.
use crate::text::{trim, trim_bounds};
use vstd::prelude::*;
use vstd::string::*;

verus! {

/// Whether `c` is the character `w` or its ASCII upper-case form.
pub open spec fn same_letter(c: char, w: char) -> bool {
    c == w || ('A' <= c && c <= 'Z' && (c as u32) + 32 == (w as u32))
}

/// Whether `s` is `word` up to the case of ASCII letters.
pub open spec fn same_word(s: Seq<char>, word: Seq<char>) -> bool {
    s.len() == word.len() && forall|i: int| 0 <= i < s.len() ==> same_letter(#[trigger] s[i], word[i])
}

/// What an answer means: `Some(true)` for yes (an empty answer too),
/// `Some(false)` for no, `None` when the question must be asked again.
pub open spec fn answer_of(s: Seq<char>) -> Option<bool> {
    let t = trim(s);
    if t.len() == 0 || same_word(t, "y"@) || same_word(t, "ye"@) || same_word(t, "yes"@) {
        Some(true)
    } else if same_word(t, "n"@) || same_word(t, "no"@) {
        Some(false)
    } else {
        None
    }
}

fn matches_word(s: &str, start: usize, end: usize, word: &str) -> (r: bool)
    requires
        start <= end <= s@.len(),
    ensures
        r == same_word(s@.subrange(start as int, end as int), word@),
{
    let n = word.unicode_len();
    if end - start != n {
        return false;
    }
    let mut i: usize = 0;
    while i < n
        invariant
            start <= end <= s@.len(),
            n == word@.len(),
            end - start == n,
            i <= n,
            forall|k: int| 0 <= k < i ==> same_letter(#[trigger] s@.subrange(start as int, end as int)[k], word@[k]),
        decreases n - i,
    {
        let c = s.get_char(start + i);
        let w = word.get_char(i);
        if !(c == w || ('A' <= c && c <= 'Z' && (c as u32) + 32 == (w as u32))) {
            assert(s@.subrange(start as int, end as int)[i as int] == s@[start + i]);
            return false;
        }
        assert(s@.subrange(start as int, end as int)[i as int] == s@[start + i]);
        i = i + 1;
    }
    true
}

/// Reads an answer to a confirmation question: yes (`y`, `ye`, `yes`, or
/// nothing), no (`n`, `no`), in any case of letters and with surrounding
/// whitespace ignored; `None` for any other answer, which asks again.
pub fn answer(input: &str) -> (r: Option<bool>)
    ensures
        r == answer_of(input@),
{
    let (start, end) = trim_bounds(input);
    proof {
        reveal_strlit("y");
        reveal_strlit("ye");
        reveal_strlit("yes");
        reveal_strlit("n");
        reveal_strlit("no");
    }
    if start == end || matches_word(input, start, end, "y") || matches_word(input, start, end, "ye")
        || matches_word(input, start, end, "yes") {
        Some(true)
    } else if matches_word(input, start, end, "n") || matches_word(input, start, end, "no") {
        Some(false)
    } else {
        None
    }
}

} // verus!
