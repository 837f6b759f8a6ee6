//! Moving between strings and vectors of characters.

use vstd::prelude::*;

verus! {

/// Appends `c` to `s`. Stands for `String::push`, which puts the character
/// at the end of the string and leaves the rest as it was.
#[verifier::external_body]
pub(crate) fn push_char(s: &mut String, c: char)
    ensures
        final(s)@ == old(s)@.push(c),
{
    s.push(c);
}

/// The characters of `s`, in order.
pub fn chars_of(s: &str) -> (chars: Vec<char>)
    ensures
        chars@ == s@,
{
    let mut chars: Vec<char> = Vec::new();
    for c in it: s.chars()
        invariant
            it.seq() == s@,
            chars@ == s@.subrange(0, it.index()),
    {
        chars.push(c);
    }
    chars
}

/// The string made of `chars[from..to]`.
pub fn string_of(chars: &Vec<char>, from: usize, to: usize) -> (s: String)
    requires
        from <= to <= chars.len(),
    ensures
        s@ == chars@.subrange(from as int, to as int),
{
    let mut s = String::new();
    let mut i: usize = from;
    while i < to
        invariant
            from <= i <= to <= chars.len(),
            s@ == chars@.subrange(from as int, i as int),
        decreases to - i,
    {
        push_char(&mut s, chars[i]);
        i += 1;
    }
    s
}

/// Whether `pattern` stands in `chars` at index `at`.
pub fn matches_at(chars: &Vec<char>, pattern: &Vec<char>, at: usize) -> (found: bool)
    requires
        at <= chars.len(),
    ensures
        found == crate::model::starts_with(
            chars@.subrange(at as int, chars.len() as int),
            pattern@,
        ),
{
    if pattern.len() > chars.len() - at {
        return false;
    }
    let ghost tail = chars@.subrange(at as int, chars.len() as int);
    let mut k: usize = 0;
    while k < pattern.len()
        invariant
            at + pattern.len() <= chars.len(),
            k <= pattern.len(),
            tail == chars@.subrange(at as int, chars.len() as int),
            forall|j: int| 0 <= j < k ==> chars[at + j] == pattern[j],
        decreases pattern.len() - k,
    {
        if chars[at + k] != pattern[k] {
            proof {
                assert(tail.subrange(0, pattern.len() as int)[k as int] == chars[at + k]);
            }
            return false;
        }
        k += 1;
    }
    proof {
        assert(tail.subrange(0, pattern.len() as int) =~= pattern@);
    }
    true
}

} // verus!
