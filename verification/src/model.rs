//! The mathematical model: what the placeholders of a text are, and what a
//! text becomes when a marker is replaced.

use vstd::prelude::*;

verus! {

/// A placeholder as a pair of character sequences.
pub struct FormView {
    /// The text between the braces.
    pub name: Seq<char>,
    /// The whole marker, braces included.
    pub form: Seq<char>,
}

/// The marker that stands for `name`: the name between two braces.
pub open spec fn marker_of(name: Seq<char>) -> Seq<char> {
    seq!['{'] + name + seq!['}']
}

/// The index of the first `c` in `s`, or the length of `s` where it holds none.
pub open spec fn first_index(s: Seq<char>, c: char) -> nat
    decreases s.len(),
{
    if s.len() == 0 || s[0] == c {
        0
    } else {
        1 + first_index(s.drop_first(), c)
    }
}

/// Whether `s` holds an opening brace with a closing brace somewhere after it.
pub open spec fn has_marker(s: Seq<char>) -> bool {
    exists|i: int, j: int| 0 <= i < j < s.len() && s[i] == '{' && s[j] == '}'
}

/// The placeholders of `s`, from left to right. A marker starts at the first
/// opening brace that has a closing brace after it and ends at the first
/// closing brace after that start, line breaks or not; the search goes on
/// behind that marker.
pub open spec fn placeholders(s: Seq<char>) -> Seq<FormView>
    decreases s.len(),
{
    let open = first_index(s, '{') as int;
    if open >= s.len() {
        Seq::empty()
    } else {
        let rest = s.subrange(open + 1, s.len() as int);
        let close = first_index(rest, '}') as int;
        if close >= rest.len() {
            Seq::empty()
        } else {
            let name = rest.subrange(0, close);
            seq![FormView { name: name, form: marker_of(name) }] + placeholders(
                rest.subrange(close + 1, rest.len() as int),
            )
        }
    }
}

/// Whether `s` begins with `p`.
pub open spec fn starts_with(s: Seq<char>, p: Seq<char>) -> bool {
    p.len() <= s.len() && s.subrange(0, p.len() as int) == p
}

/// Whether `p` occurs in `s` at index `k`.
pub open spec fn occurs_at(s: Seq<char>, p: Seq<char>, k: int) -> bool {
    0 <= k && k + p.len() <= s.len() && s.subrange(k, k + p.len()) == p
}

/// Whether `p` occurs somewhere in `s`.
pub open spec fn occurs_in(s: Seq<char>, p: Seq<char>) -> bool {
    exists|k: int| occurs_at(s, p, k)
}

/// `s` with every occurrence of `from` replaced by `to`. Occurrences are taken
/// from left to right and do not overlap. An empty `from` occurs before every
/// character and at the end.
pub open spec fn replace_all(s: Seq<char>, from: Seq<char>, to: Seq<char>) -> Seq<char>
    decreases s.len(),
{
    if from.len() == 0 {
        if s.len() == 0 {
            to
        } else {
            to + seq![s[0]] + replace_all(s.drop_first(), from, to)
        }
    } else if starts_with(s, from) {
        to + replace_all(s.subrange(from.len() as int, s.len() as int), from, to)
    } else if s.len() == 0 {
        s
    } else {
        seq![s[0]] + replace_all(s.drop_first(), from, to)
    }
}

/// What `first_index` finds: an index within bounds, the sought character at
/// it unless it is the length, and no such character before it.
pub proof fn lemma_first_index(s: Seq<char>, c: char)
    ensures
        first_index(s, c) <= s.len(),
        first_index(s, c) < s.len() ==> s[first_index(s, c) as int] == c,
        forall|j: int| 0 <= j < first_index(s, c) ==> s[j] != c,
    decreases s.len(),
{
    if s.len() == 0 || s[0] == c {
    } else {
        let t = s.drop_first();
        lemma_first_index(t, c);
        assert forall|j: int| 0 <= j < first_index(s, c) implies s[j] != c by {
            if j > 0 {
                assert(s[j] == t[j - 1]);
            }
        }
        assert(first_index(t, c) < t.len() ==> t[first_index(t, c) as int] == s[first_index(
            s,
            c,
        ) as int]);
    }
}

/// `first_index` is `k` where `k` is the first index that holds `c`, or the
/// length where none does.
pub proof fn lemma_first_index_is(s: Seq<char>, c: char, k: int)
    requires
        0 <= k <= s.len(),
        forall|j: int| 0 <= j < k ==> s[j] != c,
        k < s.len() ==> s[k] == c,
    ensures
        first_index(s, c) == k,
{
    lemma_first_index(s, c);
}

/// Where the first opening brace of `s` stands at `open` and the first closing
/// brace after it at `close`, the first placeholder of `s` is what lies
/// between them, and the others are those of the text behind `close`.
pub proof fn lemma_placeholders_step(s: Seq<char>, open: int, close: int)
    requires
        0 <= open < close < s.len(),
        s[open] == '{',
        s[close] == '}',
        forall|j: int| 0 <= j < open ==> s[j] != '{',
        forall|j: int| open < j < close ==> s[j] != '}',
    ensures
        placeholders(s) == seq![
            FormView { name: s.subrange(open + 1, close), form: s.subrange(open, close + 1) },
        ] + placeholders(s.subrange(close + 1, s.len() as int)),
{
    lemma_first_index_is(s, '{', open);
    let rest = s.subrange(open + 1, s.len() as int);
    lemma_first_index_is(rest, '}', close - open - 1);
    let name = rest.subrange(0, close - open - 1);
    assert(name == s.subrange(open + 1, close));
    assert(marker_of(name) == s.subrange(open, close + 1));
    assert(rest.subrange(close - open, rest.len() as int) == s.subrange(
        close + 1,
        s.len() as int,
    ));
}

/// A text without a marker, that is without an opening brace that a closing
/// brace follows, has no placeholders.
pub proof fn lemma_no_marker_no_placeholders(s: Seq<char>)
    requires
        !has_marker(s),
    ensures
        placeholders(s) == Seq::<FormView>::empty(),
{
    lemma_first_index(s, '{');
    let open = first_index(s, '{') as int;
    if open < s.len() {
        let rest = s.subrange(open + 1, s.len() as int);
        lemma_first_index(rest, '}');
        let close = first_index(rest, '}') as int;
        if close < rest.len() {
            assert(s[open + 1 + close] == rest[close]);
            assert(0 <= open < open + 1 + close < s.len() && s[open] == '{' && s[open + 1 + close]
                == '}');
        }
    }
}

} // verus!
