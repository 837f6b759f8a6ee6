//! What holds of extraction and substitution on every text.

use crate::model::{
    first_index, has_marker, lemma_no_marker_no_placeholders, lemma_placeholders_step, marker_of,
    occurs_at, occurs_in, placeholders, replace_all, starts_with, FormView,
};
use vstd::prelude::*;

verus! {

/// Whether `s` holds neither an opening nor a closing brace.
pub open spec fn brace_free(s: Seq<char>) -> bool {
    forall|i: int| 0 <= i < s.len() ==> s[i] != '{' && s[i] != '}'
}

/// The text that starts with `lead` and goes on, for each pair of `parts`,
/// with the marker of the pair's name and then the pair's text.
pub open spec fn template(lead: Seq<char>, parts: Seq<(Seq<char>, Seq<char>)>) -> Seq<char>
    decreases parts.len(),
{
    if parts.len() == 0 {
        lead
    } else {
        lead + marker_of(parts[0].0) + template(parts[0].1, parts.drop_first())
    }
}

/// The placeholders that stand for the names of `parts`, in order.
pub open spec fn forms_of(parts: Seq<(Seq<char>, Seq<char>)>) -> Seq<FormView> {
    Seq::new(parts.len(), |i: int| FormView { name: parts[i].0, form: marker_of(parts[i].0) })
}

/// A text with a marker has at least one placeholder: extraction is empty
/// only for a text that has no marker.
pub proof fn law_marker_gives_form(s: Seq<char>)
    requires
        has_marker(s),
    ensures
        placeholders(s).len() > 0,
{
    let (i, j) = choose|i: int, j: int| 0 <= i < j < s.len() && s[i] == '{' && s[j] == '}';
    crate::model::lemma_first_index(s, '{');
    let open = first_index(s, '{') as int;
    assert(open <= i);
    let rest = s.subrange(open + 1, s.len() as int);
    crate::model::lemma_first_index(rest, '}');
    assert(rest[j - open - 1] == s[j]);
}

/// Where a text has placeholders, the first of them is the marker that
/// starts at the first opening brace of the text: no opening brace stands
/// before it, its name holds no closing brace, its marker is its name between
/// braces, as it stands in the text, and the other placeholders are those of
/// the text behind that marker, in the same order.
pub proof fn law_first_form(s: Seq<char>)
    requires
        placeholders(s).len() > 0,
    ensures
        ({
            let open = first_index(s, '{') as int;
            let first = placeholders(s)[0];
            let end = open + first.form.len();
            &&& first.form == marker_of(first.name)
            &&& end <= s.len()
            &&& s.subrange(open, end) == first.form
            &&& forall|j: int| 0 <= j < open ==> s[j] != '{'
            &&& forall|j: int| 0 <= j < first.name.len() ==> first.name[j] != '}'
            &&& placeholders(s).drop_first() == placeholders(s.subrange(end, s.len() as int))
        }),
{
    crate::model::lemma_first_index(s, '{');
    let open = first_index(s, '{') as int;
    let rest = s.subrange(open + 1, s.len() as int);
    crate::model::lemma_first_index(rest, '}');
    let close = first_index(rest, '}') as int;
    let name = rest.subrange(0, close);
    let first = placeholders(s)[0];
    let later = placeholders(rest.subrange(close + 1, rest.len() as int));
    assert(placeholders(s) == seq![FormView { name: name, form: marker_of(name) }] + later);
    assert(first.name == name);
    let end = open + first.form.len();
    assert(s.subrange(open, end) =~= first.form) by {
        assert forall|j: int| 0 <= j < first.form.len() implies s[open + j] == first.form[j] by {
            if 0 < j {
                assert(rest[j - 1] == s[open + j]);
            }
        }
    }
    assert(placeholders(s).drop_first() =~= later);
    assert(rest.subrange(close + 1, rest.len() as int) == s.subrange(end, s.len() as int));
}

/// Every placeholder of a text is a marker of that text: it is its name
/// between braces, the name holds no closing brace, and the marker occurs
/// in the text.
pub proof fn law_forms_are_markers(s: Seq<char>, i: int)
    requires
        0 <= i < placeholders(s).len(),
    ensures
        placeholders(s)[i].form == marker_of(placeholders(s)[i].name),
        forall|j: int|
            0 <= j < placeholders(s)[i].name.len() ==> placeholders(s)[i].name[j] != '}',
        occurs_in(s, placeholders(s)[i].form),
    decreases i,
{
    law_first_form(s);
    let open = first_index(s, '{') as int;
    let end = open + placeholders(s)[0].form.len();
    if i == 0 {
        assert(occurs_at(s, placeholders(s)[0].form, open));
    } else {
        let rest = s.subrange(end, s.len() as int);
        assert(placeholders(s)[i] == placeholders(s).drop_first()[i - 1]);
        law_forms_are_markers(rest, i - 1);
        let form = placeholders(s)[i].form;
        let k = choose|k: int| occurs_at(rest, form, k);
        assert(s.subrange(end + k, end + k + form.len()) =~= rest.subrange(k, k + form.len()));
        assert(occurs_at(s, form, end + k));
    }
}

/// A text written as plain stretches with the markers of N names between
/// them, neither the stretches nor the names holding a brace, has exactly
/// those N placeholders, from left to right, each with its name and its
/// marker.
pub proof fn law_template_forms(lead: Seq<char>, parts: Seq<(Seq<char>, Seq<char>)>)
    requires
        brace_free(lead),
        forall|i: int| 0 <= i < parts.len() ==> brace_free(#[trigger] parts[i].0),
        forall|i: int| 0 <= i < parts.len() ==> brace_free(#[trigger] parts[i].1),
    ensures
        placeholders(template(lead, parts)) == forms_of(parts),
    decreases parts.len(),
{
    let s = template(lead, parts);
    if parts.len() == 0 {
        assert(!has_marker(s));
        lemma_no_marker_no_placeholders(s);
        assert(placeholders(s) =~= forms_of(parts));
    } else {
        let name = parts[0].0;
        let later = parts.drop_first();
        let rest = template(parts[0].1, later);
        let open = lead.len() as int;
        let close = open + 1 + name.len();
        assert(brace_free(name));
        assert(brace_free(parts[0].1));
        assert forall|i: int| 0 <= i < later.len() implies brace_free(#[trigger] later[i].0) by {
            assert(later[i] == parts[i + 1]);
        }
        assert forall|i: int| 0 <= i < later.len() implies brace_free(#[trigger] later[i].1) by {
            assert(later[i] == parts[i + 1]);
        }
        law_template_forms(parts[0].1, later);
        assert forall|j: int| open < j < close implies s[j] != '}' by {
            assert(s[j] == name[j - open - 1]);
        }
        lemma_placeholders_step(s, open, close);
        assert(s.subrange(open + 1, close) == name);
        assert(s.subrange(open, close + 1) == marker_of(name));
        assert(s.subrange(close + 1, s.len() as int) == rest);
        assert forall|i: int| 0 <= i < later.len() implies forms_of(later)[i] == forms_of(
            parts,
        )[i + 1] by {
            assert(later[i] == parts[i + 1]);
        }
        assert(placeholders(s) =~= forms_of(parts));
    }
}

/// Where a tail of `name` followed by a closing brace begins the text that
/// replacing the marker of `name` in `t` gives, it begins `t` itself.
proof fn lemma_tail_survives(t: Seq<char>, name: Seq<char>, value: Seq<char>, k: int)
    requires
        value.len() > 0,
        brace_free(value),
        !occurs_in(name, value),
        0 <= k <= name.len(),
        starts_with(
            replace_all(t, marker_of(name), value),
            (name + seq!['}']).subrange(k, name.len() as int + 1),
        ),
    ensures
        starts_with(t, (name + seq!['}']).subrange(k, name.len() as int + 1)),
    decreases t.len(),
{
    let m = marker_of(name);
    let w = (name + seq!['}']).subrange(k, name.len() as int + 1);
    let r = replace_all(t, m, value);
    assert(r.subrange(0, w.len() as int) == w);
    if starts_with(t, m) {
        if w.len() <= value.len() {
            assert(value[w.len() - 1] == r[w.len() - 1]);
            assert(w[w.len() - 1] == '}');
            assert(r.subrange(0, w.len() as int)[w.len() - 1] == r[w.len() - 1]);
        } else {
            assert(name.subrange(k, k + value.len()) =~= value) by {
                assert forall|j: int| 0 <= j < value.len() implies name[k + j] == value[j] by {
                    assert(r[j] == value[j]);
                    assert(r.subrange(0, w.len() as int)[j] == r[j]);
                    assert(w[j] == name[k + j]);
                }
            }
            assert(occurs_at(name, value, k));
        }
    } else if t.len() == 0 {
        assert(w.len() == 0);
    } else {
        let t1 = t.drop_first();
        let r1 = replace_all(t1, m, value);
        assert(r == seq![t[0]] + r1);
        assert(r.subrange(0, w.len() as int)[0] == r[0]);
        if k < name.len() {
            let w1 = (name + seq!['}']).subrange(k + 1, name.len() as int + 1);
            assert(r1.subrange(0, w1.len() as int) =~= w1) by {
                assert forall|j: int| 0 <= j < w1.len() implies r1[j] == w1[j] by {
                    assert(r.subrange(0, w.len() as int)[j + 1] == r[j + 1]);
                    assert(w[j + 1] == w1[j]);
                }
            }
            lemma_tail_survives(t1, name, value, k + 1);
            assert(t1.subrange(0, w1.len() as int) == w1);
            assert(t.subrange(0, w.len() as int) =~= w) by {
                assert forall|j: int| 0 <= j < w.len() implies t[j] == w[j] by {
                    if j > 0 {
                        assert(t1.subrange(0, w1.len() as int)[j - 1] == t1[j - 1]);
                        assert(w[j] == w1[j - 1]);
                    }
                }
            }
        } else {
            assert(t.subrange(0, w.len() as int) =~= w);
        }
    }
}

/// The marker of `name` does not stand at index `k` of the text that
/// replacing it in `s` gives.
proof fn lemma_marker_gone_at(s: Seq<char>, name: Seq<char>, value: Seq<char>, k: int)
    requires
        value.len() > 0,
        brace_free(value),
        !occurs_in(name, value),
    ensures
        !occurs_at(replace_all(s, marker_of(name), value), marker_of(name), k),
    decreases s.len(),
{
    let m = marker_of(name);
    let r = replace_all(s, m, value);
    if occurs_at(r, m, k) {
        assert(r.subrange(k, k + m.len())[0] == r[k]);
        assert(m[0] == '{');
        if starts_with(s, m) {
            let s1 = s.subrange(m.len() as int, s.len() as int);
            let r1 = replace_all(s1, m, value);
            if k < value.len() {
                assert(r[k] == value[k]);
            } else {
                assert(r1.subrange(k - value.len(), k - value.len() + m.len()) =~= r.subrange(
                    k,
                    k + m.len(),
                ));
                lemma_marker_gone_at(s1, name, value, k - value.len());
            }
        } else if s.len() == 0 {
        } else {
            let s1 = s.drop_first();
            let r1 = replace_all(s1, m, value);
            assert(r == seq![s[0]] + r1);
            if k == 0 {
                let w = (name + seq!['}']).subrange(0, name.len() as int + 1);
                assert(r1.subrange(0, w.len() as int) =~= w) by {
                    assert forall|j: int| 0 <= j < w.len() implies r1[j] == w[j] by {
                        assert(r.subrange(0, m.len() as int)[j + 1] == r[j + 1]);
                        assert(m[j + 1] == w[j]);
                    }
                }
                lemma_tail_survives(s1, name, value, 0);
                assert(s.subrange(0, m.len() as int) =~= m) by {
                    assert forall|j: int| 0 <= j < m.len() implies s[j] == m[j] by {
                        if j > 0 {
                            assert(s1.subrange(0, w.len() as int)[j - 1] == s1[j - 1]);
                            assert(m[j] == w[j - 1]);
                        }
                    }
                }
            } else {
                assert(r1.subrange(k - 1, k - 1 + m.len()) =~= r.subrange(k, k + m.len()));
                lemma_marker_gone_at(s1, name, value, k - 1);
            }
        }
    }
}

/// Filling a placeholder leaves none of its markers behind, for a value that
/// is not empty, holds no brace and does not occur inside the name. (A value
/// outside these can put a marker together from what stood around the old
/// one.)
pub proof fn law_fill_leaves_no_marker(s: Seq<char>, name: Seq<char>, value: Seq<char>)
    requires
        value.len() > 0,
        brace_free(value),
        !occurs_in(name, value),
    ensures
        !occurs_in(replace_all(s, marker_of(name), value), marker_of(name)),
{
    let r = replace_all(s, marker_of(name), value);
    assert forall|k: int| !occurs_at(r, marker_of(name), k) by {
        lemma_marker_gone_at(s, name, value, k);
    }
}

/// Filling a placeholder that was found in a text leaves none of its
/// markers in that text, for a value that is not empty, holds no brace and
/// does not occur inside the placeholder's name.
pub proof fn law_fill_removes_found_form(s: Seq<char>, i: int, value: Seq<char>)
    requires
        0 <= i < placeholders(s).len(),
        value.len() > 0,
        brace_free(value),
        !occurs_in(placeholders(s)[i].name, value),
    ensures
        occurs_in(s, placeholders(s)[i].form),
        !occurs_in(replace_all(s, placeholders(s)[i].form, value), placeholders(s)[i].form),
{
    law_forms_are_markers(s, i);
    law_fill_leaves_no_marker(s, placeholders(s)[i].name, value);
}

/// Replacing a pattern that is not empty in a text that does not hold it
/// gives the text back.
pub proof fn law_replace_absent(s: Seq<char>, from: Seq<char>, to: Seq<char>)
    requires
        from.len() > 0,
        !occurs_in(s, from),
    ensures
        replace_all(s, from, to) == s,
    decreases s.len(),
{
    assert(!occurs_at(s, from, 0));
    if s.len() > 0 {
        let s1 = s.drop_first();
        assert forall|k: int| !occurs_at(s1, from, k) by {
            if occurs_at(s1, from, k) {
                assert(s.subrange(k + 1, k + 1 + from.len()) =~= s1.subrange(k, k + from.len()));
                assert(occurs_at(s, from, k + 1));
            }
        }
        law_replace_absent(s1, from, to);
        assert(seq![s[0]] + s1 =~= s);
    }
}

/// Once no marker is left, a text stays as it is: filling any placeholder
/// changes nothing, and extraction finds nothing before or after.
pub proof fn law_filled_text_is_stable(s: Seq<char>, name: Seq<char>, value: Seq<char>)
    requires
        !has_marker(s),
    ensures
        placeholders(s).len() == 0,
        replace_all(s, marker_of(name), value) == s,
        placeholders(replace_all(s, marker_of(name), value)).len() == 0,
{
    let m = marker_of(name);
    lemma_no_marker_no_placeholders(s);
    assert forall|k: int| !occurs_at(s, m, k) by {
        if occurs_at(s, m, k) {
            assert(s.subrange(k, k + m.len())[0] == s[k]);
            assert(s.subrange(k, k + m.len())[m.len() - 1] == s[k + m.len() - 1]);
            assert(m[0] == '{' && m[m.len() - 1] == '}');
        }
    }
    law_replace_absent(s, m, value);
}

} // verus!
