//! Filling every placeholder of a text, one after the other, and what is
//! left of a well-formed text when that is done.

use crate::laws::{brace_free, forms_of, law_template_forms, template};
use crate::model::{has_marker, marker_of, placeholders, replace_all, starts_with, FormView};
use crate::text::{forms_view, Form, Text};
use vstd::prelude::*;

verus! {

/// `s` after each form of `forms` has been filled with the value at the same
/// index of `values`, in order, each fill working on what the one before
/// left. Forms or values beyond the shorter of the two play no part.
pub open spec fn fill_each(s: Seq<char>, forms: Seq<FormView>, values: Seq<Seq<char>>) -> Seq<
    char,
>
    decreases forms.len(),
{
    if forms.len() == 0 || values.len() == 0 {
        s
    } else {
        fill_each(
            replace_all(s, forms[0].form, values[0]),
            forms.drop_first(),
            values.drop_first(),
        )
    }
}

/// The values of `values` as character sequences, in the same order.
pub open spec fn values_view(values: Seq<String>) -> Seq<Seq<char>> {
    Seq::new(values.len(), |i: int| values[i]@)
}

impl Text {
    /// Fills each form of `forms` with the value at the same index of
    /// `values`, in order. Where one of the two is longer than the other,
    /// what it holds beyond the other's length is left aside.
    pub fn fill_forms(&mut self, forms: &Vec<Form>, values: &Vec<String>)
        ensures
            final(self)@ == fill_each(old(self)@, forms_view(forms@), values_view(values@)),
    {
        let ghost all_forms = forms_view(forms@);
        let ghost all_values = values_view(values@);
        let mut i: usize = 0;
        assert(all_forms.skip(0) == all_forms);
        assert(all_values.skip(0) == all_values);
        while i < forms.len() && i < values.len()
            invariant
                i <= forms.len(),
                i <= values.len(),
                all_forms == forms_view(forms@),
                all_values == values_view(values@),
                fill_each(self@, all_forms.skip(i as int), all_values.skip(i as int)) == fill_each(
                    old(self)@,
                    all_forms,
                    all_values,
                ),
            decreases forms.len() - i,
        {
            proof {
                assert(all_forms.skip(i as int).drop_first() == all_forms.skip(i + 1));
                assert(all_values.skip(i as int).drop_first() == all_values.skip(i + 1));
                assert(all_forms.skip(i as int)[0] == forms[i as int]@);
                assert(all_values.skip(i as int)[0] == values[i as int]@);
            }
            self.fill_form(&forms[i], values[i].as_str());
            i += 1;
        }
    }
}

/// The stretch that a template starts with once the markers of `name` in it
/// have been replaced by `value`.
pub open spec fn lead_after(
    lead: Seq<char>,
    parts: Seq<(Seq<char>, Seq<char>)>,
    name: Seq<char>,
    value: Seq<char>,
) -> Seq<char>
    decreases parts.len(),
{
    if parts.len() > 0 && parts[0].0 == name {
        lead + value + lead_after(parts[0].1, parts.drop_first(), name, value)
    } else {
        lead
    }
}

/// The names that are left in a template, each with the stretch behind it,
/// once the markers of `name` have been replaced by `value`.
pub open spec fn parts_after(
    parts: Seq<(Seq<char>, Seq<char>)>,
    name: Seq<char>,
    value: Seq<char>,
) -> Seq<(Seq<char>, Seq<char>)>
    decreases parts.len(),
{
    if parts.len() == 0 {
        Seq::empty()
    } else if parts[0].0 == name {
        parts_after(parts.drop_first(), name, value)
    } else {
        seq![(parts[0].0, lead_after(parts[0].1, parts.drop_first(), name, value))] + parts_after(
            parts.drop_first(),
            name,
            value,
        )
    }
}

/// Whether every stretch and every name of `parts` is free of braces.
pub open spec fn parts_brace_free(parts: Seq<(Seq<char>, Seq<char>)>) -> bool {
    forall|i: int|
        0 <= i < parts.len() ==> brace_free((#[trigger] parts[i]).0) && brace_free(parts[i].1)
}

/// Whether one of `forms` has the name `name`.
pub open spec fn has_name(forms: Seq<FormView>, name: Seq<char>) -> bool {
    exists|j: int| 0 <= j < forms.len() && (#[trigger] forms[j]).name == name
}

/// Whether every name of `parts` is the name of one of `forms`.
pub open spec fn covered(parts: Seq<(Seq<char>, Seq<char>)>, forms: Seq<FormView>) -> bool {
    forall|i: int| 0 <= i < parts.len() ==> has_name(forms, (#[trigger] parts[i]).0)
}

/// Whether every form of `forms` is a name without braces and its marker.
pub open spec fn plain_forms(forms: Seq<FormView>) -> bool {
    forall|j: int|
        0 <= j < forms.len() ==> brace_free((#[trigger] forms[j]).name) && forms[j].form
            == marker_of(forms[j].name)
}

/// Whether every value of `values` is free of braces.
pub open spec fn plain_values(values: Seq<Seq<char>>) -> bool {
    forall|j: int| 0 <= j < values.len() ==> brace_free(#[trigger] values[j])
}

/// A stretch without an opening brace is passed over when a pattern that
/// begins with one is replaced.
proof fn lemma_replace_skips(a: Seq<char>, b: Seq<char>, from: Seq<char>, to: Seq<char>)
    requires
        from.len() > 0,
        from[0] == '{',
        forall|i: int| 0 <= i < a.len() ==> a[i] != '{',
    ensures
        replace_all(a + b, from, to) == a + replace_all(b, from, to),
    decreases a.len(),
{
    let s = a + b;
    if a.len() == 0 {
        assert(s =~= b);
        assert(a + replace_all(b, from, to) =~= replace_all(b, from, to));
    } else {
        assert(!starts_with(s, from)) by {
            if starts_with(s, from) {
                assert(s.subrange(0, from.len() as int)[0] == s[0]);
                assert(s[0] == a[0]);
            }
        }
        assert(s.drop_first() =~= a.drop_first() + b);
        lemma_replace_skips(a.drop_first(), b, from, to);
        assert(seq![s[0]] + (a.drop_first() + replace_all(b, from, to)) =~= a + replace_all(
            b,
            from,
            to,
        ));
    }
}

/// The marker of another name is passed over when the marker of `name` is
/// replaced.
proof fn lemma_replace_passes_marker(
    other: Seq<char>,
    b: Seq<char>,
    name: Seq<char>,
    value: Seq<char>,
)
    requires
        brace_free(other),
        brace_free(name),
        other != name,
    ensures
        replace_all(marker_of(other) + b, marker_of(name), value) == marker_of(other)
            + replace_all(b, marker_of(name), value),
{
    let m = marker_of(name);
    let s = marker_of(other) + b;
    assert(!starts_with(s, m)) by {
        if starts_with(s, m) {
            let p = s.subrange(0, m.len() as int);
            let n = name.len() as int;
            let o = other.len() as int;
            if n < o {
                assert(p[1 + n] == s[1 + n]);
                assert(s[1 + n] == other[n]);
                assert(m[1 + n] == '}');
            } else if n > o {
                assert(p[1 + o] == s[1 + o]);
                assert(s[1 + o] == '}');
                assert(m[1 + o] == name[o]);
            } else {
                assert(other =~= name) by {
                    assert forall|j: int| 0 <= j < n implies other[j] == name[j] by {
                        assert(p[1 + j] == s[1 + j]);
                        assert(s[1 + j] == other[j]);
                        assert(m[1 + j] == name[j]);
                    }
                }
            }
        }
    }
    let inner = other + seq!['}'];
    assert(s.drop_first() =~= inner + b);
    assert(m[0] == '{');
    lemma_replace_skips(inner, b, m, value);
    assert(seq![s[0]] + (inner + replace_all(b, m, value)) =~= marker_of(other) + replace_all(
        b,
        m,
        value,
    ));
}

/// A template that is given more text in front starts with that text.
proof fn lemma_template_lead(a: Seq<char>, lead: Seq<char>, parts: Seq<(Seq<char>, Seq<char>)>)
    ensures
        template(a + lead, parts) == a + template(lead, parts),
{
    if parts.len() == 0 {
    } else {
        let tail = template(parts[0].1, parts.drop_first());
        assert((a + lead) + marker_of(parts[0].0) + tail =~= a + (lead + marker_of(parts[0].0)
            + tail));
    }
}

/// Replacing the markers of one name in a template gives the template of
/// the names that are left.
proof fn lemma_replace_in_template(
    lead: Seq<char>,
    parts: Seq<(Seq<char>, Seq<char>)>,
    name: Seq<char>,
    value: Seq<char>,
)
    requires
        brace_free(lead),
        parts_brace_free(parts),
        brace_free(name),
    ensures
        replace_all(template(lead, parts), marker_of(name), value) == template(
            lead_after(lead, parts, name, value),
            parts_after(parts, name, value),
        ),
    decreases parts.len(),
{
    let m = marker_of(name);
    assert(m[0] == '{');
    if parts.len() == 0 {
        let none = Seq::<char>::empty();
        lemma_replace_skips(lead, none, m, value);
        assert(lead + none =~= lead);
        assert(!starts_with(none, m));
        assert(replace_all(none, m, value) =~= none);
    } else {
        let later = parts.drop_first();
        let other = parts[0].0;
        let tail = template(parts[0].1, later);
        assert(brace_free(parts[0].0) && brace_free(parts[0].1));
        assert(parts_brace_free(later)) by {
            assert forall|i: int| 0 <= i < later.len() implies brace_free(
                (#[trigger] later[i]).0,
            ) && brace_free(later[i].1) by {
                assert(later[i] == parts[i + 1]);
            }
        }
        lemma_replace_in_template(parts[0].1, later, name, value);
        let lead2 = lead_after(parts[0].1, later, name, value);
        let parts2 = parts_after(later, name, value);
        assert(template(lead, parts) =~= lead + (marker_of(other) + tail));
        lemma_replace_skips(lead, marker_of(other) + tail, m, value);
        if other == name {
            assert(starts_with(m + tail, m)) by {
                assert((m + tail).subrange(0, m.len() as int) =~= m);
            }
            assert((m + tail).subrange(m.len() as int, (m + tail).len() as int) =~= tail);
            lemma_template_lead(lead + value, lead2, parts2);
            assert(lead + (value + template(lead2, parts2)) =~= (lead + value) + template(
                lead2,
                parts2,
            ));
            assert(lead + value + lead2 =~= (lead + value) + lead2);
        } else {
            lemma_replace_passes_marker(other, tail, name, value);
            let left = seq![(other, lead2)] + parts2;
            assert(left == parts_after(parts, name, value));
            assert(left[0] == (other, lead2));
            assert(left.drop_first() =~= parts2);
            assert(template(lead, left) == lead + marker_of(other) + template(lead2, parts2));
            assert(lead + (marker_of(other) + template(lead2, parts2)) =~= lead + marker_of(other)
                + template(lead2, parts2));
        }
    }
}

/// What is left of a template is free of braces where the template and the
/// value were.
proof fn lemma_after_brace_free(
    lead: Seq<char>,
    parts: Seq<(Seq<char>, Seq<char>)>,
    name: Seq<char>,
    value: Seq<char>,
)
    requires
        brace_free(lead),
        parts_brace_free(parts),
        brace_free(value),
    ensures
        brace_free(lead_after(lead, parts, name, value)),
        parts_brace_free(parts_after(parts, name, value)),
    decreases parts.len(),
{
    if parts.len() > 0 {
        let later = parts.drop_first();
        assert(brace_free(parts[0].0) && brace_free(parts[0].1));
        assert(parts_brace_free(later)) by {
            assert forall|i: int| 0 <= i < later.len() implies brace_free(
                (#[trigger] later[i]).0,
            ) && brace_free(later[i].1) by {
                assert(later[i] == parts[i + 1]);
            }
        }
        lemma_after_brace_free(parts[0].1, later, name, value);
        lemma_after_brace_free(lead, later, name, value);
        let lead2 = lead_after(parts[0].1, later, name, value);
        let parts2 = parts_after(later, name, value);
        if parts[0].0 != name {
            let left = seq![(parts[0].0, lead2)] + parts2;
            assert forall|i: int| 0 <= i < left.len() implies brace_free((#[trigger] left[i]).0)
                && brace_free(left[i].1) by {
                if i > 0 {
                    assert(left[i] == parts2[i - 1]);
                }
            }
        }
    }
}

/// The names that are left in a template are names of the forms that are
/// still to be filled.
proof fn lemma_after_covered(
    parts: Seq<(Seq<char>, Seq<char>)>,
    forms: Seq<FormView>,
    value: Seq<char>,
)
    requires
        forms.len() > 0,
        covered(parts, forms),
    ensures
        covered(parts_after(parts, forms[0].name, value), forms.drop_first()),
    decreases parts.len(),
{
    let name = forms[0].name;
    if parts.len() > 0 {
        let later = parts.drop_first();
        assert(covered(later, forms)) by {
            assert forall|i: int| 0 <= i < later.len() implies has_name(
                forms,
                (#[trigger] later[i]).0,
            ) by {
                assert(later[i] == parts[i + 1]);
            }
        }
        lemma_after_covered(later, forms, value);
        let parts2 = parts_after(later, name, value);
        if parts[0].0 != name {
            let lead2 = lead_after(parts[0].1, later, name, value);
            let left = seq![(parts[0].0, lead2)] + parts2;
            assert(has_name(forms, parts[0].0));
            let j = choose|j: int| 0 <= j < forms.len() && (#[trigger] forms[j]).name == parts[0].0;
            assert(forms.drop_first()[j - 1] == forms[j]);
            assert(has_name(forms.drop_first(), parts[0].0));
            assert forall|i: int| 0 <= i < left.len() implies has_name(
                forms.drop_first(),
                (#[trigger] left[i]).0,
            ) by {
                if i > 0 {
                    assert(left[i] == parts2[i - 1]);
                }
            }
        }
    }
}

/// Filling, one after the other, forms that cover every name of a template
/// leaves a text without braces.
proof fn lemma_fill_each_clears(
    lead: Seq<char>,
    parts: Seq<(Seq<char>, Seq<char>)>,
    forms: Seq<FormView>,
    values: Seq<Seq<char>>,
)
    requires
        brace_free(lead),
        parts_brace_free(parts),
        plain_forms(forms),
        plain_values(values),
        forms.len() == values.len(),
        covered(parts, forms),
    ensures
        brace_free(fill_each(template(lead, parts), forms, values)),
    decreases forms.len(),
{
    if forms.len() == 0 {
        if parts.len() > 0 {
            assert(has_name(forms, parts[0].0));
        }
    } else {
        let name = forms[0].name;
        let value = values[0];
        assert(brace_free(name) && forms[0].form == marker_of(name));
        assert(brace_free(value));
        lemma_replace_in_template(lead, parts, name, value);
        lemma_after_brace_free(lead, parts, name, value);
        lemma_after_covered(parts, forms, value);
        let forms2 = forms.drop_first();
        let values2 = values.drop_first();
        assert(plain_forms(forms2)) by {
            assert forall|j: int| 0 <= j < forms2.len() implies brace_free(
                (#[trigger] forms2[j]).name,
            ) && forms2[j].form == marker_of(forms2[j].name) by {
                assert(forms2[j] == forms[j + 1]);
            }
        }
        assert(plain_values(values2)) by {
            assert forall|j: int| 0 <= j < values2.len() implies brace_free(
                #[trigger] values2[j],
            ) by {
                assert(values2[j] == values[j + 1]);
            }
        }
        lemma_fill_each_clears(
            lead_after(lead, parts, name, value),
            parts_after(parts, name, value),
            forms2,
            values2,
        );
    }
}

/// A text written as plain stretches with the markers of plain names between
/// them, filled placeholder by placeholder in the order of extraction with
/// one value without braces for each, holds no brace afterwards: no marker
/// is left, and a second extraction finds nothing.
pub proof fn law_filled_template_is_clear(
    lead: Seq<char>,
    parts: Seq<(Seq<char>, Seq<char>)>,
    values: Seq<Seq<char>>,
)
    requires
        brace_free(lead),
        parts_brace_free(parts),
        plain_values(values),
        values.len() == parts.len(),
    ensures
        ({
            let text = template(lead, parts);
            let filled = fill_each(text, placeholders(text), values);
            &&& brace_free(filled)
            &&& !has_marker(filled)
            &&& placeholders(filled).len() == 0
        }),
{
    let text = template(lead, parts);
    assert forall|i: int| 0 <= i < parts.len() implies brace_free(#[trigger] parts[i].0) by {
        assert(brace_free(parts[i].0) && brace_free(parts[i].1));
    }
    assert forall|i: int| 0 <= i < parts.len() implies brace_free(#[trigger] parts[i].1) by {
        assert(brace_free(parts[i].0) && brace_free(parts[i].1));
    }
    law_template_forms(lead, parts);
    let forms = forms_of(parts);
    assert(covered(parts, forms)) by {
        assert forall|i: int| 0 <= i < parts.len() implies has_name(
            forms,
            (#[trigger] parts[i]).0,
        ) by {
            assert(forms[i].name == parts[i].0);
        }
    }
    assert(plain_forms(forms)) by {
        assert forall|j: int| 0 <= j < forms.len() implies brace_free((#[trigger] forms[j]).name)
            && forms[j].form == marker_of(forms[j].name) by {
            assert(brace_free(parts[j].0) && brace_free(parts[j].1));
        }
    }
    lemma_fill_each_clears(lead, parts, forms, values);
    let filled = fill_each(text, forms, values);
    crate::model::lemma_no_marker_no_placeholders(filled);
}

} // verus!
