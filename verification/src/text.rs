//! The text buffer and its placeholders.

use crate::chars::{chars_of, matches_at, push_char, string_of};
use crate::model::{
    lemma_no_marker_no_placeholders, lemma_placeholders_step, placeholders, replace_all,
    starts_with, FormView,
};
use vstd::prelude::*;
use vstd::string::StringExecFns;

verus! {

/// A placeholder found in a text.
#[derive(Debug, Clone, PartialEq, Eq)]
pub struct Form {
    /// The text between the braces.
    pub name: String,
    /// The marker as it stands in the text, braces included.
    pub form: String,
}

impl View for Form {
    type V = FormView;

    open spec fn view(&self) -> FormView {
        FormView { name: self.name@, form: self.form@ }
    }
}

impl Form {
    /// Creates a `Form` from a name and the marker that stands for it.
    pub fn new(name: String, form: String) -> (f: Form)
        ensures
            f@ == (FormView { name: name@, form: form@ }),
    {
        Form { name, form }
    }
}

/// The views of the forms of `forms`, in the same order.
pub open spec fn forms_view(forms: Seq<Form>) -> Seq<FormView> {
    Seq::new(forms.len(), |i: int| forms[i]@)
}

/// The input text, as one owned buffer.
#[derive(Debug, Clone, PartialEq, Eq)]
pub struct Text {
    pub input: String,
}

impl View for Text {
    type V = Seq<char>;

    open spec fn view(&self) -> Seq<char> {
        self.input@
    }
}

impl Text {
    /// Creates a `Text` that holds a copy of `input`.
    pub fn new(input: &str) -> (text: Text)
        ensures
            text@ == input@,
    {
        Text { input: input.to_owned() }
    }

    /// The placeholders of the text, from left to right, one for each marker;
    /// a marker that stands twice in the text is found twice. The result is
    /// empty where the text holds no marker.
    pub fn get_forms(&self) -> (forms: Vec<Form>)
        ensures
            forms_view(forms@) == placeholders(self@),
    {
        let chars = chars_of(self.input.as_str());
        let n = chars.len();
        let mut forms: Vec<Form> = Vec::new();
        let mut open: Option<usize> = None;
        let ghost mut base: int = 0;
        let mut i: usize = 0;
        assert(chars@.subrange(0, n as int) == chars@);
        assert(forms_view(forms@) + placeholders(chars@) == placeholders(chars@));
        while i < n
            invariant
                chars@ == self@,
                n == chars.len(),
                0 <= base <= i <= n,
                forms_view(forms@) + placeholders(chars@.subrange(base, n as int)) == placeholders(
                    chars@,
                ),
                match open {
                    None => forall|j: int| base <= j < i ==> chars[j] != '{',
                    Some(o) => base <= o < i && chars[o as int] == '{' && (forall|j: int|
                        base <= j < o ==> chars[j] != '{') && (forall|j: int|
                        o < j < i ==> chars[j] != '}'),
                },
            decreases n - i,
        {
            let c = chars[i];
            match open {
                None => {
                    if c == '{' {
                        open = Some(i);
                    }
                },
                Some(o) => {
                    if c == '}' {
                        let name = string_of(&chars, o + 1, i);
                        let marker = string_of(&chars, o, i + 1);
                        let form = Form::new(name, marker);
                        proof {
                            let tail = chars@.subrange(base, n as int);
                            lemma_placeholders_step(tail, o - base, i - base);
                            assert(tail.subrange(o - base + 1, i - base) == chars@.subrange(
                                o + 1,
                                i as int,
                            ));
                            assert(tail.subrange(o - base, i - base + 1) == chars@.subrange(
                                o as int,
                                i + 1,
                            ));
                            assert(tail.subrange(i - base + 1, tail.len() as int)
                                == chars@.subrange(i + 1, n as int));
                            assert(forms_view(forms@.push(form)) == forms_view(forms@) + seq![
                                form@,
                            ]);
                            base = i + 1;
                        }
                        forms.push(form);
                        open = None;
                    }
                },
            }
            i += 1;
        }
        proof {
            let tail = chars@.subrange(base, n as int);
            assert(!crate::model::has_marker(tail)) by {
                if crate::model::has_marker(tail) {
                    let (a, b) = choose|a: int, b: int|
                        0 <= a < b < tail.len() && tail[a] == '{' && tail[b] == '}';
                    assert(tail[a] == chars[base + a]);
                    assert(tail[b] == chars[base + b]);
                }
            }
            lemma_no_marker_no_placeholders(tail);
            assert(forms_view(forms@) + Seq::<FormView>::empty() == forms_view(forms@));
        }
        forms
    }

    /// Replaces every occurrence of the form's marker in the text with
    /// `replace_text`. The marker is taken as it is written, character by
    /// character: its name plays no part.
    pub fn fill_form(&mut self, form: &Form, replace_text: &str)
        ensures
            final(self)@ == replace_all(old(self)@, form@.form, replace_text@),
    {
        let chars = chars_of(self.input.as_str());
        let marker = chars_of(form.form.as_str());
        let n = chars.len();
        let mut out = String::new();
        let mut i: usize = 0;
        assert(chars@.subrange(0, n as int) == chars@);
        assert(out@ + replace_all(chars@, marker@, replace_text@) == replace_all(
            chars@,
            marker@,
            replace_text@,
        ));
        while i < n
            invariant
                n == chars.len(),
                i <= n,
                out@ + replace_all(chars@.subrange(i as int, n as int), marker@, replace_text@)
                    == replace_all(chars@, marker@, replace_text@),
            decreases n - i,
        {
            let ghost tail = chars@.subrange(i as int, n as int);
            let ghost before = out@;
            if marker.len() == 0 {
                out.append(replace_text);
                push_char(&mut out, chars[i]);
                proof {
                    assert(tail.drop_first() == chars@.subrange(i + 1, n as int));
                    assert(out@ == before + (replace_text@ + seq![tail[0]]));
                    lemma_concat_assoc(before, replace_text@ + seq![tail[0]], replace_all(tail.drop_first(), marker@, replace_text@));
                }
                i += 1;
            } else if matches_at(&chars, &marker, i) {
                out.append(replace_text);
                proof {
                    assert(tail.subrange(marker.len() as int, tail.len() as int)
                        == chars@.subrange(i + marker.len(), n as int));
                    lemma_concat_assoc(before, replace_text@, replace_all(tail.subrange(marker.len() as int, tail.len() as int), marker@, replace_text@));
                }
                i += marker.len();
            } else {
                push_char(&mut out, chars[i]);
                proof {
                    assert(tail.drop_first() == chars@.subrange(i + 1, n as int));
                    assert(out@ == before + seq![tail[0]]);
                    lemma_concat_assoc(before, seq![tail[0]], replace_all(tail.drop_first(), marker@, replace_text@));
                }
                i += 1;
            }
        }
        if marker.len() == 0 {
            out.append(replace_text);
        }
        proof {
            let tail = chars@.subrange(n as int, n as int);
            assert(tail.len() == 0);
            assert(!starts_with(tail, marker@) || marker.len() == 0);
            assert(out@ == replace_all(chars@, marker@, replace_text@));
        }
        self.input = out;
    }
}

/// Joining three sequences gives the same whichever pair is joined first.
proof fn lemma_concat_assoc(a: Seq<char>, b: Seq<char>, c: Seq<char>)
    ensures
        (a + b) + c == a + (b + c),
{
    assert((a + b) + c =~= a + (b + c));
}

} // verus!
