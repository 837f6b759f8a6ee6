//! Filling a text step by step: the caller asks for the next prompt, gets an
//! answer from wherever it likes, and hands the answer in.

use crate::chars::{chars_of, string_of};
use crate::model::{placeholders, replace_all, FormView};
use crate::text::{forms_view, Form, Text};
use vstd::prelude::*;
use vstd::string::StringExecFns;

verus! {

/// `line` without the line feed that ends it, if one does.
pub open spec fn without_line_end(line: Seq<char>) -> Seq<char> {
    if line.len() > 0 && line.last() == '\n' {
        line.drop_last()
    } else {
        line
    }
}

/// Takes the line feed off the end of a line that was read. A line without
/// one, such as the last of a stream, is kept whole.
pub fn trim_line_end(line: &str) -> (value: String)
    ensures
        value@ == without_line_end(line@),
{
    let chars = chars_of(line);
    let n = chars.len();
    if n > 0 && chars[n - 1] == '\n' {
        string_of(&chars, 0, n - 1)
    } else {
        assert(chars@.subrange(0, n as int) == chars@);
        string_of(&chars, 0, n)
    }
}

/// A text that is being filled: the buffer, the placeholders found in it at
/// the start, and how many of them have been answered.
pub struct Session {
    text: Text,
    forms: Vec<Form>,
    answered: usize,
}

impl Session {
    /// The buffer as it stands.
    pub closed spec fn text(&self) -> Seq<char> {
        self.text@
    }

    /// The placeholders that were found when the session began.
    pub closed spec fn forms(&self) -> Seq<FormView> {
        forms_view(self.forms@)
    }

    /// How many placeholders have been answered.
    pub closed spec fn answered(&self) -> nat {
        self.answered as nat
    }

    /// Starts to fill `input`: finds its placeholders and answers none yet.
    pub fn new(input: &str) -> (session: Session)
        ensures
            session.text() == input@,
            session.forms() == placeholders(input@),
            session.answered() == 0,
    {
        let text = Text::new(input);
        let forms = text.get_forms();
        Session { text, forms, answered: 0 }
    }

    /// The prompt for the next placeholder, its name followed by a colon and
    /// a space, or `None` when every placeholder has been answered.
    pub fn prompt(&self) -> (prompt: Option<String>)
        ensures
            self.answered() >= self.forms().len() ==> prompt is None,
            self.answered() < self.forms().len() ==> prompt is Some && prompt->0@
                == self.forms()[self.answered() as int].name + ": "@,
    {
        if self.answered < self.forms.len() {
            let name = self.forms[self.answered].name.clone();
            Some(name.concat(": "))
        } else {
            None
        }
    }

    /// Answers the next placeholder with `line`, a line as it was read: the
    /// line feed at its end is dropped, and every occurrence of the
    /// placeholder's marker in the buffer is replaced by what is left.
    /// Returns `false`, and changes nothing, when no placeholder is waiting.
    pub fn answer(&mut self, line: &str) -> (filled: bool)
        ensures
            final(self).forms() == old(self).forms(),
            filled == (old(self).answered() < old(self).forms().len()),
            filled ==> final(self).answered() == old(self).answered() + 1 && final(self).text()
                == replace_all(
                old(self).text(),
                old(self).forms()[old(self).answered() as int].form,
                without_line_end(line@),
            ),
            !filled ==> final(self).answered() == old(self).answered() && final(self).text() == old(
                self,
            ).text(),
    {
        if self.answered < self.forms.len() {
            let value = trim_line_end(line);
            self.text.fill_form(&self.forms[self.answered], value.as_str());
            self.answered = self.answered + 1;
            true
        } else {
            false
        }
    }

    /// Ends the session and hands out the buffer.
    pub fn finish(self) -> (output: String)
        ensures
            output@ == self.text(),
    {
        self.text.input
    }
}

} // verus!
