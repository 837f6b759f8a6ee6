use fill::{Form, Text};

fn form(name: &str, marker: &str) -> Form {
    Form::new(name.to_string(), marker.to_string())
}

#[test]
fn test_get_forms() {
    // Single form
    assert_eq!(
        Text::new("Hello, my name is {name}.").get_forms(),
        vec![Form::new("name".to_string(), "{name}".to_string())]
    );

    // Multiple forms
    assert_eq!(
        Text::new("Hello, my name is {name}. I'm {age} and live in {place}.").get_forms(),
        vec![
            Form::new("name".to_string(), "{name}".to_string()),
            Form::new("age".to_string(), "{age}".to_string()),
            Form::new("place".to_string(), "{place}".to_string())
        ]
    );

    // None
    assert_eq!(Text::new("Hello").get_forms(), vec![]);

    // Multiple lines
    assert_eq!(
        Text::new(
            "Hello, my name is {name}.
                      I'm {age} and live in {place}."
        )
        .get_forms(),
        vec![
            Form::new("name".to_string(), "{name}".to_string()),
            Form::new("age".to_string(), "{age}".to_string()),
            Form::new("place".to_string(), "{place}".to_string())
        ]
    );
}

#[test]
fn text_holds_a_copy_of_its_input() {
    let source = String::from("a {b} c");
    let text = Text::new(&source);
    assert_eq!(text.input, "a {b} c");
}

#[test]
fn form_keeps_name_and_marker() {
    let f = Form::new("age".to_string(), "{age}".to_string());
    assert_eq!(f.name, "age");
    assert_eq!(f.form, "{age}");
}

#[test]
fn no_braces_no_forms() {
    assert_eq!(Text::new("").get_forms(), vec![]);
    assert_eq!(Text::new("plain text, nothing to fill").get_forms(), vec![]);
    assert_eq!(Text::new("line one\nline two\n").get_forms(), vec![]);
}

#[test]
fn lone_or_reversed_braces_are_no_marker() {
    assert_eq!(Text::new("{").get_forms(), vec![]);
    assert_eq!(Text::new("}").get_forms(), vec![]);
    assert_eq!(Text::new("} then {").get_forms(), vec![]);
    assert_eq!(Text::new("open { and no end").get_forms(), vec![]);
    assert_eq!(Text::new("{a} and then {").get_forms(), vec![form("a", "{a}")]);
}

#[test]
fn forms_come_in_order_across_lines() {
    assert_eq!(
        Text::new("Hi {a}.\nBye {b}.").get_forms(),
        vec![form("a", "{a}"), form("b", "{b}")]
    );
}

#[test]
fn empty_braces_give_an_empty_name() {
    assert_eq!(Text::new("{}").get_forms(), vec![form("", "{}")]);
    assert_eq!(Text::new("a{}b{}").get_forms(), vec![form("", "{}"), form("", "{}")]);
}

#[test]
fn a_marker_found_twice_is_listed_twice() {
    assert_eq!(
        Text::new("{x} and {y} and {x}").get_forms(),
        vec![form("x", "{x}"), form("y", "{y}"), form("x", "{x}")]
    );
}

#[test]
fn a_marker_may_span_lines() {
    assert_eq!(Text::new("{a\nb}").get_forms(), vec![form("a\nb", "{a\nb}")]);
    assert_eq!(
        Text::new("start {first\nsecond} end {x}").get_forms(),
        vec![form("first\nsecond", "{first\nsecond}"), form("x", "{x}")]
    );
}

#[test]
fn a_marker_ends_at_the_first_closing_brace() {
    assert_eq!(Text::new("{a}}").get_forms(), vec![form("a", "{a}")]);
    assert_eq!(Text::new("{{a}").get_forms(), vec![form("{a", "{{a}")]);
    assert_eq!(Text::new("{{a}}").get_forms(), vec![form("{a", "{{a}")]);
    assert_eq!(Text::new("{a}{b}").get_forms(), vec![form("a", "{a}"), form("b", "{b}")]);
    assert_eq!(Text::new("}{a}{").get_forms(), vec![form("a", "{a}")]);
}

#[test]
fn names_keep_their_characters() {
    assert_eq!(
        Text::new("Grüße, {näme}! 日本 {場所}.").get_forms(),
        vec![form("näme", "{näme}"), form("場所", "{場所}")]
    );
    assert_eq!(Text::new("{ a b }").get_forms(), vec![form(" a b ", "{ a b }")]);
}

#[test]
fn n_markers_give_n_forms() {
    let names = ["one", "two", "three", "four", "five"];
    let mut source = String::from("start");
    for name in names.iter() {
        source.push_str(" {");
        source.push_str(name);
        source.push_str("} text");
    }
    let forms = Text::new(&source).get_forms();
    assert_eq!(forms.len(), 5);
    for (found, name) in forms.iter().zip(names.iter()) {
        assert_eq!(found.name, *name);
        assert_eq!(found.form, format!("{{{}}}", name));
    }
}
