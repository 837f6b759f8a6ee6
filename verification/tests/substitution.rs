use fill::{Form, Text};

fn replaced(source: &str, marker: &str, value: &str) -> String {
    let mut text = Text::new(source);
    text.fill_form(&Form::new(String::new(), marker.to_string()), value);
    text.input
}

#[test]
fn test_fill_form() {
    let mut text = Text::new(
        "Hello, my name is {name}.
                      I'm {age} and live in {place}.",
    );
    let mut forms = text.get_forms();
    assert_eq!(
        forms,
        vec![
            Form::new("name".to_string(), "{name}".to_string()),
            Form::new("age".to_string(), "{age}".to_string()),
            Form::new("place".to_string(), "{place}".to_string())
        ]
    );

    let input = ["Ix5231", "19", "Japan"];
    for (form, i) in forms.iter_mut().zip(&input) {
        text.fill_form(form, i);
    }
    assert_eq!(
        text.input,
        "Hello, my name is Ix5231.
                      I'm 19 and live in Japan.",
    )
}

#[test]
fn fill_in_extraction_order() {
    let mut text = Text::new("Hello, my name is {name}.\nI'm {age} and live in {place}.");
    let forms = text.get_forms();
    let values = ["Ix5231", "19", "Japan"];
    for (form, value) in forms.iter().zip(values.iter()) {
        text.fill_form(form, value);
    }
    assert_eq!(text.input, "Hello, my name is Ix5231.\nI'm 19 and live in Japan.");
}

#[test]
fn every_occurrence_is_replaced() {
    let mut text = Text::new("{name} met {name}; {name} left.");
    let forms = text.get_forms();
    assert_eq!(forms.len(), 3);
    text.fill_form(&forms[0], "Ann");
    assert_eq!(text.input, "Ann met Ann; Ann left.");
    assert!(!text.input.contains("{name}"));
    // The other two entries have the same marker: nothing is left for them.
    text.fill_form(&forms[1], "Bob");
    text.fill_form(&forms[2], "Cid");
    assert_eq!(text.input, "Ann met Ann; Ann left.");
}

#[test]
fn empty_marker_case() {
    let mut text = Text::new("{}");
    let forms = text.get_forms();
    assert_eq!(forms, vec![Form::new(String::new(), "{}".to_string())]);
    text.fill_form(&forms[0], "X");
    assert_eq!(text.input, "X");
}

#[test]
fn filled_text_has_no_forms_left() {
    let mut text = Text::new("Dear {who},\nsee you on {day}.\n");
    for form in text.get_forms() {
        text.fill_form(&form, "someone");
    }
    assert_eq!(text.input, "Dear someone,\nsee you on someone.\n");
    assert_eq!(text.get_forms(), vec![]);
    // A further fill finds nothing to replace.
    text.fill_form(&Form::new("who".to_string(), "{who}".to_string()), "nobody");
    assert_eq!(text.input, "Dear someone,\nsee you on someone.\n");
    assert_eq!(text.get_forms(), vec![]);
}

#[test]
fn the_marker_counts_not_the_name() {
    let mut text = Text::new("a {x} b [x] c");
    text.fill_form(&Form::new("x".to_string(), "[x]".to_string()), "!");
    assert_eq!(text.input, "a {x} b ! c");
}

#[test]
fn a_value_is_not_expanded_again() {
    let mut text = Text::new("{a} {b}");
    let forms = text.get_forms();
    text.fill_form(&forms[0], "{c}");
    assert_eq!(text.input, "{c} {b}");
    text.fill_form(&forms[1], "{a}");
    assert_eq!(text.input, "{c} {a}");
}

#[test]
fn a_value_may_be_empty_or_hold_the_marker() {
    assert_eq!(replaced("x{a}y", "{a}", ""), "xy");
    assert_eq!(replaced("x{a}y", "{a}", "{a}"), "x{a}y");
    assert_eq!(replaced("x{a}y", "{a}", "<{a}>"), "x<{a}>y");
}

#[test]
fn a_marker_can_be_put_together_by_a_fill() {
    // Values that are empty, hold a brace or occur in the name can leave the
    // marker behind.
    assert_eq!(replaced("{{a}a}", "{a}", ""), "{a}");
    assert_eq!(replaced("{{a}}", "{a}", "a"), "{a}");
    assert_eq!(replaced("{a}a}", "{a}", "{"), "{a}");
    assert_eq!(replaced("{a{a}", "{a}", "}"), "{a}");
}

#[test]
fn occurrences_are_taken_from_the_left_without_overlap() {
    assert_eq!(replaced("aaa", "aa", "b"), "ba");
    assert_eq!(replaced("aaaa", "aa", "b"), "bb");
    assert_eq!(replaced("abababa", "aba", "X"), "XbX");
    assert_eq!(replaced("abc", "abcd", "X"), "abc");
    assert_eq!(replaced("", "a", "X"), "");
}

#[test]
fn an_empty_marker_stands_between_all_characters() {
    assert_eq!(replaced("", "", "X"), "X");
    assert_eq!(replaced("ab", "", "X"), "XaXbX");
    assert_eq!(replaced("ab", "", ""), "ab");
}

#[test]
fn replacement_agrees_with_the_standard_one() {
    let sources = ["", "a", "{a}", "x{a}y{a}z", "{{a}}", "aaaa", "日本{場所}日本", "a\n{b\nc}\n", "}{"];
    let markers = ["", "a", "{a}", "aa", "{場所}", "{b\nc}", "{", "}", "本"];
    let values = ["", "X", "{a}", "日", "a\nb"];
    for source in sources.iter() {
        for marker in markers.iter() {
            for value in values.iter() {
                assert_eq!(
                    replaced(source, marker, value),
                    source.replace(marker, value),
                    "{:?} {:?} {:?}",
                    source,
                    marker,
                    value
                );
            }
        }
    }
}

#[test]
fn text_outside_the_markers_is_untouched() {
    let mut text = Text::new("  tabs\tand  spaces {k}\r\n\tünïcödé {k} end  ");
    let forms = text.get_forms();
    text.fill_form(&forms[0], "v");
    assert_eq!(text.input, "  tabs\tand  spaces v\r\n\tünïcödé v end  ");
}

#[test]
fn fill_forms_takes_values_in_order() {
    let mut text = Text::new("Hello, my name is {name}.\nI'm {age} and live in {place}.");
    let forms = text.get_forms();
    let values = vec!["Ix5231".to_string(), "19".to_string(), "Japan".to_string()];
    text.fill_forms(&forms, &values);
    assert_eq!(text.input, "Hello, my name is Ix5231.\nI'm 19 and live in Japan.");
    assert_eq!(text.get_forms(), vec![]);
}

#[test]
fn fill_forms_stops_at_the_shorter_list() {
    let mut text = Text::new("{a} {b} {c}");
    let forms = text.get_forms();
    text.fill_forms(&forms, &vec!["1".to_string(), "2".to_string()]);
    assert_eq!(text.input, "1 2 {c}");

    let mut text = Text::new("{a} {b}");
    let forms = text.get_forms();
    let values = vec!["1".to_string(), "2".to_string(), "3".to_string()];
    text.fill_forms(&forms[..1].to_vec(), &values);
    assert_eq!(text.input, "1 {b}");

    let mut text = Text::new("{a} {b}");
    text.fill_forms(&Vec::new(), &Vec::new());
    assert_eq!(text.input, "{a} {b}");
}

#[test]
fn fill_forms_works_on_what_the_fill_before_left() {
    let mut text = Text::new("{a} {b}");
    let forms = text.get_forms();
    text.fill_forms(&forms, &vec!["{b}".to_string(), "x".to_string()]);
    assert_eq!(text.input, "x x");
}
