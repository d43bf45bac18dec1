use rustypipe::interpolate::{interpolate_command, strip_tokens, substitute};
use rustypipe::text::{decimal_string, from_chars, replace_all, to_chars, trim};

fn pairs(items: &[(&str, &str)]) -> Vec<(String, String)> {
    items.iter().map(|(k, v)| (k.to_string(), v.to_string())).collect()
}

#[test]
fn unknown_token_is_stripped() {
    let none = pairs(&[]);
    assert_eq!(interpolate_command("echo x{{nope.output}}y", &none, &none), "echo xy");
}

#[test]
fn output_is_trimmed_and_spliced() {
    let outputs = pairs(&[("a", "hello\n")]);
    let cmd = interpolate_command("echo {{a.output}} world", &outputs, &pairs(&[]));
    assert_eq!(cmd, "echo hello world");
}

#[test]
fn trailing_space_in_token_is_tolerated() {
    let outputs = pairs(&[("a", "  out \t\r\n")]);
    let vars = pairs(&[("NAME", "value")]);
    let cmd = interpolate_command("{{a.output }}|{{vars.NAME }}|{{vars.NAME}}", &outputs, &vars);
    assert_eq!(cmd, "out|value|value");
}

#[test]
fn leading_space_in_token_is_not_tolerated() {
    let vars = pairs(&[("NAME", "value")]);
    assert_eq!(interpolate_command("a{{ vars.NAME}}b", &pairs(&[]), &vars), "ab");
}

#[test]
fn variable_value_is_not_trimmed() {
    let vars = pairs(&[("V", " spaced ")]);
    assert_eq!(interpolate_command("[{{vars.V}}]", &pairs(&[]), &vars), "[ spaced ]");
}

#[test]
fn unknown_variable_is_removed() {
    let vars = pairs(&[("A", "1")]);
    assert_eq!(interpolate_command("x={{vars.B}}.", &pairs(&[]), &vars), "x=.");
}

#[test]
fn every_occurrence_is_replaced() {
    let outputs = pairs(&[("a", "1"), ("b", "2")]);
    let cmd = interpolate_command("{{a.output}}{{b.output}}{{a.output}}", &outputs, &pairs(&[]));
    assert_eq!(cmd, "121");
}

#[test]
fn variables_are_substituted_before_outputs() {
    let vars = pairs(&[("T", "{{a.output}}")]);
    let outputs = pairs(&[("a", "late")]);
    assert_eq!(interpolate_command("{{vars.T}}", &outputs, &vars), "late");
}

#[test]
fn token_brought_in_by_an_output_is_removed() {
    let outputs = pairs(&[("a", "{{vars.SECRET}}")]);
    assert_eq!(interpolate_command("echo {{a.output}}!", &outputs, &pairs(&[])), "echo !");
}

#[test]
fn no_token_is_left_even_across_lines() {
    let none = pairs(&[]);
    let cmd = interpolate_command("a{{x\ny}}b", &none, &none);
    assert_eq!(cmd, "ab");
    assert!(!(cmd.contains("{{") && cmd.contains("}}")));
}

#[test]
fn sweep_works_line_by_line_before_the_rest_is_removed() {
    let none = pairs(&[]);
    assert_eq!(interpolate_command("{{a\n{{b}}", &none, &none), "{{a\n");
}

#[test]
fn text_without_tokens_is_unchanged() {
    let none = pairs(&[]);
    assert_eq!(interpolate_command("echo { } }} {{ done", &none, &none), "echo { } }} {{ done");
    assert_eq!(interpolate_command("", &none, &none), "");
}

#[test]
fn substitute_leaves_unknown_tokens() {
    let outputs = pairs(&[("a", " x ")]);
    let s = substitute("{{a.output}}-{{b.output}}", &outputs, &pairs(&[]));
    assert_eq!(s, "x-{{b.output}}");
}

#[test]
fn strip_tokens_takes_the_shortest_token_from_the_left() {
    assert_eq!(strip_tokens("a{{b}}c}}d"), "ac}}d");
    assert_eq!(strip_tokens("{{{x}}}"), "}");
    assert_eq!(strip_tokens("{{}}"), "");
    assert_eq!(strip_tokens("{{}"), "{{}");
    assert_eq!(strip_tokens("{{a}}{{b}}"), "");
    assert_eq!(strip_tokens("x{{1}}y{{2"), "xy{{2");
    assert_eq!(strip_tokens("é{{ü}}ö"), "éö");
}

#[test]
fn replace_all_goes_left_to_right_without_overlap() {
    let r = replace_all(&to_chars("aaaa"), &to_chars("aa"), &to_chars("b"));
    assert_eq!(from_chars(&r), "bb");
    let r = replace_all(&to_chars("aaa"), &to_chars("aa"), &to_chars("b"));
    assert_eq!(from_chars(&r), "ba");
    let r = replace_all(&to_chars("abc"), &to_chars(""), &to_chars("x"));
    assert_eq!(from_chars(&r), "abc");
    let r = replace_all(&to_chars("abc"), &to_chars("abcd"), &to_chars("x"));
    assert_eq!(from_chars(&r), "abc");
}

#[test]
fn trim_strips_ascii_whitespace_only() {
    assert_eq!(from_chars(&trim(&to_chars(" \t\r\n\x0Ca b \n"))), "a b");
    assert_eq!(from_chars(&trim(&to_chars("   "))), "");
    assert_eq!(from_chars(&trim(&to_chars(""))), "");
    assert_eq!(from_chars(&trim(&to_chars("\u{a0}x\u{a0}"))), "\u{a0}x\u{a0}");
}

#[test]
fn decimal_of_numbers() {
    assert_eq!(decimal_string(0), "0");
    assert_eq!(decimal_string(7), "7");
    assert_eq!(decimal_string(10), "10");
    assert_eq!(decimal_string(65535), "65535");
    assert_eq!(decimal_string(u128::MAX), u128::MAX.to_string());
}
