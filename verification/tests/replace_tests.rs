use rustex::executor::ExecResult;
use rustex::executor::Executor;
use rustex::parser::Parser;
use rustex::replace::ReplaceSpec;
use rustex::replace::ReplaceSpecNodeValue;

fn run_test(pattern: &str, input: &str, replace_pattern: &str) -> Result<String, Box<String>> {
    let parse_res = Parser::new()
        .parse_str(pattern)
        .map_err(|err| format!("failed to parse: {:?}", err))?;

    let exec_res = Executor::new()
        .exec(&parse_res, input)
        .map_err(|err| format!("failed to exec: {:?}", err))?
        .ok_or_else(|| format!("empty exec result"))?;

    let spec = ReplaceSpec::parse_str(replace_pattern);

    spec.perform_replace(input, &exec_res)
        .ok_or_else(|| Box::new(format!("failed to perform replace or empty replace pattern")))
}

fn parts_of(template: &str) -> Vec<(bool, String)> {
    ReplaceSpec::parse_str(template)
        .parts
        .iter()
        .map(|part| match part {
            ReplaceSpecNodeValue::String(text) => (false, text.clone()),
            ReplaceSpecNodeValue::GroupNum(name) => (true, name.clone()),
        })
        .collect()
}

fn text(s: &str) -> (bool, String) {
    (false, s.to_string())
}

fn group(s: &str) -> (bool, String) {
    (true, s.to_string())
}

#[test]
fn test_replace_basic() {
    let result = run_test("(he)llo wo(r)ld!", "hello world!", "$1llo $2ust!").unwrap();

    assert_eq!(result, "hello rust!");
}

#[test]
fn replace_with_named_groups() {
    let result = run_test("(?<1>he)llo wo(?<2>r)ld!", "hello world!", "$1llo $2ust!").unwrap();
    assert_eq!(result, "hello rust!");
}

#[test]
fn template_parts() {
    assert_eq!(parts_of("$1llo $2ust!"), vec![group("1"), text("llo "), group("2"), text("ust!")]);
    assert_eq!(parts_of("plain"), vec![text("plain")]);
    assert_eq!(parts_of("a$"), vec![text("a"), group("")]);
    assert_eq!(parts_of("$$"), vec![group(""), group("")]);
    assert_eq!(parts_of("$10x$"), vec![group("10"), text("x"), group("")]);
    assert_eq!(parts_of(""), vec![]);
}

#[test]
fn empty_template_renders_nothing() {
    let spec = ReplaceSpec::parse_str("");
    let res = ExecResult::new(0);
    assert_eq!(spec.perform_replace("abc", &res), None);
}

#[test]
fn template_round_trip() {
    let result = run_test("x(?<1>b+)c", "xbbbc", "$1").unwrap();
    assert_eq!(result, "bbb");
    let result = run_test("h(?<1>\u{e9}+) (?<2>.)", "h\u{e9}\u{e9} \u{4e16}!", "[$2|$1]").unwrap();
    assert_eq!(result, "[\u{4e16}|\u{e9}\u{e9}]");
}

#[test]
fn a_missing_group_is_emitted_as_written() {
    let result = run_test("(?<1>a)", "a", "$1-$2-$").unwrap();
    assert_eq!(result, "a-$2-$");
}

#[test]
fn a_capture_that_is_no_text_of_the_input_is_emitted_as_written() {
    let mut res = ExecResult::new(0);
    res.groups.insert("1".to_string(), (1, 1));
    res.groups.insert("2".to_string(), (0, 7));
    res.groups.insert("3".to_string(), (3, 2));
    res.groups.insert("4".to_string(), (0, 2));
    let spec = ReplaceSpec::parse_str("$1,$2,$3,$4");
    // "a\u{e9}b" is a, two bytes of e-acute, b: offsets 0, 1, 3, 4.
    assert_eq!(spec.perform_replace("a\u{e9}b", &res), Some("$1,$2,,a\u{e9}".to_string()));
}
