use rustex::executor::ExecResult;
use rustex::executor::Executor;
use rustex::parser::Parser;

fn search(pattern: &str, input: &str) -> Option<ExecResult> {
    let program = Parser::new().parse_str(pattern).expect("should parse");
    Executor::new().exec(&program, input).expect("should exec")
}

const INPUTS: [&str; 8] = [
    "",
    "a",
    "foo bar baz",
    "aaa bbb",
    "xyzzy\u{e9}\u{4e16}!",
    "\u{1f600} smile \u{1f600}",
    "key=value; key2=value2",
    "ababab",
];

const PATTERNS: [&str; 12] = [
    "a",
    "ba",
    "a+",
    "(?<w>[^ ]+)",
    "(?<k>[^=]+)=(?<v>[^;]*)",
    "(?<a>.)(?<b>.)?",
    "(?<x>ab)+",
    ".*",
    "\u{e9}(?<c>.)",
    "(?<e>\u{1f600}) (?<s>.+?) ",
    "(?<l>a|ab)(?<r>b|a)?",
    "[ab]{2,3}",
];

#[test]
fn a_match_is_a_substring_on_character_boundaries() {
    for input in INPUTS {
        for pattern in PATTERNS {
            if let Some(m) = search(pattern, input) {
                assert!(m.start <= m.end, "{pattern} on {input}");
                assert!(m.end < input.len(), "{pattern} on {input}");
                assert!(input.is_char_boundary(m.start), "{pattern} on {input}");
                assert!(input.is_char_boundary(m.end + 1), "{pattern} on {input}");
            }
        }
    }
}

#[test]
fn groups_lie_within_the_match() {
    for input in INPUTS {
        for pattern in PATTERNS {
            if let Some(m) = search(pattern, input) {
                for (name, (start, end)) in m.groups.iter() {
                    assert!(*end <= m.end, "{name} of {pattern} on {input}");
                    assert!(*start <= *end + 1, "{name} of {pattern} on {input}");
                    assert!(*start == 0 || m.start <= *start, "{name} of {pattern} on {input}");
                    assert!(input.is_char_boundary(*start), "{name} of {pattern} on {input}");
                    assert!(input.is_char_boundary(*end + 1), "{name} of {pattern} on {input}");
                }
            }
        }
    }
}

#[test]
fn a_pattern_that_begins_with_the_start_anchor_matches_at_the_start() {
    for input in INPUTS {
        for pattern in PATTERNS {
            let anchored = format!("^{pattern}");
            if let Some(m) = search(&anchored, input) {
                assert_eq!(m.start, 0, "{anchored} on {input}");
            }
        }
    }
    assert_eq!(search("^bar", "foo bar").map(|m| m.start), None);
    assert_eq!(search("^foo", "foo bar").map(|m| (m.start, m.end)), Some((0, 2)));
}

#[test]
fn a_pattern_that_ends_with_the_end_anchor_matches_up_to_the_end() {
    let straight = ["a", "ba", "a+", "(?<w>[^ ]+)", ".*", "[ab]{2,3}", "(?<k>[^=]+)=(?<v>[^;]*)", "(a|b)c?"];
    for input in INPUTS {
        for pattern in straight {
            let anchored = format!("{pattern}$");
            if let Some(m) = search(&anchored, input) {
                assert_eq!(m.end + 1, input.len(), "{anchored} on {input}");
            }
        }
    }
    assert_eq!(search("baz$", "foo bar baz").map(|m| (m.start, m.end)), Some((8, 10)));
    assert_eq!(search("bar$", "foo bar baz").map(|m| (m.start, m.end)), None);
}

#[test]
fn a_branch_inside_a_repeated_body_does_not_know_of_the_end_anchor() {
    assert_eq!(search("(?:a|b)+$", "bx").map(|m| (m.start, m.end)), Some((0, 0)));
}

#[test]
fn the_result_is_the_first_candidate_with_the_greatest_end() {
    assert_eq!(search("b|ab", "b ab").map(|m| (m.start, m.end)), Some((2, 3)));
    assert_eq!(search("b|ab", "ab").map(|m| (m.start, m.end)), Some((1, 1)));
    assert_eq!(search("ab|b", "ab").map(|m| (m.start, m.end)), Some((0, 1)));
    assert_eq!(search("a|aa|aaa", "aaaa").map(|m| (m.start, m.end)), Some((0, 2)));
    assert_eq!(search("a*", "aaaa").map(|m| (m.start, m.end)), Some((0, 3)));
    assert_eq!(search("a*?", "aaaa").map(|m| (m.start, m.end)), Some((0, 0)));
    assert_eq!(search("a+?", "aaaa").map(|m| (m.start, m.end)), Some((0, 0)));
    assert_eq!(search("a+?b", "aaab").map(|m| (m.start, m.end)), Some((0, 3)));
}

#[test]
fn the_same_pattern_on_the_same_input_gives_the_same_match() {
    for input in INPUTS {
        for pattern in PATTERNS {
            let first = search(pattern, input).map(|m| format!("{:?}", m));
            let second = search(pattern, input).map(|m| format!("{:?}", m));
            assert_eq!(first, second, "{pattern} on {input}");
        }
    }
}
