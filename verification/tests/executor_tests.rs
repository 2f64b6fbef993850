use rustex::executor::ExecResult;
use rustex::executor::Executor;
use rustex::parser::Parser;

fn run_test(pattern: &str, input: &str) -> ExecResult {
    let parser = Parser::new();
    let mut executor = Executor::new();
    executor
        .exec(&parser.parse_str(pattern).expect("should parse"), input)
        .expect("should exec")
        .expect("expected exec result")
}

fn groups_of(result: &ExecResult) -> Vec<(String, (usize, usize))> {
    result.groups.iter().map(|(name, span)| (name.clone(), *span)).collect()
}

fn named(name: &str, start: usize, end: usize) -> (String, (usize, usize)) {
    (name.to_string(), (start, end))
}

#[test]
fn test_start_end() {
    let result = run_test("^foo$", "foo");
    assert_eq!((result.start, result.end), (0, 2));
    assert_eq!(groups_of(&result), vec![]);
}

#[test]
fn test_partial_word_match() {
    let result = run_test("bar", "foo bar baz");
    assert_eq!((result.start, result.end), (4, 6));
    assert_eq!(groups_of(&result), vec![]);
}

#[test]
fn test_set() {
    let result = run_test("fo[oa]b[^ob]r", "foobar baz");
    assert_eq!((result.start, result.end), (0, 5));
    assert_eq!(groups_of(&result), vec![]);
}

#[test]
fn test_repetition_range() {
    let result = run_test("hel{2}o wo{2,5}rld fo{1,} bar", "hello woorld foooo bar");
    assert_eq!((result.start, result.end), (0, 21));
    assert_eq!(groups_of(&result), vec![]);
}

#[test]
fn test_repetition() {
    let result = run_test("fo*b* fo+b? ba{1,3}r{2}", "foo fooo baarr");
    assert_eq!((result.start, result.end), (0, 13));
    assert_eq!(groups_of(&result), vec![]);
}

#[test]
fn test_groups() {
    let result = run_test("(?<one>[^ ]+) (?:world) (?<two>foo) ", "hello world foo bar baz");
    assert_eq!((result.start, result.end), (0, 15));
    assert_eq!(groups_of(&result), vec![named("one", 0, 4), named("two", 12, 14)]);
}

#[test]
fn test_groups_simple() {
    let result = run_test("h(ell)o w(or)ld", "hello world foo bar baz");
    assert_eq!((result.start, result.end), (0, 10));
    assert_eq!(groups_of(&result), vec![named("1", 1, 3), named("2", 7, 8)]);
}

#[test]
fn test_lazy_match() {
    let result = run_test("(.*?) (.*?) (.+?)", "f bar baz qux");
    assert_eq!((result.start, result.end), (0, 6));
    assert_eq!(groups_of(&result), vec![named("1", 0, 0), named("2", 2, 4), named("3", 6, 6)]);
}

#[test]
fn test_or() {
    let result = run_test("a (b|c) (c|d)(d|(foo)) (foo|end)", "a b cd end");
    assert_eq!((result.start, result.end), (0, 9));
    assert_eq!(
        groups_of(&result),
        vec![named("1", 2, 2), named("2", 4, 4), named("3", 5, 5), named("5", 7, 9)]
    );
}

#[test]
fn test_ps() {
    let result = run_test(
        "(?<user>otacon) {4}(?<pid>[0123456789]+) +(?<cpu>[0123456789]\\.[0123456789]) +(?<mem>[0123456789]\\.[0123456789]) +(?<vsz>[0123456789]+) +(?<rss>[0123456789]+) +(?<tty>[^ ]+) +(?<stat>(?:R|W|X)\\+?) {3}(?<start>[^ ]+) +(?<time>[^ ]+) (?<command>.*)",
        "otacon    730061  0.0  0.0   7480  3112 pts/32   R+   11:44   0:00 ps aux",
    );
    assert_eq!((result.start, result.end), (0, 72));
    assert_eq!(
        groups_of(&result),
        vec![
            named("user", 0, 5),
            named("pid", 10, 15),
            named("cpu", 18, 20),
            named("mem", 23, 25),
            named("vsz", 29, 32),
            named("rss", 35, 38),
            named("tty", 40, 45),
            named("stat", 49, 50),
            named("start", 54, 58),
            named("time", 62, 65),
            named("command", 67, 72),
        ]
    );
}

#[test]
fn test_optional_match_branch() {
    let result = run_test("hellow?world", "helloworld");
    assert_eq!((result.start, result.end), (0, 9));
    assert_eq!(groups_of(&result), vec![]);
}

#[test]
fn test_optional_match_branch_group() {
    let result = run_test("hello(w?)world", "helloworld");
    assert_eq!((result.start, result.end), (0, 9));
    assert_eq!(groups_of(&result), vec![named("1", 5, 4)]);
}

fn find(pattern: &str, input: &str) -> Option<(usize, usize)> {
    let parser = Parser::new();
    let mut executor = Executor::new();
    executor
        .exec(&parser.parse_str(pattern).expect("should parse"), input)
        .expect("should exec")
        .map(|m| (m.start, m.end))
}

#[test]
fn groups_without_a_name_are_stored_under_their_position() {
    let result = run_test("(a)(?:b)(?<n>c)(d(e))", "abcde");
    assert_eq!((result.start, result.end), (0, 4));
    assert_eq!(
        groups_of(&result),
        vec![named("1", 0, 0), named("n", 2, 2), named("4", 4, 4), named("3", 3, 4)]
    );
}

#[test]
fn lazy_groups_take_as_little_as_the_rest_needs() {
    let result = run_test("(?<1>.*?) (?<2>.*?) (?<3>.+?)", "f bar baz qux");
    assert_eq!((result.start, result.end), (0, 6));
    assert_eq!(groups_of(&result), vec![named("1", 0, 0), named("2", 2, 4), named("3", 6, 6)]);
}

#[test]
fn greedy_repetition_takes_all_it_can() {
    let result = run_test("(?<1>.+) (?<2>.+)", "f bar baz qux");
    assert_eq!((result.start, result.end), (0, 12));
    assert_eq!(groups_of(&result), vec![named("1", 0, 8), named("2", 10, 12)]);
}

#[test]
fn the_longest_candidate_wins() {
    assert_eq!(find("a|ab|abc", "abcd"), Some((0, 2)));
    assert_eq!(find("abc|ab|a", "abcd"), Some((0, 2)));
    assert_eq!(find("ab?c?", "abd"), Some((0, 1)));
}

#[test]
fn of_equal_ends_the_first_found_wins() {
    let result = run_test("(?<x>a)|(?<y>a)", "a");
    assert_eq!((result.start, result.end), (0, 0));
    assert_eq!(groups_of(&result), vec![named("x", 0, 0)]);
}

#[test]
fn no_match_is_no_error() {
    assert_eq!(find("abc", "abd"), None);
    assert_eq!(find("a", ""), None);
    assert_eq!(find("", "abc"), None);
    assert_eq!(find("", ""), None);
    assert_eq!(find("a$", "ab"), None);
    assert_eq!(find(".b", "aab"), None);
}

#[test]
fn a_match_of_nothing_is_no_match() {
    assert_eq!(find("^", "abc"), None);
    assert_eq!(find("^$", ""), None);
    assert_eq!(find("^a*", "b"), None);
}

#[test]
fn anchors() {
    assert_eq!(find("^ab", "abab"), Some((0, 1)));
    assert_eq!(find("ab$", "ab"), Some((0, 1)));
    assert_eq!(find("b$", "ab"), Some((1, 1)));
    assert_eq!(find("^b", "ab"), None);
}

#[test]
fn only_the_first_word_slides() {
    assert_eq!(find("bar", "foo bar"), Some((4, 6)));
    assert_eq!(find("o b", "foo bar"), Some((2, 4)));
    assert_eq!(find("[b]ar", "foo bar"), None);
    assert_eq!(find("(bar)", "foo bar"), Some((4, 6)));
}

#[test]
fn ranges_count() {
    assert_eq!(find("a{2}", "aaaa"), Some((0, 1)));
    assert_eq!(find("a{2,3}", "aaaa"), Some((0, 2)));
    assert_eq!(find("a{2,}", "aaaa"), Some((0, 2)));
    assert_eq!(find("a{2,}", "aa"), Some((0, 1)));
    assert_eq!(find("a{2,}b", "aaaab"), Some((0, 4)));
    assert_eq!(find("a{0,2}b", "aab"), Some((0, 2)));
    assert_eq!(find("a{3}", "aa"), None);
    assert_eq!(find("xa{0}b", "xb"), Some((0, 1)));
}

#[test]
fn offsets_count_bytes() {
    // h, e-acute (2 bytes), space, a CJK character (3 bytes), !
    let input = "h\u{e9} \u{4e16}!";
    let result = run_test("(?<w>[^ ]+) (?<c>.)", input);
    assert_eq!((result.start, result.end), (0, 6));
    assert_eq!(groups_of(&result), vec![named("w", 0, 2), named("c", 4, 6)]);
    assert_eq!(&input[result.start..=result.end], "h\u{e9} \u{4e16}");
    assert_eq!(find("\u{4e16}", input), Some((4, 6)));
    assert_eq!(find("\u{e9} .!", input), Some((1, 7)));
}

#[test]
fn a_group_entered_before_the_match_begins_at_the_first_byte() {
    let result = run_test("(?<x>bar)", "foo bar");
    assert_eq!((result.start, result.end), (4, 6));
    assert_eq!(groups_of(&result), vec![named("x", 0, 6)]);
}

#[test]
fn a_group_that_is_matched_again_keeps_its_place_and_gets_the_new_extent() {
    let result = run_test("^(?:(?<a>x)(?<b>y)?)+", "xyx");
    assert_eq!((result.start, result.end), (0, 2));
    assert_eq!(groups_of(&result), vec![named("a", 2, 2), named("b", 1, 1)]);
}

#[test]
fn classes_inside_repeated_groups() {
    let result = run_test("^(?<d>[0123456789]+)(?:,(?<e>[^,]+))?;", "42,x y;");
    assert_eq!((result.start, result.end), (0, 6));
    assert_eq!(groups_of(&result), vec![named("d", 0, 1), named("e", 3, 5)]);
}

#[test]
fn executing_twice_gives_the_same_match() {
    let parser = Parser::new();
    let program = parser.parse_str("(?<k>[^=]+)=(?<v>.*)").expect("should parse");
    let mut executor = Executor::new();
    let first = executor.exec(&program, "key=value").expect("should exec").expect("match");
    let other = executor.exec(&program, "zz=1").expect("should exec").expect("match");
    let second = executor.exec(&program, "key=value").expect("should exec").expect("match");
    assert_eq!((first.start, first.end), (0, 8));
    assert_eq!(groups_of(&first), vec![named("k", 0, 2), named("v", 4, 8)]);
    assert_eq!((second.start, second.end), (first.start, first.end));
    assert_eq!(groups_of(&second), groups_of(&first));
    assert_eq!((other.start, other.end), (0, 3));
}

#[test]
fn a_repetition_that_matches_nothing_ends() {
    assert_eq!(find("^*a", "a"), Some((0, 0)));
    assert_eq!(find("(a?)*b", "b"), Some((0, 0)));
    assert_eq!(find("$*", ""), None);
    assert_eq!(find("^+a", "ab"), Some((0, 0)));
    assert_eq!(find("^{3}a", "ab"), Some((0, 0)));
    assert_eq!(find("x${2,}", "x"), Some((0, 0)));
    assert_eq!(find("x^{2,}a", "xa"), None);
    assert_eq!(find("(^|a)+b", "ab"), Some((0, 0)));
}

#[test]
fn a_long_input_is_searched_without_deep_recursion() {
    let input = "a".repeat(20000) + "b";
    assert_eq!(find("a*b", &input), Some((0, 20000)));
    assert_eq!(find("a+?b", &input), Some((0, 20000)));
    assert_eq!(find(".{3,}b", &input), Some((0, 20000)));
}
