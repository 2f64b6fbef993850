use rustex::error::Error;
use rustex::executor::utils::AppendNode;
use rustex::executor::utils::IntoMutNode;
use rustex::executor::utils::IntoSmartPointer;
use rustex::executor::utils::MutNode;
use rustex::executor::ExecError;
use rustex::executor::ExecResult;
use rustex::executor::Executor;
use rustex::parser::GroupConfig;
use rustex::parser::Node;
use rustex::parser::NodeVal;
use rustex::parser::ParseResult;
use rustex::parser::Parser;
use std::sync::Arc;

fn program(pattern: &str) -> Arc<Node> {
    Parser::new().parse_str(pattern).expect("should parse").head.expect("a program")
}

fn groups_of(result: &ExecResult) -> Vec<(String, (usize, usize))> {
    result.groups.iter().map(|(name, span)| (name.clone(), *span)).collect()
}

#[test]
fn with_tail_runs_one_program_and_then_the_other() {
    let first = program("ab(c|d)");
    let second = program("e+f");
    let spliced = first.with_tail(second.clone());
    assert_eq!(spliced.to_text(), "'ab'->(<'c'>|<'d'>)->'e'+->'f'");
    assert_eq!(first.to_text(), "'ab'->(<'c'>|<'d'>)");
    assert_eq!(second.to_text(), "'e'+->'f'");
}

#[test]
fn with_tail_option_without_a_tail_is_the_program() {
    let first = program("[ab]*c");
    assert_eq!(first.with_tail_option(None).to_text(), "['a', 'b']*->'c'");
    assert_eq!(first.with_tail_option(Some(program("$"))).to_text(), "['a', 'b']*->'c'->$");
}

#[test]
fn with_tail_shares_what_hangs_below_the_spine() {
    let first = program("(a)");
    let spliced = first.with_tail(program("b"));
    match (&first.val, &spliced.val) {
        (NodeVal::Group { group: before, .. }, NodeVal::Group { group: after, .. }) => {
            assert!(Arc::ptr_eq(before, after));
        }
        _ => panic!("expected groups"),
    }
}

#[test]
fn a_mutable_spine_can_be_extended() {
    let first: MutNode = (*program("a.b")).clone().into_mut();
    assert_eq!(first.tail().val.to_owned_text(), "'b'");
    let second = MutNode::from_node(&program("^c"));
    let joined = first.append(second);
    assert_eq!(joined.tail().val.to_owned_text(), "'c'");
    assert_eq!(joined.into_node().to_text(), "'a'->.->'b'->^->'c'");
    let alone = MutNode::from_node(&program("x")).append_option_node(&None);
    assert_eq!(alone.into_node().to_text(), "'x'");
    let tailed = MutNode::from_node(&program("x")).append_option_node(&Some(program("y?")));
    assert_eq!(tailed.into_node().to_text(), "'x'->'y'?");
}

#[test]
fn arc_wraps_a_value() {
    let node = Node { val: NodeVal::Any, next: None }.arc();
    assert_eq!(node.to_text(), ".");
    assert_eq!(*7u32.arc(), 7);
}

#[test]
fn every_construct_has_a_text() {
    let end = Node { val: NodeVal::GroupEnd { start: 3, cfg: None }, next: None }.arc();
    let poisoned = Node { val: NodeVal::Poisoned, next: Some(end) };
    assert_eq!(poisoned.to_text(), "!!poison!!->(/)");
    assert_eq!(program("(?:a)(?<n>b)(c)").to_text(), "(?:'a')->(<n>'b')->('c')");
    assert_eq!(program("a{2,}?").to_text(), "'a'{2}?");
    assert_eq!(program("[^x]+?").to_text(), "[^'x']+?");
}

#[test]
fn a_poisoned_node_is_an_error_once_it_is_reached() {
    let poisoned = Node { val: NodeVal::Poisoned, next: None }.arc();
    let reached = ParseResult { head: Some(program("a").with_tail(poisoned.clone())) };
    let mut executor = Executor::new();
    assert!(matches!(executor.exec(&reached, "a"), Err(ExecError::PoisonedNode)));
    assert!(matches!(executor.exec(&reached, "b"), Ok(None)));
    let branch = ParseResult { head: Some(program("a?").with_tail(poisoned)) };
    assert!(matches!(executor.exec(&branch, "b"), Err(ExecError::PoisonedNode)));
}

#[test]
fn a_group_end_of_the_callers_records_what_it_holds() {
    let end = Node {
        val: NodeVal::GroupEnd { start: 7, cfg: Some(GroupConfig::Named("g".to_string())) },
        next: None,
    }
    .arc();
    let prog = ParseResult { head: Some(program("ab").with_tail(end)) };
    let found = Executor::new().exec(&prog, "xab").expect("should exec").expect("match");
    assert_eq!((found.start, found.end), (1, 2));
    assert_eq!(groups_of(&found), vec![("g".to_string(), (7, 2))]);
}

#[test]
fn the_empty_program_matches_nothing() {
    let mut executor = Executor::new();
    assert!(matches!(executor.exec(&ParseResult { head: None }, "abc"), Ok(None)));
    assert!(matches!(executor.exec(&ParseResult::default(), ""), Ok(None)));
}

#[test]
fn merging_writes_the_second_over_the_first() {
    let mut first = ExecResult::new(2);
    first.end = 9;
    first.groups.insert("a".to_string(), (1, 1));
    first.groups.insert("b".to_string(), (2, 2));
    let mut second = ExecResult::new(5);
    second.groups.insert("c".to_string(), (3, 3));
    second.groups.insert("a".to_string(), (4, 4));
    let merged = first.clone().merge_groups(second.clone());
    assert_eq!((merged.start, merged.end), (2, 9));
    assert_eq!(
        groups_of(&merged),
        vec![("a".to_string(), (4, 4)), ("b".to_string(), (2, 2)), ("c".to_string(), (3, 3))]
    );
    assert!(ExecResult::map_options(None, None).is_none());
    assert_eq!(ExecResult::map_options(None, Some(second.clone())).map(|m| m.start), Some(5));
    assert_eq!(ExecResult::map_options(Some(first.clone()), None).map(|m| m.start), Some(2));
    let both = ExecResult::map_options(Some(first), Some(second)).expect("a match");
    assert_eq!(both.start, 2);
    assert_eq!(groups_of(&both).len(), 3);
}

#[test]
fn errors_carry_their_message() {
    let err = Parser::new().parse_str("a\\b").expect_err("expected parse failure");
    let error = Error::from(err);
    assert!(matches!(error, Error::Parse { .. }));
    assert_eq!(error.message(), "parse error: unexpected char 'b' at :3\na\\b\n  ^");
    let error = Error::from(ExecError::PoisonedNode);
    assert!(matches!(error, Error::Exec { .. }));
    assert_eq!(error.message(), "parse error: internal: encountered poisoned node");
    assert_eq!(ExecError::EmptyParseResult.message(), "cannot execute empty parse result");
    assert_eq!(Error::IO { msg: "io error: gone".to_string() }.message(), "io error: gone");
}
