//! The end anchor: where a pattern ends with `$`, a match ends with the input.
//!
//! A repetition matches its body apart from what follows it, and a state that
//! a branch inside the body leaves on the stack does not know of the `$`. The
//! law is therefore stated of patterns whose repeated bodies do not branch.

use super::laws::candidates;
use super::laws::candidates_below;
use super::laws::found;
use super::laws::lemma_longest_match;
use super::proofs::lemma_walk_extends;
use super::semantics::candidate;
use super::semantics::exec_result;
use super::semantics::find_word;
use super::semantics::more_of;
use super::semantics::off;
use super::semantics::one_or_more;
use super::semantics::recorded;
use super::semantics::room;
use super::semantics::seed;
use super::semantics::started;
use super::semantics::times;
use super::semantics::walk;
use super::semantics::Match;
use super::semantics::Outcome;
use super::semantics::Partial;
use super::semantics::State;
use super::semantics::Walked;
use super::sound::fits;
use crate::parser::model::lemma_weight_concat;
use crate::parser::model::lemma_weight_first;
use crate::parser::model::lemma_weight_one;
use crate::parser::model::weight;
use crate::parser::model::Pat;
use crate::text::byte_offset;
use vstd::prelude::*;

verus! {

/// Whether a pattern never branches: it holds no optional part, no
/// alternation and no repetition, at any depth.
pub open spec fn straight(p: Seq<Pat>) -> bool
    decreases p, 0nat,
{
    forall|i: int| 0 <= i < p.len() ==> straight_pat(#[trigger] p[i])
}

pub open spec fn straight_pat(p: Pat) -> bool
    decreases p, 1nat,
{
    match p {
        Pat::Group { body, .. } => straight(body),
        Pat::Optional(_) => false,
        Pat::Or { .. } => false,
        Pat::ZeroOrMore { .. } => false,
        Pat::OneOrMore { .. } => false,
        Pat::RepetitionRange { .. } => false,
        _ => true,
    }
}

/// Whether every repeated body of a pattern is straight.
pub open spec fn tidy(p: Seq<Pat>) -> bool
    decreases p, 0nat,
{
    forall|i: int| 0 <= i < p.len() ==> tidy_pat(#[trigger] p[i])
}

pub open spec fn tidy_pat(p: Pat) -> bool
    decreases p, 1nat,
{
    match p {
        Pat::ZeroOrMore { body, .. } => straight(body),
        Pat::OneOrMore { body, .. } => straight(body),
        Pat::RepetitionRange { body, .. } => straight(body),
        Pat::Optional(body) => tidy(body),
        Pat::Group { body, .. } => tidy(body),
        Pat::Or { left, right } => tidy(left) && tidy(right),
        _ => true,
    }
}

/// A program that ends with the end anchor; an empty one stands at the end of
/// the input already.
pub open spec fn closing(prog: Seq<Pat>, cur: int, n: int) -> bool {
    if prog.len() == 0 {
        cur == n
    } else {
        prog.last() is End
    }
}

/// A state whose program is tidy and closing.
pub open spec fn aimed(input: Seq<char>, st: State) -> bool {
    &&& 0 <= st.cur <= input.len()
    &&& tidy(st.prog)
    &&& closing(st.prog, st.cur, input.len() as int)
}

pub open spec fn all_aimed(input: Seq<char>, stack: Seq<State>) -> bool {
    forall|i: int| 0 <= i < stack.len() ==> aimed(input, #[trigger] stack[i])
}

pub proof fn lemma_straight_unfold(p: Pat)
    ensures
        straight_pat(p) == (match p {
            Pat::Group { body, .. } => straight(body),
            Pat::Optional(_) => false,
            Pat::Or { .. } => false,
            Pat::ZeroOrMore { .. } => false,
            Pat::OneOrMore { .. } => false,
            Pat::RepetitionRange { .. } => false,
            _ => true,
        }),
        tidy_pat(p) == (match p {
            Pat::ZeroOrMore { body, .. } => straight(body),
            Pat::OneOrMore { body, .. } => straight(body),
            Pat::RepetitionRange { body, .. } => straight(body),
            Pat::Optional(body) => tidy(body),
            Pat::Group { body, .. } => tidy(body),
            Pat::Or { left, right } => tidy(left) && tidy(right),
            _ => true,
        }),
{
    reveal_with_fuel(straight_pat, 2);
    reveal_with_fuel(tidy_pat, 2);
}

pub proof fn lemma_straight_parts(a: Seq<Pat>, b: Seq<Pat>)
    ensures
        straight(a) && straight(b) ==> straight(a + b),
        tidy(a) && tidy(b) ==> tidy(a + b),
        a.len() > 0 && straight(a) ==> straight(a.drop_first()) && straight_pat(a[0]),
        a.len() > 0 && tidy(a) ==> tidy(a.drop_first()) && tidy_pat(a[0]),
{
    if straight(a) && straight(b) {
        assert forall|i: int| 0 <= i < (a + b).len() implies straight_pat(#[trigger] (a + b)[i]) by {
            if i < a.len() {
                assert((a + b)[i] == a[i]);
            } else {
                assert((a + b)[i] == b[i - a.len()]);
            }
        }
    }
    if tidy(a) && tidy(b) {
        assert forall|i: int| 0 <= i < (a + b).len() implies tidy_pat(#[trigger] (a + b)[i]) by {
            if i < a.len() {
                assert((a + b)[i] == a[i]);
            } else {
                assert((a + b)[i] == b[i - a.len()]);
            }
        }
    }
    if a.len() > 0 && straight(a) {
        assert forall|i: int| 0 <= i < a.drop_first().len() implies straight_pat(#[trigger] a.drop_first()[i]) by {
            assert(a.drop_first()[i] == a[i + 1]);
        }
    }
    if a.len() > 0 && tidy(a) {
        assert forall|i: int| 0 <= i < a.drop_first().len() implies tidy_pat(#[trigger] a.drop_first()[i]) by {
            assert(a.drop_first()[i] == a[i + 1]);
        }
    }
}

/// A pattern of one construct is as its construct is.
pub proof fn lemma_straight_one(p: Pat)
    ensures
        straight_pat(p) ==> straight(seq![p]),
        tidy_pat(p) ==> tidy(seq![p]),
{
}

/// A straight pattern is tidy.
pub proof fn lemma_straight_tidy(p: Seq<Pat>)
    requires
        straight(p),
    ensures
        tidy(p),
    decreases p, 0nat,
{
    assert forall|i: int| 0 <= i < p.len() implies tidy_pat(#[trigger] p[i]) by {
        lemma_straight_unfold(p[i]);
        match p[i] {
            Pat::Group { body, .. } => {
                lemma_straight_tidy(body);
            },
            _ => {},
        }
    }
}

/// The walk of a straight program leaves nothing on the stack.
pub proof fn lemma_straight_walk(input: Seq<char>, prog: Seq<Pat>, res: Option<Partial>, cur: int, stack: Seq<State>)
    requires
        straight(prog),
    ensures
        walk(input, prog, res, cur, stack).stack == stack,
    decreases room(input, cur), weight(prog), 1nat,
{
    let n = input.len() as int;
    if prog.len() > 0 {
        lemma_weight_first(prog);
        lemma_straight_parts(prog, prog);
        lemma_straight_unfold(prog[0]);
        let rest = prog.drop_first();
        match prog[0] {
            Pat::Any => {
                if 0 <= cur < n {
                    lemma_straight_walk(input, rest, started(res, off(input, cur)), cur + 1, stack);
                }
            },
            Pat::Start => {
                if cur == 0 {
                    lemma_straight_walk(input, rest, started(res, off(input, cur)), cur, stack);
                }
            },
            Pat::End => {
                if cur == n {
                    lemma_straight_walk(input, rest, started(res, off(input, cur)), cur, stack);
                }
            },
            Pat::Word(word) => {
                if 0 <= cur < n {
                    match find_word(input, word, cur, res is None) {
                        Some(k) => {
                            if cur <= k && k + word.len() <= n {
                                lemma_straight_walk(input, rest, started(res, off(input, k)), k + word.len(), stack);
                            }
                        },
                        None => {},
                    }
                }
            },
            Pat::CharSet { members, inverted } => {
                if 0 <= cur < n && members.contains(input[cur]) != inverted {
                    lemma_straight_walk(input, rest, started(res, off(input, cur)), cur + 1, stack);
                }
            },
            Pat::Group { body, kind } => {
                let end = Pat::GroupEnd { start: off(input, cur), kind };
                lemma_weight_concat(body, seq![end] + rest);
                lemma_weight_concat(seq![end], rest);
                lemma_weight_one(end);
                lemma_weight_first(seq![end]);
                lemma_straight_unfold(end);
                lemma_straight_one(end);
                lemma_straight_parts(seq![end], rest);
                lemma_straight_parts(body, seq![end] + rest);
                lemma_straight_walk(input, body + (seq![end] + rest), res, cur, stack);
            },
            Pat::GroupEnd { start, kind } => {
                lemma_straight_walk(input, rest, recorded(input, res, kind, start, cur), cur, stack);
            },
            _ => {},
        }
    }
}

/// What holds after a walk of a closing program: the states on the stack are
/// aimed, and the walk ended at the end of the input.
pub open spec fn walk_aimed(input: Seq<char>, w: Walked) -> bool {
    &&& all_aimed(input, w.stack)
    &&& w.outcome matches Outcome::Done(p, c) ==> c == input.len()
}

pub proof fn lemma_pushed_aimed(input: Seq<char>, stack: Seq<State>, st: State)
    requires
        all_aimed(input, stack),
        aimed(input, st),
    ensures
        all_aimed(input, stack.push(st)),
{
    assert forall|i: int| 0 <= i < stack.push(st).len() implies aimed(input, #[trigger] stack.push(st)[i]) by {
        if i < stack.len() {
            assert(stack.push(st)[i] == stack[i]);
        }
    }
}

/// What follows the first construct of a closing program is closing, unless
/// the first construct is the end anchor itself.
pub proof fn lemma_closing_rest(prog: Seq<Pat>)
    requires
        prog.len() > 0,
        prog.last() is End,
    ensures
        prog.drop_first().len() > 0 ==> prog.drop_first().last() is End,
        prog.drop_first().len() == 0 ==> prog[0] is End,
{
    if prog.len() > 1 {
        assert(prog.drop_first().last() == prog.last());
    }
}

pub proof fn lemma_closing_concat(a: Seq<Pat>, b: Seq<Pat>)
    requires
        b.len() > 0,
        b.last() is End,
    ensures
        (a + b).len() > 0,
        (a + b).last() is End,
{
    assert((a + b).last() == b.last());
}

/// A walk of a tidy and closing program ends at the end of the input, and so
/// do the walks from the states that it leaves.
pub proof fn lemma_walk_aimed(input: Seq<char>, prog: Seq<Pat>, res: Option<Partial>, cur: int, stack: Seq<State>)
    requires
        0 <= cur <= input.len(),
        tidy(prog),
        closing(prog, cur, input.len() as int),
        all_aimed(input, stack),
    ensures
        walk_aimed(input, walk(input, prog, res, cur, stack)),
    decreases room(input, cur), weight(prog), 1nat,
{
    let n = input.len() as int;
    if prog.len() > 0 {
        lemma_weight_first(prog);
        lemma_straight_parts(prog, prog);
        lemma_straight_unfold(prog[0]);
        lemma_closing_rest(prog);
        let rest = prog.drop_first();
        let skip = State { res, prog: rest, cur };
        match prog[0] {
            Pat::Poisoned => {},
            Pat::Any => {
                if 0 <= cur < n {
                    lemma_walk_aimed(input, rest, started(res, off(input, cur)), cur + 1, stack);
                }
            },
            Pat::Start => {
                if cur == 0 {
                    lemma_walk_aimed(input, rest, started(res, off(input, cur)), cur, stack);
                }
            },
            Pat::End => {
                if cur == n {
                    lemma_walk_aimed(input, rest, started(res, off(input, cur)), cur, stack);
                }
            },
            Pat::Word(word) => {
                if 0 <= cur < n {
                    match find_word(input, word, cur, res is None) {
                        Some(k) => {
                            if cur <= k && k + word.len() <= n {
                                lemma_walk_aimed(input, rest, started(res, off(input, k)), k + word.len(), stack);
                            }
                        },
                        None => {},
                    }
                }
            },
            Pat::CharSet { members, inverted } => {
                if 0 <= cur < n && members.contains(input[cur]) != inverted {
                    lemma_walk_aimed(input, rest, started(res, off(input, cur)), cur + 1, stack);
                }
            },
            Pat::Optional(body) => {
                lemma_weight_concat(body, rest);
                lemma_straight_parts(body, rest);
                lemma_closing_concat(body, rest);
                lemma_pushed_aimed(input, stack, skip);
                lemma_walk_aimed(input, body + rest, res, cur, stack.push(skip));
            },
            Pat::Or { left, right } => {
                lemma_weight_concat(left, rest);
                lemma_straight_parts(left, rest);
                lemma_straight_parts(right, rest);
                lemma_closing_concat(left, rest);
                lemma_closing_concat(right, rest);
                let other = State { res, prog: right + rest, cur };
                lemma_pushed_aimed(input, stack, other);
                lemma_walk_aimed(input, left + rest, res, cur, stack.push(other));
            },
            Pat::Group { body, kind } => {
                let end = Pat::GroupEnd { start: off(input, cur), kind };
                lemma_weight_concat(body, seq![end] + rest);
                lemma_weight_concat(seq![end], rest);
                lemma_weight_one(end);
                lemma_weight_first(seq![end]);
                lemma_straight_unfold(end);
                lemma_straight_one(end);
                lemma_straight_parts(seq![end], rest);
                lemma_straight_parts(body, seq![end] + rest);
                lemma_closing_concat(seq![end], rest);
                lemma_closing_concat(body, seq![end] + rest);
                lemma_walk_aimed(input, body + (seq![end] + rest), res, cur, stack);
            },
            Pat::GroupEnd { start, kind } => {
                lemma_walk_aimed(input, rest, recorded(input, res, kind, start, cur), cur, stack);
            },
            Pat::ZeroOrMore { body, greedy } => {
                lemma_pushed_aimed(input, stack, skip);
                lemma_one_or_more_aimed(input, body, greedy, rest, res, cur, stack.push(skip));
            },
            Pat::OneOrMore { body, greedy } => {
                lemma_one_or_more_aimed(input, body, greedy, rest, res, cur, stack);
            },
            Pat::RepetitionRange { min, max, body } => {
                lemma_times_aimed(input, body, min as nat, more_of(min, max), rest, res, cur, stack);
            },
        }
    }
}

pub proof fn lemma_one_or_more_aimed(
    input: Seq<char>,
    body: Seq<Pat>,
    greedy: bool,
    rest: Seq<Pat>,
    res: Option<Partial>,
    cur: int,
    stack: Seq<State>,
)
    requires
        0 <= cur <= input.len(),
        straight(body),
        tidy(rest),
        rest.len() > 0,
        rest.last() is End,
        all_aimed(input, stack),
    ensures
        walk_aimed(input, one_or_more(input, body, greedy, rest, res, cur, stack)),
    decreases room(input, cur), 1 + weight(body) + weight(rest), 0nat,
{
    let once = walk(input, body, res, cur, stack);
    lemma_straight_walk(input, body, res, cur, stack);
    lemma_walk_extends(input, body, res, cur, stack);
    match once.outcome {
        Outcome::Done(p, c) => {
            let tried = if greedy {
                Walked { outcome: Outcome::Fail, stack: once.stack }
            } else {
                walk(input, rest, Some(p), c, once.stack)
            };
            if !greedy {
                lemma_walk_aimed(input, rest, Some(p), c, once.stack);
            }
            if tried.outcome is Fail {
                if cur < c {
                    let star = Pat::ZeroOrMore { body, greedy };
                    lemma_weight_concat(seq![star], rest);
                    lemma_weight_one(star);
                    lemma_weight_first(seq![star]);
                    lemma_straight_unfold(star);
                    lemma_straight_one(star);
                    lemma_straight_parts(seq![star], rest);
                    lemma_closing_concat(seq![star], rest);
                    lemma_walk_aimed(input, seq![star] + rest, Some(p), c, tried.stack);
                } else if greedy {
                    lemma_walk_aimed(input, rest, Some(p), c, tried.stack);
                }
            }
        },
        _ => {},
    }
}

pub proof fn lemma_times_aimed(
    input: Seq<char>,
    body: Seq<Pat>,
    todo: nat,
    more: Option<nat>,
    rest: Seq<Pat>,
    res: Option<Partial>,
    cur: int,
    stack: Seq<State>,
)
    requires
        0 <= cur <= input.len(),
        straight(body),
        tidy(rest),
        rest.len() > 0,
        rest.last() is End,
        all_aimed(input, stack),
    ensures
        walk_aimed(input, times(input, body, todo, more, rest, res, cur, stack)),
    decreases room(input, cur), 1 + weight(body) + weight(rest), (if todo == 0 {
        3nat
    } else {
        2nat
    }),
{
    let skip = State { res, prog: rest, cur };
    if todo == 0 {
        match more {
            None => {
                lemma_pushed_aimed(input, stack, skip);
                lemma_one_or_more_aimed(input, body, false, rest, res, cur, stack.push(skip));
            },
            Some(k) => {
                if k == 0 {
                    lemma_walk_aimed(input, rest, res, cur, stack);
                } else {
                    lemma_pushed_aimed(input, stack, skip);
                    lemma_times_aimed(input, body, 1, Some((k - 1) as nat), rest, res, cur, stack.push(skip));
                }
            },
        }
    } else {
        let once = walk(input, body, res, cur, stack);
        lemma_straight_walk(input, body, res, cur, stack);
        lemma_walk_extends(input, body, res, cur, stack);
        match once.outcome {
            Outcome::Done(p, c) => {
                if cur < c {
                    lemma_times_aimed(input, body, (todo - 1) as nat, more, rest, Some(p), c, once.stack);
                } else {
                    lemma_walk_aimed(input, rest, Some(p), c, once.stack);
                }
            },
            _ => {},
        }
    }
}

/// A match that ends with the input.
pub open spec fn ends_input(input: Seq<char>, m: Match) -> bool {
    m.end + 1 == byte_offset(input, input.len() as int)
}

/// Every candidate that the exploration of an aimed state finds ends with
/// the input.
pub proof fn lemma_candidates_aimed(input: Seq<char>, st: State)
    requires
        fits(input),
        aimed(input, st),
    ensures
        forall|i: int| 0 <= i < candidates(input, st).len() ==> ends_input(input, #[trigger] candidates(input, st)[i]),
    decreases weight(st.prog), 1nat, 0nat,
{
    let walked = walk(input, st.prog, st.res, st.cur, Seq::empty());
    if !(walked.outcome is Poisoned) {
        assert(all_aimed(input, Seq::<State>::empty()));
        lemma_walk_aimed(input, st.prog, st.res, st.cur, Seq::empty());
        let hit = found(candidate(input, walked.outcome));
        let below = candidates_below(input, walked.stack, weight(st.prog));
        lemma_candidates_below_aimed(input, walked.stack, weight(st.prog));
        if hit.len() > 0 {
            crate::text::lemma_offset_monotonic(input, 0, input.len() as int);
        }
        assert forall|i: int| 0 <= i < candidates(input, st).len() implies ends_input(
            input,
            #[trigger] candidates(input, st)[i],
        ) by {
            if i < hit.len() {
                assert((hit + below)[i] == hit[i]);
            } else {
                assert((hit + below)[i] == below[i - hit.len()]);
            }
        }
    }
}

pub proof fn lemma_candidates_below_aimed(input: Seq<char>, stack: Seq<State>, bound: nat)
    requires
        fits(input),
        all_aimed(input, stack),
    ensures
        forall|i: int|
            0 <= i < candidates_below(input, stack, bound).len() ==> ends_input(
                input,
                #[trigger] candidates_below(input, stack, bound)[i],
            ),
    decreases bound, 0nat, stack.len(),
{
    if stack.len() > 0 && weight(stack.last().prog) < bound {
        let top = candidates(input, stack.last());
        let under = candidates_below(input, stack.drop_last(), bound);
        assert(aimed(input, stack[stack.len() - 1]));
        lemma_candidates_aimed(input, stack.last());
        assert forall|i: int| 0 <= i < stack.drop_last().len() implies aimed(input, #[trigger] stack.drop_last()[i]) by {
            assert(stack.drop_last()[i] == stack[i]);
        }
        lemma_candidates_below_aimed(input, stack.drop_last(), bound);
        assert forall|i: int| 0 <= i < (top + under).len() implies ends_input(input, #[trigger] (top + under)[i]) by {
            if i < top.len() {
                assert((top + under)[i] == top[i]);
            } else {
                assert((top + under)[i] == under[i - top.len()]);
            }
        }
    }
}

/// A pattern that ends with `$` matches up to the end alone: of a program
/// whose last construct is the end anchor and whose repeated bodies are
/// straight, the result ends with the last byte of the input.
pub proof fn lemma_end_anchor(prog: Seq<Pat>, input: Seq<char>)
    requires
        fits(input),
        tidy(prog),
        prog.len() > 0,
        prog.last() is End,
    ensures
        exec_result(prog, input) matches Ok(Some(m)) ==> m.end + 1 == byte_offset(input, input.len() as int),
{
    lemma_candidates_aimed(input, seed(prog));
    lemma_longest_match(prog, input);
}

} // verus!
