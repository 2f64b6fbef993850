//! Facts about walks and explorations that the executor's proof rests on.

use super::semantics::better;
use super::semantics::candidate;
use super::semantics::explore;
use super::semantics::explore_below;
use super::semantics::find_word;
use super::semantics::more_of;
use super::semantics::off;
use super::semantics::one_or_more;
use super::semantics::recorded;
use super::semantics::room;
use super::semantics::search;
use super::semantics::started;
use super::semantics::times;
use super::semantics::walk;
use super::semantics::Explored;
use super::semantics::Match;
use super::semantics::Outcome;
use super::semantics::Partial;
use super::semantics::State;
use super::semantics::Walked;
use crate::parser::model::lemma_weight_concat;
use crate::parser::model::lemma_weight_first;
use crate::parser::model::lemma_weight_one;
use crate::parser::model::weight;
use crate::parser::model::Pat;
use vstd::prelude::*;

verus! {

/// `new` is `old` with states on top of it that are lighter than `bound` and
/// whose cursors lie in an input of `n` characters.
pub open spec fn extends(old: Seq<State>, new: Seq<State>, bound: nat, n: int) -> bool {
    &&& old.len() <= new.len()
    &&& new.take(old.len() as int) =~= old
    &&& forall|i: int|
        old.len() <= i < new.len() ==> weight(#[trigger] new[i].prog) < bound && 0 <= new[i].cur <= n
}

pub proof fn lemma_extends_pushed(old: Seq<State>, st: State, bound: nat, n: int)
    requires
        weight(st.prog) < bound,
        0 <= st.cur <= n,
    ensures
        extends(old, old.push(st), bound, n),
{
}

pub proof fn lemma_extends_wider(old: Seq<State>, new: Seq<State>, k: nat, bound: nat, n: int)
    requires
        extends(old, new, k, n),
        k <= bound,
    ensures
        extends(old, new, bound, n),
{
    assert forall|i: int| old.len() <= i < new.len() implies weight(#[trigger] new[i].prog) < bound && 0 <= new[i].cur
        <= n by {
        assert(weight(new[i].prog) < k);
    }
}

pub proof fn lemma_extends_chain(a: Seq<State>, b: Seq<State>, c: Seq<State>, k1: nat, k2: nat, bound: nat, n: int)
    requires
        extends(a, b, k1, n),
        extends(b, c, k2, n),
        k1 <= bound,
        k2 <= bound,
    ensures
        extends(a, c, bound, n),
{
    assert(c.take(a.len() as int) =~= a) by {
        assert forall|i: int| 0 <= i < a.len() implies c[i] == a[i] by {
            assert(c.take(b.len() as int)[i] == b[i]);
            assert(b.take(a.len() as int)[i] == a[i]);
        }
    }
    assert forall|i: int| a.len() <= i < c.len() implies weight(#[trigger] c[i].prog) < bound && 0 <= c[i].cur
        <= n by {
        if i < b.len() {
            assert(c.take(b.len() as int)[i] == b[i]);
            assert(c[i] == b[i]);
            assert(weight(b[i].prog) < k1);
        } else {
            assert(weight(c[i].prog) < k2);
        }
    }
}

/// What a walk leaves on the stack is lighter than the program walked, and a
/// walk that ends has not moved its cursor back nor out of the input.
pub proof fn lemma_walk_extends(input: Seq<char>, prog: Seq<Pat>, res: Option<Partial>, cur: int, stack: Seq<State>)
    requires
        0 <= cur <= input.len(),
    ensures
        extends(stack, walk(input, prog, res, cur, stack).stack, weight(prog), input.len() as int),
        walk(input, prog, res, cur, stack).outcome matches Outcome::Done(p, c) ==> cur <= c <= input.len(),
    decreases room(input, cur), weight(prog), 1nat,
{
    let n = input.len() as int;
    if prog.len() == 0 {
    } else {
        lemma_weight_first(prog);
        let rest = prog.drop_first();
        let w = weight(prog);
        match prog[0] {
            Pat::Poisoned => {},
            Pat::Any => {
                if 0 <= cur < n {
                    lemma_walk_extends(input, rest, started(res, off(input, cur)), cur + 1, stack);
                    lemma_extends_wider(stack, walk(input, rest, started(res, off(input, cur)), cur + 1, stack).stack, weight(rest), w, n);
                }
            },
            Pat::Start => {
                if cur == 0 {
                    lemma_walk_extends(input, rest, started(res, off(input, cur)), cur, stack);
                    lemma_extends_wider(stack, walk(input, rest, started(res, off(input, cur)), cur, stack).stack, weight(rest), w, n);
                }
            },
            Pat::End => {
                if cur == n {
                    lemma_walk_extends(input, rest, started(res, off(input, cur)), cur, stack);
                    lemma_extends_wider(stack, walk(input, rest, started(res, off(input, cur)), cur, stack).stack, weight(rest), w, n);
                }
            },
            Pat::Word(word) => {
                if 0 <= cur < n {
                    match find_word(input, word, cur, res is None) {
                        Some(k) => {
                            if cur <= k && k + word.len() <= n {
                                lemma_walk_extends(input, rest, started(res, off(input, k)), k + word.len(), stack);
                    lemma_extends_wider(stack, walk(input, rest, started(res, off(input, k)), k + word.len(), stack).stack, weight(rest), w, n);
                            }
                        },
                        None => {},
                    }
                }
            },
            Pat::CharSet { members, inverted } => {
                if 0 <= cur < n && members.contains(input[cur]) != inverted {
                    lemma_walk_extends(input, rest, started(res, off(input, cur)), cur + 1, stack);
                    lemma_extends_wider(stack, walk(input, rest, started(res, off(input, cur)), cur + 1, stack).stack, weight(rest), w, n);
                }
            },
            Pat::Optional(body) => {
                lemma_weight_concat(body, rest);
                let pushed = stack.push(State { res, prog: rest, cur });
                lemma_extends_pushed(stack, State { res, prog: rest, cur }, w, n);
                lemma_walk_extends(input, body + rest, res, cur, pushed);
                lemma_extends_chain(stack, pushed, walk(input, body + rest, res, cur, pushed).stack, w, w, w, n);
            },
            Pat::Or { left, right } => {
                lemma_weight_concat(left, rest);
                lemma_weight_concat(right, rest);
                let st = State { res, prog: right + rest, cur };
                let pushed = stack.push(st);
                lemma_extends_pushed(stack, st, w, n);
                lemma_walk_extends(input, left + rest, res, cur, pushed);
                lemma_extends_chain(stack, pushed, walk(input, left + rest, res, cur, pushed).stack, w, w, w, n);
            },
            Pat::Group { body, kind } => {
                let end = Pat::GroupEnd { start: off(input, cur), kind };
                lemma_weight_concat(body, seq![end] + rest);
                lemma_weight_concat(seq![end], rest);
                lemma_weight_one(end);
                lemma_weight_first(seq![end]);
                lemma_walk_extends(input, body + (seq![end] + rest), res, cur, stack);
                lemma_extends_chain(
                    stack,
                    stack,
                    walk(input, body + (seq![end] + rest), res, cur, stack).stack,
                    w,
                    w,
                    w,
                    n,
                );
            },
            Pat::GroupEnd { start, kind } => {
                lemma_walk_extends(input, rest, recorded(input, res, kind, start, cur), cur, stack);
                    lemma_extends_wider(stack, walk(input, rest, recorded(input, res, kind, start, cur), cur, stack).stack, weight(rest), w, n);
            },
            Pat::ZeroOrMore { body, greedy } => {
                let st = State { res, prog: rest, cur };
                let pushed = stack.push(st);
                lemma_extends_pushed(stack, st, w, n);
                lemma_one_or_more_extends(input, body, greedy, rest, res, cur, pushed);
                lemma_extends_chain(
                    stack,
                    pushed,
                    one_or_more(input, body, greedy, rest, res, cur, pushed).stack,
                    w,
                    w,
                    w,
                    n,
                );
            },
            Pat::OneOrMore { body, greedy } => {
                lemma_one_or_more_extends(input, body, greedy, rest, res, cur, stack);
                lemma_extends_wider(stack, one_or_more(input, body, greedy, rest, res, cur, stack).stack, w, w, n);
            },
            Pat::RepetitionRange { min, max, body } => {
                lemma_times_extends(input, body, min as nat, more_of(min, max), rest, res, cur, stack);
                lemma_extends_chain(
                    stack,
                    stack,
                    times(input, body, min as nat, more_of(min, max), rest, res, cur, stack).stack,
                    w,
                    w,
                    w,
                    n,
                );
            },
        }
    }
}

pub proof fn lemma_one_or_more_extends(
    input: Seq<char>,
    body: Seq<Pat>,
    greedy: bool,
    rest: Seq<Pat>,
    res: Option<Partial>,
    cur: int,
    stack: Seq<State>,
)
    requires
        0 <= cur <= input.len(),
    ensures
        extends(
            stack,
            one_or_more(input, body, greedy, rest, res, cur, stack).stack,
            1 + weight(body) + weight(rest),
            input.len() as int,
        ),
        one_or_more(input, body, greedy, rest, res, cur, stack).outcome matches Outcome::Done(p, c) ==> cur <= c
            <= input.len(),
    decreases room(input, cur), 1 + weight(body) + weight(rest), 0nat,
{
    let n = input.len() as int;
    let w = 1 + weight(body) + weight(rest);
    let once = walk(input, body, res, cur, stack);
    lemma_walk_extends(input, body, res, cur, stack);
    lemma_extends_chain(stack, stack, once.stack, w, weight(body), w, n);
    match once.outcome {
        Outcome::Done(p, c) => {
            let tried = if greedy {
                Walked { outcome: Outcome::Fail, stack: once.stack }
            } else {
                walk(input, rest, Some(p), c, once.stack)
            };
            if !greedy {
                lemma_walk_extends(input, rest, Some(p), c, once.stack);
            }
            lemma_extends_chain(stack, once.stack, tried.stack, w, weight(rest), w, n);
            if tried.outcome is Fail {
                if cur < c {
                    let star = Pat::ZeroOrMore { body, greedy };
                    lemma_weight_concat(seq![star], rest);
                    lemma_weight_one(star);
                    lemma_weight_first(seq![star]);
                    lemma_walk_extends(input, seq![star] + rest, Some(p), c, tried.stack);
                    lemma_extends_chain(
                        stack,
                        tried.stack,
                        walk(input, seq![star] + rest, Some(p), c, tried.stack).stack,
                        w,
                        w,
                        w,
                        n,
                    );
                } else if greedy {
                    lemma_walk_extends(input, rest, Some(p), c, tried.stack);
                    lemma_extends_chain(
                        stack,
                        tried.stack,
                        walk(input, rest, Some(p), c, tried.stack).stack,
                        w,
                        weight(rest),
                        w,
                        n,
                    );
                }
            }
        },
        _ => {},
    }
}

pub proof fn lemma_times_extends(
    input: Seq<char>,
    body: Seq<Pat>,
    todo: nat,
    more: Option<nat>,
    rest: Seq<Pat>,
    res: Option<Partial>,
    cur: int,
    stack: Seq<State>,
)
    requires
        0 <= cur <= input.len(),
    ensures
        extends(
            stack,
            times(input, body, todo, more, rest, res, cur, stack).stack,
            1 + weight(body) + weight(rest),
            input.len() as int,
        ),
        times(input, body, todo, more, rest, res, cur, stack).outcome matches Outcome::Done(p, c) ==> cur <= c
            <= input.len(),
    decreases room(input, cur), 1 + weight(body) + weight(rest), (if todo == 0 {
        3nat
    } else {
        2nat
    }),
{
    let n = input.len() as int;
    let w = 1 + weight(body) + weight(rest);
    let st = State { res, prog: rest, cur };
    if todo == 0 {
        match more {
            None => {
                let pushed = stack.push(st);
                lemma_extends_pushed(stack, st, w, n);
                lemma_one_or_more_extends(input, body, false, rest, res, cur, pushed);
                lemma_extends_chain(
                    stack,
                    pushed,
                    one_or_more(input, body, false, rest, res, cur, pushed).stack,
                    w,
                    w,
                    w,
                    n,
                );
            },
            Some(k) => {
                if k == 0 {
                    lemma_walk_extends(input, rest, res, cur, stack);
                    lemma_extends_chain(
                        stack,
                        stack,
                        walk(input, rest, res, cur, stack).stack,
                        w,
                        weight(rest),
                        w,
                        n,
                    );
                } else {
                    let pushed = stack.push(st);
                    lemma_extends_pushed(stack, st, w, n);
                    lemma_times_extends(input, body, 1, Some((k - 1) as nat), rest, res, cur, pushed);
                    lemma_extends_chain(
                        stack,
                        pushed,
                        times(input, body, 1, Some((k - 1) as nat), rest, res, cur, pushed).stack,
                        w,
                        w,
                        w,
                        n,
                    );
                }
            },
        }
    } else {
        let once = walk(input, body, res, cur, stack);
        lemma_walk_extends(input, body, res, cur, stack);
        lemma_extends_chain(stack, stack, once.stack, w, weight(body), w, n);
        match once.outcome {
            Outcome::Done(p, c) => {
                if cur < c {
                    lemma_times_extends(input, body, (todo - 1) as nat, more, rest, Some(p), c, once.stack);
                    lemma_extends_chain(
                        stack,
                        once.stack,
                        times(input, body, (todo - 1) as nat, more, rest, Some(p), c, once.stack).stack,
                        w,
                        w,
                        w,
                        n,
                    );
                } else {
                    lemma_walk_extends(input, rest, Some(p), c, once.stack);
                    lemma_extends_chain(
                        stack,
                        once.stack,
                        walk(input, rest, Some(p), c, once.stack).stack,
                        w,
                        weight(rest),
                        w,
                        n,
                    );
                }
            },
            _ => {},
        }
    }
}

/// Where every state of a stack is lighter than the bound, exploring below
/// the bound is searching the stack.
pub proof fn lemma_below_is_search(input: Seq<char>, stack: Seq<State>, bound: nat, best: Option<Match>)
    requires
        forall|i: int| 0 <= i < stack.len() ==> weight(#[trigger] stack[i].prog) < bound,
    ensures
        explore_below(input, stack, bound, best) == search(input, stack, best),
    decreases stack.len(),
{
    if stack.len() > 0 {
        assert(weight(stack[stack.len() - 1].prog) < bound);
        let top = explore(input, stack.last(), best);
        match top.best {
            None => {},
            Some(b) => {
                assert forall|i: int| 0 <= i < stack.drop_last().len() implies weight(
                    #[trigger] stack.drop_last()[i].prog,
                ) < bound by {
                    assert(stack.drop_last()[i] == stack[i]);
                }
                lemma_below_is_search(input, stack.drop_last(), bound, b);
            },
        }
    }
}

/// The search of one stack on top of another, in terms of the two searches.
pub open spec fn search_then(input: Seq<char>, under: Seq<State>, first: Explored) -> Explored {
    match first.best {
        None => first,
        Some(b) => {
            let second = search(input, under, b);
            Explored { best: second.best, walks: first.walks + second.walks }
        },
    }
}

/// Searching a stack explores its upper part first and its lower part with
/// what that gave.
pub proof fn lemma_search_concat(input: Seq<char>, under: Seq<State>, over: Seq<State>, best: Option<Match>)
    ensures
        search(input, under + over, best) == search_then(input, under, search(input, over, best)),
    decreases over.len(),
{
    if over.len() == 0 {
        assert(under + over =~= under);
    } else {
        assert((under + over).last() == over.last());
        assert((under + over).drop_last() =~= under + over.drop_last());
        let top = explore(input, over.last(), best);
        match top.best {
            None => {},
            Some(b) => {
                lemma_search_concat(input, under, over.drop_last(), b);
            },
        }
    }
}

/// One turn of the search: the state on top is walked, and what the walk left
/// is searched before the rest of the stack.
pub proof fn lemma_search_turn(input: Seq<char>, stack: Seq<State>, best: Option<Match>)
    requires
        stack.len() > 0,
        0 <= stack.last().cur <= input.len(),
    ensures
        ({
            let st = stack.last();
            let walked = walk(input, st.prog, st.res, st.cur, Seq::empty());
            let turned = search(
                input,
                stack.drop_last() + walked.stack,
                better(best, candidate(input, walked.outcome)),
            );
            if walked.outcome is Poisoned {
                search(input, stack, best).best is None
            } else {
                &&& search(input, stack, best).best == turned.best
                &&& search(input, stack, best).walks == turned.walks + 1
            }
        }),
{
    let st = stack.last();
    let walked = walk(input, st.prog, st.res, st.cur, Seq::empty());
    if !(walked.outcome is Poisoned) {
        let next = better(best, candidate(input, walked.outcome));
        lemma_walk_extends(input, st.prog, st.res, st.cur, Seq::empty());
        lemma_below_is_search(input, walked.stack, weight(st.prog), next);
        lemma_search_concat(input, stack.drop_last(), walked.stack, next);
    }
}

} // verus!
