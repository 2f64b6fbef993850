//! What running a program on an input means.
//!
//! The executor keeps a stack of states that are still to be explored. It
//! takes the state on top and walks the program from there: one construct after
//! the other, each either moving the cursor, failing, or leaving a state on the
//! stack for the road not taken. Every walk that reaches the end of its program
//! with a match begun is a candidate, and the first candidate with the
//! greatest end is the result.
//!
//! Cursors count characters; the offsets in a match count the bytes of the
//! input's UTF-8 form.

use crate::ordered::upsert;
use crate::ordered::Capture;
use crate::parser::model::lemma_weight_concat;
use crate::parser::model::lemma_weight_first;
use crate::parser::model::lemma_weight_one;
use crate::parser::model::weight;
use crate::parser::model::capture_name;
use crate::parser::model::GroupKind;
use crate::parser::model::Pat;
use crate::text::byte_offset;
use vstd::prelude::*;

verus! {

/// A match: the offsets of its first and last byte and the captures by name.
pub struct Match {
    pub start: usize,
    pub end: usize,
    pub groups: Seq<Capture>,
}

/// A match that has begun: the offset of its first byte and the captures
/// recorded so far.
pub struct Partial {
    pub start: usize,
    pub groups: Seq<Capture>,
}

/// A state to explore: the match so far, if one has begun, the program that
/// is left, and the cursor.
pub struct State {
    pub res: Option<Partial>,
    pub prog: Seq<Pat>,
    pub cur: int,
}

/// How a walk ended.
pub enum Outcome {
    /// The program does not match here.
    Fail,
    /// The walk ran into a poisoned construct.
    Poisoned,
    /// The program came to its end with a match begun, at this cursor.
    Done(Partial, int),
}

/// A walk's outcome, and the stack with the states that the walk left on it.
pub struct Walked {
    pub outcome: Outcome,
    pub stack: Seq<State>,
}

/// The byte offset of the character at index `i`.
pub open spec fn off(input: Seq<char>, i: int) -> usize {
    byte_offset(input, i) as usize
}

/// How far the cursor can still move.
pub open spec fn room(input: Seq<char>, cur: int) -> nat {
    if 0 <= cur <= input.len() {
        (input.len() - cur) as nat
    } else {
        0
    }
}

/// The match so far, begun at `at` if it had not begun.
pub open spec fn started(res: Option<Partial>, at: usize) -> Option<Partial> {
    match res {
        Some(p) => Some(p),
        None => Some(Partial { start: at, groups: Seq::empty() }),
    }
}

/// Whether `word` stands in `input` at index `k`.
pub open spec fn occurs_at(input: Seq<char>, word: Seq<char>, k: int) -> bool {
    0 <= k && k + word.len() <= input.len() && input.subrange(k, k + word.len()) == word
}

/// The first index from `from` on at which `word` stands in `input`.
pub open spec fn first_occurrence(input: Seq<char>, word: Seq<char>, from: int) -> Option<int>
    decreases input.len() + 1 - from,
{
    if from < 0 || from + word.len() > input.len() {
        None
    } else if occurs_at(input, word, from) {
        Some(from)
    } else {
        first_occurrence(input, word, from + 1)
    }
}

/// Where a word is found from `cur` on: anywhere behind `cur` while no match
/// has begun, at `cur` alone once one has.
pub open spec fn find_word(input: Seq<char>, word: Seq<char>, cur: int, can_move_window: bool) -> Option<int> {
    if can_move_window {
        first_occurrence(input, word, cur)
    } else if occurs_at(input, word, cur) {
        Some(cur)
    } else {
        None
    }
}

/// The match so far after a group that began at offset `start` has ended at
/// the cursor: a group with a name or a position is recorded under it with its
/// first and last byte. A group that ends before any character of the input
/// has nothing to record.
pub open spec fn recorded(input: Seq<char>, res: Option<Partial>, kind: GroupKind, start: usize, cur: int) -> Option<
    Partial,
> {
    match (res, capture_name(kind)) {
        (Some(p), Some(name)) => if cur >= 1 {
            Some(Partial { start: p.start, groups: upsert(p.groups, name, (start, (off(input, cur) - 1) as usize)) })
        } else {
            res
        },
        _ => res,
    }
}

/// How many repetitions a range allows beyond its minimum; nothing where it
/// allows any number.
pub open spec fn more_of(min: u32, max: Option<u32>) -> Option<nat> {
    match max {
        None => None,
        Some(hi) => Some(if hi > min { (hi - min) as nat } else { 0 }),
    }
}

/// The walk of `prog` from the cursor `cur`, with the stack `stack` below it.
pub open spec fn walk(input: Seq<char>, prog: Seq<Pat>, res: Option<Partial>, cur: int, stack: Seq<State>) -> Walked
    decreases room(input, cur), weight(prog), 1nat,
{
    if prog.len() == 0 {
        match res {
            None => Walked { outcome: Outcome::Fail, stack },
            Some(p) => Walked { outcome: Outcome::Done(p, cur), stack },
        }
    } else {
        proof {
            lemma_weight_first(prog);
        }
        let rest = prog.drop_first();
        let fail = Walked { outcome: Outcome::Fail, stack };
        let n = input.len() as int;
        match prog[0] {
            Pat::Poisoned => Walked { outcome: Outcome::Poisoned, stack },
            Pat::Any => if 0 <= cur < n {
                walk(input, rest, started(res, off(input, cur)), cur + 1, stack)
            } else {
                fail
            },
            Pat::Start => if cur == 0 {
                walk(input, rest, started(res, off(input, cur)), cur, stack)
            } else {
                fail
            },
            Pat::End => if cur == n {
                walk(input, rest, started(res, off(input, cur)), cur, stack)
            } else {
                fail
            },
            Pat::Word(word) => if 0 <= cur < n {
                match find_word(input, word, cur, res is None) {
                    Some(k) => if cur <= k && k + word.len() <= n {
                        walk(input, rest, started(res, off(input, k)), k + word.len(), stack)
                    } else {
                        fail
                    },
                    None => fail,
                }
            } else {
                fail
            },
            Pat::CharSet { members, inverted } => if 0 <= cur < n && members.contains(input[cur]) != inverted {
                walk(input, rest, started(res, off(input, cur)), cur + 1, stack)
            } else {
                fail
            },
            Pat::Optional(body) => {
                proof {
                    lemma_weight_concat(body, rest);
                }
                walk(input, body + rest, res, cur, stack.push(State { res, prog: rest, cur }))
            },
            Pat::Or { left, right } => {
                proof {
                    lemma_weight_concat(left, rest);
                }
                walk(input, left + rest, res, cur, stack.push(State { res, prog: right + rest, cur }))
            },
            Pat::Group { body, kind } => {
                proof {
                    let end = Pat::GroupEnd { start: off(input, cur), kind };
                    lemma_weight_concat(body, seq![end] + rest);
                    lemma_weight_concat(seq![end], rest);
                    lemma_weight_one(end);
                    lemma_weight_first(seq![end]);
                }
                walk(input, body + (seq![Pat::GroupEnd { start: off(input, cur), kind }] + rest), res, cur, stack)
            },
            Pat::GroupEnd { start, kind } => walk(input, rest, recorded(input, res, kind, start, cur), cur, stack),
            Pat::ZeroOrMore { body, greedy } => one_or_more(
                input,
                body,
                greedy,
                rest,
                res,
                cur,
                stack.push(State { res, prog: rest, cur }),
            ),
            Pat::OneOrMore { body, greedy } => one_or_more(input, body, greedy, rest, res, cur, stack),
            Pat::RepetitionRange { min, max, body } => times(
                input,
                body,
                min as nat,
                more_of(min, max),
                rest,
                res,
                cur,
                stack,
            ),
        }
    }
}

/// One repetition of `body` and what follows it. A lazy repetition tries what
/// comes behind it first and is content if that matches. Otherwise the
/// repetition goes on as a zero-or-more of the same body; a repetition that
/// did not move the cursor is the last one.
pub open spec fn one_or_more(
    input: Seq<char>,
    body: Seq<Pat>,
    greedy: bool,
    rest: Seq<Pat>,
    res: Option<Partial>,
    cur: int,
    stack: Seq<State>,
) -> Walked
    decreases room(input, cur), 1 + weight(body) + weight(rest), 0nat,
{
    let once = walk(input, body, res, cur, stack);
    match once.outcome {
        Outcome::Done(p, c) => if 0 <= cur <= c <= input.len() {
            let tried = if greedy {
                Walked { outcome: Outcome::Fail, stack: once.stack }
            } else {
                walk(input, rest, Some(p), c, once.stack)
            };
            if tried.outcome is Fail {
                if cur < c {
                    proof {
                        let star = Pat::ZeroOrMore { body, greedy };
                        lemma_weight_concat(seq![star], rest);
                        lemma_weight_one(star);
                        lemma_weight_first(seq![star]);
                    }
                    walk(input, seq![Pat::ZeroOrMore { body, greedy }] + rest, Some(p), c, tried.stack)
                } else if greedy {
                    walk(input, rest, Some(p), c, tried.stack)
                } else {
                    tried
                }
            } else {
                tried
            }
        } else {
            Walked { outcome: Outcome::Fail, stack: once.stack }
        },
        _ => once,
    }
}

/// `todo` repetitions of `body`, then up to `more` further ones, then what
/// follows. After the repetitions that are owed, a state that goes on without
/// a further one is left on the stack and one more is tried; where any number
/// is allowed, the range goes on as a lazy zero-or-more. A repetition that did
/// not move the cursor is the last one.
pub open spec fn times(
    input: Seq<char>,
    body: Seq<Pat>,
    todo: nat,
    more: Option<nat>,
    rest: Seq<Pat>,
    res: Option<Partial>,
    cur: int,
    stack: Seq<State>,
) -> Walked
    decreases room(input, cur), 1 + weight(body) + weight(rest), (if todo == 0 { 3nat } else { 2nat }),
{
    if todo == 0 {
        match more {
            None => one_or_more(input, body, false, rest, res, cur, stack.push(State { res, prog: rest, cur })),
            Some(k) => if k == 0 {
                walk(input, rest, res, cur, stack)
            } else {
                times(input, body, 1, Some((k - 1) as nat), rest, res, cur, stack.push(State { res, prog: rest, cur }))
            },
        }
    } else {
        let once = walk(input, body, res, cur, stack);
        match once.outcome {
            Outcome::Done(p, c) => if 0 <= cur < c <= input.len() {
                times(input, body, (todo - 1) as nat, more, rest, Some(p), c, once.stack)
            } else if c == cur {
                walk(input, rest, Some(p), c, once.stack)
            } else {
                Walked { outcome: Outcome::Fail, stack: once.stack }
            },
            _ => once,
        }
    }
}

/// The candidate that a walk's outcome is: a walk that ended behind at least
/// one character is a match up to the last byte before the cursor.
pub open spec fn candidate(input: Seq<char>, outcome: Outcome) -> Option<Match> {
    match outcome {
        Outcome::Done(p, c) => if c >= 1 {
            Some(Match { start: p.start, end: (off(input, c) - 1) as usize, groups: p.groups })
        } else {
            None
        },
        _ => None,
    }
}

/// The better of the best match so far and a new candidate: the candidate
/// only where its end is greater.
pub open spec fn better(best: Option<Match>, found: Option<Match>) -> Option<Match> {
    match (best, found) {
        (_, None) => best,
        (None, Some(_)) => found,
        (Some(b), Some(f)) => if f.end > b.end {
            found
        } else {
            best
        },
    }
}

/// What an exploration gave: the best match, or nothing where a walk ran into
/// a poisoned construct, and the number of walks that it took.
pub struct Explored {
    pub best: Option<Option<Match>>,
    pub walks: nat,
}

/// The exploration of `st` and of all that its walk leaves on the stack,
/// beginning with the best match `best`.
pub open spec fn explore(input: Seq<char>, st: State, best: Option<Match>) -> Explored
    decreases weight(st.prog), 1nat, 0nat,
{
    let walked = walk(input, st.prog, st.res, st.cur, Seq::empty());
    if walked.outcome is Poisoned {
        Explored { best: None, walks: 1 }
    } else {
        let below = explore_below(
            input,
            walked.stack,
            weight(st.prog),
            better(best, candidate(input, walked.outcome)),
        );
        Explored { best: below.best, walks: below.walks + 1 }
    }
}

/// The exploration of the states of `stack` from the top down. Every state
/// that a walk leaves is lighter than the program walked, which `bound`
/// stands for.
pub open spec fn explore_below(input: Seq<char>, stack: Seq<State>, bound: nat, best: Option<Match>) -> Explored
    decreases bound, 0nat, stack.len(),
{
    if stack.len() == 0 {
        Explored { best: Some(best), walks: 0 }
    } else if weight(stack.last().prog) < bound {
        let top = explore(input, stack.last(), best);
        match top.best {
            None => top,
            Some(b) => {
                let under = explore_below(input, stack.drop_last(), bound, b);
                Explored { best: under.best, walks: top.walks + under.walks }
            },
        }
    } else {
        Explored { best: None, walks: 0 }
    }
}

/// The exploration of every state of `stack`, the top one first.
pub open spec fn search(input: Seq<char>, stack: Seq<State>, best: Option<Match>) -> Explored
    decreases stack.len(),
{
    if stack.len() == 0 {
        Explored { best: Some(best), walks: 0 }
    } else {
        let top = explore(input, stack.last(), best);
        match top.best {
            None => top,
            Some(b) => {
                let under = search(input, stack.drop_last(), b);
                Explored { best: under.best, walks: top.walks + under.walks }
            },
        }
    }
}

/// The state from which every search begins.
pub open spec fn seed(prog: Seq<Pat>) -> State {
    State { res: None, prog, cur: 0 }
}

/// What the executor returns for a program and an input: the first candidate
/// with the greatest end, nothing where there is no candidate, or an error
/// where a walk ran into a poisoned construct.
pub open spec fn exec_result(prog: Seq<Pat>, input: Seq<char>) -> Result<Option<Match>, ()> {
    match explore(input, seed(prog), None).best {
        None => Err(()),
        Some(best) => Ok(best),
    }
}

} // verus!
