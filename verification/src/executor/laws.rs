//! What holds of every result of the executor.

use super::semantics::better;
use super::semantics::first_occurrence;
use super::semantics::occurs_at;
use super::semantics::off;
use super::semantics::started;
use super::semantics::Outcome;
use super::semantics::Partial;
use super::sound::all_good;
use super::sound::boundary;
use super::sound::fits;
use super::sound::good_partial;
use super::sound::good_span;
use super::sound::good_state;
use super::sound::kept;
use super::sound::lemma_off;
use super::sound::lemma_plain_good;
use super::sound::lemma_walk_good;
use crate::parser::model::plain;
use super::semantics::candidate;
use super::semantics::exec_result;
use super::semantics::explore;
use super::semantics::explore_below;
use super::semantics::seed;
use super::semantics::walk;
use super::semantics::Match;
use super::semantics::State;
use crate::parser::model::weight;
use crate::parser::model::Pat;
use vstd::prelude::*;

verus! {

/// Determinism: the result is a function of the program and the input alone,
/// so that equal programs on equal inputs give equal results.
pub proof fn lemma_result_determined(prog: Seq<Pat>, other: Seq<Pat>, input: Seq<char>, again: Seq<char>)
    requires
        prog == other,
        input == again,
    ensures
        exec_result(prog, input) == exec_result(other, again),
{
}

/// A word is found where it first stands: at the place found the word stands,
/// at no place before it from the cursor on does it stand, and where nothing
/// is found it stands nowhere from the cursor on.
pub proof fn lemma_word_found_first(input: Seq<char>, word: Seq<char>, from: int)
    requires
        0 <= from,
    ensures
        match first_occurrence(input, word, from) {
            Some(k) => from <= k && occurs_at(input, word, k) && forall|j: int|
                from <= j < k ==> !occurs_at(input, word, j),
            None => forall|j: int| from <= j ==> !occurs_at(input, word, j),
        },
    decreases input.len() + 1 - from,
{
    if from + word.len() > input.len() {
    } else if occurs_at(input, word, from) {
    } else {
        lemma_word_found_first(input, word, from + 1);
    }
}

/// A candidate as a sequence: one match, or none.
pub open spec fn found(m: Option<Match>) -> Seq<Match> {
    match m {
        Some(m) => seq![m],
        None => Seq::empty(),
    }
}

/// The candidates that the exploration of `st` finds, in the order in which
/// it finds them: the match of the walk from `st`, then those of the states
/// that the walk left, the last one left first.
pub open spec fn candidates(input: Seq<char>, st: State) -> Seq<Match>
    decreases weight(st.prog), 1nat, 0nat,
{
    let walked = walk(input, st.prog, st.res, st.cur, Seq::empty());
    if walked.outcome is Poisoned {
        Seq::empty()
    } else {
        found(candidate(input, walked.outcome)) + candidates_below(input, walked.stack, weight(st.prog))
    }
}

/// The candidates that the states of `stack` give, from the top down.
pub open spec fn candidates_below(input: Seq<char>, stack: Seq<State>, bound: nat) -> Seq<Match>
    decreases bound, 0nat, stack.len(),
{
    if stack.len() == 0 {
        Seq::empty()
    } else if weight(stack.last().prog) < bound {
        candidates(input, stack.last()) + candidates_below(input, stack.drop_last(), bound)
    } else {
        Seq::empty()
    }
}

/// The best of `best` and the matches of `found`, taken one after the other.
pub open spec fn select(best: Option<Match>, found: Seq<Match>) -> Option<Match>
    decreases found.len(),
{
    if found.len() == 0 {
        best
    } else {
        select(better(best, Some(found[0])), found.drop_first())
    }
}

pub proof fn lemma_select_concat(best: Option<Match>, a: Seq<Match>, b: Seq<Match>)
    ensures
        select(best, a + b) == select(select(best, a), b),
    decreases a.len(),
{
    if a.len() == 0 {
        assert(a + b =~= b);
    } else {
        assert((a + b).drop_first() =~= a.drop_first() + b);
        lemma_select_concat(better(best, Some(a[0])), a.drop_first(), b);
    }
}

/// The selected match is the first of the greatest: it is `best` or one of
/// `found`, none of them ends behind it, and those before it end before it.
pub proof fn lemma_select_greatest(best: Option<Match>, found: Seq<Match>)
    ensures
        select(best, found) is None <==> best is None && found.len() == 0,
        select(best, found) matches Some(m) ==> {
            &&& (best == Some(m) || exists|i: int|
                0 <= i < found.len() && found[i] == m && forall|j: int| 0 <= j < i ==> (#[trigger] found[j]).end < m.end)
            &&& (best matches Some(b) ==> b.end <= m.end && (b != m ==> b.end < m.end))
            &&& forall|i: int| 0 <= i < found.len() ==> (#[trigger] found[i]).end <= m.end
        },
    decreases found.len(),
{
    if found.len() > 0 {
        let next = better(best, Some(found[0]));
        let rest = found.drop_first();
        lemma_select_greatest(next, rest);
        assert(select(best, found) == select(next, rest));
        assert(next is Some && next.unwrap().end >= found[0].end);
        let m = select(best, found).unwrap();
        assert(found[0].end <= m.end);
        assert forall|i: int| 0 <= i < found.len() implies (#[trigger] found[i]).end <= m.end by {
            if i > 0 {
                assert(found[i] == rest[i - 1]);
                assert(rest[i - 1].end <= m.end);
            }
        }
        if next == Some(m) {
            if best != Some(m) {
                assert(found[0] == m);
            }
        } else {
            let i = choose|i: int|
                0 <= i < rest.len() && rest[i] == m && forall|j: int| 0 <= j < i ==> (#[trigger] rest[j]).end < m.end;
            assert(found[i + 1] == m);
            assert forall|j: int| 0 <= j < i + 1 implies (#[trigger] found[j]).end < m.end by {
                if j > 0 {
                    assert(found[j] == rest[j - 1]);
                }
            }
        }
    }
}

/// An exploration that does not run into a poisoned construct selects among
/// the candidates that it finds.
pub proof fn lemma_explore_selects(input: Seq<char>, st: State, best: Option<Match>)
    ensures
        explore(input, st, best).best matches Some(out) ==> out == select(best, candidates(input, st)),
    decreases weight(st.prog), 1nat, 0nat,
{
    let walked = walk(input, st.prog, st.res, st.cur, Seq::empty());
    if !(walked.outcome is Poisoned) {
        let hit = candidate(input, walked.outcome);
        lemma_below_selects(input, walked.stack, weight(st.prog), better(best, hit));
        lemma_select_concat(best, found(hit), candidates_below(input, walked.stack, weight(st.prog)));
        if hit is Some {
            assert(found(hit).drop_first() =~= Seq::<Match>::empty());
            assert(select(best, found(hit)) == select(better(best, Some(found(hit)[0])), found(hit).drop_first()));
        }
    }
}

pub proof fn lemma_below_selects(input: Seq<char>, stack: Seq<State>, bound: nat, best: Option<Match>)
    ensures
        explore_below(input, stack, bound, best).best matches Some(out) ==> out == select(
            best,
            candidates_below(input, stack, bound),
        ),
    decreases bound, 0nat, stack.len(),
{
    if stack.len() > 0 && weight(stack.last().prog) < bound {
        lemma_explore_selects(input, stack.last(), best);
        match explore(input, stack.last(), best).best {
            None => {},
            Some(b) => {
                lemma_below_selects(input, stack.drop_last(), bound, b);
                lemma_select_concat(
                    best,
                    candidates(input, stack.last()),
                    candidates_below(input, stack.drop_last(), bound),
                );
            },
        }
    }
}

/// The longest match wins: the result is one of the candidates that the
/// search finds, no candidate ends behind it, and every candidate found before
/// it ends before it. Where the search finds no candidate there is no result.
pub proof fn lemma_longest_match(prog: Seq<Pat>, input: Seq<char>)
    ensures
        ({
            let all = candidates(input, seed(prog));
            match exec_result(prog, input) {
                Ok(Some(m)) => {
                    &&& forall|i: int| 0 <= i < all.len() ==> (#[trigger] all[i]).end <= m.end
                    &&& exists|i: int|
                        0 <= i < all.len() && all[i] == m && forall|j: int|
                            0 <= j < i ==> (#[trigger] all[j]).end < m.end
                },
                Ok(None) => all.len() == 0,
                Err(_) => true,
            }
        }),
{
    lemma_explore_selects(input, seed(prog), None);
    lemma_select_greatest(None, candidates(input, seed(prog)));
}

/// What holds of a match in an input: it runs from the first byte of a
/// character to the last byte of a character behind it, and every capture runs
/// likewise, or is empty, ends no later than the match and begins no earlier,
/// unless it began at the input's first byte before the match had begun.
pub open spec fn good_match(input: Seq<char>, m: Match) -> bool {
    &&& boundary(input, m.start as int)
    &&& boundary(input, m.end + 1)
    &&& m.start <= m.end
    &&& forall|k: int|
        0 <= k < m.groups.len() ==> {
            let span = (#[trigger] m.groups[k]).1;
            &&& boundary(input, span.0 as int)
            &&& boundary(input, span.1 + 1)
            &&& span.0 <= span.1 + 1
            &&& span.1 <= m.end
            &&& (span.0 == 0 || m.start <= span.0)
        }
}

/// The candidate of a good walk is a good match that keeps the start.
pub proof fn lemma_candidate_good(input: Seq<char>, res: Option<Partial>, p: Partial, c: int)
    requires
        fits(input),
        1 <= c <= input.len(),
        good_partial(input, p, c),
        kept(res, Some(p)),
    ensures
        good_match(input, candidate(input, Outcome::Done(p, c)).unwrap()),
        res matches Some(q) ==> candidate(input, Outcome::Done(p, c)).unwrap().start == q.start,
{
    lemma_off(input, 0, c);
    lemma_off(input, c, c);
    let m = candidate(input, Outcome::Done(p, c)).unwrap();
    assert forall|k: int| 0 <= k < m.groups.len() implies {
        let span = (#[trigger] m.groups[k]).1;
        &&& boundary(input, span.0 as int)
        &&& boundary(input, span.1 + 1)
        &&& span.0 <= span.1 + 1
        &&& span.1 <= m.end
        &&& (span.0 == 0 || m.start <= span.0)
    } by {
        assert(good_span(input, p.start, p.groups[k].1, c));
    }
}

/// Every candidate that the exploration of a good state finds is a good
/// match, and begins where the state's match began, if it had begun.
pub proof fn lemma_candidates_good(input: Seq<char>, st: State)
    requires
        fits(input),
        good_state(input, st),
    ensures
        forall|i: int|
            0 <= i < candidates(input, st).len() ==> good_match(input, #[trigger] candidates(input, st)[i]) && (
            st.res matches Some(q) ==> candidates(input, st)[i].start == q.start),
    decreases weight(st.prog), 1nat, 0nat,
{
    let walked = walk(input, st.prog, st.res, st.cur, Seq::empty());
    if !(walked.outcome is Poisoned) {
        assert(all_good(input, Seq::<State>::empty()));
        lemma_walk_good(input, st.prog, st.res, st.cur, Seq::empty());
        let hit = found(candidate(input, walked.outcome));
        let below = candidates_below(input, walked.stack, weight(st.prog));
        lemma_candidates_below_good(input, walked.stack, weight(st.prog), st.res);
        if let Outcome::Done(p, c) = walked.outcome {
            if c >= 1 {
                lemma_candidate_good(input, st.res, p, c);
            }
        }
        assert forall|i: int| 0 <= i < candidates(input, st).len() implies good_match(
            input,
            #[trigger] candidates(input, st)[i],
        ) && (st.res matches Some(q) ==> candidates(input, st)[i].start == q.start) by {
            if i < hit.len() {
                assert((hit + below)[i] == hit[i]);
            } else {
                assert((hit + below)[i] == below[i - hit.len()]);
            }
        }
    }
}

pub proof fn lemma_candidates_below_good(input: Seq<char>, stack: Seq<State>, bound: nat, from: Option<Partial>)
    requires
        fits(input),
        all_good(input, stack),
        forall|i: int| 0 <= i < stack.len() ==> kept(from, (#[trigger] stack[i]).res),
    ensures
        forall|i: int|
            0 <= i < candidates_below(input, stack, bound).len() ==> good_match(
                input,
                #[trigger] candidates_below(input, stack, bound)[i],
            ) && (from matches Some(q) ==> candidates_below(input, stack, bound)[i].start == q.start),
    decreases bound, 0nat, stack.len(),
{
    if stack.len() > 0 && weight(stack.last().prog) < bound {
        let top = candidates(input, stack.last());
        let under = candidates_below(input, stack.drop_last(), bound);
        assert(good_state(input, stack[stack.len() - 1]));
        assert(kept(from, stack[stack.len() - 1].res));
        lemma_candidates_good(input, stack.last());
        assert forall|i: int| 0 <= i < stack.drop_last().len() implies good_state(
            input,
            #[trigger] stack.drop_last()[i],
        ) && kept(from, stack.drop_last()[i].res) by {
            assert(stack.drop_last()[i] == stack[i]);
        }
        lemma_candidates_below_good(input, stack.drop_last(), bound, from);
        assert forall|i: int| 0 <= i < (top + under).len() implies good_match(input, #[trigger] (top + under)[i])
            && (from matches Some(q) ==> (top + under)[i].start == q.start) by {
            if i < top.len() {
                assert((top + under)[i] == top[i]);
            } else {
                assert((top + under)[i] == under[i - top.len()]);
            }
        }
    }
}

/// A match is a substring of the input: of a plain program, the result begins
/// with the first byte of a character of the input and ends with the last
/// byte of a character that does not stand before it.
pub proof fn lemma_match_is_substring(prog: Seq<Pat>, input: Seq<char>)
    requires
        fits(input),
        plain(prog),
    ensures
        exec_result(prog, input) matches Ok(Some(m)) ==> boundary(input, m.start as int) && boundary(
            input,
            m.end + 1,
        ) && m.start <= m.end,
{
    lemma_result_good(prog, input);
}

/// Groups lie within the match: of a plain program, every capture of the
/// result ends no later than the match, and begins no earlier than the match
/// or at the input's first byte.
pub proof fn lemma_groups_within_match(prog: Seq<Pat>, input: Seq<char>)
    requires
        fits(input),
        plain(prog),
    ensures
        exec_result(prog, input) matches Ok(Some(m)) ==> forall|k: int|
            0 <= k < m.groups.len() ==> {
                let span = (#[trigger] m.groups[k]).1;
                &&& span.0 <= span.1 + 1
                &&& span.1 <= m.end
                &&& (span.0 == 0 || m.start <= span.0)
            },
{
    lemma_result_good(prog, input);
}

/// The result for a plain program is a good match.
pub proof fn lemma_result_good(prog: Seq<Pat>, input: Seq<char>)
    requires
        fits(input),
        plain(prog),
    ensures
        exec_result(prog, input) matches Ok(Some(m)) ==> good_match(input, m),
{
    lemma_plain_good(input, None, prog, 0);
    lemma_candidates_good(input, seed(prog));
    lemma_longest_match(prog, input);
}

/// A pattern that begins with `^` matches at the start alone: of a plain
/// program whose first construct is the start anchor, the result begins at
/// offset 0.
pub proof fn lemma_start_anchor(prog: Seq<Pat>, input: Seq<char>)
    requires
        fits(input),
        plain(prog),
        prog.len() > 0,
        prog[0] is Start,
    ensures
        exec_result(prog, input) matches Ok(Some(m)) ==> m.start == 0,
{
    let rest = prog.drop_first();
    let begun = started(None, off(input, 0));
    let walked = walk(input, prog, None, 0, Seq::empty());
    assert(walked == walk(input, rest, begun, 0, Seq::empty()));
    lemma_off(input, 0, 0);
    assert(plain(rest)) by {
        assert forall|i: int| 0 <= i < rest.len() implies crate::parser::model::plain_pat(#[trigger] rest[i]) by {
            assert(rest[i] == prog[i + 1]);
        }
    }
    lemma_plain_good(input, begun, rest, 0);
    assert(all_good(input, Seq::<State>::empty()));
    lemma_walk_good(input, rest, begun, 0, Seq::empty());
    lemma_longest_match(prog, input);
    if !(walked.outcome is Poisoned) {
        let hit = found(candidate(input, walked.outcome));
        let below = candidates_below(input, walked.stack, weight(prog));
        lemma_candidates_below_good(input, walked.stack, weight(prog), begun);
        if let Outcome::Done(p, c) = walked.outcome {
            if c >= 1 {
                lemma_candidate_good(input, begun, p, c);
            }
        }
        assert forall|i: int| 0 <= i < candidates(input, seed(prog)).len() implies (#[trigger] candidates(
            input,
            seed(prog),
        )[i]).start == 0 by {
            if i < hit.len() {
                assert((hit + below)[i] == hit[i]);
            } else {
                assert((hit + below)[i] == below[i - hit.len()]);
            }
        }
    }
}

} // verus!
