//! The offsets that a search hands out: what holds of every state that a walk
//! passes through, and so of every match.

use super::semantics::find_word;
use super::semantics::more_of;
use super::semantics::occurs_at;
use super::semantics::off;
use super::semantics::one_or_more;
use super::semantics::recorded;
use super::semantics::room;
use super::semantics::started;
use super::semantics::times;
use super::semantics::walk;
use super::semantics::Outcome;
use super::semantics::Partial;
use super::semantics::State;
use super::semantics::Walked;
use crate::ordered::key_index;
use crate::ordered::upsert;
use crate::ordered::Capture;
use crate::parser::model::lemma_weight_concat;
use crate::parser::model::lemma_weight_first;
use crate::parser::model::lemma_weight_one;
use crate::parser::model::plain;
use crate::parser::model::plain_pat;
use crate::parser::model::weight;
use crate::parser::model::Pat;
use crate::text::byte_offset;
use crate::text::lemma_offset_monotonic;
use vstd::prelude::*;

verus! {

/// The input's length in bytes is a `usize`, as that of every string is.
pub open spec fn fits(input: Seq<char>) -> bool {
    byte_offset(input, input.len() as int) <= usize::MAX
}

/// Whether a character of the input begins at the byte offset `b`, or the
/// input ends there.
pub open spec fn boundary(input: Seq<char>, b: int) -> bool {
    exists|i: int| 0 <= i <= input.len() && #[trigger] byte_offset(input, i) == b
}

/// A capture lies on boundaries, before the cursor, and not before the match
/// unless it began before any match had.
pub open spec fn good_span(input: Seq<char>, start: usize, span: (usize, usize), cur: int) -> bool {
    &&& boundary(input, span.0 as int)
    &&& boundary(input, span.1 + 1)
    &&& span.0 <= span.1 + 1 <= byte_offset(input, cur)
    &&& (span.0 == 0 || start <= span.0)
}

pub open spec fn good_partial(input: Seq<char>, p: Partial, cur: int) -> bool {
    &&& boundary(input, p.start as int)
    &&& p.start <= byte_offset(input, cur)
    &&& (cur >= 1 ==> p.start < byte_offset(input, cur))
    &&& forall|k: int| 0 <= k < p.groups.len() ==> good_span(input, p.start, (#[trigger] p.groups[k]).1, cur)
}

pub open spec fn good_res(input: Seq<char>, res: Option<Partial>, cur: int) -> bool {
    match res {
        None => cur == 0,
        Some(p) => good_partial(input, p, cur),
    }
}

/// A mark of a group's end holds the offset at which its group began; every
/// other construct is plain.
pub open spec fn good_pat(input: Seq<char>, res: Option<Partial>, pat: Pat, cur: int) -> bool {
    match pat {
        Pat::GroupEnd { start, .. } => {
            &&& boundary(input, start as int)
            &&& start <= byte_offset(input, cur)
            &&& (start == 0 || (res matches Some(p) && p.start <= start))
        },
        _ => plain_pat(pat),
    }
}

pub open spec fn good_prog(input: Seq<char>, res: Option<Partial>, prog: Seq<Pat>, cur: int) -> bool {
    forall|i: int| 0 <= i < prog.len() ==> good_pat(input, res, #[trigger] prog[i], cur)
}

pub open spec fn good_state(input: Seq<char>, st: State) -> bool {
    &&& 0 <= st.cur <= input.len()
    &&& good_res(input, st.res, st.cur)
    &&& good_prog(input, st.res, st.prog, st.cur)
}

pub open spec fn all_good(input: Seq<char>, stack: Seq<State>) -> bool {
    forall|i: int| 0 <= i < stack.len() ==> good_state(input, #[trigger] stack[i])
}

/// A match that has begun keeps its start.
pub open spec fn kept(res: Option<Partial>, later: Option<Partial>) -> bool {
    res matches Some(p) ==> later matches Some(q) && q.start == p.start
}

/// `upper` is `stack` with states on top that keep the start of `res`.
pub open spec fn grown(res: Option<Partial>, stack: Seq<State>, upper: Seq<State>) -> bool {
    &&& stack.len() <= upper.len()
    &&& upper.take(stack.len() as int) =~= stack
    &&& forall|i: int| stack.len() <= i < upper.len() ==> kept(res, (#[trigger] upper[i]).res)
}

/// What holds after a walk from a good state over a good stack.
pub open spec fn walk_good(input: Seq<char>, res: Option<Partial>, cur: int, stack: Seq<State>, w: Walked) -> bool {
    &&& all_good(input, w.stack)
    &&& grown(res, stack, w.stack)
    &&& w.outcome matches Outcome::Done(p, c) ==> cur <= c <= input.len() && good_partial(input, p, c) && kept(
        res,
        Some(p),
    )
}

pub proof fn lemma_grown_chain(res: Option<Partial>, mid: Option<Partial>, a: Seq<State>, b: Seq<State>, c: Seq<State>)
    requires
        grown(res, a, b),
        grown(mid, b, c),
        kept(res, mid),
    ensures
        grown(res, a, c),
{
    assert(c.take(a.len() as int) =~= a) by {
        assert forall|i: int| 0 <= i < a.len() implies c[i] == a[i] by {
            assert(c.take(b.len() as int)[i] == b[i]);
            assert(b.take(a.len() as int)[i] == a[i]);
        }
    }
    assert forall|i: int| a.len() <= i < c.len() implies kept(res, (#[trigger] c[i]).res) by {
        if i < b.len() {
            assert(c.take(b.len() as int)[i] == b[i]);
            assert(kept(res, b[i].res));
        } else {
            assert(kept(mid, c[i].res));
        }
    }
}

pub proof fn lemma_pushed_good(input: Seq<char>, res: Option<Partial>, stack: Seq<State>, st: State)
    requires
        all_good(input, stack),
        good_state(input, st),
        kept(res, st.res),
    ensures
        all_good(input, stack.push(st)),
        grown(res, stack, stack.push(st)),
{
    assert forall|i: int| 0 <= i < stack.push(st).len() implies good_state(input, #[trigger] stack.push(st)[i]) by {
        if i < stack.len() {
            assert(stack.push(st)[i] == stack[i]);
        }
    }
}

/// Offsets grow with the cursor and fit a `usize`.
pub proof fn lemma_off(input: Seq<char>, i: int, j: int)
    requires
        fits(input),
        0 <= i <= j <= input.len(),
    ensures
        off(input, i) == byte_offset(input, i),
        off(input, j) == byte_offset(input, j),
        byte_offset(input, i) + (j - i) <= byte_offset(input, j),
        byte_offset(input, 0) == 0,
        boundary(input, byte_offset(input, i)),
        boundary(input, byte_offset(input, j)),
{
    lemma_offset_monotonic(input, i, j);
    lemma_offset_monotonic(input, j, input.len() as int);
    lemma_offset_monotonic(input, 0, i);
    assert(input.take(0) =~= Seq::<char>::empty());
}

/// A good match so far is good at every later cursor.
pub proof fn lemma_res_later(input: Seq<char>, res: Option<Partial>, cur: int, later: int)
    requires
        fits(input),
        0 <= cur <= later <= input.len(),
        good_res(input, res, cur),
        res is Some,
    ensures
        good_res(input, res, later),
{
    lemma_off(input, cur, later);
    lemma_off(input, 0, later);
    let p = res.unwrap();
    assert forall|k: int| 0 <= k < p.groups.len() implies good_span(input, p.start, (#[trigger] p.groups[k]).1, later) by {
        assert(good_span(input, p.start, p.groups[k].1, cur));
    }
}

/// A good program is good at every later cursor and for every match that
/// keeps the start.
pub proof fn lemma_prog_later(
    input: Seq<char>,
    res: Option<Partial>,
    prog: Seq<Pat>,
    cur: int,
    later_res: Option<Partial>,
    later: int,
)
    requires
        fits(input),
        0 <= cur <= later <= input.len(),
        good_prog(input, res, prog, cur),
        kept(res, later_res),
    ensures
        good_prog(input, later_res, prog, later),
{
    lemma_off(input, cur, later);
    assert forall|i: int| 0 <= i < prog.len() implies good_pat(input, later_res, #[trigger] prog[i], later) by {
        assert(good_pat(input, res, prog[i], cur));
    }
}

/// A plain program is good whatever the match and the cursor.
pub proof fn lemma_plain_good(input: Seq<char>, res: Option<Partial>, prog: Seq<Pat>, cur: int)
    requires
        plain(prog),
    ensures
        good_prog(input, res, prog, cur),
{
    assert forall|i: int| 0 <= i < prog.len() implies good_pat(input, res, #[trigger] prog[i], cur) by {
        assert(plain_pat(prog[i]));
    }
}

pub proof fn lemma_good_concat(input: Seq<char>, res: Option<Partial>, a: Seq<Pat>, b: Seq<Pat>, cur: int)
    requires
        good_prog(input, res, a, cur),
        good_prog(input, res, b, cur),
    ensures
        good_prog(input, res, a + b, cur),
{
    assert forall|i: int| 0 <= i < (a + b).len() implies good_pat(input, res, #[trigger] (a + b)[i], cur) by {
        if i < a.len() {
            assert((a + b)[i] == a[i]);
        } else {
            assert((a + b)[i] == b[i - a.len()]);
        }
    }
}

/// What a good program is made of: its first construct and the rest.
pub proof fn lemma_good_first(input: Seq<char>, res: Option<Partial>, prog: Seq<Pat>, cur: int)
    requires
        good_prog(input, res, prog, cur),
        prog.len() > 0,
    ensures
        good_pat(input, res, prog[0], cur),
        good_prog(input, res, prog.drop_first(), cur),
{
    assert forall|i: int| 0 <= i < prog.drop_first().len() implies good_pat(
        input,
        res,
        #[trigger] prog.drop_first()[i],
        cur,
    ) by {
        assert(prog.drop_first()[i] == prog[i + 1]);
    }
}

/// What a plain construct holds is plain.
pub proof fn lemma_plain_unfold(p: Pat)
    requires
        plain_pat(p),
    ensures
        match p {
            Pat::ZeroOrMore { body, .. } => plain(body),
            Pat::OneOrMore { body, .. } => plain(body),
            Pat::Optional(body) => plain(body),
            Pat::Group { body, .. } => plain(body),
            Pat::Or { left, right } => plain(left) && plain(right),
            Pat::RepetitionRange { body, .. } => plain(body),
            Pat::GroupEnd { .. } => false,
            _ => true,
        },
{
    reveal_with_fuel(plain_pat, 2);
}

pub proof fn lemma_one_good(input: Seq<char>, res: Option<Partial>, pat: Pat, cur: int)
    requires
        good_pat(input, res, pat, cur),
    ensures
        good_prog(input, res, seq![pat], cur),
{
}

/// A match that begins where a construct matched is good behind it.
pub proof fn lemma_started_good(input: Seq<char>, res: Option<Partial>, cur: int, at: int, later: int)
    requires
        fits(input),
        0 <= cur <= at <= later <= input.len(),
        good_res(input, res, cur),
        res is None ==> at < later || later == 0,
    ensures
        good_res(input, started(res, off(input, at)), later),
        kept(res, started(res, off(input, at))),
{
    lemma_off(input, at, later);
    lemma_off(input, cur, at);
    if res is Some {
        lemma_res_later(input, res, cur, later);
    }
}

/// Captures that are good stay good when one of them is written anew.
pub proof fn lemma_upsert_good(input: Seq<char>, start: usize, groups: Seq<Capture>, name: Seq<char>, span: (usize, usize), cur: int)
    requires
        forall|k: int| 0 <= k < groups.len() ==> good_span(input, start, (#[trigger] groups[k]).1, cur),
        good_span(input, start, span, cur),
    ensures
        forall|k: int|
            0 <= k < upsert(groups, name, span).len() ==> good_span(
                input,
                start,
                (#[trigger] upsert(groups, name, span)[k]).1,
                cur,
            ),
{
    lemma_key_index_range(groups, name);
    let after = upsert(groups, name, span);
    assert forall|k: int| 0 <= k < after.len() implies good_span(input, start, (#[trigger] after[k]).1, cur) by {
        match key_index(groups, name) {
            Some(i) => {
                if k != i {
                    assert(after[k] == groups[k]);
                }
            },
            None => {
                if k < groups.len() {
                    assert(after[k] == groups[k]);
                }
            },
        }
    }
}

pub proof fn lemma_key_index_range(groups: Seq<Capture>, name: Seq<char>)
    ensures
        key_index(groups, name) matches Some(i) ==> 0 <= i < groups.len() && groups[i].0 == name,
    decreases groups.len(),
{
    if groups.len() > 0 {
        lemma_key_index_range(groups.drop_last(), name);
    }
}

/// Recording a group whose end mark is good leaves a good match.
pub proof fn lemma_recorded_good(input: Seq<char>, res: Option<Partial>, pat: Pat, cur: int)
    requires
        fits(input),
        0 <= cur <= input.len(),
        good_res(input, res, cur),
        pat is GroupEnd,
        good_pat(input, res, pat, cur),
    ensures
        good_res(input, recorded(input, res, pat->GroupEnd_kind, pat->GroupEnd_start, cur), cur),
        kept(res, recorded(input, res, pat->GroupEnd_kind, pat->GroupEnd_start, cur)),
        kept(recorded(input, res, pat->GroupEnd_kind, pat->GroupEnd_start, cur), res),
{
    lemma_off(input, 0, cur);
    lemma_off(input, cur, cur);
    match (res, crate::parser::model::capture_name(pat->GroupEnd_kind)) {
        (Some(p), Some(name)) => {
            if cur >= 1 {
                let span = (pat->GroupEnd_start, (off(input, cur) - 1) as usize);
                assert(good_span(input, p.start, span, cur));
                lemma_upsert_good(input, p.start, p.groups, name, span, cur);
            }
        },
        _ => {},
    }
}

/// The walk goes on from a good state that keeps the start: what holds after
/// the walk holds of it as a walk from the state before.
pub proof fn lemma_go_on(
    input: Seq<char>,
    prog: Seq<Pat>,
    res: Option<Partial>,
    cur: int,
    stack: Seq<State>,
    later_res: Option<Partial>,
    later: int,
    upper: Seq<State>,
)
    requires
        fits(input),
        0 <= cur <= later <= input.len(),
        good_res(input, later_res, later),
        good_prog(input, later_res, prog, later),
        all_good(input, upper),
        grown(res, stack, upper),
        kept(res, later_res),
    ensures
        walk_good(input, res, cur, stack, walk(input, prog, later_res, later, upper)),
    decreases room(input, later), weight(prog), 2nat,
{
    lemma_walk_good(input, prog, later_res, later, upper);
    lemma_grown_chain(res, later_res, stack, upper, walk(input, prog, later_res, later, upper).stack);
}

/// A walk from a good state over a good stack leaves good states and ends
/// with a good match.
pub proof fn lemma_walk_good(input: Seq<char>, prog: Seq<Pat>, res: Option<Partial>, cur: int, stack: Seq<State>)
    requires
        fits(input),
        0 <= cur <= input.len(),
        good_res(input, res, cur),
        good_prog(input, res, prog, cur),
        all_good(input, stack),
    ensures
        walk_good(input, res, cur, stack, walk(input, prog, res, cur, stack)),
    decreases room(input, cur), weight(prog), 1nat,
{
    let n = input.len() as int;
    assert(grown(res, stack, stack));
    if prog.len() == 0 {
    } else {
        lemma_weight_first(prog);
        lemma_good_first(input, res, prog, cur);
        let rest = prog.drop_first();
        let skip = State { res, prog: rest, cur };
        match prog[0] {
            Pat::Poisoned => {},
            Pat::Any => {
                if 0 <= cur < n {
                    let next = started(res, off(input, cur));
                    lemma_started_good(input, res, cur, cur, cur + 1);
                    lemma_prog_later(input, res, rest, cur, next, cur + 1);
                    lemma_go_on(input, rest, res, cur, stack, next, cur + 1, stack);
                }
            },
            Pat::Start => {
                if cur == 0 {
                    let next = started(res, off(input, cur));
                    lemma_started_good(input, res, cur, cur, cur);
                    lemma_prog_later(input, res, rest, cur, next, cur);
                    lemma_go_on(input, rest, res, cur, stack, next, cur, stack);
                }
            },
            Pat::End => {
                if cur == n {
                    let next = started(res, off(input, cur));
                    lemma_started_good(input, res, cur, cur, cur);
                    lemma_prog_later(input, res, rest, cur, next, cur);
                    lemma_go_on(input, rest, res, cur, stack, next, cur, stack);
                }
            },
            Pat::Word(word) => {
                if 0 <= cur < n {
                    match find_word(input, word, cur, res is None) {
                        Some(k) => {
                            if cur <= k && k + word.len() <= n {
                                let next = started(res, off(input, k));
                                if res is None && word.len() == 0 {
                                    assert(input.subrange(0, 0) =~= word);
                                    assert(occurs_at(input, word, 0));
                                }
                                lemma_started_good(input, res, cur, k, k + word.len());
                                lemma_prog_later(input, res, rest, cur, next, k + word.len());
                                lemma_go_on(input, rest, res, cur, stack, next, k + word.len(), stack);
                            }
                        },
                        None => {},
                    }
                }
            },
            Pat::CharSet { members, inverted } => {
                if 0 <= cur < n && members.contains(input[cur]) != inverted {
                    let next = started(res, off(input, cur));
                    lemma_started_good(input, res, cur, cur, cur + 1);
                    lemma_prog_later(input, res, rest, cur, next, cur + 1);
                    lemma_go_on(input, rest, res, cur, stack, next, cur + 1, stack);
                }
            },
            Pat::Optional(body) => {
                lemma_plain_unfold(prog[0]);
                lemma_weight_concat(body, rest);
                lemma_plain_good(input, res, body, cur);
                lemma_good_concat(input, res, body, rest, cur);
                lemma_pushed_good(input, res, stack, skip);
                lemma_go_on(input, body + rest, res, cur, stack, res, cur, stack.push(skip));
            },
            Pat::Or { left, right } => {
                lemma_plain_unfold(prog[0]);
                lemma_weight_concat(left, rest);
                lemma_plain_good(input, res, left, cur);
                lemma_plain_good(input, res, right, cur);
                lemma_good_concat(input, res, left, rest, cur);
                lemma_good_concat(input, res, right, rest, cur);
                let other = State { res, prog: right + rest, cur };
                lemma_pushed_good(input, res, stack, other);
                lemma_go_on(input, left + rest, res, cur, stack, res, cur, stack.push(other));
            },
            Pat::Group { body, kind } => {
                lemma_plain_unfold(prog[0]);
                let end = Pat::GroupEnd { start: off(input, cur), kind };
                lemma_weight_concat(body, seq![end] + rest);
                lemma_weight_concat(seq![end], rest);
                lemma_weight_one(end);
                lemma_weight_first(seq![end]);
                lemma_off(input, 0, cur);
                lemma_off(input, cur, cur);
                assert(good_pat(input, res, end, cur));
                lemma_one_good(input, res, end, cur);
                lemma_plain_good(input, res, body, cur);
                lemma_good_concat(input, res, seq![end], rest, cur);
                lemma_good_concat(input, res, body, seq![end] + rest, cur);
                lemma_go_on(input, body + (seq![end] + rest), res, cur, stack, res, cur, stack);
            },
            Pat::GroupEnd { start, kind } => {
                let next = recorded(input, res, kind, start, cur);
                lemma_recorded_good(input, res, prog[0], cur);
                lemma_prog_later(input, res, rest, cur, next, cur);
                lemma_go_on(input, rest, res, cur, stack, next, cur, stack);
            },
            Pat::ZeroOrMore { body, greedy } => {
                lemma_plain_unfold(prog[0]);
                lemma_pushed_good(input, res, stack, skip);
                lemma_one_or_more_good(input, body, greedy, rest, res, cur, stack.push(skip));
                lemma_grown_chain(
                    res,
                    res,
                    stack,
                    stack.push(skip),
                    one_or_more(input, body, greedy, rest, res, cur, stack.push(skip)).stack,
                );
            },
            Pat::OneOrMore { body, greedy } => {
                lemma_plain_unfold(prog[0]);
                lemma_one_or_more_good(input, body, greedy, rest, res, cur, stack);
            },
            Pat::RepetitionRange { min, max, body } => {
                lemma_plain_unfold(prog[0]);
                lemma_times_good(input, body, min as nat, more_of(min, max), rest, res, cur, stack);
            },
        }
    }
}

pub proof fn lemma_one_or_more_good(
    input: Seq<char>,
    body: Seq<Pat>,
    greedy: bool,
    rest: Seq<Pat>,
    res: Option<Partial>,
    cur: int,
    stack: Seq<State>,
)
    requires
        fits(input),
        0 <= cur <= input.len(),
        good_res(input, res, cur),
        plain(body),
        good_prog(input, res, rest, cur),
        all_good(input, stack),
    ensures
        walk_good(input, res, cur, stack, one_or_more(input, body, greedy, rest, res, cur, stack)),
    decreases room(input, cur), 1 + weight(body) + weight(rest), 0nat,
{
    let once = walk(input, body, res, cur, stack);
    lemma_plain_good(input, res, body, cur);
    lemma_walk_good(input, body, res, cur, stack);
    match once.outcome {
        Outcome::Done(p, c) => {
            lemma_prog_later(input, res, rest, cur, Some(p), c);
            let tried = if greedy {
                Walked { outcome: Outcome::Fail, stack: once.stack }
            } else {
                walk(input, rest, Some(p), c, once.stack)
            };
            if !greedy {
                lemma_go_on(input, rest, res, cur, stack, Some(p), c, once.stack);
            }
            if tried.outcome is Fail {
                if cur < c {
                    let star = Pat::ZeroOrMore { body, greedy };
                    lemma_weight_concat(seq![star], rest);
                    lemma_weight_one(star);
                    lemma_weight_first(seq![star]);
                    assert(plain_pat(star)) by {
                        reveal_with_fuel(plain_pat, 2);
                    }
                    lemma_one_good(input, Some(p), star, c);
                    lemma_good_concat(input, Some(p), seq![star], rest, c);
                    lemma_go_on(input, seq![star] + rest, res, cur, stack, Some(p), c, tried.stack);
                } else if greedy {
                    lemma_go_on(input, rest, res, cur, stack, Some(p), c, tried.stack);
                }
            }
        },
        _ => {},
    }
}

pub proof fn lemma_times_good(
    input: Seq<char>,
    body: Seq<Pat>,
    todo: nat,
    more: Option<nat>,
    rest: Seq<Pat>,
    res: Option<Partial>,
    cur: int,
    stack: Seq<State>,
)
    requires
        fits(input),
        0 <= cur <= input.len(),
        good_res(input, res, cur),
        plain(body),
        good_prog(input, res, rest, cur),
        all_good(input, stack),
    ensures
        walk_good(input, res, cur, stack, times(input, body, todo, more, rest, res, cur, stack)),
    decreases room(input, cur), 1 + weight(body) + weight(rest), (if todo == 0 {
        3nat
    } else {
        2nat
    }),
{
    let skip = State { res, prog: rest, cur };
    assert(grown(res, stack, stack));
    if todo == 0 {
        match more {
            None => {
                lemma_pushed_good(input, res, stack, skip);
                lemma_one_or_more_good(input, body, false, rest, res, cur, stack.push(skip));
                lemma_grown_chain(
                    res,
                    res,
                    stack,
                    stack.push(skip),
                    one_or_more(input, body, false, rest, res, cur, stack.push(skip)).stack,
                );
            },
            Some(k) => {
                if k == 0 {
                    lemma_go_on(input, rest, res, cur, stack, res, cur, stack);
                } else {
                    lemma_pushed_good(input, res, stack, skip);
                    lemma_times_good(input, body, 1, Some((k - 1) as nat), rest, res, cur, stack.push(skip));
                    lemma_grown_chain(
                        res,
                        res,
                        stack,
                        stack.push(skip),
                        times(input, body, 1, Some((k - 1) as nat), rest, res, cur, stack.push(skip)).stack,
                    );
                }
            },
        }
    } else {
        let once = walk(input, body, res, cur, stack);
        lemma_plain_good(input, res, body, cur);
        lemma_walk_good(input, body, res, cur, stack);
        match once.outcome {
            Outcome::Done(p, c) => {
                lemma_prog_later(input, res, rest, cur, Some(p), c);
                if cur < c {
                    lemma_times_good(input, body, (todo - 1) as nat, more, rest, Some(p), c, once.stack);
                    lemma_grown_chain(
                        res,
                        Some(p),
                        stack,
                        once.stack,
                        times(input, body, (todo - 1) as nat, more, rest, Some(p), c, once.stack).stack,
                    );
                } else {
                    lemma_go_on(input, rest, res, cur, stack, Some(p), c, once.stack);
                }
            },
            _ => {},
        }
    }
}

} // verus!
