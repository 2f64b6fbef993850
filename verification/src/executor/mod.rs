//! The executor: a backtracking search for the longest match of a program in
//! an input.

pub mod anchor;
pub mod laws;
pub mod proofs;
pub mod semantics;
pub mod sound;
pub mod utils;

use crate::ordered::map_clone;
use crate::ordered::map_get_index;
use crate::ordered::map_len;
use crate::ordered::upsert;
use crate::ordered::map_entries;
use crate::ordered::map_insert;
use crate::ordered::map_new;
use crate::ordered::set_contains;
use crate::ordered::Capture;
use crate::parser::model::lemma_weight_concat;
use crate::parser::model::lemma_weight_first;
use crate::parser::model::lemma_weight_one;
use crate::parser::display::push_decimal;
use crate::parser::model::capture_name;
use crate::parser::model::decimal;
use crate::parser::model::plain;
use crate::parser::node::kind_view;
use crate::parser::model::weight;
use laws::good_match;
use laws::lemma_result_good;
use sound::fits;
use crate::parser::model::Pat;
use crate::parser::node::body_view;
use crate::parser::node::chain_view;
use crate::parser::node::next_view;
use crate::parser::node::clone_cfg;
use crate::parser::node::link_view;
use crate::parser::node::share;
use crate::parser::node::share_link;
use crate::parser::node::val_view;
use crate::parser::GroupConfig;
use crate::parser::Node;
use crate::parser::NodeVal;
use crate::parser::ParseResult;
use crate::text::byte_offset;
use crate::text::chars_of;
use crate::text::lemma_offset_monotonic;
use crate::text::offsets_of;
use indexmap::IndexMap;
use proofs::lemma_search_turn;
use semantics::better;
use semantics::candidate;
use semantics::exec_result;
use semantics::explore;
use semantics::first_occurrence;
use semantics::more_of;
use semantics::occurs_at;
use semantics::off;
use semantics::one_or_more;
use semantics::room;
use semantics::search;
use semantics::seed;
use semantics::started;
use semantics::times;
use semantics::walk;
use semantics::Match;
use semantics::Outcome;
use semantics::Partial;
use semantics::State;
use semantics::Walked;
use std::sync::Arc;
use utils::AppendNode;
use vstd::prelude::*;
use vstd::string::StringExecFns;

verus! {

/// A match: the offsets of its first and last byte in the input, and, by the
/// group's name or position, the offsets of the first and last byte of every
/// capturing group that matched.
#[derive(Debug)]
pub struct ExecResult {
    pub start: usize,
    pub end: usize,
    pub groups: IndexMap<String, (usize, usize)>,
}

impl View for ExecResult {
    type V = Match;

    open spec fn view(&self) -> Match {
        Match { start: self.start, end: self.end, groups: map_entries(self.groups) }
    }
}

impl Clone for ExecResult {
    fn clone(&self) -> (r: Self)
        ensures
            r@ == self@,
    {
        ExecResult { start: self.start, end: self.end, groups: map_clone(&self.groups) }
    }
}

impl ExecResult {
    /// A match that begins at `start` and has no end and no captures yet.
    pub fn new(start: usize) -> (r: Self)
        ensures
            r@ == (Match { start, end: 0, groups: Seq::empty() }),
    {
        Self { start, end: 0, groups: map_new() }
    }

    /// The captures of this match with those of `other` written over them.
    pub fn merge_groups(self, other: ExecResult) -> (r: Self)
        ensures
            r.start == self.start,
            r.end == self.end,
            map_entries(r.groups) == merged(
                map_entries(self.groups),
                map_entries(other.groups),
                map_entries(other.groups).len() as int,
            ),
    {
        let mut merged_into = self;
        let n = map_len(&other.groups);
        let ghost base = map_entries(self.groups);
        let ghost added = map_entries(other.groups);
        let mut k: usize = 0;
        while k < n
            invariant
                k <= n,
                n == added.len(),
                added == map_entries(other.groups),
                merged_into.start == self.start,
                merged_into.end == self.end,
                map_entries(merged_into.groups) == merged(base, added, k as int),
            decreases n - k,
        {
            if let Some((name, span)) = map_get_index(&other.groups, k) {
                map_insert(&mut merged_into.groups, name, span);
            }
            k += 1;
        }
        merged_into
    }

    /// The match of two that is there; of two that are there, the first with
    /// the captures of the second written over its own.
    pub fn map_options(dest: Option<Self>, src: Option<Self>) -> (r: Option<Self>)
        ensures
            match (dest, src) {
                (None, None) => r is None,
                (None, Some(s)) => r == Some(s),
                (Some(d), None) => r == Some(d),
                (Some(d), Some(s)) => r is Some && r.unwrap().start == d.start && r.unwrap().end == d.end
                    && map_entries(r.unwrap().groups) == merged(
                    map_entries(d.groups),
                    map_entries(s.groups),
                    map_entries(s.groups).len() as int,
                ),
            },
    {
        match (dest, src) {
            (None, None) => None,
            (None, Some(s)) => Some(s),
            (Some(d), None) => Some(d),
            (Some(d), Some(s)) => Some(d.merge_groups(s)),
        }
    }

    /// The match as one that has begun.
    pub open spec fn partial(&self) -> Partial {
        Partial { start: self.start, groups: map_entries(self.groups) }
    }
}

/// The match so far, if one has begun.
pub open spec fn partial_view(res: Option<ExecResult>) -> Option<Partial> {
    match res {
        Some(r) => Some(r.partial()),
        None => None,
    }
}

/// A copy of the match so far.
pub fn clone_res(res: &Option<ExecResult>) -> (r: Option<ExecResult>)
    ensures
        partial_view(r) == partial_view(*res),
{
    match res {
        Some(m) => Some(m.clone()),
        None => None,
    }
}

/// The match so far, begun at `at` if it had not begun.
pub fn or_new(res: Option<ExecResult>, at: usize) -> (r: ExecResult)
    ensures
        Some(r.partial()) == started(partial_view(res), at),
{
    match res {
        Some(m) => m,
        None => ExecResult::new(at),
    }
}

/// The captures `base` with the first `count` of `added` written over them,
/// one after the other.
pub open spec fn merged(base: Seq<Capture>, added: Seq<Capture>, count: int) -> Seq<Capture>
    decreases count,
{
    if count <= 0 {
        base
    } else {
        upsert(merged(base, added, count - 1), added[count - 1].0, added[count - 1].1)
    }
}

#[derive(Debug)]
pub enum ExecError {
    EmptyParseResult,
    PoisonedNode,
}

/// What an error of the executor says.
pub open spec fn exec_error_text(err: ExecError) -> Seq<char> {
    match err {
        ExecError::EmptyParseResult => "cannot execute empty parse result"@,
        ExecError::PoisonedNode => "internal: encountered poisoned node"@,
    }
}

impl ExecError {
    /// What the error says.
    pub fn message(&self) -> (out: String)
        ensures
            out@ == exec_error_text(*self),
    {
        match self {
            ExecError::EmptyParseResult => String::from_str("cannot execute empty parse result"),
            ExecError::PoisonedNode => String::from_str("internal: encountered poisoned node"),
        }
    }
}

/// A state that is still to be explored.
#[derive(Debug)]
pub struct ExecutorState {
    pub res: Option<ExecResult>,
    pub node: Option<Arc<Node>>,
    pub cur: usize,
}

impl View for ExecutorState {
    type V = State;

    open spec fn view(&self) -> State {
        State { res: partial_view(self.res), prog: link_view(self.node), cur: self.cur as int }
    }
}

pub open spec fn states_view(states: Seq<ExecutorState>) -> Seq<State> {
    Seq::new(states.len(), |i: int| states[i]@)
}

/// Every state's cursor lies in an input of `n` characters.
pub open spec fn frontier_ok(states: Seq<ExecutorState>, n: usize) -> bool {
    forall|i: int| 0 <= i < states.len() ==> (#[trigger] states[i]).cur <= n
}

/// How a walk went on: it ended, or it goes on from a new state.
pub enum Step {
    Finished(Option<(ExecResult, usize)>),
    Continue { res: Option<ExecResult>, node: Option<Arc<Node>>, cur: usize },
}

/// The outcome that a walk's result stands for.
pub open spec fn outcome_view(found: Option<(ExecResult, usize)>) -> Outcome {
    match found {
        None => Outcome::Fail,
        Some((p, c)) => Outcome::Done(p.partial(), c as int),
    }
}

/// A walk's result says what the walk `walked` says: its outcome, and, unless
/// it ran into a poisoned construct, the stack it left.
pub open spec fn agrees(r: Result<Option<(ExecResult, usize)>, ExecError>, walked: Walked, stack: Seq<State>) -> bool {
    match r {
        Err(e) => e is PoisonedNode && walked.outcome is Poisoned,
        Ok(found) => walked.outcome == outcome_view(found) && walked.stack == stack,
    }
}

/// A step says what the walk `walked` says, from the cursor `cur` and with a
/// program of weight `w`: it ended as the walk ends, or the walk is the walk
/// from the new state, which lies ahead or is lighter.
pub open spec fn step_agrees(
    input: Seq<char>,
    r: Result<Step, ExecError>,
    walked: Walked,
    stack: Seq<State>,
    cur: usize,
    w: nat,
) -> bool {
    match r {
        Err(e) => e is PoisonedNode && walked.outcome is Poisoned,
        Ok(Step::Finished(found)) => walked.outcome == outcome_view(found) && walked.stack == stack && (found matches Some(
            (p, c),
        ) ==> cur <= c <= input.len()),
        Ok(Step::Continue { res, node, cur: c }) => walked == walk(input, link_view(node), partial_view(res), c as int, stack)
            && cur <= c <= input.len() && (c == cur ==> weight(link_view(node)) < w),
    }
}

/// The name under which a group's capture is stored, if it is stored.
pub fn name_of(cfg: &Option<GroupConfig>) -> (name: Option<String>)
    ensures
        match capture_name(kind_view(*cfg)) {
            Some(n) => name is Some && name.unwrap()@ == n,
            None => name is None,
        },
{
    match cfg {
        Some(GroupConfig::Named(name)) => Some(name.clone()),
        Some(GroupConfig::Numbered(position)) => {
            let mut name = String::new();
            push_decimal(&mut name, *position);
            assert(Seq::<char>::empty() + decimal(*position as nat) =~= decimal(*position as nat));
            Some(name)
        },
        _ => None,
    }
}

/// The input of one search: its characters, and the byte offset of each.
pub struct ExecutorImpl {
    pub input: Vec<char>,
    pub offsets: Vec<usize>,
    pub n: usize,
}

pub proof fn lemma_states_pushed(states: Seq<ExecutorState>, st: ExecutorState)
    ensures
        states_view(states.push(st)) == states_view(states).push(st@),
{
    assert(states_view(states.push(st)) =~= states_view(states).push(st@));
}

/// The pattern behind a node begins with the node's own construct.
pub proof fn lemma_link_first(node: Arc<Node>)
    ensures
        link_view(Some(node)).len() > 0,
        link_view(Some(node))[0] == val_view(node.val),
        link_view(Some(node)).drop_first() == link_view(node.next),
{
    assert(link_view(Some(node)).drop_first() =~= link_view(node.next));
}

impl ExecutorImpl {
    /// The offsets are those of the input's characters.
    pub open spec fn wf(&self) -> bool {
        &&& self.n == self.input@.len()
        &&& self.offsets@.len() == self.n + 1
        &&& forall|i: int| 0 <= i <= self.n ==> self.offsets@[i] == #[trigger] byte_offset(self.input@, i)
    }

    /// Whether `word` stands in the input at index `at`.
    pub fn matches_at(&self, word: &Vec<char>, at: usize) -> (b: bool)
        requires
            self.wf(),
            at + word@.len() <= self.n,
        ensures
            b == occurs_at(self.input@, word@, at as int),
            word@.len() == 0 ==> b,
    {
        let mut i: usize = 0;
        while i < word.len()
            invariant
                self.wf(),
                at + word@.len() <= self.n,
                i <= word@.len(),
                forall|k: int| 0 <= k < i ==> self.input@[at + k] == word@[k],
            decreases word@.len() - i,
        {
            if self.input[at + i] != word[i] {
                assert(self.input@.subrange(at as int, at + word@.len())[i as int] != word@[i as int]);
                return false;
            }
            i += 1;
        }
        assert(self.input@.subrange(at as int, at + word@.len()) =~= word@);
        true
    }

    /// Where `word` is found from `start` on: at the first place behind
    /// `start` where it stands if the window may move, at `start` alone if not.
    pub fn find_word(&self, word: &Vec<char>, start: usize, can_move_window: bool) -> (r: Option<usize>)
        requires
            self.wf(),
            start <= self.n,
        ensures
            match semantics::find_word(self.input@, word@, start as int, can_move_window) {
                Some(k) => r == Some(k as usize) && start <= k && k + word@.len() <= self.n,
                None => r is None,
            },
    {
        let word_n = word.len();
        let mut cur = start;
        loop
            invariant
                self.wf(),
                start <= cur <= self.n,
                word_n == word@.len(),
                can_move_window ==> first_occurrence(self.input@, word@, start as int) == first_occurrence(
                    self.input@,
                    word@,
                    cur as int,
                ),
                !can_move_window ==> cur == start,
            decreases self.n - cur,
        {
            if word_n > self.n - cur {
                return None;
            }
            if self.matches_at(word, cur) {
                return Some(cur);
            }
            if !can_move_window {
                return None;
            }
            cur += 1;
        }
    }

    /// Leaves a state on the stack that goes on behind the repeated body
    /// without a further repetition, and tries one.
    pub fn match_zero_or_more(
        &self,
        res: Option<ExecResult>,
        next: &Option<Arc<Node>>,
        cur: usize,
        to_test: &Arc<Node>,
        greedy: bool,
        frontier: &mut Vec<ExecutorState>,
    ) -> (r: Result<Step, ExecError>)
        requires
            self.wf(),
            cur <= self.n,
            frontier_ok(old(frontier)@, self.n),
        ensures
            frontier_ok(final(frontier)@, self.n),
            step_agrees(
                self.input@,
                r,
                one_or_more(
                    self.input@,
                    chain_view(**to_test),
                    greedy,
                    link_view(*next),
                    partial_view(res),
                    cur as int,
                    states_view(old(frontier)@).push(
                        State { res: partial_view(res), prog: link_view(*next), cur: cur as int },
                    ),
                ),
                states_view(final(frontier)@),
                cur,
                1 + weight(chain_view(**to_test)) + weight(link_view(*next)),
            ),
        decreases room(self.input@, cur as int), 1 + weight(chain_view(**to_test)) + weight(link_view(*next)), 1nat,
    {
        let skip = ExecutorState { res: clone_res(&res), node: share_link(next), cur };
        proof {
            lemma_states_pushed(frontier@, skip);
        }
        frontier.push(skip);
        self.match_one_or_more(res, next, cur, to_test, greedy, frontier)
    }

    /// Matches the repeated body once and decides how the walk goes on.
    pub fn match_one_or_more(
        &self,
        res: Option<ExecResult>,
        next: &Option<Arc<Node>>,
        cur: usize,
        to_test: &Arc<Node>,
        greedy: bool,
        frontier: &mut Vec<ExecutorState>,
    ) -> (r: Result<Step, ExecError>)
        requires
            self.wf(),
            cur <= self.n,
            frontier_ok(old(frontier)@, self.n),
        ensures
            frontier_ok(final(frontier)@, self.n),
            step_agrees(
                self.input@,
                r,
                one_or_more(
                    self.input@,
                    chain_view(**to_test),
                    greedy,
                    link_view(*next),
                    partial_view(res),
                    cur as int,
                    states_view(old(frontier)@),
                ),
                states_view(final(frontier)@),
                cur,
                1 + weight(chain_view(**to_test)) + weight(link_view(*next)),
            ),
        decreases room(self.input@, cur as int), 1 + weight(chain_view(**to_test)) + weight(link_view(*next)), 0nat,
    {
        let once = self.exec(res, Some(share(to_test)), cur, frontier)?;
        let (found, end) = match once {
            None => {
                return Ok(Step::Finished(None));
            },
            Some(done) => done,
        };
        if !greedy {
            let tried = self.exec(Some(found.clone()), share_link(next), end, frontier)?;
            if let Some(done) = tried {
                return Ok(Step::Finished(Some(done)));
            }
        }
        if end > cur {
            let star = Arc::new(
                Node { val: NodeVal::ZeroOrMore { node: share(to_test), greedy }, next: share_link(next) },
            );
            proof {
                let p = Pat::ZeroOrMore { body: body_view(to_test), greedy };
                lemma_link_first(star);
                assert(link_view(Some(star)) =~= seq![p] + link_view(*next));
                lemma_weight_concat(seq![p], link_view(*next));
                lemma_weight_one(p);
                lemma_weight_first(seq![p]);
            }
            Ok(Step::Continue { res: Some(found), node: Some(star), cur: end })
        } else if greedy {
            Ok(Step::Continue { res: Some(found), node: share_link(next), cur: end })
        } else {
            Ok(Step::Finished(None))
        }
    }

    /// Matches the repeated body as often as a range asks, and decides how the
    /// walk goes on.
    #[verifier::loop_isolation(false)]
    pub fn match_times(
        &self,
        res: Option<ExecResult>,
        next: &Option<Arc<Node>>,
        cur: usize,
        to_test: &Arc<Node>,
        min: u32,
        max: Option<u32>,
        frontier: &mut Vec<ExecutorState>,
    ) -> (r: Result<Step, ExecError>)
        requires
            self.wf(),
            cur <= self.n,
            frontier_ok(old(frontier)@, self.n),
        ensures
            frontier_ok(final(frontier)@, self.n),
            step_agrees(
                self.input@,
                r,
                times(
                    self.input@,
                    chain_view(**to_test),
                    min as nat,
                    more_of(min, max),
                    link_view(*next),
                    partial_view(res),
                    cur as int,
                    states_view(old(frontier)@),
                ),
                states_view(final(frontier)@),
                cur,
                1 + weight(chain_view(**to_test)) + weight(link_view(*next)),
            ),
        decreases room(self.input@, cur as int), 1 + weight(chain_view(**to_test)) + weight(link_view(*next)), (if min
            == 0 {
            3nat
        } else {
            2nat
        }),
    {
        let ghost body = body_view(to_test);
        let ghost rest = link_view(*next);
        let ghost goal = times(
            self.input@,
            body,
            min as nat,
            more_of(min, max),
            rest,
            partial_view(res),
            cur as int,
            states_view(frontier@),
        );
        let start = cur;
        let mut res = res;
        let mut cur = cur;
        let mut todo: u32 = min;
        let mut more: Option<u32> = match max {
            None => None,
            Some(hi) => Some(if hi > min { hi - min } else { 0 }),
        };
        loop
            invariant
                self.wf(),
                start <= cur <= self.n,
                frontier_ok(frontier@, self.n),
                goal == times(
                    self.input@,
                    body,
                    todo as nat,
                    match more {
                        Some(k) => Some(k as nat),
                        None => None,
                    },
                    rest,
                    partial_view(res),
                    cur as int,
                    states_view(frontier@),
                ),
            decreases room(self.input@, cur as int), (if todo == 0 { 1nat } else { 0nat }),
        {
            if todo == 0 {
                match more {
                    None => {
                        let r = self.match_zero_or_more(res, next, cur, to_test, false, frontier);
                        return r;
                    },
                    Some(k) => {
                        if k == 0 {
                            return Ok(Step::Continue { res, node: share_link(next), cur });
                        }
                        let skip = ExecutorState { res: clone_res(&res), node: share_link(next), cur };
                        proof {
                            lemma_states_pushed(frontier@, skip);
                        }
                        frontier.push(skip);
                        todo = 1;
                        more = Some(k - 1);
                    },
                }
            } else {
                let once = self.exec(clone_res(&res), Some(share(to_test)), cur, frontier)?;
                match once {
                    None => {
                        return Ok(Step::Finished(None));
                    },
                    Some((found, end)) => {
                        if end == cur {
                            return Ok(Step::Continue { res: Some(found), node: share_link(next), cur: end });
                        }
                        res = Some(found);
                        cur = end;
                        todo = todo - 1;
                    },
                }
            }
        }
    }

    /// Walks the program behind `node` from the cursor `cur`, with the match
    /// so far in `res`. States for the roads not taken are left on `frontier`.
    /// The walk gives the match so far and the cursor at the program's end, or
    /// nothing where the program does not match here.
    #[verifier::loop_isolation(false)]
    pub fn exec(
        &self,
        res: Option<ExecResult>,
        node: Option<Arc<Node>>,
        cur: usize,
        frontier: &mut Vec<ExecutorState>,
    ) -> (r: Result<Option<(ExecResult, usize)>, ExecError>)
        requires
            self.wf(),
            cur <= self.n,
            frontier_ok(old(frontier)@, self.n),
        ensures
            frontier_ok(final(frontier)@, self.n),
            agrees(
                r,
                walk(self.input@, link_view(node), partial_view(res), cur as int, states_view(old(frontier)@)),
                states_view(final(frontier)@),
            ),
            r matches Ok(Some((p, c))) ==> cur <= c <= self.n,
        decreases room(self.input@, cur as int), weight(link_view(node)), 3nat,
    {
        let ghost input = self.input@;
        let ghost goal = walk(input, link_view(node), partial_view(res), cur as int, states_view(frontier@));
        let ghost heavy = weight(link_view(node));
        let start = cur;
        let mut res = res;
        let mut node = node;
        let mut cur = cur;
        loop
            invariant
                self.wf(),
                start <= cur <= self.n,
                frontier_ok(frontier@, self.n),
                cur == start ==> weight(link_view(node)) <= heavy,
                goal == walk(input, link_view(node), partial_view(res), cur as int, states_view(frontier@)),
            decreases room(input, cur as int), weight(link_view(node)),
        {
            let current = match node {
                None => {
                    return match res {
                        None => Ok(None),
                        Some(found) => Ok(Some((found, cur))),
                    };
                },
                Some(n) => n,
            };
            match self.step(res, &current, cur, frontier)? {
                Step::Finished(found) => {
                    return Ok(found);
                },
                Step::Continue { res: r, node: n, cur: c } => {
                    res = r;
                    node = n;
                    cur = c;
                },
            }
        }
    }

    /// Handles the first construct of the program behind `current`: the walk
    /// ends there, or it goes on from a new state.
    pub fn step(
        &self,
        res: Option<ExecResult>,
        current: &Arc<Node>,
        cur: usize,
        frontier: &mut Vec<ExecutorState>,
    ) -> (r: Result<Step, ExecError>)
        requires
            self.wf(),
            cur <= self.n,
            frontier_ok(old(frontier)@, self.n),
        ensures
            frontier_ok(final(frontier)@, self.n),
            step_agrees(
                self.input@,
                r,
                walk(self.input@, body_view(current), partial_view(res), cur as int, states_view(old(frontier)@)),
                states_view(final(frontier)@),
                cur,
                weight(body_view(current)),
            ),
        decreases room(self.input@, cur as int), weight(body_view(current)), 2nat,
    {
        let ghost input = self.input@;
        let ghost prog = body_view(current);
        let ghost rest = next_view(current);
        proof {
            lemma_link_first(*current);
            lemma_weight_first(prog);
        }
        match &current.val {
            NodeVal::Poisoned => {
                return Err(ExecError::PoisonedNode);
            },
            NodeVal::Any => {
                if cur == self.n {
                    return Ok(Step::Finished(None));
                }
                Ok(Step::Continue { res: Some(or_new(res, self.offsets[cur])), node: share_link(&current.next), cur: cur + 1 })
            },
            NodeVal::Start => {
                if cur != 0 {
                    return Ok(Step::Finished(None));
                }
                Ok(Step::Continue { res: Some(or_new(res, self.offsets[cur])), node: share_link(&current.next), cur })
            },
            NodeVal::End => {
                if cur != self.n {
                    return Ok(Step::Finished(None));
                }
                Ok(Step::Continue { res: Some(or_new(res, self.offsets[cur])), node: share_link(&current.next), cur })
            },
            NodeVal::Word(word) => {
                if cur >= self.n {
                    return Ok(Step::Finished(None));
                }
                let letters = chars_of(word.as_str());
                match self.find_word(&letters, cur, res.is_none()) {
                    None => Ok(Step::Finished(None)),
                    Some(at) => {
                        Ok(Step::Continue { res: Some(or_new(res, self.offsets[at])), node: share_link(&current.next), cur: at + letters.len() })
                    },
                }
            },
            NodeVal::Optional(to_test) => {
                let skip = ExecutorState { res: clone_res(&res), node: share_link(&current.next), cur };
                proof {
                    lemma_states_pushed(frontier@, skip);
                    lemma_weight_concat(body_view(to_test), rest);
                }
                frontier.push(skip);
                Ok(Step::Continue { res, node: Some(to_test.with_tail_option(share_link(&current.next))), cur })
            },
            NodeVal::ZeroOrMore { node: to_test, greedy } => {
                self.match_zero_or_more(res, &current.next, cur, to_test, *greedy, frontier)
            },
            NodeVal::OneOrMore { node: to_test, greedy } => {
                self.match_one_or_more(res, &current.next, cur, to_test, *greedy, frontier)
            },
            NodeVal::RepetitionRange { node: to_test, min, max } => {
                self.match_times(res, &current.next, cur, to_test, *min, *max, frontier)
            },
            NodeVal::Group { group, cfg } => {
                let end = Arc::new(
                    Node {
                        val: NodeVal::GroupEnd { start: self.offsets[cur], cfg: clone_cfg(cfg) },
                        next: share_link(&current.next),
                    },
                );
                proof {
                    assert(self.offsets@[cur as int] == byte_offset(input, cur as int));
                    let p = Pat::GroupEnd { start: off(input, cur as int), kind: kind_view(*cfg) };
                    lemma_link_first(end);
                    assert(val_view(end.val) == p);
                    assert(link_view(Some(end)) =~= seq![p] + rest);
                    lemma_weight_concat(body_view(group), seq![p] + rest);
                    lemma_weight_concat(seq![p], rest);
                    lemma_weight_one(p);
                    lemma_weight_first(seq![p]);
                }
                Ok(Step::Continue { res, node: Some(group.with_tail(end)), cur })
            },
            NodeVal::GroupEnd { start, cfg } => {
                let res = match res {
                    Some(found) => {
                        let mut found = found;
                        if let Some(name) = name_of(cfg) {
                            if cur >= 1 {
                                proof {
                                    lemma_offset_monotonic(input, 0, cur as int);
                                }
                                map_insert(&mut found.groups, name, (*start, self.offsets[cur] - 1));
                            }
                        }
                        Some(found)
                    },
                    None => None,
                };
                Ok(Step::Continue { res, node: share_link(&current.next), cur })
            },
            NodeVal::CharSet { set, inverted } => {
                if cur >= self.n {
                    return Ok(Step::Finished(None));
                }
                let found = set_contains(set, self.input[cur]);
                if found == *inverted {
                    return Ok(Step::Finished(None));
                }
                Ok(Step::Continue { res: Some(or_new(res, self.offsets[cur])), node: share_link(&current.next), cur: cur + 1 })
            },
            NodeVal::Or { left, right } => {
                let other = ExecutorState {
                    res: clone_res(&res),
                    node: Some(right.with_tail_option(share_link(&current.next))),
                    cur,
                };
                proof {
                    lemma_states_pushed(frontier@, other);
                    lemma_weight_concat(body_view(left), rest);
                }
                frontier.push(other);
                Ok(Step::Continue { res, node: Some(left.with_tail_option(share_link(&current.next))), cur })
            },
        }
    }
}

/// The best match so far, if there is one.
pub open spec fn best_view(best: Option<ExecResult>) -> Option<Match> {
    match best {
        Some(m) => Some(m@),
        None => None,
    }
}

impl ExecutorImpl {
    /// The better of the best match so far and what a walk gave: the walk's
    /// match only where its end is greater.
    pub fn keep_better(&self, best: Option<ExecResult>, found: Option<(ExecResult, usize)>) -> (r: Option<ExecResult>)
        requires
            self.wf(),
            found matches Some((p, c)) ==> c <= self.n,
        ensures
            best_view(r) == better(best_view(best), candidate(self.input@, outcome_view(found))),
    {
        match found {
            None => best,
            Some((partial, cur)) => {
                if cur == 0 {
                    return best;
                }
                proof {
                    lemma_offset_monotonic(self.input@, 0, cur as int);
                }
                let end = self.offsets[cur] - 1;
                let done = ExecResult { start: partial.start, end, groups: partial.groups };
                match best {
                    None => Some(done),
                    Some(b) => if done.end > b.end {
                        Some(done)
                    } else {
                        Some(b)
                    },
                }
            },
        }
    }
}

/// The executor of programs.
pub struct Executor {}

impl Default for Executor {
    fn default() -> (e: Self) {
        Executor {  }
    }
}

impl Executor {
    pub fn new() -> (e: Self) {
        Executor {  }
    }

    /// Runs a program on an input: the first candidate with the greatest end
    /// among all that the search finds, nothing where it finds none, and an
    /// error where it runs into a poisoned node.
    #[verifier::loop_isolation(false)]
    pub fn exec(&mut self, parsed: &ParseResult, input: &str) -> (r: Result<Option<ExecResult>, ExecError>)
        ensures
            match exec_result(parsed@, input@) {
                Err(_) => r matches Err(e) && e is PoisonedNode,
                Ok(None) => r matches Ok(None),
                Ok(Some(m)) => r matches Ok(Some(found)) && found@ == m,
            },
            plain(parsed@) ==> (r matches Ok(Some(found)) ==> good_match(input@, found@)),
    {
        proof {
            if plain(parsed@) && fits(input@) {
                lemma_result_good(parsed@, input@);
            }
        }
        let chars = chars_of(input);
        let offsets = offsets_of(input, &chars);
        let n = chars.len();
        assert(fits(input@)) by {
            assert(offsets@[n as int] == byte_offset(input@, n as int));
        }
        let executor = ExecutorImpl { input: chars, offsets, n };
        let mut frontier: Vec<ExecutorState> = Vec::new();
        let first = ExecutorState { res: None, node: share_link(&parsed.head), cur: 0 };
        frontier.push(first);
        let mut best: Option<ExecResult> = None;
        proof {
            assert(states_view(frontier@) =~= seq![seed(parsed@)]);
            reveal_with_fuel(search, 2);
            assert(seq![seed(parsed@)].drop_last() =~= Seq::<State>::empty());
            assert(seq![seed(parsed@)].last() == seed(parsed@));
            assert(search(input@, seq![seed(parsed@)], None).best == explore(input@, seed(parsed@), None).best);
        }
        while frontier.len() > 0
            invariant
                executor.wf(),
                executor.input@ == input@,
                frontier_ok(frontier@, n),
                search(input@, states_view(frontier@), best_view(best)).best == explore(
                    input@,
                    seed(parsed@),
                    None,
                ).best,
            decreases search(input@, states_view(frontier@), best_view(best)).walks,
        {
            let ghost stack = states_view(frontier@);
            let ghost before = best_view(best);
            let ghost states = frontier@;
            let st = frontier.pop().unwrap();
            assert(st == states[states.len() - 1]);
            let mut pushed: Vec<ExecutorState> = Vec::new();
            proof {
                assert(states_view(pushed@) =~= Seq::<State>::empty());
                assert(stack.last() == st@);
                lemma_search_turn(input@, stack, before);
            }
            let found = executor.exec(st.res, st.node, st.cur, &mut pushed)?;
            best = executor.keep_better(best, found);
            proof {
                assert(states_view(frontier@ + pushed@) =~= stack.drop_last() + states_view(pushed@));
            }
            frontier.append(&mut pushed);
        }
        assert(states_view(frontier@) =~= Seq::<State>::empty());
        Ok(best)
    }
}

} // verus!
