//! Substitution templates: literal text mixed with `$N` references to the
//! groups of a match.

use crate::executor::ExecResult;
use crate::executor::laws::good_match;
use crate::executor::semantics::Match;
use crate::executor::sound::boundary;
use crate::executor::laws::lemma_result_good;
use crate::executor::semantics::exec_result;
use crate::executor::sound::fits;
use crate::executor::sound::lemma_key_index_range;
use crate::ordered::key_index;
use crate::ordered::lookup;
use crate::parser::model::plain;
use crate::parser::model::Pat;
use crate::ordered::map_entries;
use crate::ordered::map_get;
use crate::ordered::Capture;
use crate::parser::grammar::is_digit;
use crate::text::byte_offset;
use crate::text::chars_of;
use crate::text::lemma_offset_monotonic;
use crate::text::offsets_of;
use vstd::prelude::*;
use vstd::string::StrSliceExecFns;
use vstd::string::StringExecFns;
use vstd::std_specs::convert::FromSpecImpl;

verus! {

/// One part of a template, as contracts see it.
pub enum Part {
    /// Literal text.
    Text(Seq<char>),
    /// A reference to the group with this name.
    Group(Seq<char>),
}

#[derive(Debug)]
pub enum ReplaceSpecNodeValue {
    String(String),
    GroupNum(String),
}

impl View for ReplaceSpecNodeValue {
    type V = Part;

    open spec fn view(&self) -> Part {
        match self {
            ReplaceSpecNodeValue::String(text) => Part::Text(text@),
            ReplaceSpecNodeValue::GroupNum(name) => Part::Group(name@),
        }
    }
}

/// A parsed template.
#[derive(Debug)]
pub struct ReplaceSpec {
    pub parts: Vec<ReplaceSpecNodeValue>,
}

pub open spec fn parts_view(parts: Seq<ReplaceSpecNodeValue>) -> Seq<Part> {
    Seq::new(parts.len(), |i: int| parts[i]@)
}

impl View for ReplaceSpec {
    type V = Seq<Part>;

    open spec fn view(&self) -> Seq<Part> {
        parts_view(self.parts@)
    }
}

/// The index behind the run of digits that begins at `i`.
pub open spec fn digits_end(s: Seq<char>, i: int) -> int
    decreases s.len() - i,
{
    if 0 <= i < s.len() && is_digit(s[i]) {
        digits_end(s, i + 1)
    } else {
        i
    }
}

/// The parts with the literal text gathered in `word` behind them, if any was
/// gathered.
pub open spec fn flushed(parts: Seq<Part>, word: Option<Seq<char>>) -> Seq<Part> {
    match word {
        Some(w) => parts.push(Part::Text(w)),
        None => parts,
    }
}

/// The literal text gathered so far with one more character.
pub open spec fn gathered(word: Option<Seq<char>>, c: char) -> Option<Seq<char>> {
    match word {
        Some(w) => Some(w.push(c)),
        None => Some(seq![c]),
    }
}

/// The parts of a template from `i` on, after the parts `parts` and the
/// literal text `word`. A `$` ends the literal text and begins a reference,
/// whose name is the run of digits behind the `$`.
pub open spec fn template_from(s: Seq<char>, i: int, parts: Seq<Part>, word: Option<Seq<char>>) -> Seq<Part>
    decreases s.len() - i,
{
    if !(0 <= i < s.len()) {
        flushed(parts, word)
    } else if s[i] != '$' {
        template_from(s, i + 1, parts, gathered(word, s[i]))
    } else {
        let j = digits_end(s, i + 1);
        if i < j <= s.len() {
            template_from(s, j, flushed(parts, word).push(Part::Group(s.subrange(i + 1, j))), None)
        } else {
            flushed(parts, word)
        }
    }
}

/// The parts that a template's text denotes.
pub open spec fn template(s: Seq<char>) -> Seq<Part> {
    template_from(s, 0, Seq::empty(), None)
}

/// The index of the character that begins at the byte offset `b`, looked for
/// from `i` on; the length of the input counts as the index of its end.
pub open spec fn index_at(input: Seq<char>, b: int, i: int) -> Option<int>
    decreases input.len() + 1 - i,
{
    if i < 0 || i > input.len() {
        None
    } else if byte_offset(input, i) == b {
        Some(i)
    } else {
        index_at(input, b, i + 1)
    }
}

/// The text of the input from the byte `start` to the byte `end`, both
/// counted in: it is there where a character begins at `start` and one ends
/// at `end`.
pub open spec fn span_text(input: Seq<char>, start: usize, end: usize) -> Option<Seq<char>> {
    match (index_at(input, start as int, 0), index_at(input, end + 1, 0)) {
        (Some(i), Some(j)) => if i <= j {
            Some(input.subrange(i, j))
        } else {
            None
        },
        _ => None,
    }
}

/// What one part emits: literal text as it is; for a reference the text that
/// its group matched, or `$` and the name where no group of that name has a
/// text in the input.
pub open spec fn part_text(part: Part, input: Seq<char>, groups: Seq<Capture>) -> Seq<char> {
    match part {
        Part::Text(text) => text,
        Part::Group(name) => match lookup(groups, name) {
            Some((start, end)) => match span_text(input, start, end) {
                Some(text) => text,
                None => seq!['$'] + name,
            },
            None => seq!['$'] + name,
        },
    }
}

/// What the first `count` parts emit, one text behind the other.
pub open spec fn rendered(parts: Seq<Part>, count: int, input: Seq<char>, groups: Seq<Capture>) -> Seq<char>
    decreases count,
{
    if count <= 0 {
        Seq::empty()
    } else {
        rendered(parts, count - 1, input, groups) + part_text(parts[count - 1], input, groups)
    }
}

/// The index of the character that begins at the byte offset `b`.
pub fn find_index(input: &Vec<char>, offsets: &Vec<usize>, b: usize) -> (r: Option<usize>)
    requires
        offsets@.len() == input@.len() + 1,
        forall|i: int| 0 <= i <= input@.len() ==> offsets@[i] == #[trigger] byte_offset(input@, i),
    ensures
        match index_at(input@, b as int, 0) {
            Some(i) => r == Some(i as usize) && 0 <= i <= input@.len(),
            None => r is None,
        },
{
    let mut i: usize = 0;
    while i < offsets.len()
        invariant
            offsets@.len() == input@.len() + 1,
            forall|k: int| 0 <= k <= input@.len() ==> offsets@[k] == #[trigger] byte_offset(input@, k),
            i <= offsets@.len(),
            index_at(input@, b as int, 0) == index_at(input@, b as int, i as int),
        decreases offsets@.len() - i,
    {
        assert(offsets@[i as int] == byte_offset(input@, i as int));
        if offsets[i] == b {
            return Some(i);
        }
        i += 1;
    }
    None
}

impl<'a> From<&'a str> for ReplaceSpec {
    /// The template that the text denotes.
    fn from(str: &'a str) -> (spec: Self)
        ensures
            spec@ == template(str@),
    {
        ReplaceSpec::parse_str(str)
    }
}

impl<'a> FromSpecImpl<&'a str> for ReplaceSpec {
    open spec fn obeys_from_spec() -> bool {
        false
    }

    open spec fn from_spec(str: &'a str) -> Self {
        arbitrary()
    }
}

/// The literal text gathered so far, if any.
pub open spec fn word_view(word: Option<String>) -> Option<Seq<char>> {
    match word {
        Some(w) => Some(w@),
        None => None,
    }
}

pub proof fn lemma_parts_pushed(parts: Seq<ReplaceSpecNodeValue>, part: ReplaceSpecNodeValue)
    ensures
        parts_view(parts.push(part)) == parts_view(parts).push(part@),
{
    assert(parts_view(parts.push(part)) =~= parts_view(parts).push(part@));
}

impl ReplaceSpec {
    /// Parses a template: literal text and `$N` references, in the order in
    /// which they stand.
    #[verifier::loop_isolation(false)]
    pub fn parse_str(str: &str) -> (spec: Self)
        ensures
            spec@ == template(str@),
    {
        let chars = chars_of(str);
        let ghost s = str@;
        let mut parts: Vec<ReplaceSpecNodeValue> = Vec::new();
        let mut curr_word: Option<String> = None;
        let mut i: usize = 0;
        assert(parts_view(parts@) =~= Seq::<Part>::empty());
        while i < chars.len()
            invariant
                i <= chars.len(),
                template(s) == template_from(s, i as int, parts_view(parts@), word_view(curr_word)),
            decreases chars.len() - i,
        {
            let ch = chars[i];
            if ch != '$' {
                curr_word = match curr_word {
                    None => {
                        let mut w = String::new();
                        w.push(ch);
                        assert(w@ =~= seq![ch]);
                        Some(w)
                    },
                    Some(w) => {
                        let mut w = w;
                        w.push(ch);
                        Some(w)
                    },
                };
                i += 1;
            } else {
                if let Some(word) = curr_word {
                    proof {
                        lemma_parts_pushed(parts@, ReplaceSpecNodeValue::String(word));
                    }
                    parts.push(ReplaceSpecNodeValue::String(word));
                }
                curr_word = None;
                let ghost dollar = i as int;
                i += 1;
                let mut group_num = String::new();
                assert(group_num@ =~= s.subrange(dollar + 1, i as int));
                while i < chars.len() && '0' <= chars[i] && chars[i] <= '9'
                    invariant
                        dollar < i <= chars.len(),
                        group_num@ == s.subrange(dollar + 1, i as int),
                        digits_end(s, dollar + 1) == digits_end(s, i as int),
                    decreases chars.len() - i,
                {
                    group_num.push(chars[i]);
                    assert(s.subrange(dollar + 1, i as int).push(s[i as int]) =~= s.subrange(dollar + 1, i + 1));
                    i += 1;
                }
                proof {
                    lemma_parts_pushed(parts@, ReplaceSpecNodeValue::GroupNum(group_num));
                }
                parts.push(ReplaceSpecNodeValue::GroupNum(group_num));
            }
        }
        if let Some(word) = curr_word {
            proof {
                lemma_parts_pushed(parts@, ReplaceSpecNodeValue::String(word));
            }
            parts.push(ReplaceSpecNodeValue::String(word));
        }
        ReplaceSpec { parts }
    }

    /// Renders the template against a match in `input`: nothing for a template
    /// without parts; else the text that the parts emit.
    #[verifier::loop_isolation(false)]
    pub fn perform_replace(&self, input: &str, res: &ExecResult) -> (out: Option<String>)
        ensures
            self@.len() == 0 ==> out is None,
            self@.len() > 0 ==> out is Some && out.unwrap()@ == rendered(
                self@,
                self@.len() as int,
                input@,
                map_entries(res.groups),
            ),
    {
        if self.parts.len() == 0 {
            return None;
        }
        let chars = chars_of(input);
        let offsets = offsets_of(input, &chars);
        let ghost groups = map_entries(res.groups);
        let mut replaced = String::new();
        let mut k: usize = 0;
        while k < self.parts.len()
            invariant
                k <= self.parts@.len(),
                replaced@ == rendered(self@, k as int, input@, groups),
            decreases self.parts@.len() - k,
        {
            let ghost part = self@[k as int];
            assert(part == self.parts@[k as int]@);
            match &self.parts[k] {
                ReplaceSpecNodeValue::String(text) => {
                    replaced.append(text.as_str());
                },
                ReplaceSpecNodeValue::GroupNum(group_name) => {
                    let mut span: Option<(usize, usize)> = None;
                    if let Some((start, end)) = map_get(&res.groups, group_name.as_str()) {
                        if end < usize::MAX {
                            if let Some(from) = find_index(&chars, &offsets, start) {
                                if let Some(to) = find_index(&chars, &offsets, end + 1) {
                                    if from <= to {
                                        span = Some((from, to));
                                    }
                                }
                            }
                        } else {
                            proof {
                                lemma_no_index(input@, end + 1, 0);
                            }
                        }
                    }
                    match span {
                        Some((from, to)) => {
                            replaced.append(input.substring_char(from, to));
                        },
                        None => {
                            proof {
                                reveal_strlit("$");
                                assert("$"@ =~= seq!['$']);
                            }
                            replaced.append("$");
                            replaced.append(group_name.as_str());
                            assert(replaced@ =~= rendered(self@, k as int, input@, groups) + (seq!['$']
                                + group_name@));
                        },
                    }
                },
            }
            k += 1;
        }
        Some(replaced)
    }
}

/// No character begins at an offset that is no `usize`.
pub proof fn lemma_no_index(input: Seq<char>, b: int, i: int)
    requires
        b > usize::MAX,
        byte_offset(input, input.len() as int) <= usize::MAX,
        0 <= i,
    ensures
        index_at(input, b, i) is None,
    decreases input.len() + 1 - i,
{
    if i <= input.len() {
        lemma_offset_monotonic(input, i, input.len() as int);
        lemma_no_index(input, b, i + 1);
    }
}

/// The run of digits that begins at `i` ends where the text ends, if digits
/// alone follow.
pub proof fn lemma_digits_to_end(s: Seq<char>, i: int)
    requires
        0 <= i <= s.len(),
        forall|k: int| i <= k < s.len() ==> is_digit(#[trigger] s[k]),
    ensures
        digits_end(s, i) == s.len(),
    decreases s.len() - i,
{
    if i < s.len() {
        lemma_digits_to_end(s, i + 1);
    }
}

/// The character that begins at a byte offset is found by looking for it.
pub proof fn lemma_index_found(input: Seq<char>, at: int, from: int)
    requires
        0 <= from <= at <= input.len(),
    ensures
        index_at(input, byte_offset(input, at), from) == Some(at),
    decreases at - from,
{
    if from < at {
        lemma_offset_monotonic(input, from, at);
        lemma_index_found(input, at, from + 1);
    }
}

/// A span between two boundaries has a text: where a character begins at the
/// byte `start` and one ends at the byte `end`, and the first does not stand
/// behind the second, the characters between them are the span's text.
pub proof fn lemma_span_has_text(input: Seq<char>, start: usize, end: usize)
    requires
        boundary(input, start as int),
        boundary(input, end + 1),
        start <= end + 1,
    ensures
        span_text(input, start, end) is Some,
{
    let i = choose|i: int| 0 <= i <= input.len() && #[trigger] byte_offset(input, i) == start;
    let j = choose|j: int| 0 <= j <= input.len() && #[trigger] byte_offset(input, j) == end + 1;
    lemma_index_found(input, i, 0);
    lemma_index_found(input, j, 0);
    if j < i {
        lemma_offset_monotonic(input, j, i);
    }
}

/// Every capture of a good match has a text in the input.
pub proof fn lemma_captures_have_text(input: Seq<char>, m: Match, k: int)
    requires
        good_match(input, m),
        0 <= k < m.groups.len(),
    ensures
        span_text(input, m.groups[k].1.0, m.groups[k].1.1) is Some,
{
    lemma_span_has_text(input, m.groups[k].1.0, m.groups[k].1.1);
}

/// Template round trip: the template `$N` is one reference to the group `N`,
/// and against a match that holds that group it emits exactly the text of the
/// input from the group's first byte to its last.
pub proof fn lemma_template_round_trip(name: Seq<char>, input: Seq<char>, groups: Seq<Capture>)
    requires
        forall|k: int| 0 <= k < name.len() ==> is_digit(#[trigger] name[k]),
        lookup(groups, name) is Some,
        span_text(input, lookup(groups, name).unwrap().0, lookup(groups, name).unwrap().1) is Some,
    ensures
        template(seq!['$'] + name) == seq![Part::Group(name)],
        rendered(seq![Part::Group(name)], 1, input, groups) == span_text(
            input,
            lookup(groups, name).unwrap().0,
            lookup(groups, name).unwrap().1,
        ).unwrap(),
{
    let s = seq!['$'] + name;
    assert forall|k: int| 1 <= k < s.len() implies is_digit(#[trigger] s[k]) by {
        assert(s[k] == name[k - 1]);
    }
    lemma_digits_to_end(s, 1);
    assert(s.subrange(1, s.len() as int) =~= name);
    let parts = Seq::<Part>::empty().push(Part::Group(name));
    assert(parts =~= seq![Part::Group(name)]);
    assert(template_from(s, s.len() as int, parts, None) == parts);
    assert(template_from(s, 0, Seq::empty(), None) == template_from(s, s.len() as int, parts, None));
    let text = span_text(input, lookup(groups, name).unwrap().0, lookup(groups, name).unwrap().1).unwrap();
    assert(rendered(seq![Part::Group(name)], 0, input, groups) =~= Seq::<char>::empty());
    assert(rendered(seq![Part::Group(name)], 1, input, groups) =~= Seq::<char>::empty() + text);
    assert(Seq::<char>::empty() + text =~= text);
}

/// Template round trip for the executor's matches: against the result for a
/// plain program, the template `$N` emits exactly the text of the input from
/// the first to the last byte of the group `N`, if the result holds that group.
pub proof fn lemma_round_trip_of_result(prog: Seq<Pat>, input: Seq<char>, name: Seq<char>)
    requires
        fits(input),
        plain(prog),
        forall|k: int| 0 <= k < name.len() ==> is_digit(#[trigger] name[k]),
        exec_result(prog, input) matches Ok(Some(m)) && lookup(m.groups, name) is Some,
    ensures
        ({
            let m = exec_result(prog, input).unwrap().unwrap();
            let span = lookup(m.groups, name).unwrap();
            &&& span_text(input, span.0, span.1) is Some
            &&& rendered(template(seq!['$'] + name), 1, input, m.groups) == span_text(input, span.0, span.1).unwrap()
        }),
{
    let m = exec_result(prog, input).unwrap().unwrap();
    lemma_result_good(prog, input);
    lemma_key_index_range(m.groups, name);
    lemma_captures_have_text(input, m, key_index(m.groups, name).unwrap());
    lemma_template_round_trip(name, input, m.groups);
}

} // verus!
