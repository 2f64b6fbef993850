//! The reader: it walks over the characters of a pattern and builds the parsed
//! tree that the grammar gives.

use super::grammar::bounds;
use super::grammar::bump;
use super::grammar::class_at;
use super::grammar::class_from;
use super::grammar::decorated;
use super::grammar::counted;
use super::grammar::cut_off;
use super::grammar::kind_of;
use super::model::digit_char;
use super::grammar::escaped_at;
use super::grammar::greediness_at;
use super::grammar::group_at;
use super::grammar::is_digit;
use super::grammar::is_special;
use super::grammar::left;
use super::grammar::name_from;
use super::grammar::parse_from;
use super::grammar::peek_at;
use super::grammar::prefix_at;
use super::grammar::range_from;
use super::grammar::range_max_from;
use super::grammar::with_digit;
use super::grammar::word_from;
use super::grammar::Modifier;
use super::model::Pat;
use super::node::kind_view;
use super::node::GroupConfig;
use super::parse_node::link_nodes;
use super::parse_node::parsed_link_view;
use super::parse_node::vals_view;
use super::parse_node::ParseNode;
use super::parse_node::ParseNodeVal;
use super::ParseError;
use crate::ordered::set_insert;
use crate::ordered::set_items;
use crate::ordered::set_new;
use crate::text::split_last_char;
use vstd::prelude::*;
use vstd::string::StrSliceExecFns;

verus! {

/// The characters of a pattern and the index up to which they have been read.
pub struct ParserImpl {
    pub chars: Vec<char>,
    pub index: usize,
    /// How many capturing groups have been opened.
    pub groups: usize,
}

/// The decimal digit for `d`.
pub fn digit_of(d: u32) -> (c: char)
    requires
        d < 10,
    ensures
        c == digit_char(d as nat),
{
    if d == 0 {
        '0'
    } else if d == 1 {
        '1'
    } else if d == 2 {
        '2'
    } else if d == 3 {
        '3'
    } else if d == 4 {
        '4'
    } else if d == 5 {
        '5'
    } else if d == 6 {
        '6'
    } else if d == 7 {
        '7'
    } else if d == 8 {
        '8'
    } else {
        '9'
    }
}

/// The number with one more digit behind it, unless it outgrows `u32`.
pub fn push_digit(n: Option<u32>, c: char) -> (r: Option<u32>)
    requires
        is_digit(c),
    ensures
        r == with_digit(n, c),
{
    let base: u64 = match n {
        Some(v) => v as u64,
        None => 0,
    };
    let d: u64 = (c as u32 - '0' as u32) as u64;
    let v: u64 = base * 10 + d;
    if v <= u32::MAX as u64 {
        Some(v as u32)
    } else {
        None
    }
}

/// The bounds of a repetition whose text has been read.
pub fn check_bounds(min: Option<u32>, max: Option<u32>) -> (r: Result<(u32, Option<u32>), ParseError>)
    ensures
        forall|j: int|
            match #[trigger] bounds(min, max, j) {
                Ok((b, k)) => r == Ok::<(u32, Option<u32>), ParseError>(b) && k == j,
                Err((e, k)) => r == Err::<(u32, Option<u32>), ParseError>(e) && k == j,
            },
{
    match min {
        None => Err(ParseError::MissingRepetitionRangeMin),
        Some(lo) => match max {
            Some(hi) => if hi < lo {
                Err(ParseError::UnexpectedRepetitionRangeCh(digit_of(hi % 10)))
            } else {
                Ok((lo, max))
            },
            None => Ok((lo, None)),
        },
    }
}

/// The error for a repetition whose text breaks off at the end of the
/// pattern.
pub fn cut_short(min: Option<u32>) -> (r: Result<(u32, Option<u32>), ParseError>)
    ensures
        forall|j: int|
            match #[trigger] cut_off(min, j) {
                Ok((b, k)) => r == Ok::<(u32, Option<u32>), ParseError>(b) && k == j,
                Err((e, k)) => r == Err::<(u32, Option<u32>), ParseError>(e) && k == j,
            },
{
    match min {
        None => Err(ParseError::MissingRepetitionRangeMin),
        Some(_) => Err(ParseError::UnexpectedEndOfInput),
    }
}

/// `val` as a chain of its own, with the quantifier applied to it.
pub fn apply_modifier(m: Modifier, val: ParseNodeVal) -> (r: ParseNodeVal)
    ensures
        r@ == m.over(seq![val@]),
{
    let node = Box::new(ParseNode { val, next: None });
    assert(node@ =~= seq![val@]);
    match m {
        Modifier::ZeroOrMore { greedy } => ParseNodeVal::ZeroOrMore { node, greedy },
        Modifier::OneOrMore { greedy } => ParseNodeVal::OneOrMore { node, greedy },
        Modifier::Optional => ParseNodeVal::Optional(node),
        Modifier::RepetitionRange { min, max } => ParseNodeVal::RepetitionRange { min, max, node },
    }
}

impl ParserImpl {
    /// The index never lies more than one read behind the end, and that index
    /// is a `usize`. Every group that was opened took a character.
    pub open spec fn wf(&self) -> bool {
        &&& self.index <= self.chars@.len() + 1
        &&& self.chars@.len() + 1 <= usize::MAX
        &&& self.groups <= self.index
    }

    pub fn is_special_char(ch: &char) -> (b: bool)
        ensures
            b == is_special(*ch),
    {
        let c = *ch;
        c == '(' || c == ')' || c == '{' || c == '}' || c == '[' || c == ']' || c == '|' || c == '\\'
            || c == '^' || c == '$' || c == '.' || c == '*' || c == '?' || c == '+'
    }

    /// The next character, which stays unread.
    pub fn peek(&self) -> (c: Option<char>)
        ensures
            c == peek_at(self.chars@, self.index as int),
    {
        if self.index < self.chars.len() {
            Some(self.chars[self.index])
        } else {
            None
        }
    }

    /// Reads the next character.
    pub fn next(&mut self) -> (c: Option<char>)
        requires
            old(self).wf(),
        ensures
            final(self).wf(),
            final(self).chars == old(self).chars,
            final(self).groups == old(self).groups,
            c == peek_at(old(self).chars@, old(self).index as int),
            final(self).index == bump(old(self).chars@, old(self).index as int),
    {
        if self.index < self.chars.len() {
            let c = self.chars[self.index];
            self.index = self.index + 1;
            Some(c)
        } else {
            self.index = self.chars.len() + 1;
            None
        }
    }

    /// Reads the character behind a backslash.
    pub fn escape_next(&mut self) -> (r: Result<char, ParseError>)
        requires
            old(self).wf(),
        ensures
            final(self).wf(),
            final(self).chars == old(self).chars,
            final(self).groups == old(self).groups,
            match escaped_at(old(self).chars@, old(self).index as int) {
                Ok((c, j)) => r == Ok::<char, ParseError>(c) && final(self).index == j,
                Err((e, j)) => r == Err::<char, ParseError>(e) && final(self).index == j,
            },
    {
        match self.next() {
            None => Err(ParseError::MissingCharacterToEscape),
            Some(ch) => if Self::is_special_char(&ch) {
                Ok(ch)
            } else {
                Err(ParseError::UnexpectedCharErr(ch))
            },
        }
    }

    /// Reads one character, or the escaped character behind a backslash; the
    /// flag tells whether it was escaped.
    pub fn next_escaped(&mut self) -> (r: Result<(Option<char>, bool), ParseError>)
        requires
            old(self).wf(),
        ensures
            final(self).wf(),
            final(self).chars == old(self).chars,
            final(self).groups == old(self).groups,
            match peek_at(old(self).chars@, old(self).index as int) {
                None => r == Ok::<(Option<char>, bool), ParseError>((None, false)) && final(self).index == bump(
                    old(self).chars@,
                    old(self).index as int,
                ),
                Some(c) => if c == '\\' {
                    match escaped_at(old(self).chars@, old(self).index + 1) {
                        Ok((e, j)) => r == Ok::<(Option<char>, bool), ParseError>((Some(e), true))
                            && final(self).index == j,
                        Err((e, j)) => r == Err::<(Option<char>, bool), ParseError>(e) && final(self).index == j,
                    }
                } else {
                    r == Ok::<(Option<char>, bool), ParseError>((Some(c), false)) && final(self).index == old(
                        self,
                    ).index + 1
                },
            },
    {
        match self.next() {
            None => Ok((None, false)),
            Some(ch) => if ch == '\\' {
                let e = self.escape_next()?;
                Ok((Some(e), true))
            } else {
                Ok((Some(ch), false))
            },
        }
    }

    /// Reads the `?` that makes a quantifier lazy, if it is there; the result
    /// tells whether the quantifier is greedy.
    pub fn chomp_greediness(&mut self) -> (greedy: bool)
        requires
            old(self).wf(),
        ensures
            final(self).wf(),
            final(self).chars == old(self).chars,
            final(self).groups == old(self).groups,
            (greedy, final(self).index as int) == greediness_at(old(self).chars@, old(self).index as int),
    {
        if let Some(ch) = self.peek() {
            if ch == '?' {
                self.next();
                return false;
            }
        }
        true
    }

    /// Reads a run of literal characters.
    #[verifier::loop_isolation(false)]
    pub fn parse_word(&mut self) -> (r: Result<ParseNodeVal, ParseError>)
        requires
            old(self).wf(),
        ensures
            final(self).wf(),
            final(self).chars == old(self).chars,
            final(self).groups == old(self).groups,
            final(self).index >= old(self).index,
            match word_from(old(self).chars@, old(self).index as int, Seq::empty()) {
                Ok((w, j)) => r is Ok && r.unwrap()@ == Pat::Word(w) && final(self).index == j,
                Err((e, j)) => r == Err::<ParseNodeVal, ParseError>(e) && final(self).index == j,
            },
    {
        let mut word = String::new();
        let ghost s = self.chars@;
        let ghost start = self.index as int;
        loop
            invariant
                self.wf(),
                self.chars@ == s,
                self.chars == old(self).chars,
                self.groups == old(self).groups,
                self.index >= start,
                word_from(s, start, Seq::empty()) == word_from(s, self.index as int, word@),
            decreases left(s, self.index as int),
        {
            match self.peek() {
                None => {
                    return Ok(ParseNodeVal::Word(word));
                },
                Some(ch) => {
                    if Self::is_special_char(&ch) && ch != '\\' {
                        return Ok(ParseNodeVal::Word(word));
                    }
                    self.next();
                    let mut c = ch;
                    if ch == '\\' {
                        c = self.escape_next()?;
                    }
                    word.push(c);
                },
            }
        }
    }

    /// Reads the members of a character class, behind its `[`.
    #[verifier::loop_isolation(false)]
    pub fn parse_set(&mut self) -> (r: Result<ParseNodeVal, ParseError>)
        requires
            old(self).wf(),
        ensures
            final(self).wf(),
            final(self).chars == old(self).chars,
            final(self).groups == old(self).groups,
            final(self).index >= old(self).index,
            match class_at(old(self).chars@, old(self).index as int) {
                Ok((p, j)) => r is Ok && r.unwrap()@ == p && final(self).index == j,
                Err((e, j)) => r == Err::<ParseNodeVal, ParseError>(e) && final(self).index == j,
            },
    {
        let ghost s = self.chars@;
        let mut inverted = false;
        if let Some(c) = self.peek() {
            if c == '^' {
                inverted = true;
                self.next();
            }
        }
        let ghost start = self.index as int;
        let mut set = set_new();
        loop
            invariant
                self.wf(),
                self.chars@ == s,
                self.chars == old(self).chars,
                self.groups == old(self).groups,
                self.index >= start,
                class_from(s, start, Seq::empty()) == class_from(s, self.index as int, set_items(set)),
            decreases left(s, self.index as int),
        {
            match self.next_escaped()? {
                (None, _) => {
                    return Err(ParseError::UnterminatedCharSet);
                },
                (Some(ch), escaped) => {
                    if !escaped && ch == ']' {
                        return Ok(ParseNodeVal::CharSet { set, inverted });
                    }
                    set_insert(&mut set, ch);
                },
            }
        }
    }

    /// Reads the bounds of a repetition, from its `{` on.
    #[verifier::loop_isolation(false)]
    pub fn parse_repetition_range_vals(&mut self) -> (r: Result<(u32, Option<u32>), ParseError>)
        requires
            old(self).wf(),
            old(self).index < old(self).chars@.len(),
        ensures
            final(self).wf(),
            final(self).chars == old(self).chars,
            final(self).groups == old(self).groups,
            final(self).index > old(self).index,
            match range_from(old(self).chars@, old(self).index + 1, None) {
                Ok((b, j)) => r == Ok::<(u32, Option<u32>), ParseError>(b) && final(self).index == j,
                Err((e, j)) => r == Err::<(u32, Option<u32>), ParseError>(e) && final(self).index == j,
            },
    {
        let ghost s = self.chars@;
        self.next();
        let ghost start = self.index as int;
        let mut min: Option<u32> = None;
        loop
            invariant
                self.wf(),
                self.chars@ == s,
                self.chars == old(self).chars,
                self.groups == old(self).groups,
                self.index >= start,
                range_from(s, start, None) == range_from(s, self.index as int, min),
            decreases left(s, self.index as int),
        {
            match self.next() {
                None => {
                    return cut_short(min);
                },
                Some(ch) => {
                    if '0' <= ch && ch <= '9' {
                        match push_digit(min, ch) {
                            Some(v) => {
                                min = Some(v);
                            },
                            None => {
                                return Err(ParseError::UnexpectedRepetitionRangeCh(ch));
                            },
                        }
                    } else if ch == '}' {
                        return check_bounds(min, min);
                    } else if ch == ',' {
                        break ;
                    } else {
                        return Err(ParseError::UnexpectedRepetitionRangeCh(ch));
                    }
                },
            }
        }
        let ghost middle = self.index as int;
        let mut max: Option<u32> = None;
        loop
            invariant
                self.wf(),
                self.chars@ == s,
                self.chars == old(self).chars,
                self.groups == old(self).groups,
                self.index >= middle,
                middle >= start,
                range_from(s, start, None) == range_max_from(s, self.index as int, min, max),
            decreases left(s, self.index as int),
        {
            match self.next() {
                None => {
                    return cut_short(min);
                },
                Some(ch) => {
                    if '0' <= ch && ch <= '9' {
                        match push_digit(max, ch) {
                            Some(v) => {
                                max = Some(v);
                            },
                            None => {
                                return Err(ParseError::UnexpectedRepetitionRangeCh(ch));
                            },
                        }
                    } else if ch == '}' {
                        return check_bounds(min, max);
                    } else {
                        return Err(ParseError::UnexpectedRepetitionRangeCh(ch));
                    }
                },
            }
        }
    }

    /// Reads the name of a group, behind `(?<`.
    #[verifier::loop_isolation(false)]
    pub fn parse_name(&mut self) -> (r: Result<String, ParseError>)
        requires
            old(self).wf(),
        ensures
            final(self).wf(),
            final(self).chars == old(self).chars,
            final(self).groups == old(self).groups,
            final(self).index >= old(self).index,
            match name_from(old(self).chars@, old(self).index as int, Seq::empty()) {
                Ok((n, j)) => r is Ok && r.unwrap()@ == n && final(self).index == j,
                Err((e, j)) => r == Err::<String, ParseError>(e) && final(self).index == j,
            },
    {
        let ghost s = self.chars@;
        let ghost start = self.index as int;
        let mut name = String::new();
        loop
            invariant
                self.wf(),
                self.chars == old(self).chars,
                self.groups == old(self).groups,
                self.index >= start,
                name_from(s, start, Seq::empty()) == name_from(s, self.index as int, name@),
            decreases left(s, self.index as int),
        {
            match self.next_escaped()? {
                (None, _) => {
                    return Ok(name);
                },
                (Some(ch), escaped) => {
                    if !escaped && ch == '>' {
                        return Ok(name);
                    }
                    name.push(ch);
                },
            }
        }
    }

    /// Applies a quantifier to the whole of the last value read.
    pub fn decorate_node_option(nodes: &mut Vec<ParseNodeVal>, modifier: Modifier) -> (r: Result<(), ParseError>)
        ensures
            old(nodes)@.len() == 0 ==> r == Err::<(), ParseError>(ParseError::UnexpectedEmptyParseNodeOption)
                && final(nodes)@ == old(nodes)@,
            old(nodes)@.len() > 0 ==> r is Ok && vals_view(final(nodes)@) == vals_view(old(nodes)@).drop_last().push(
                modifier.over(seq![vals_view(old(nodes)@).last()]),
            ),
    {
        match nodes.pop() {
            None => Err(ParseError::UnexpectedEmptyParseNodeOption),
            Some(last) => {
                let val = apply_modifier(modifier, last);
                nodes.push(val);
                assert(vals_view(nodes@) =~= vals_view(old(nodes)@).drop_last().push(
                    modifier.over(seq![vals_view(old(nodes)@).last()]),
                ));
                Ok(())
            },
        }
    }

    /// Applies a quantifier to what was read last: to the whole of it, or, of a
    /// word of several characters, to its last character alone.
    pub fn decorate_node_option_for_last_char_modifiers(nodes: &mut Vec<ParseNodeVal>, modifier: Modifier) -> (r:
        Result<(), ParseError>)
        ensures
            match decorated(vals_view(old(nodes)@), modifier) {
                None => r == Err::<(), ParseError>(ParseError::MissingLeftSideOfModifier) && final(nodes)@ == old(
                    nodes,
                )@,
                Some(acc) => r is Ok && vals_view(final(nodes)@) == acc,
            },
    {
        let n = nodes.len();
        if n == 0 {
            return Err(ParseError::MissingLeftSideOfModifier);
        }
        let take_last_ch = match &nodes[n - 1] {
            ParseNodeVal::Word(word) => word.as_str().unicode_len() > 1,
            _ => false,
        };
        if !take_last_ch {
            return Self::decorate_node_option(nodes, modifier);
        }
        let last = nodes.pop().unwrap();
        match last {
            ParseNodeVal::Word(word) => {
                let (head, tail) = split_last_char(word.as_str());
                nodes.push(ParseNodeVal::Word(head));
                nodes.push(apply_modifier(modifier, ParseNodeVal::Word(tail)));
                assert(vals_view(nodes@) =~= decorated(vals_view(old(nodes)@), modifier).unwrap());
                Ok(())
            },
            _ => Ok(()),
        }
    }

    /// Reads a group, from its `(` on.
    pub fn parse_group(&mut self) -> (r: Result<ParseNodeVal, ParseError>)
        requires
            old(self).wf(),
            old(self).index < old(self).chars@.len(),
        ensures
            final(self).wf(),
            final(self).chars == old(self).chars,
            final(self).groups >= old(self).groups,
            final(self).index > old(self).index,
            match group_at(old(self).chars@, old(self).index as int, old(self).groups as nat) {
                Ok((p, j, total)) => r is Ok && r.unwrap()@ == p && final(self).index == j && final(self).groups
                    == total,
                Err((e, j)) => r == Err::<ParseNodeVal, ParseError>(e) && final(self).index == j,
            },
        decreases left(old(self).chars@, old(self).index as int), 0nat,
    {
        let ghost s = self.chars@;
        let ghost start = self.index as int;
        self.next();
        let mut is_prefixed = false;
        if let Some(c) = self.peek() {
            if c == '?' {
                is_prefixed = true;
            }
        }
        let group_config = if is_prefixed {
            self.next();
            match self.next() {
                Some(c) => {
                    if c == ':' {
                        Some(GroupConfig::NonCapturing)
                    } else if c == '<' {
                        let name = self.parse_name()?;
                        Some(GroupConfig::Named(name))
                    } else {
                        return Err(ParseError::BadGroupConfig);
                    }
                },
                None => {
                    return Err(ParseError::BadGroupConfig);
                },
            }
        } else {
            None
        };
        assert(prefix_at(s, start + 1) == Ok::<(super::model::GroupKind, int), (ParseError, int)>(
            (kind_view(group_config), self.index as int),
        ));
        let ghost prefix = kind_view(group_config);
        let ghost seen = self.groups as nat;
        let cfg = match group_config {
            None => {
                self.groups = self.groups + 1;
                Some(GroupConfig::Numbered(self.groups))
            },
            Some(GroupConfig::NonCapturing) => Some(GroupConfig::NonCapturing),
            Some(named) => {
                self.groups = self.groups + 1;
                Some(named)
            },
        };
        assert(kind_view(cfg) == kind_of(prefix, seen));
        assert(self.groups == counted(prefix, seen));
        let group = match self.parse(Some(')'))? {
            Some(group) => group,
            None => {
                return Err(ParseError::EmptyCaptureGroup);
            },
        };
        match self.next() {
            None => Err(ParseError::UnexpectedEndOfInput),
            Some(_) => Ok(ParseNodeVal::Group { group, cfg }),
        }
    }

    /// Reads constructs up to the end of the pattern or to the character
    /// `until`, and gives them as a chain.
    #[verifier::loop_isolation(false)]
    pub fn parse(&mut self, until: Option<char>) -> (r: Result<Option<Box<ParseNode>>, ParseError>)
        requires
            old(self).wf(),
        ensures
            final(self).wf(),
            final(self).chars == old(self).chars,
            final(self).groups >= old(self).groups,
            final(self).index >= old(self).index,
            match parse_from(old(self).chars@, old(self).index as int, until, Seq::empty(), old(self).groups as nat) {
                Ok((p, j, total)) => r is Ok && parsed_link_view(r.unwrap()) == p && final(self).index == j
                    && final(self).groups == total,
                Err((e, j)) => r == Err::<Option<Box<ParseNode>>, ParseError>(e) && final(self).index == j,
            },
        decreases left(old(self).chars@, old(self).index as int), 1nat,
    {
        let ghost s = self.chars@;
        let ghost start = self.index as int;
        let mut nodes: Vec<ParseNodeVal> = Vec::new();
        assert(vals_view(nodes@) =~= Seq::<Pat>::empty());
        loop
            invariant
                self.wf(),
                self.chars == old(self).chars,
                self.groups >= old(self).groups,
                self.index >= start,
                parse_from(s, start, until, Seq::empty(), old(self).groups as nat) == parse_from(
                    s,
                    self.index as int,
                    until,
                    vals_view(nodes@),
                    self.groups as nat,
                ),
            decreases left(s, self.index as int),
        {
            let ghost i = self.index as int;
            let ghost acc = vals_view(nodes@);
            let ch = match self.peek() {
                None => {
                    return Ok(link_nodes(nodes));
                },
                Some(c) => c,
            };
            if let Some(u) = until {
                if ch == u {
                    return Ok(link_nodes(nodes));
                }
            }
            if ch == '{' {
                let (min, max) = self.parse_repetition_range_vals()?;
                Self::decorate_node_option_for_last_char_modifiers(
                    &mut nodes,
                    Modifier::RepetitionRange { min, max },
                )?;
            } else if ch == '|' {
                self.next();
                if nodes.len() == 0 {
                    return Err(ParseError::UnexpectedCharErr(ch));
                }
                let right = match self.parse(Some(')'))? {
                    None => {
                        return Err(ParseError::MissingRightSideOfOr);
                    },
                    Some(right) => right,
                };
                let left = match link_nodes(nodes) {
                    None => {
                        return Err(ParseError::UnexpectedEmptyParseNodeOption);
                    },
                    Some(left) => left,
                };
                nodes = Vec::new();
                nodes.push(ParseNodeVal::Or { left, right });
                assert(vals_view(nodes@) =~= seq![Pat::Or { left: acc, right: right@ }]);
            } else if ch == '[' {
                self.next();
                let set = self.parse_set()?;
                nodes.push(set);
                assert(vals_view(nodes@) =~= acc.push(set@));
            } else if ch == '.' {
                self.next();
                nodes.push(ParseNodeVal::Any);
                assert(vals_view(nodes@) =~= acc.push(Pat::Any));
            } else if ch == '*' {
                self.next();
                let greedy = self.chomp_greediness();
                Self::decorate_node_option_for_last_char_modifiers(&mut nodes, Modifier::ZeroOrMore { greedy })?;
            } else if ch == '+' {
                self.next();
                let greedy = self.chomp_greediness();
                Self::decorate_node_option_for_last_char_modifiers(&mut nodes, Modifier::OneOrMore { greedy })?;
            } else if ch == '?' {
                self.next();
                Self::decorate_node_option_for_last_char_modifiers(&mut nodes, Modifier::Optional)?;
            } else if ch == '^' {
                self.next();
                nodes.push(ParseNodeVal::Start);
                assert(vals_view(nodes@) =~= acc.push(Pat::Start));
            } else if ch == '$' {
                self.next();
                nodes.push(ParseNodeVal::End);
                assert(vals_view(nodes@) =~= acc.push(Pat::End));
            } else if ch == '(' {
                let group = self.parse_group()?;
                nodes.push(group);
                assert(vals_view(nodes@) =~= acc.push(group@));
            } else if ch == ')' || ch == '}' || ch == ']' {
                self.next();
                return Err(ParseError::UnexpectedCharErr(ch));
            } else {
                let word = self.parse_word()?;
                proof {
                    lemma_word_advances(s, i);
                }
                nodes.push(word);
                assert(vals_view(nodes@) =~= acc.push(word@));
            }
        }
    }
}

/// A word that begins at a character of its own takes that character.
pub proof fn lemma_word_advances(s: Seq<char>, i: int)
    requires
        0 <= i < s.len(),
        !is_special(s[i]) || s[i] == '\\',
    ensures
        word_from(s, i, Seq::empty()) matches Ok((w, j)) ==> i < j && w.len() > 0,
{
    if s[i] == '\\' {
        match escaped_at(s, i + 1) {
            Ok((e, j)) => {
                lemma_word_grows(s, j, Seq::<char>::empty().push(e));
            },
            Err(_) => {},
        }
    } else {
        lemma_word_grows(s, i + 1, Seq::<char>::empty().push(s[i]));
    }
}

/// Reading a word never moves back, and never drops what was gathered.
pub proof fn lemma_word_grows(s: Seq<char>, i: int, acc: Seq<char>)
    ensures
        word_from(s, i, acc) matches Ok((w, j)) ==> i <= j && w.len() >= acc.len(),
    decreases left(s, i),
{
    match peek_at(s, i) {
        None => {},
        Some(c) => {
            if c == '\\' {
                match escaped_at(s, i + 1) {
                    Ok((e, j)) => {
                        lemma_word_grows(s, j, acc.push(e));
                    },
                    Err(_) => {},
                }
            } else if is_special(c) {
            } else {
                lemma_word_grows(s, i + 1, acc.push(c));
            }
        },
    }
}

} // verus!
