//! What holds of every pattern that the grammar gives.

use super::grammar::bounds;
use super::grammar::class_at;
use super::grammar::class_from;
use super::grammar::escaped_at;
use super::grammar::name_from;
use crate::ordered::with_item;
use super::grammar::counted;
use super::grammar::decorated;
use super::grammar::greediness_at;
use super::grammar::group_at;
use super::grammar::left;
use super::grammar::parse_from;
use super::grammar::parse_pattern;
use super::grammar::peek_at;
use super::grammar::prefix_at;
use super::grammar::range_from;
use super::grammar::range_max_from;
use super::grammar::with_digit;
use super::grammar::word_from;
use super::grammar::is_digit;
use super::grammar::Modifier;
use super::model::plain;
use super::model::plain_pat;
use super::model::Pat;
use super::reader::lemma_word_advances;
use vstd::prelude::*;

verus! {

/// Whether a pattern is one that a parser can give: no word and no group is
/// empty, an alternation has two sides, a range's maximum is not below its
/// minimum, and there is neither a poisoned construct nor a mark of a group's
/// end.
pub open spec fn well_formed(p: Seq<Pat>) -> bool
    decreases p, 0nat,
{
    forall|i: int| 0 <= i < p.len() ==> well_formed_pat(#[trigger] p[i])
}

pub open spec fn well_formed_pat(p: Pat) -> bool
    decreases p, 1nat,
{
    match p {
        Pat::Word(word) => word.len() > 0,
        Pat::ZeroOrMore { body, .. } => body.len() > 0 && well_formed(body),
        Pat::OneOrMore { body, .. } => body.len() > 0 && well_formed(body),
        Pat::Optional(body) => body.len() > 0 && well_formed(body),
        Pat::Group { body, .. } => body.len() > 0 && well_formed(body),
        Pat::Or { left, right } => left.len() > 0 && right.len() > 0 && well_formed(left) && well_formed(right),
        Pat::RepetitionRange { min, max, body } => body.len() > 0 && well_formed(body) && (max matches Some(hi)
            ==> min <= hi),
        Pat::GroupEnd { .. } => false,
        Pat::Poisoned => false,
        _ => true,
    }
}

/// A well-formed pattern is plain.
pub proof fn lemma_well_formed_plain(p: Seq<Pat>)
    requires
        well_formed(p),
    ensures
        plain(p),
    decreases p, 0nat,
{
    assert forall|i: int| 0 <= i < p.len() implies plain_pat(#[trigger] p[i]) by {
        lemma_well_formed_pat_plain(p[i]);
    }
}

pub proof fn lemma_well_formed_pat_plain(p: Pat)
    requires
        well_formed_pat(p),
    ensures
        plain_pat(p),
    decreases p, 1nat,
{
    match p {
        Pat::ZeroOrMore { body, .. } => lemma_well_formed_plain(body),
        Pat::OneOrMore { body, .. } => lemma_well_formed_plain(body),
        Pat::Optional(body) => lemma_well_formed_plain(body),
        Pat::Group { body, .. } => lemma_well_formed_plain(body),
        Pat::Or { left, right } => {
            lemma_well_formed_plain(left);
            lemma_well_formed_plain(right);
        },
        Pat::RepetitionRange { body, .. } => lemma_well_formed_plain(body),
        _ => {},
    }
}

pub proof fn lemma_pushed_well_formed(acc: Seq<Pat>, p: Pat)
    requires
        well_formed(acc),
        well_formed_pat(p),
    ensures
        well_formed(acc.push(p)),
{
    assert forall|i: int| 0 <= i < acc.push(p).len() implies well_formed_pat(#[trigger] acc.push(p)[i]) by {
        if i < acc.len() {
            assert(acc.push(p)[i] == acc[i]);
        }
    }
}

pub proof fn lemma_one_well_formed(p: Pat)
    requires
        well_formed_pat(p),
    ensures
        well_formed(seq![p]),
        seq![p].len() > 0,
{
}

/// A quantifier over well-formed constructs leaves them well-formed, if its
/// own bounds are in order.
pub proof fn lemma_decorated_well_formed(acc: Seq<Pat>, m: Modifier)
    requires
        well_formed(acc),
        m matches Modifier::RepetitionRange { min, max } ==> (max matches Some(hi) ==> min <= hi),
    ensures
        decorated(acc, m) matches Some(out) ==> well_formed(out),
{
    if acc.len() > 0 {
        let last = acc.last();
        assert(well_formed_pat(acc[acc.len() - 1]));
        let front = acc.drop_last();
        assert(well_formed(front)) by {
            assert forall|i: int| 0 <= i < front.len() implies well_formed_pat(#[trigger] front[i]) by {
                assert(front[i] == acc[i]);
            }
        }
        if last is Word && last->Word_0.len() > 1 {
            let w = last->Word_0;
            let head = Pat::Word(w.drop_last());
            let tail = Pat::Word(seq![w.last()]);
            lemma_one_well_formed(tail);
            lemma_pushed_well_formed(front, head);
            lemma_pushed_well_formed(front.push(head), m.over(seq![tail]));
        } else {
            lemma_one_well_formed(last);
            lemma_pushed_well_formed(front, m.over(seq![last]));
        }
    }
}

/// The bounds of a range that is accepted are in order.
pub proof fn lemma_range_max_ordered(s: Seq<char>, i: int, min: Option<u32>, max: Option<u32>)
    ensures
        range_max_from(s, i, min, max) matches Ok(((lo, hi), j)) ==> (hi matches Some(h) ==> lo <= h),
    decreases left(s, i),
{
    match peek_at(s, i) {
        None => {},
        Some(c) => {
            if is_digit(c) {
                match with_digit(max, c) {
                    Some(v) => {
                        lemma_range_max_ordered(s, i + 1, min, Some(v));
                    },
                    None => {},
                }
            }
        },
    }
}

pub proof fn lemma_range_ordered(s: Seq<char>, i: int, min: Option<u32>)
    ensures
        range_from(s, i, min) matches Ok(((lo, hi), j)) ==> (hi matches Some(h) ==> lo <= h),
    decreases left(s, i),
{
    match peek_at(s, i) {
        None => {},
        Some(c) => {
            if is_digit(c) {
                match with_digit(min, c) {
                    Some(v) => {
                        lemma_range_ordered(s, i + 1, Some(v));
                    },
                    None => {},
                }
            } else if c == ',' {
                lemma_range_max_ordered(s, i + 1, min, None);
            }
        },
    }
}

/// Parsing after well-formed constructs gives well-formed constructs.
pub proof fn lemma_parse_from_well_formed(s: Seq<char>, i: int, until: Option<char>, acc: Seq<Pat>, seen: nat)
    requires
        well_formed(acc),
    ensures
        parse_from(s, i, until, acc, seen) matches Ok((p, j, total)) ==> well_formed(p),
    decreases left(s, i), 1nat,
{
    match peek_at(s, i) {
        None => {},
        Some(c) => {
            if until == Some(c) {
            } else if c == '{' {
                lemma_range_ordered(s, i + 1, None);
                match range_from(s, i + 1, None) {
                    Err(_) => {},
                    Ok(((min, max), j)) => {
                        lemma_decorated_well_formed(acc, Modifier::RepetitionRange { min, max });
                        match decorated(acc, Modifier::RepetitionRange { min, max }) {
                            None => {},
                            Some(acc2) => {
                                if i < j {
                                    lemma_parse_from_well_formed(s, j, until, acc2, seen);
                                }
                            },
                        }
                    },
                }
            } else if c == '|' {
                if acc.len() > 0 {
                    assert(well_formed(Seq::<Pat>::empty()));
                    lemma_parse_from_well_formed(s, i + 1, Some(')'), Seq::empty(), seen);
                    match parse_from(s, i + 1, Some(')'), Seq::empty(), seen) {
                        Err(_) => {},
                        Ok((right, j, counted)) => {
                            if right.len() > 0 {
                                let or = Pat::Or { left: acc, right };
                                lemma_one_well_formed(or);
                                if i < j {
                                    lemma_parse_from_well_formed(s, j, until, seq![or], counted);
                                }
                            }
                        },
                    }
                }
            } else if c == '[' {
                match class_at(s, i + 1) {
                    Err(_) => {},
                    Ok((set, j)) => {
                        lemma_pushed_well_formed(acc, set);
                        if i < j {
                            lemma_parse_from_well_formed(s, j, until, acc.push(set), seen);
                        }
                    },
                }
            } else if c == '.' {
                lemma_pushed_well_formed(acc, Pat::Any);
                lemma_parse_from_well_formed(s, i + 1, until, acc.push(Pat::Any), seen);
            } else if c == '*' || c == '+' {
                let (greedy, j) = greediness_at(s, i + 1);
                let m = if c == '*' {
                    Modifier::ZeroOrMore { greedy }
                } else {
                    Modifier::OneOrMore { greedy }
                };
                lemma_decorated_well_formed(acc, m);
                match decorated(acc, m) {
                    None => {},
                    Some(acc2) => {
                        lemma_parse_from_well_formed(s, j, until, acc2, seen);
                    },
                }
            } else if c == '?' {
                lemma_decorated_well_formed(acc, Modifier::Optional);
                match decorated(acc, Modifier::Optional) {
                    None => {},
                    Some(acc2) => {
                        lemma_parse_from_well_formed(s, i + 1, until, acc2, seen);
                    },
                }
            } else if c == '^' {
                lemma_pushed_well_formed(acc, Pat::Start);
                lemma_parse_from_well_formed(s, i + 1, until, acc.push(Pat::Start), seen);
            } else if c == '$' {
                lemma_pushed_well_formed(acc, Pat::End);
                lemma_parse_from_well_formed(s, i + 1, until, acc.push(Pat::End), seen);
            } else if c == '(' {
                lemma_group_well_formed(s, i, seen);
                match group_at(s, i, seen) {
                    Err(_) => {},
                    Ok((group, j, counted)) => {
                        lemma_pushed_well_formed(acc, group);
                        if i < j {
                            lemma_parse_from_well_formed(s, j, until, acc.push(group), counted);
                        }
                    },
                }
            } else if c == ')' || c == '}' || c == ']' {
            } else {
                lemma_word_advances(s, i);
                match word_from(s, i, Seq::empty()) {
                    Err(_) => {},
                    Ok((word, j)) => {
                        lemma_pushed_well_formed(acc, Pat::Word(word));
                        if i < j {
                            lemma_parse_from_well_formed(s, j, until, acc.push(Pat::Word(word)), seen);
                        }
                    },
                }
            }
        },
    }
}

pub proof fn lemma_group_well_formed(s: Seq<char>, i: int, seen: nat)
    ensures
        group_at(s, i, seen) matches Ok((g, j, total)) ==> well_formed_pat(g),
    decreases left(s, i), 0nat,
{
    match prefix_at(s, i + 1) {
        Err(_) => {},
        Ok((prefix, j)) => {
            if 0 <= i < s.len() && i < j {
                assert(well_formed(Seq::<Pat>::empty()));
                lemma_parse_from_well_formed(s, j, Some(')'), Seq::empty(), counted(prefix, seen));
            }
        },
    }
}

/// Reading a class, a name or the bounds of a range never moves back.
pub proof fn lemma_class_advances(s: Seq<char>, i: int, acc: Seq<char>)
    requires
        0 <= i,
    ensures
        class_from(s, i, acc) matches Ok((_, j)) ==> i < j,
    decreases left(s, i),
{
    match peek_at(s, i) {
        None => {},
        Some(c) => {
            if c == '\\' {
                match escaped_at(s, i + 1) {
                    Ok((e, j)) => {
                        lemma_class_advances(s, j, with_item(acc, e));
                    },
                    Err(_) => {},
                }
            } else if c == ']' {
            } else {
                lemma_class_advances(s, i + 1, with_item(acc, c));
            }
        },
    }
}

pub proof fn lemma_name_advances(s: Seq<char>, i: int, acc: Seq<char>)
    requires
        0 <= i <= s.len() + 1,
    ensures
        name_from(s, i, acc) matches Ok((_, j)) ==> i <= j,
    decreases left(s, i),
{
    match peek_at(s, i) {
        None => {},
        Some(c) => {
            if c == '\\' {
                match escaped_at(s, i + 1) {
                    Ok((e, j)) => {
                        lemma_name_advances(s, j, acc.push(e));
                    },
                    Err(_) => {},
                }
            } else if c == '>' {
            } else {
                lemma_name_advances(s, i + 1, acc.push(c));
            }
        },
    }
}

pub proof fn lemma_range_max_advances(s: Seq<char>, i: int, min: Option<u32>, max: Option<u32>)
    requires
        0 <= i <= s.len() + 1,
    ensures
        range_max_from(s, i, min, max) matches Ok((_, j)) ==> i <= j,
    decreases left(s, i),
{
    match peek_at(s, i) {
        None => {},
        Some(c) => {
            if is_digit(c) {
                match with_digit(max, c) {
                    Some(v) => {
                        lemma_range_max_advances(s, i + 1, min, Some(v));
                    },
                    None => {},
                }
            }
        },
    }
}

pub proof fn lemma_range_advances(s: Seq<char>, i: int, min: Option<u32>)
    requires
        0 <= i <= s.len() + 1,
    ensures
        range_from(s, i, min) matches Ok((_, j)) ==> i <= j,
    decreases left(s, i),
{
    match peek_at(s, i) {
        None => {},
        Some(c) => {
            if is_digit(c) {
                match with_digit(min, c) {
                    Some(v) => {
                        lemma_range_advances(s, i + 1, Some(v));
                    },
                    None => {},
                }
            } else if c == ',' {
                lemma_range_max_advances(s, i + 1, min, None);
            }
        },
    }
}

/// Whether reading has come to where it was to end: the end of the text, or
/// the character `until`.
pub open spec fn ended(s: Seq<char>, j: int, until: Option<char>) -> bool {
    j >= s.len() || until == Some(s[j])
}

/// Parsing reads on to the end: what it gives was read up to the end of the
/// text or up to the character at which it was to stop.
pub proof fn lemma_parse_from_reads_on(s: Seq<char>, i: int, until: Option<char>, acc: Seq<Pat>, seen: nat)
    requires
        0 <= i,
    ensures
        parse_from(s, i, until, acc, seen) matches Ok((_, j, _)) ==> i <= j && ended(s, j, until),
    decreases left(s, i), 1nat,
{
    match peek_at(s, i) {
        None => {},
        Some(c) => {
            if until == Some(c) {
            } else if c == '{' {
                lemma_range_advances(s, i + 1, None);
                match range_from(s, i + 1, None) {
                    Err(_) => {},
                    Ok(((min, max), j)) => {
                        match decorated(acc, Modifier::RepetitionRange { min, max }) {
                            None => {},
                            Some(acc2) => {
                                lemma_parse_from_reads_on(s, j, until, acc2, seen);
                            },
                        }
                    },
                }
            } else if c == '|' {
                if acc.len() > 0 {
                    lemma_parse_from_reads_on(s, i + 1, Some(')'), Seq::empty(), seen);
                    match parse_from(s, i + 1, Some(')'), Seq::empty(), seen) {
                        Err(_) => {},
                        Ok((right, j, counted)) => {
                            if right.len() > 0 {
                                lemma_parse_from_reads_on(s, j, until, seq![Pat::Or { left: acc, right }], counted);
                            }
                        },
                    }
                }
            } else if c == '[' {
                let from = if peek_at(s, i + 1) == Some('^') {
                    i + 2
                } else {
                    i + 1
                };
                lemma_class_advances(s, from, Seq::empty());
                match class_at(s, i + 1) {
                    Err(_) => {},
                    Ok((set, j)) => {
                        lemma_parse_from_reads_on(s, j, until, acc.push(set), seen);
                    },
                }
            } else if c == '.' {
                lemma_parse_from_reads_on(s, i + 1, until, acc.push(Pat::Any), seen);
            } else if c == '*' || c == '+' {
                let (greedy, j) = greediness_at(s, i + 1);
                let m = if c == '*' {
                    Modifier::ZeroOrMore { greedy }
                } else {
                    Modifier::OneOrMore { greedy }
                };
                match decorated(acc, m) {
                    None => {},
                    Some(acc2) => {
                        lemma_parse_from_reads_on(s, j, until, acc2, seen);
                    },
                }
            } else if c == '?' {
                match decorated(acc, Modifier::Optional) {
                    None => {},
                    Some(acc2) => {
                        lemma_parse_from_reads_on(s, i + 1, until, acc2, seen);
                    },
                }
            } else if c == '^' {
                lemma_parse_from_reads_on(s, i + 1, until, acc.push(Pat::Start), seen);
            } else if c == '$' {
                lemma_parse_from_reads_on(s, i + 1, until, acc.push(Pat::End), seen);
            } else if c == '(' {
                lemma_group_reads_on(s, i, seen);
                match group_at(s, i, seen) {
                    Err(_) => {},
                    Ok((group, j, counted)) => {
                        lemma_parse_from_reads_on(s, j, until, acc.push(group), counted);
                    },
                }
            } else if c == ')' || c == '}' || c == ']' {
            } else {
                lemma_word_advances(s, i);
                match word_from(s, i, Seq::empty()) {
                    Err(_) => {},
                    Ok((word, j)) => {
                        lemma_parse_from_reads_on(s, j, until, acc.push(Pat::Word(word)), seen);
                    },
                }
            }
        },
    }
}

/// A group takes at least its opening bracket.
pub proof fn lemma_group_reads_on(s: Seq<char>, i: int, seen: nat)
    requires
        0 <= i < s.len(),
    ensures
        group_at(s, i, seen) matches Ok((_, j, _)) ==> i < j,
    decreases left(s, i), 0nat,
{
    if peek_at(s, i + 1) == Some('?') && peek_at(s, i + 2) == Some('<') {
        lemma_name_advances(s, i + 3, Seq::empty());
    }
    match prefix_at(s, i + 1) {
        Err(_) => {},
        Ok((prefix, j)) => {
            if i < j {
                lemma_parse_from_reads_on(s, j, Some(')'), Seq::empty(), counted(prefix, seen));
            }
        },
    }
}

/// A pattern that is accepted was read to its end: no text is left behind
/// what the parser gives.
pub proof fn lemma_parsed_to_the_end(s: Seq<char>)
    ensures
        parse_from(s, 0, None, Seq::empty(), 0) matches Ok((_, j, _)) ==> j >= s.len(),
{
    lemma_parse_from_reads_on(s, 0, None, Seq::empty(), 0);
}

/// Parsing is a function of the text alone: equal texts denote equal patterns
/// or are refused with equal errors.
pub proof fn lemma_parse_determined(s: Seq<char>, again: Seq<char>)
    requires
        s == again,
    ensures
        parse_pattern(s) == parse_pattern(again),
{
}

/// Every pattern that is accepted is well-formed.
pub proof fn lemma_parsed_well_formed(s: Seq<char>)
    ensures
        parse_pattern(s) matches Ok(p) ==> well_formed(p) && plain(p),
{
    assert(well_formed(Seq::<Pat>::empty()));
    lemma_parse_from_well_formed(s, 0, None, Seq::empty(), 0);
    match parse_pattern(s) {
        Ok(p) => lemma_well_formed_plain(p),
        Err(_) => {},
    }
}

} // verus!
