use vstd::prelude::*;
use vstd::string::StrSliceExecFns;

use crate::cursor::{
    byte_offset, is_whitespace_char, lemma_byte_offset_mono, whitespace_char, Cursor,
};
use crate::labels::LabelMap;
use crate::parseerror::ParseError;

verus! {

/// The four relations a requirement can state between a key and its
/// operand.  `=` and `==` both spell `Equality`.
#[derive(Debug, PartialEq)]
pub enum Operator {
    Equality,
    InEquality,
    InSet,
    NotInSet,
}

/// Characters allowed in a key: ASCII letters, digits, `-` and `_`.
pub open spec fn is_key_char(c: char) -> bool {
    let u = c as u32;
    ||| ('a' as u32) <= u && u <= ('z' as u32)
    ||| ('A' as u32) <= u && u <= ('Z' as u32)
    ||| ('0' as u32) <= u && u <= ('9' as u32)
    ||| c == '-'
    ||| c == '_'
}

/// Characters allowed in a value: everything but `!`, `=`, `,`, `(`, `)`
/// and whitespace.
pub open spec fn is_value_char(c: char) -> bool {
    c != '!' && c != '=' && c != ',' && c != '(' && c != ')' && !is_whitespace_char(c)
}

fn key_char(c: char) -> (b: bool)
    ensures
        b == is_key_char(c),
{
    let u = c as u32;
    (('a' as u32) <= u && u <= ('z' as u32)) || (('A' as u32) <= u && u <= ('Z' as u32)) || (('0'
        as u32) <= u && u <= ('9' as u32)) || c == '-' || c == '_'
}

fn value_char(c: char) -> (b: bool)
    ensures
        b == is_value_char(c),
{
    c != '!' && c != '=' && c != ',' && c != '(' && c != ')' && !whitespace_char(c)
}

/// Where the run of key characters that starts at `p` ends.
pub open spec fn key_run_end(s: Seq<char>, p: int) -> int
    decreases s.len() - p,
{
    if p < s.len() && is_key_char(s[p]) {
        key_run_end(s, p + 1)
    } else {
        p
    }
}

/// Where the run of value characters that starts at `p` ends.
pub open spec fn value_run_end(s: Seq<char>, p: int) -> int
    decreases s.len() - p,
{
    if p < s.len() && is_value_char(s[p]) {
        value_run_end(s, p + 1)
    } else {
        p
    }
}

pub proof fn lemma_key_run_end(s: Seq<char>, p: int)
    requires
        p <= s.len(),
    ensures
        p <= key_run_end(s, p) <= s.len(),
        forall|q: int| p <= q < key_run_end(s, p) ==> is_key_char(s[q]),
        key_run_end(s, p) < s.len() ==> !is_key_char(s[key_run_end(s, p)]),
    decreases s.len() - p,
{
    if p < s.len() && is_key_char(s[p]) {
        lemma_key_run_end(s, p + 1);
    }
}

pub proof fn lemma_value_run_end(s: Seq<char>, p: int)
    requires
        p <= s.len(),
    ensures
        p <= value_run_end(s, p) <= s.len(),
        forall|q: int| p <= q < value_run_end(s, p) ==> is_value_char(s[q]),
        value_run_end(s, p) < s.len() ==> !is_value_char(s[value_run_end(s, p)]),
    decreases s.len() - p,
{
    if p < s.len() && is_value_char(s[p]) {
        lemma_value_run_end(s, p + 1);
    }
}

/// What `skip_whitespaces` does to the scanning state `(index, position)`:
/// consume ASCII spaces, leaving `index` at the last character peeked at.
pub open spec fn spec_skip_ws(s: Seq<char>, i: int, p: int) -> (int, int)
    decreases s.len() - p,
{
    if p < s.len() {
        if s[p] == ' ' {
            spec_skip_ws(s, byte_offset(s, p), p + 1)
        } else {
            (byte_offset(s, p), p)
        }
    } else {
        (i, p)
    }
}

pub proof fn lemma_skip_ws(s: Seq<char>, i: int, p: int)
    requires
        p <= s.len(),
    ensures
        p <= spec_skip_ws(s, i, p).1 <= s.len(),
        spec_skip_ws(s, i, p).1 < s.len() ==> s[spec_skip_ws(s, i, p).1] != ' ',
    decreases s.len() - p,
{
    if p < s.len() && s[p] == ' ' {
        lemma_skip_ws(s, byte_offset(s, p), p + 1);
    }
}

/// What `parse_key` returns: the maximal run of key characters at `p`, or
/// an empty key right before a comma, or `InvalidKey`.
pub open spec fn spec_parse_key(s: Seq<char>, i: int, p: int) -> Result<
    (Seq<char>, int, int),
    ParseError,
> {
    let e = key_run_end(s, p);
    if e > p {
        Ok((s.subrange(p, e), byte_offset(s, e - 1), e))
    } else if p < s.len() {
        if s[p] == ',' {
            Ok((Seq::empty(), byte_offset(s, p), p))
        } else {
            Err(ParseError::InvalidKey(byte_offset(s, p) as usize))
        }
    } else {
        Err(ParseError::InvalidKey(i as usize))
    }
}

/// What `parse_value` returns: the maximal nonempty run of value
/// characters at `p`, or `ExpectingValue`.
pub open spec fn spec_parse_value(s: Seq<char>, i: int, p: int) -> Result<
    (Seq<char>, int, int),
    ParseError,
> {
    let e = value_run_end(s, p);
    if e > p {
        Ok((s.subrange(p, e), byte_offset(s, e - 1), e))
    } else {
        Err(ParseError::ExpectingValue(i as usize))
    }
}

/// What `parse_operator` returns for each of the five spellings `=`, `==`,
/// `!=`, `in` and `notin`.
pub open spec fn spec_parse_operator(s: Seq<char>, i: int, p: int) -> Result<
    (Operator, int, int),
    ParseError,
> {
    if p >= s.len() {
        Err(ParseError::InvalidOperator(i as usize))
    } else {
        let i0 = byte_offset(s, p);
        if s[p] == '=' {
            if p + 1 < s.len() && s[p + 1] == '=' {
                Ok((Operator::Equality, byte_offset(s, p + 1), p + 2))
            } else {
                Ok((Operator::Equality, i0, p + 1))
            }
        } else if s[p] == '!' {
            if p + 1 >= s.len() {
                Err(ParseError::InvalidOperator(i0 as usize))
            } else if s[p + 1] == '=' {
                Ok((Operator::InEquality, byte_offset(s, p + 1), p + 2))
            } else {
                Err(ParseError::InvalidOperator(byte_offset(s, p + 1) as usize))
            }
        } else if s[p] == 'i' {
            if p + 1 >= s.len() {
                Err(ParseError::InvalidOperator(i0 as usize))
            } else if s[p + 1] == 'n' {
                Ok((Operator::InSet, byte_offset(s, p + 1), p + 2))
            } else {
                Err(ParseError::InvalidOperator(byte_offset(s, p + 1) as usize))
            }
        } else if s[p] == 'n' {
            if p + 5 <= s.len() && s[p + 1] == 'o' && s[p + 2] == 't' && s[p + 3] == 'i' && s[p + 4]
                == 'n' {
                Ok((Operator::NotInSet, i0 + 5, p + 5))
            } else {
                Err(ParseError::InvalidOperator(i0 as usize))
            }
        } else {
            Err(ParseError::InvalidOperator(i0 as usize))
        }
    }
}

/// One round of the set loop: skip spaces, after the first element expect
/// `)` (which closes the set) or `,`, then scan one value.
pub open spec fn spec_set_values(
    s: Seq<char>,
    i: int,
    p: int,
    acc: Seq<Seq<char>>,
    first: bool,
) -> Result<(Seq<Seq<char>>, int, int), ParseError>
    decreases s.len() - p,
        when 0 <= p <= s.len()
{
    let (i1, p1) = spec_skip_ws(s, i, p);
    if first {
        match spec_parse_value(s, i1, p1) {
            Ok(t) => {
                proof {
                    lemma_skip_ws(s, i, p);
                    lemma_value_run_end(s, p1);
                }
                spec_set_values(s, t.1, t.2, acc.push(t.0), false)
            },
            Err(e) => Err(e),
        }
    } else {
        if p1 >= s.len() {
            Err(ParseError::ExpectingEndOrComma(i1 as usize))
        } else if s[p1] == ')' {
            Ok((acc, byte_offset(s, p1), p1 + 1))
        } else if s[p1] == ',' {
            match spec_parse_value(s, byte_offset(s, p1), p1 + 1) {
                Ok(t) => {
                    proof {
                        lemma_skip_ws(s, i, p);
                        lemma_value_run_end(s, p1 + 1);
                    }
                    spec_set_values(s, t.1, t.2, acc.push(t.0), false)
                },
                Err(e) => Err(e),
            }
        } else {
            Err(ParseError::ExpectingEndOrComma(byte_offset(s, p1) as usize))
        }
    }
}

/// What `parse_set` returns: a `(`, then the comma-separated values up to
/// the closing `)`.
pub open spec fn spec_parse_set(s: Seq<char>, i: int, p: int) -> Result<
    (Seq<Seq<char>>, int, int),
    ParseError,
> {
    if p >= s.len() {
        Err(ParseError::ExpectingLeftParenthesis(i as usize))
    } else if s[p] != '(' {
        Err(ParseError::ExpectingLeftParenthesis(byte_offset(s, p) as usize))
    } else {
        spec_set_values(s, byte_offset(s, p), p + 1, Seq::empty(), true)
    }
}

pub proof fn lemma_set_values_range(s: Seq<char>, i: int, p: int, acc: Seq<Seq<char>>, first: bool)
    requires
        0 <= p <= s.len(),
    ensures
        spec_set_values(s, i, p, acc, first) matches Ok(t) ==> p < t.2 <= s.len(),
    decreases s.len() - p,
{
    let (i1, p1) = spec_skip_ws(s, i, p);
    lemma_skip_ws(s, i, p);
    if first {
        match spec_parse_value(s, i1, p1) {
            Ok(t) => {
                lemma_value_run_end(s, p1);
                lemma_set_values_range(s, t.1, t.2, acc.push(t.0), false);
            },
            Err(_) => {},
        }
    } else {
        if p1 < s.len() && s[p1] != ')' && s[p1] == ',' {
            match spec_parse_value(s, byte_offset(s, p1), p1 + 1) {
                Ok(t) => {
                    lemma_value_run_end(s, p1 + 1);
                    lemma_set_values_range(s, t.1, t.2, acc.push(t.0), false);
                },
                Err(_) => {},
            }
        }
    }
}

/// The value behind an optional label lookup.
pub open spec fn label_view(label: Option<&String>) -> Option<Seq<char>> {
    match label {
        None => None,
        Some(l) => Some(l@),
    }
}

/// Whether the label value equals the scanned value; an absent key always
/// compares unequal.
pub open spec fn spec_compare_value(label: Option<Seq<char>>, value: Seq<char>) -> bool {
    match label {
        None => false,
        Some(l) => l == value,
    }
}

/// Whether the label value is one of the scanned set's values; an absent
/// key is in no set.
pub open spec fn spec_compare_set(label: Option<Seq<char>>, values: Seq<Seq<char>>) -> bool {
    match label {
        None => false,
        Some(l) => values.contains(l),
    }
}

/// What `parse_operation` returns: an operator, spaces, then a value or a
/// set, evaluated against the label value at once.
pub open spec fn spec_parse_operation(
    s: Seq<char>,
    i: int,
    p: int,
    label: Option<Seq<char>>,
) -> Result<(bool, int, int), ParseError> {
    match spec_parse_operator(s, i, p) {
        Err(e) => Err(e),
        Ok(t) => {
            let (i2, p2) = spec_skip_ws(s, t.1, t.2);
            match t.0 {
                Operator::Equality => match spec_parse_value(s, i2, p2) {
                    Ok(v) => Ok((spec_compare_value(label, v.0), v.1, v.2)),
                    Err(e) => Err(e),
                },
                Operator::InEquality => match spec_parse_value(s, i2, p2) {
                    Ok(v) => Ok((!spec_compare_value(label, v.0), v.1, v.2)),
                    Err(e) => Err(e),
                },
                Operator::InSet => match spec_parse_set(s, i2, p2) {
                    Ok(v) => Ok((spec_compare_set(label, v.0), v.1, v.2)),
                    Err(e) => Err(e),
                },
                Operator::NotInSet => match spec_parse_set(s, i2, p2) {
                    Ok(v) => Ok((!spec_compare_set(label, v.0), v.1, v.2)),
                    Err(e) => Err(e),
                },
            }
        },
    }
}

pub proof fn lemma_parse_set_range(s: Seq<char>, i: int, p: int)
    requires
        0 <= p <= s.len(),
    ensures
        spec_parse_set(s, i, p) matches Ok(t) ==> p < t.2 <= s.len(),
{
    if p < s.len() && s[p] == '(' {
        lemma_set_values_range(s, byte_offset(s, p), p + 1, Seq::empty(), true);
    }
}

pub proof fn lemma_parse_operation_range(s: Seq<char>, i: int, p: int, label: Option<Seq<char>>)
    requires
        0 <= p <= s.len(),
    ensures
        spec_parse_operation(s, i, p, label) matches Ok(t) ==> p < t.2 <= s.len(),
{
    match spec_parse_operator(s, i, p) {
        Err(_) => {},
        Ok(ot) => {
            let (i2, p2) = spec_skip_ws(s, ot.1, ot.2);
            lemma_skip_ws(s, ot.1, ot.2);
            lemma_value_run_end(s, p2);
            lemma_parse_set_range(s, i2, p2);
        },
    }
}

/// Whether `!` stood in front of the requirement.
pub open spec fn spec_neg(neg: bool, b: bool) -> bool {
    if neg {
        !b
    } else {
        b
    }
}

/// What `parse_requirement` returns: optional `!`, a key, then either a
/// bare existence check or an operation, evaluated against the label map.
pub open spec fn spec_parse_requirement(
    s: Seq<char>,
    i: int,
    p: int,
    m: Map<Seq<char>, Seq<char>>,
) -> Result<(bool, int, int), ParseError> {
    let (i1, p1) = spec_skip_ws(s, i, p);
    let neg = p1 < s.len() && s[p1] == '!';
    let st2 = if neg {
        spec_skip_ws(s, byte_offset(s, p1), p1 + 1)
    } else {
        (i1, p1)
    };
    match spec_parse_key(s, st2.0, st2.1) {
        Err(e) => Err(e),
        Ok(kt) => {
            let (i4, p4) = spec_skip_ws(s, kt.1, kt.2);
            if p4 >= s.len() {
                Ok((spec_neg(neg, m.contains_key(kt.0)), i4, p4))
            } else if s[p4] == ',' {
                Ok((spec_neg(neg, m.contains_key(kt.0)), byte_offset(s, p4), p4))
            } else {
                let label = if m.contains_key(kt.0) {
                    Some(m[kt.0])
                } else {
                    None
                };
                match spec_parse_operation(s, byte_offset(s, p4), p4, label) {
                    Ok(t) => Ok((spec_neg(neg, t.0), t.1, t.2)),
                    Err(e) => Err(e),
                }
            }
        },
    }
}

pub proof fn lemma_parse_requirement_range(s: Seq<char>, i: int, p: int, m: Map<Seq<char>, Seq<char>>)
    requires
        0 <= p <= s.len(),
    ensures
        spec_parse_requirement(s, i, p, m) matches Ok(t) ==> p <= t.2 <= s.len() && ((p < s.len()
            && s[p] != ' ' && s[p] != ',') ==> p < t.2),
{
    let (i1, p1) = spec_skip_ws(s, i, p);
    lemma_skip_ws(s, i, p);
    let neg = p1 < s.len() && s[p1] == '!';
    let st2 = if neg {
        spec_skip_ws(s, byte_offset(s, p1), p1 + 1)
    } else {
        (i1, p1)
    };
    if neg {
        lemma_skip_ws(s, byte_offset(s, p1), p1 + 1);
    }
    match spec_parse_key(s, st2.0, st2.1) {
        Err(_) => {},
        Ok(kt) => {
            lemma_key_run_end(s, st2.1);
            let (i4, p4) = spec_skip_ws(s, kt.1, kt.2);
            lemma_skip_ws(s, kt.1, kt.2);
            if p4 < s.len() && s[p4] != ',' {
                let label = if m.contains_key(kt.0) {
                    Some(m[kt.0])
                } else {
                    None
                };
                lemma_parse_operation_range(s, byte_offset(s, p4), p4, label);
            }
        },
    }
}

/// The remaining requirements of a selector after the first: each one
/// preceded by optional spaces and a comma, folded into `acc` with AND.
pub open spec fn spec_selector_rest(
    s: Seq<char>,
    i: int,
    p: int,
    acc: bool,
    m: Map<Seq<char>, Seq<char>>,
) -> Result<bool, ParseError>
    decreases s.len() - p,
        when 0 <= p <= s.len()
{
    let (i1, p1) = spec_skip_ws(s, i, p);
    if p1 >= s.len() {
        Ok(acc)
    } else {
        let p2 = if s[p1] == ',' {
            p1 + 1
        } else {
            p1
        };
        match spec_parse_requirement(s, byte_offset(s, p1), p2, m) {
            Err(e) => Err(e),
            Ok(t) => {
                proof {
                    lemma_skip_ws(s, i, p);
                    lemma_parse_requirement_range(s, byte_offset(s, p1), p2, m);
                }
                spec_selector_rest(s, t.1, t.2, t.0 && acc, m)
            },
        }
    }
}

/// What evaluating a whole nonempty selector yields.
pub open spec fn spec_parse_selector(s: Seq<char>, m: Map<Seq<char>, Seq<char>>) -> Result<
    bool,
    ParseError,
> {
    match spec_parse_requirement(s, 0, 0, m) {
        Err(e) => Err(e),
        Ok(t) => spec_selector_rest(s, t.1, t.2, t.0, m),
    }
}

/// What `parse` yields: `EmptySelector` on the empty string, otherwise the
/// conjunction of all requirements, or the first scanning error.
pub open spec fn spec_parse(s: Seq<char>, m: Map<Seq<char>, Seq<char>>) -> Result<
    bool,
    ParseError,
> {
    if s.len() == 0 {
        Err(ParseError::EmptySelector)
    } else {
        spec_parse_selector(s, m)
    }
}

/// Consume ASCII spaces (only `' '`, no other whitespace), leaving the
/// cursor at the first non-space character or at the end.
fn skip_whitespaces(index: &mut usize, chars: &mut Cursor)
    requires
        old(chars).wf(),
    ensures
        final(chars).wf(),
        final(chars).text@ == old(chars).text@,
        old(chars).pos <= final(chars).pos,
        ({
            let (i2, p2) = spec_skip_ws(
                old(chars).text@,
                *old(index) as int,
                old(chars).pos as int,
            );
            *final(index) == i2 && final(chars).pos == p2
        }),
{
    let ghost s = chars.text@;
    let ghost i0 = *index as int;
    let ghost p0 = chars.pos as int;
    loop
        invariant
            chars.wf(),
            chars.text@ == s,
            p0 <= chars.pos,
            spec_skip_ws(s, i0, p0) == spec_skip_ws(s, *index as int, chars.pos as int),
        ensures
            chars.wf(),
            chars.text@ == s,
            p0 <= chars.pos,
            spec_skip_ws(s, i0, p0) == (*index as int, chars.pos as int),
        decreases s.len() - chars.pos,
    {
        match chars.peek() {
            Some((i, c)) => {
                *index = i;
                if c == ' ' {
                    chars.next();
                } else {
                    break ;
                }
            },
            None => {
                break ;
            },
        }
    }
}

/// Scan the longest run of key characters.  A zero-length run is a legal
/// empty key only right before a comma; anything else is `InvalidKey`.
pub fn parse_key(index: &mut usize, chars: &mut Cursor) -> (r: Result<String, ParseError>)
    requires
        old(chars).wf(),
    ensures
        final(chars).wf(),
        final(chars).text@ == old(chars).text@,
        old(chars).pos <= final(chars).pos,
        match r {
            Ok(key) => spec_parse_key(old(chars).text@, *old(index) as int, old(chars).pos as int)
                == Ok::<_, ParseError>((key@, *final(index) as int, final(chars).pos as int)),
            Err(e) => spec_parse_key(old(chars).text@, *old(index) as int, old(chars).pos as int)
                == Err::<(Seq<char>, int, int), _>(e),
        },
{
    let ghost s = chars.text@;
    let ghost i0 = *index as int;
    let ghost p0 = chars.pos as int;
    proof {
        lemma_key_run_end(s, p0);
    }
    let ghost e = key_run_end(s, p0);
    let start = chars.pos;
    loop
        invariant
            chars.wf(),
            chars.text@ == s,
            start == p0,
            p0 <= chars.pos <= e,
            e == key_run_end(s, chars.pos as int),
            e <= s.len(),
            chars.pos > p0 ==> *index == byte_offset(s, chars.pos - 1),
            chars.pos == p0 ==> *index as int == i0,
        ensures
            chars.wf(),
            chars.text@ == s,
            chars.pos == e,
            chars.pos > p0 ==> *index == byte_offset(s, chars.pos - 1),
            chars.pos == p0 ==> *index as int == i0,
        decreases s.len() - chars.pos,
    {
        match chars.peek() {
            Some((i, c)) => {
                if key_char(c) {
                    proof {
                        lemma_key_run_end(s, chars.pos + 1);
                    }
                    *index = i;
                    chars.next();
                } else {
                    break ;
                }
            },
            None => {
                break ;
            },
        }
    }
    if chars.pos > start {
        let key = chars.text.substring_char(start, chars.pos);
        Ok(key.to_owned())
    } else {
        match chars.peek() {
            Some((i, c)) => {
                *index = i;
                if c == ',' {
                    Ok(String::new())
                } else {
                    Err(ParseError::InvalidKey(i))
                }
            },
            None => Err(ParseError::InvalidKey(*index)),
        }
    }
}

/// Scan the longest run of value characters; a value must be nonempty.
fn parse_value(index: &mut usize, chars: &mut Cursor) -> (r: Result<String, ParseError>)
    requires
        old(chars).wf(),
    ensures
        final(chars).wf(),
        final(chars).text@ == old(chars).text@,
        old(chars).pos <= final(chars).pos,
        match r {
            Ok(value) => spec_parse_value(
                old(chars).text@,
                *old(index) as int,
                old(chars).pos as int,
            ) == Ok::<_, ParseError>((value@, *final(index) as int, final(chars).pos as int))
                && final(chars).pos > old(chars).pos,
            Err(e) => spec_parse_value(old(chars).text@, *old(index) as int, old(chars).pos as int)
                == Err::<(Seq<char>, int, int), _>(e),
        },
{
    let ghost s = chars.text@;
    let ghost i0 = *index as int;
    let ghost p0 = chars.pos as int;
    proof {
        lemma_value_run_end(s, p0);
    }
    let ghost e = value_run_end(s, p0);
    let start = chars.pos;
    loop
        invariant
            chars.wf(),
            chars.text@ == s,
            start == p0,
            p0 <= chars.pos <= e,
            e == value_run_end(s, chars.pos as int),
            e <= s.len(),
            chars.pos > p0 ==> *index == byte_offset(s, chars.pos - 1),
            chars.pos == p0 ==> *index as int == i0,
        ensures
            chars.wf(),
            chars.text@ == s,
            chars.pos == e,
            chars.pos > p0 ==> *index == byte_offset(s, chars.pos - 1),
            chars.pos == p0 ==> *index as int == i0,
        decreases s.len() - chars.pos,
    {
        match chars.peek() {
            Some((i, c)) => {
                if value_char(c) {
                    proof {
                        lemma_value_run_end(s, chars.pos + 1);
                    }
                    *index = i;
                    chars.next();
                } else {
                    break ;
                }
            },
            None => {
                break ;
            },
        }
    }
    if chars.pos > start {
        let value = chars.text.substring_char(start, chars.pos);
        Ok(value.to_owned())
    } else {
        Err(ParseError::ExpectingValue(*index))
    }
}

/// Recognize one of `=`, `==`, `!=`, `in`, `notin` by a short fixed
/// lookahead; anything else is `InvalidOperator`.
pub fn parse_operator(index: &mut usize, chars: &mut Cursor) -> (r: Result<Operator, ParseError>)
    requires
        old(chars).wf(),
    ensures
        final(chars).wf(),
        final(chars).text@ == old(chars).text@,
        old(chars).pos <= final(chars).pos,
        match r {
            Ok(op) => spec_parse_operator(
                old(chars).text@,
                *old(index) as int,
                old(chars).pos as int,
            ) == Ok::<_, ParseError>((op, *final(index) as int, final(chars).pos as int))
                && final(chars).pos > old(chars).pos,
            Err(e) => spec_parse_operator(
                old(chars).text@,
                *old(index) as int,
                old(chars).pos as int,
            ) == Err::<(Operator, int, int), _>(e),
        },
{
    let ghost s = chars.text@;
    let ghost p0 = chars.pos as int;
    match chars.next() {
        Some((i, c)) => {
            *index = i;
            if c == '=' {
                match chars.peek() {
                    Some((i2, c2)) => {
                        if c2 == '=' {
                            chars.next();
                            *index = i2;
                        }
                    },
                    None => {},
                }
                Ok(Operator::Equality)
            } else if c == '!' {
                match chars.next() {
                    Some((i2, c2)) => {
                        *index = i2;
                        if c2 == '=' {
                            Ok(Operator::InEquality)
                        } else {
                            Err(ParseError::InvalidOperator(i2))
                        }
                    },
                    None => Err(ParseError::InvalidOperator(i)),
                }
            } else if c == 'i' {
                match chars.next() {
                    Some((i2, c2)) => {
                        *index = i2;
                        if c2 == 'n' {
                            Ok(Operator::InSet)
                        } else {
                            Err(ParseError::InvalidOperator(i2))
                        }
                    },
                    None => Err(ParseError::InvalidOperator(i)),
                }
            } else if c == 'n' {
                // take up to four more characters, which must spell "otin"
                let c1 = chars.next();
                let c2 = chars.next();
                let c3 = chars.next();
                let c4 = chars.next();
                let spelled = match (c1, c2, c3, c4) {
                    (Some((_i1, d1)), Some((_i2, d2)), Some((_i3, d3)), Some((_i4, d4))) => d1
                        == 'o' && d2 == 't' && d3 == 'i' && d4 == 'n',
                    _ => false,
                };
                if spelled {
                    proof {
                        lemma_byte_offset_mono(s, p0 + 5, s.len() as int);
                    }
                    *index = *index + 5;
                    Ok(Operator::NotInSet)
                } else {
                    Err(ParseError::InvalidOperator(i))
                }
            } else {
                Err(ParseError::InvalidOperator(i))
            }
        },
        None => Err(ParseError::InvalidOperator(*index)),
    }
}

/// Scan a parenthesized, comma-separated list of values, preserving order
/// and duplicates.
#[verifier::loop_isolation(false)]
fn parse_set(index: &mut usize, chars: &mut Cursor) -> (r: Result<Vec<String>, ParseError>)
    requires
        old(chars).wf(),
    ensures
        final(chars).wf(),
        final(chars).text@ == old(chars).text@,
        old(chars).pos <= final(chars).pos,
        match r {
            Ok(values) => spec_parse_set(
                old(chars).text@,
                *old(index) as int,
                old(chars).pos as int,
            ) == Ok::<_, ParseError>(
                (values.deep_view(), *final(index) as int, final(chars).pos as int),
            ) && final(chars).pos > old(chars).pos,
            Err(e) => spec_parse_set(old(chars).text@, *old(index) as int, old(chars).pos as int)
                == Err::<(Seq<Seq<char>>, int, int), _>(e),
        },
{
    let ghost s = chars.text@;
    match chars.next() {
        None => {
            return Err(ParseError::ExpectingLeftParenthesis(*index));
        },
        Some((i, c)) => {
            *index = i;
            if c != '(' {
                return Err(ParseError::ExpectingLeftParenthesis(i));
            }
        },
    }
    let mut result: Vec<String> = Vec::new();
    let mut first = true;
    let ghost il = *index as int;
    let ghost pl = chars.pos as int;
    proof {
        assert(result.deep_view() =~= Seq::<Seq<char>>::empty());
    }
    loop
        invariant
            chars.wf(),
            chars.text@ == s,
            0 <= pl <= s.len(),
            pl <= chars.pos,
            spec_set_values(s, il, pl, Seq::empty(), true) == spec_set_values(
                s,
                *index as int,
                chars.pos as int,
                result.deep_view(),
                first,
            ),
        decreases s.len() - chars.pos,
    {
        let ghost dv0 = result.deep_view();
        skip_whitespaces(index, chars);
        if !first {
            match chars.next() {
                None => {
                    return Err(ParseError::ExpectingEndOrComma(*index));
                },
                Some((i, c)) => {
                    *index = i;
                    if c == ')' {
                        return Ok(result);
                    } else if c != ',' {
                        return Err(ParseError::ExpectingEndOrComma(i));
                    }
                },
            }
        }
        first = false;
        match parse_value(index, chars) {
            Ok(v) => {
                result.push(v);
                proof {
                    assert(result.deep_view() =~= dv0.push(v@));
                }
            },
            Err(e) => {
                return Err(e);
            },
        }
    }
}

/// The equality comparison between the label value and a scanned value.
fn compare_value(label: Option<&String>, value: String) -> (b: bool)
    ensures
        b == spec_compare_value(label_view(label), value@),
{
    match label {
        None => false,
        Some(l) => *l == value,
    }
}

/// The membership test between the label value and a scanned set.
#[verifier::loop_isolation(false)]
fn compare_set(label: Option<&String>, values: Vec<String>) -> (b: bool)
    ensures
        b == spec_compare_set(label_view(label), values.deep_view()),
{
    match label {
        None => false,
        Some(l) => {
            let n = values.len();
            let mut j: usize = 0;
            while j < n
                invariant
                    j <= n,
                    n == values@.len(),
                    forall|q: int| 0 <= q < j ==> values@[q]@ != l@,
                decreases n - j,
            {
                if values[j] == *l {
                    proof {
                        assert(values.deep_view().len() == values@.len());
                        assert(values.deep_view()[j as int] == l@);
                        assert(values.deep_view().contains(l@));
                    }
                    return true;
                }
                j += 1;
            }
            proof {
                assert forall|q: int| 0 <= q < values.deep_view().len() implies values.deep_view()[q]
                    != l@ by {
                    assert(values.deep_view()[q] == values@[q]@);
                }
            }
            false
        },
    }
}

/// Scan an operator and its operand, and evaluate it against the label
/// value at once.
fn parse_operation(index: &mut usize, label: Option<&String>, chars: &mut Cursor) -> (r: Result<
    bool,
    ParseError,
>)
    requires
        old(chars).wf(),
    ensures
        final(chars).wf(),
        final(chars).text@ == old(chars).text@,
        old(chars).pos <= final(chars).pos,
        match r {
            Ok(b) => spec_parse_operation(
                old(chars).text@,
                *old(index) as int,
                old(chars).pos as int,
                label_view(label),
            ) == Ok::<_, ParseError>((b, *final(index) as int, final(chars).pos as int))
                && final(chars).pos > old(chars).pos,
            Err(e) => spec_parse_operation(
                old(chars).text@,
                *old(index) as int,
                old(chars).pos as int,
                label_view(label),
            ) == Err::<(bool, int, int), _>(e),
        },
{
    let operator = match parse_operator(index, chars) {
        Ok(o) => o,
        Err(e) => {
            return Err(e);
        },
    };
    skip_whitespaces(index, chars);
    match operator {
        Operator::Equality => {
            match parse_value(index, chars) {
                Ok(v) => Ok(compare_value(label, v)),
                Err(e) => Err(e),
            }
        },
        Operator::InEquality => {
            match parse_value(index, chars) {
                Ok(v) => Ok(!compare_value(label, v)),
                Err(e) => Err(e),
            }
        },
        Operator::InSet => {
            match parse_set(index, chars) {
                Ok(vs) => Ok(compare_set(label, vs)),
                Err(e) => Err(e),
            }
        },
        Operator::NotInSet => {
            match parse_set(index, chars) {
                Ok(vs) => Ok(!compare_set(label, vs)),
                Err(e) => Err(e),
            }
        },
    }
}

/// Scan one requirement and evaluate it against the label map: optional
/// `!`, a key, then either a bare existence check (before `,` or the end)
/// or an operator with its operand.
fn parse_requirement(index: &mut usize, chars: &mut Cursor, labels: &LabelMap) -> (r: Result<
    bool,
    ParseError,
>)
    requires
        old(chars).wf(),
    ensures
        final(chars).wf(),
        final(chars).text@ == old(chars).text@,
        old(chars).pos <= final(chars).pos,
        match r {
            Ok(b) => spec_parse_requirement(
                old(chars).text@,
                *old(index) as int,
                old(chars).pos as int,
                labels@,
            ) == Ok::<_, ParseError>((b, *final(index) as int, final(chars).pos as int)),
            Err(e) => spec_parse_requirement(
                old(chars).text@,
                *old(index) as int,
                old(chars).pos as int,
                labels@,
            ) == Err::<(bool, int, int), _>(e),
        },
{
    skip_whitespaces(index, chars);
    let mut positive = true;
    match chars.peek() {
        Some((i, c)) => {
            if c == '!' {
                *index = i;
                positive = false;
                chars.next();
                skip_whitespaces(index, chars);
            }
        },
        None => {},
    }
    let key = match parse_key(index, chars) {
        Ok(k) => k,
        Err(e) => {
            return Err(e);
        },
    };
    skip_whitespaces(index, chars);
    let simple_exists_check = match chars.peek() {
        None => true,
        Some((i, c)) => {
            *index = i;
            c == ','
        },
    };
    let value = if simple_exists_check {
        labels.contains_key(key.as_str())
    } else {
        match parse_operation(index, labels.get(key.as_str()), chars) {
            Ok(b) => b,
            Err(e) => {
                return Err(e);
            },
        }
    };
    Ok(if positive {
        value
    } else {
        !value
    })
}

/// Scan a whole selector: the first requirement, then further
/// requirements after commas, folded together with AND.
#[verifier::loop_isolation(false)]
fn parse_selector(selector: &str, labels: &LabelMap) -> (r: Result<bool, ParseError>)
    ensures
        r == spec_parse_selector(selector@, labels@),
{
    let ghost s = selector@;
    let mut chars = Cursor::new(selector);
    let mut index: usize = 0;
    let mut result = match parse_requirement(&mut index, &mut chars, labels) {
        Ok(b) => b,
        Err(e) => {
            return Err(e);
        },
    };
    loop
        invariant
            chars.wf(),
            chars.text@ == s,
            spec_parse_selector(s, labels@) == spec_selector_rest(
                s,
                index as int,
                chars.pos as int,
                result,
                labels@,
            ),
        decreases s.len() - chars.pos,
    {
        let ghost pentry = chars.pos as int;
        let ghost ientry = index as int;
        skip_whitespaces(&mut index, &mut chars);
        proof {
            lemma_skip_ws(s, ientry, pentry);
        }
        match chars.peek() {
            Some((i, c)) => {
                if c == ',' {
                    chars.next();
                }
                index = i;
            },
            None => {
                return Ok(result);
            },
        }
        proof {
            lemma_parse_requirement_range(s, index as int, chars.pos as int, labels@);
        }
        match parse_requirement(&mut index, &mut chars, labels) {
            Ok(b) => {
                result = b && result;
            },
            Err(e) => {
                return Err(e);
            },
        }
    }
}

/// Evaluate `selector` against `labelmap`: `Ok(true)` when every
/// comma-separated requirement holds, `Ok(false)` when one does not, and
/// the first scanning error otherwise.  The empty selector is refused.
pub fn parse(selector: &str, labelmap: &LabelMap) -> (r: Result<bool, ParseError>)
    ensures
        r == spec_parse(selector@, labelmap@),
{
    if selector.is_empty() {
        return Err(ParseError::EmptySelector);
    }
    parse_selector(selector, labelmap)
}

} // verus!
