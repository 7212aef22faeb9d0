//! The grammar of parameterized route paths such as `/a/:name/:id([0-9]+)`.

use vstd::prelude::*;
use crate::pattern::{Pattern, regex_compiles};
use crate::text::{alphanumeric, is_alphanumeric, first_index, find_first, slice_to_vec, string_of, chars_eq};
use crate::trie::{Field, FieldView, RouteError};

verus! {

/// Where the scanner stands within the path.
#[derive(Clone, Copy, PartialEq, Eq, Structural, Debug)]
pub enum SplitState {
    /// Inside a literal segment.
    Normal,
    /// Right after a `/`.
    JustSplit,
    /// Inside a parameter name.
    InName,
    /// Inside a parameter's validator.
    InRegex,
    /// Right after a validator's closing `)`.
    RegexEnd,
}

/// One step of the scanner on character `c`: the next state and whether `c`
/// ends a segment. A `:` is allowed only right after a `/`, a `(` only right
/// after a parameter name (or inside a validator).
pub open spec fn step(st: SplitState, c: char) -> Result<(SplitState, bool), RouteError> {
    if c == ':' && st == SplitState::JustSplit {
        Ok((SplitState::InName, false))
    } else if c == '(' && st == SplitState::InName {
        Ok((SplitState::InRegex, false))
    } else if c == ')' && st == SplitState::InRegex {
        Ok((SplitState::RegexEnd, false))
    } else if c == '/' && (st == SplitState::Normal || st == SplitState::InName || st == SplitState::RegexEnd) {
        Ok((SplitState::JustSplit, true))
    } else if c == '/' && st == SplitState::JustSplit {
        Err(RouteError::EmptySegment)
    } else if c == ':' && (st == SplitState::Normal || st == SplitState::InName) {
        Err(RouteError::MisplacedColon)
    } else if c == '(' && (st == SplitState::Normal || st == SplitState::JustSplit) {
        Err(RouteError::MisplacedValidator)
    } else if st == SplitState::InName && !alphanumeric(c) {
        Err(RouteError::InvalidParamName)
    } else if st == SplitState::RegexEnd {
        Err(RouteError::TextAfterValidator)
    } else if st == SplitState::JustSplit {
        Ok((SplitState::Normal, false))
    } else {
        Ok((st, false))
    }
}

pub fn step_exec(st: SplitState, c: char) -> (r: Result<(SplitState, bool), RouteError>)
    ensures
        r == step(st, c),
{
    if c == ':' && st == SplitState::JustSplit {
        Ok((SplitState::InName, false))
    } else if c == '(' && st == SplitState::InName {
        Ok((SplitState::InRegex, false))
    } else if c == ')' && st == SplitState::InRegex {
        Ok((SplitState::RegexEnd, false))
    } else if c == '/' && (st == SplitState::Normal || st == SplitState::InName || st == SplitState::RegexEnd) {
        Ok((SplitState::JustSplit, true))
    } else if c == '/' && st == SplitState::JustSplit {
        Err(RouteError::EmptySegment)
    } else if c == ':' && (st == SplitState::Normal || st == SplitState::InName) {
        Err(RouteError::MisplacedColon)
    } else if c == '(' && (st == SplitState::Normal || st == SplitState::JustSplit) {
        Err(RouteError::MisplacedValidator)
    } else if st == SplitState::InName && !is_alphanumeric(c) {
        Err(RouteError::InvalidParamName)
    } else if st == SplitState::RegexEnd {
        Err(RouteError::TextAfterValidator)
    } else if st == SplitState::JustSplit {
        Ok((SplitState::Normal, false))
    } else {
        Ok((st, false))
    }
}

/// A parameter segment's name and validator, once `:` is dropped: a trailing
/// `name(regex)` gives a validator, which must compile.
pub open spec fn param_parts(name: Seq<char>) -> Result<(Seq<char>, Option<Seq<char>>), RouteError> {
    if name.len() > 1 && name.last() == ')' {
        let inner = name.drop_last();
        let k = first_index(inner, '(');
        if 0 <= k < inner.len() {
            let before = inner.subrange(0, k);
            let after = inner.subrange(k + 1, inner.len() as int);
            if before.len() == 0 {
                Err(RouteError::ValidatorWithoutName)
            } else if after.len() == 0 {
                Err(RouteError::EmptyValidator)
            } else if regex_compiles(after) {
                Ok((before, Some(after)))
            } else {
                Err(RouteError::InvalidValidator)
            }
        } else {
            Ok((name, None))
        }
    } else {
        Ok((name, None))
    }
}

/// The field of one segment, given the parameter names seen so far: `None`
/// for an empty segment, else the field and the names with its own added.
pub open spec fn segment_field(seg: Seq<char>, names: Seq<Seq<char>>) -> Result<Option<(FieldView, Seq<Seq<char>>)>, RouteError> {
    if seg.len() == 0 {
        Ok(None)
    } else if seg[0] == ':' {
        let name = seg.drop_first();
        if name.len() == 0 {
            Err(RouteError::EmptyParamName)
        } else {
            match param_parts(name) {
                Err(e) => Err(e),
                Ok((n, v)) => if names.contains(n) {
                    Err(RouteError::DuplicateParam)
                } else {
                    Ok(Some(((n, true, v), names.push(n))))
                },
            }
        }
    } else {
        Ok(Some(((seg, false, None), names)))
    }
}

/// The fields of `s` from position `i` on, the scanner being in `st`, the
/// current segment starting at `start`.
pub open spec fn scan(s: Seq<char>, i: int, st: SplitState, start: int, acc: Seq<FieldView>, names: Seq<Seq<char>>) -> Result<Seq<FieldView>, RouteError>
    decreases s.len() - i,
{
    if i >= s.len() {
        if st == SplitState::InRegex {
            Err(RouteError::UnterminatedValidator)
        } else {
            match segment_field(s.subrange(start, s.len() as int), names) {
                Err(e) => Err(e),
                Ok(None) => Ok(acc),
                Ok(Some((f, _))) => Ok(acc.push(f)),
            }
        }
    } else {
        match step(st, s[i]) {
            Err(e) => Err(e),
            Ok((st2, is_split)) => if !is_split {
                scan(s, i + 1, st2, start, acc, names)
            } else {
                match segment_field(s.subrange(start, i), names) {
                    Err(e) => Err(e),
                    Ok(None) => scan(s, i + 1, st2, i + 1, acc, names),
                    Ok(Some((f, names2))) => scan(s, i + 1, st2, i + 1, acc.push(f), names2),
                }
            },
        }
    }
}

/// The fields of a parameterized route path, or why it is malformed.
pub open spec fn parse_route(s: Seq<char>) -> Result<Seq<FieldView>, RouteError> {
    scan(s, 0, SplitState::Normal, 0, Seq::empty(), Seq::empty())
}

fn contains_name(names: &Vec<Vec<char>>, name: &Vec<char>) -> (r: bool)
    ensures
        r == names@.map_values(|v: Vec<char>| v@).contains(name@),
{
    let ghost nv = names@.map_values(|v: Vec<char>| v@);
    let mut i: usize = 0;
    while i < names.len()
        invariant
            i <= names@.len(),
            nv == names@.map_values(|v: Vec<char>| v@),
            forall|j: int| 0 <= j < i ==> nv[j] != name@,
        decreases names@.len() - i,
    {
        if chars_eq(&names[i], name) {
            assert(nv[i as int] == name@);
            return true;
        }
        i = i + 1;
    }
    false
}

/// The field of segment `seg`, recording a parameter's name in `names`.
pub fn segment_to_field(seg: &[char], names: &mut Vec<Vec<char>>) -> (r: Result<Option<Field>, RouteError>)
    ensures
        match segment_field(seg@, old(names)@.map_values(|v: Vec<char>| v@)) {
            Err(e) => r == Err::<Option<Field>, RouteError>(e),
            Ok(None) => r matches Ok(None) && final(names)@ == old(names)@,
            Ok(Some((f, n2))) => r matches Ok(Some(g)) && g@ == f && final(names)@.map_values(|v: Vec<char>| v@) == n2,
        },
{
    let ghost nv = names@.map_values(|v: Vec<char>| v@);
    if seg.len() == 0 {
        return Ok(None);
    }
    if seg[0] != ':' {
        let name = string_of(seg);
        return Ok(Some(Field::new(name, false, None)));
    }
    let name = slice_to_vec(seg, 1, seg.len());
    assert(name@ =~= seg@.drop_first());
    if name.len() == 0 {
        return Err(RouteError::EmptyParamName);
    }
    let mut final_name = name.clone();
    let mut validation: Option<Pattern> = None;
    let n = name.len();
    if n > 1 && name[n - 1] == ')' {
        let inner = slice_to_vec(&name, 0, n - 1);
        assert(inner@ =~= name@.drop_last());
        match find_first(&inner, '(') {
            Some(k) => {
                proof { crate::text::lemma_first_index_range(inner@, '('); }
                let before = slice_to_vec(&inner, 0, k);
                let after = slice_to_vec(&inner, k + 1, inner.len());
                if before.len() == 0 {
                    return Err(RouteError::ValidatorWithoutName);
                }
                if after.len() == 0 {
                    return Err(RouteError::EmptyValidator);
                }
                let src = string_of(&after);
                match Pattern::parse(src.as_str()) {
                    Some(p) => {
                        validation = Some(p);
                        final_name = before;
                    },
                    None => {
                        return Err(RouteError::InvalidValidator);
                    },
                }
            },
            None => {},
        }
    }
    assert(param_parts(name@) == Ok::<(Seq<char>, Option<Seq<char>>), RouteError>((final_name@, match validation {
        Some(p) => Some(p@),
        None => None,
    })));
    if contains_name(names, &final_name) {
        return Err(RouteError::DuplicateParam);
    }
    let field = Field::new(string_of(&final_name), true, validation);
    names.push(final_name);
    assert(names@.map_values(|v: Vec<char>| v@) =~= nv.push(field@.0));
    Ok(Some(field))
}

} // verus!
