//! Instance expressions: a head and the steps taken from it.
use vstd::prelude::*;
use crate::roblox::lexing::{
    identifier_end, identifier_end_moves, literal_from, literal_from_moves, read_identifier,
    read_string, skip_space, space_end, space_end_moves,
};
use crate::text::{is_white_space, owned, same_text, to_chars, white_space};

verus! {

/// One step from an instance to another.
#[derive(Debug, PartialEq, Eq)]
pub enum Step {
    Child(String),
    Parent,
}

/// An expression that names an instance: where it starts and the steps it takes.
#[derive(Debug, PartialEq, Eq)]
pub struct Chain {
    pub head: String,
    pub steps: Vec<Step>,
}

pub enum StepModel {
    Child(Seq<char>),
    Parent,
}

pub struct ChainModel {
    pub head: Seq<char>,
    pub steps: Seq<StepModel>,
}

impl DeepView for Step {
    type V = StepModel;

    open spec fn deep_view(&self) -> StepModel {
        match self {
            Step::Child(name) => StepModel::Child(name@),
            Step::Parent => StepModel::Parent,
        }
    }
}

impl DeepView for Chain {
    type V = ChainModel;

    open spec fn deep_view(&self) -> ChainModel {
        ChainModel { head: self.head@, steps: self.steps.deep_view() }
    }
}

/// Methods whose argument names a child.
pub open spec fn finds_a_child(method: Seq<char>) -> bool {
    ||| method == "GetService"@
    ||| method == "WaitForChild"@
    ||| method == "FindFirstChild"@
}

fn child_by_name_method(method: &str) -> (b: bool)
    ensures
        b == finds_a_child(method@),
{
    same_text(method, "GetService") || same_text(method, "WaitForChild") || same_text(
        method,
        "FindFirstChild",
    )
}

/// The string literal of an argument list of which `depth` parentheses are open at `i`, where
/// nothing but that literal comes first, and where the list ends.
pub open spec fn call_argument_from(
    chars: Seq<char>,
    i: int,
    depth: int,
    literal: Option<Seq<char>>,
    only_literal: bool,
) -> (Option<Seq<char>>, int)
    decreases chars.len() - i,
{
    if i < 0 || i >= chars.len() {
        (None, i)
    } else if chars[i] == '(' {
        call_argument_from(chars, i + 1, depth + 1, literal, only_literal)
    } else if chars[i] == ')' {
        if depth == 1 {
            (
                if only_literal {
                    literal
                } else {
                    None
                },
                i + 1,
            )
        } else {
            call_argument_from(chars, i + 1, depth - 1, literal, only_literal)
        }
    } else if chars[i] == '"' || chars[i] == '\'' {
        proof {
            literal_from_moves(chars, i + 1, chars[i]);
        }
        let (text, end) = literal_from(chars, i + 1, chars[i]);
        call_argument_from(
            chars,
            end,
            depth,
            if literal is None {
                Some(text)
            } else {
                literal
            },
            only_literal,
        )
    } else if is_white_space(chars[i]) || chars[i] == ',' {
        call_argument_from(chars, i + 1, depth, literal, only_literal)
    } else {
        call_argument_from(chars, i + 1, depth, literal, only_literal && literal is Some)
    }
}

/// The string literal a call is given, and where the call ends.
pub open spec fn call_argument(chars: Seq<char>, i: int) -> (Option<Seq<char>>, int) {
    let open = space_end(chars, i);
    if open >= chars.len() || chars[open] != '(' {
        (None, open)
    } else {
        call_argument_from(chars, open, 0, None, true)
    }
}

/// The string literal between brackets, where they hold nothing else, and where they end.
pub open spec fn bracket_argument_from(
    chars: Seq<char>,
    i: int,
    literal: Option<Seq<char>>,
    only_literal: bool,
) -> (Option<Seq<char>>, int)
    decreases chars.len() - i,
{
    if i < 0 || i >= chars.len() {
        (None, i)
    } else if chars[i] == ']' {
        (
            if only_literal {
                literal
            } else {
                None
            },
            i + 1,
        )
    } else if chars[i] == '"' || chars[i] == '\'' {
        proof {
            literal_from_moves(chars, i + 1, chars[i]);
        }
        let (text, end) = literal_from(chars, i + 1, chars[i]);
        bracket_argument_from(
            chars,
            end,
            if literal is None {
                Some(text)
            } else {
                literal
            },
            only_literal,
        )
    } else if is_white_space(chars[i]) {
        bracket_argument_from(chars, i + 1, literal, only_literal)
    } else {
        bracket_argument_from(chars, i + 1, literal, false)
    }
}

proof fn call_argument_from_moves(
    chars: Seq<char>,
    i: int,
    depth: int,
    literal: Option<Seq<char>>,
    only_literal: bool,
)
    requires
        0 <= i <= chars.len(),
    ensures
        i <= call_argument_from(chars, i, depth, literal, only_literal).1 <= chars.len(),
    decreases chars.len() - i,
{
    if i < chars.len() {
        if chars[i] == '(' {
            call_argument_from_moves(chars, i + 1, depth + 1, literal, only_literal);
        } else if chars[i] == ')' {
            if depth != 1 {
                call_argument_from_moves(chars, i + 1, depth - 1, literal, only_literal);
            }
        } else if chars[i] == '"' || chars[i] == '\'' {
            literal_from_moves(chars, i + 1, chars[i]);
            let (text, end) = literal_from(chars, i + 1, chars[i]);
            call_argument_from_moves(
                chars,
                end,
                depth,
                if literal is None {
                    Some(text)
                } else {
                    literal
                },
                only_literal,
            );
        } else if is_white_space(chars[i]) || chars[i] == ',' {
            call_argument_from_moves(chars, i + 1, depth, literal, only_literal);
        } else {
            call_argument_from_moves(
                chars,
                i + 1,
                depth,
                literal,
                only_literal && literal is Some,
            );
        }
    }
}

pub proof fn call_argument_moves(chars: Seq<char>, i: int)
    requires
        0 <= i <= chars.len(),
    ensures
        i <= call_argument(chars, i).1 <= chars.len(),
{
    space_end_moves(chars, i);
    call_argument_from_moves(chars, space_end(chars, i), 0, None, true);
}

pub proof fn bracket_argument_from_moves(
    chars: Seq<char>,
    i: int,
    literal: Option<Seq<char>>,
    only_literal: bool,
)
    requires
        0 <= i <= chars.len(),
    ensures
        i <= bracket_argument_from(chars, i, literal, only_literal).1 <= chars.len(),
    decreases chars.len() - i,
{
    if i < chars.len() {
        if chars[i] == ']' {
        } else if chars[i] == '"' || chars[i] == '\'' {
            literal_from_moves(chars, i + 1, chars[i]);
            let (text, end) = literal_from(chars, i + 1, chars[i]);
            bracket_argument_from_moves(
                chars,
                end,
                if literal is None {
                    Some(text)
                } else {
                    literal
                },
                only_literal,
            );
        } else if is_white_space(chars[i]) {
            bracket_argument_from_moves(chars, i + 1, literal, only_literal);
        } else {
            bracket_argument_from_moves(chars, i + 1, literal, false);
        }
    }
}

/// A step before the steps that follow it, or the reason they cannot be read.
pub open spec fn then_steps(
    first: Seq<StepModel>,
    rest: Result<Seq<StepModel>, Seq<char>>,
) -> Result<Seq<StepModel>, Seq<char>> {
    match rest {
        Ok(steps) => Ok(first + steps),
        Err(reason) => Err(reason),
    }
}

/// The step a name after a dot takes.
pub open spec fn named_step(name: Seq<char>) -> StepModel {
    if name == "Parent"@ {
        StepModel::Parent
    } else {
        StepModel::Child(name)
    }
}

/// The steps of an expression from `i` on, or why they cannot be told without running it.
pub open spec fn steps_from(chars: Seq<char>, i: int) -> Result<Seq<StepModel>, Seq<char>>
    decreases chars.len() - i,
{
    if i < 0 || i > chars.len() {
        Ok(Seq::empty())
    } else {
        proof {
            space_end_moves(chars, i);
        }
        let at = space_end(chars, i);
        if at >= chars.len() {
            Ok(Seq::empty())
        } else if chars[at] == '.' {
            proof {
                identifier_end_moves(chars, at + 1);
            }
            let end = identifier_end(chars, at + 1);
            if end == at + 1 {
                Err("not an instance expression"@)
            } else {
                then_steps(
                    seq![named_step(chars.subrange(at + 1, end))],
                    steps_from(chars, end),
                )
            }
        } else if chars[at] == ':' {
            proof {
                identifier_end_moves(chars, at + 1);
                call_argument_moves(chars, identifier_end(chars, at + 1));
            }
            let end = identifier_end(chars, at + 1);
            let method = chars.subrange(at + 1, end);
            let (argument, next) = call_argument(chars, end);
            if argument is Some && finds_a_child(method) {
                then_steps(seq![StepModel::Child(argument->0)], steps_from(chars, next))
            } else {
                Err("cannot resolve :"@ + method + "(...) statically"@)
            }
        } else if chars[at] == '[' {
            proof {
                bracket_argument_from_moves(chars, at + 1, None, true);
            }
            let (argument, next) = bracket_argument_from(chars, at + 1, None, true);
            match argument {
                Some(name) => then_steps(seq![StepModel::Child(name)], steps_from(chars, next)),
                None => Err("indexed by a value, not a literal name"@),
            }
        } else if chars[at] == '(' {
            Err("the require argument is a call result"@)
        } else {
            Err("not an instance expression"@)
        }
    }
}

/// The chain an expression describes, or why it describes none.
pub open spec fn chain_of(chars: Seq<char>) -> Result<ChainModel, Seq<char>> {
    let start = space_end(chars, 0);
    let end = identifier_end(chars, start);
    if end == start {
        Err("not an instance expression"@)
    } else {
        match steps_from(chars, end) {
            Ok(steps) => Ok(ChainModel { head: chars.subrange(start, end), steps }),
            Err(reason) => Err(reason),
        }
    }
}

fn read_call_argument(chars: &[char], from: usize) -> (r: (Option<String>, usize))
    requires
        from <= chars@.len(),
    ensures
        r.0.deep_view() == call_argument(chars@, from as int).0,
        r.1 == call_argument(chars@, from as int).1,
        from <= r.1 <= chars@.len(),
{
    let end: usize = chars.len();
    let mut index: usize = skip_space(chars, from);
    if index >= end || chars[index] != '(' {
        return (None, index);
    }
    let ghost open = index as int;
    let mut depth: usize = 0;
    let mut literal: Option<String> = None;
    let mut only_literal = true;
    while index < end
        invariant
            end == chars@.len(),
            from <= open <= index <= end,
            depth <= index,
            index < end && depth == 0 ==> chars@[index as int] == '(',
            call_argument_from(chars@, open, 0, None, true) == call_argument_from(
                chars@,
                index as int,
                depth as int,
                literal.deep_view(),
                only_literal,
            ),
            open == space_end(chars@, from as int),
            open < end,
            chars@[open] == '(',
        decreases end - index,
    {
        let c = chars[index];
        if c == '(' {
            depth = depth + 1;
            index = index + 1;
        } else if c == ')' {
            depth = depth - 1;
            index = index + 1;
            if depth == 0 {
                if only_literal {
                    return (literal, index);
                } else {
                    return (None, index);
                }
            }
        } else if c == '"' || c == '\'' {
            let (text, next) = read_string(chars, index, c);
            if literal.is_none() {
                literal = Some(text);
            }
            index = next;
        } else if white_space(c) || c == ',' {
            index = index + 1;
        } else {
            if literal.is_none() {
                only_literal = false;
            }
            index = index + 1;
        }
    }
    (None, index)
}

fn read_bracket_argument(chars: &[char], from: usize) -> (r: (Option<String>, usize))
    requires
        from < chars@.len(),
    ensures
        r.0.deep_view() == bracket_argument_from(chars@, from + 1, None, true).0,
        r.1 == bracket_argument_from(chars@, from + 1, None, true).1,
        from < r.1 <= chars@.len(),
{
    let end: usize = chars.len();
    let mut index: usize = from + 1;
    let mut literal: Option<String> = None;
    let mut only_literal = true;
    while index < end
        invariant
            end == chars@.len(),
            from < index <= end,
            bracket_argument_from(chars@, from + 1, None, true) == bracket_argument_from(
                chars@,
                index as int,
                literal.deep_view(),
                only_literal,
            ),
        decreases end - index,
    {
        let c = chars[index];
        if c == ']' {
            if only_literal {
                return (literal, index + 1);
            } else {
                return (None, index + 1);
            }
        } else if c == '"' || c == '\'' {
            let (text, next) = read_string(chars, index, c);
            if literal.is_none() {
                literal = Some(text);
            }
            index = next;
        } else if white_space(c) {
            index = index + 1;
        } else {
            only_literal = false;
            index = index + 1;
        }
    }
    (None, index)
}

/// Reads an expression as the traversal it describes.
pub fn parse_chain(expression: &str) -> (r: Result<Chain, String>)
    ensures
        match r {
            Ok(chain) => chain_of(expression@) == Ok::<ChainModel, Seq<char>>(chain.deep_view()),
            Err(reason) => chain_of(expression@) == Err::<ChainModel, Seq<char>>(reason@),
        },
{
    let chars = to_chars(expression);
    let end: usize = chars.len();
    let start = skip_space(&chars, 0);
    let (head, next) = read_identifier(&chars, start);
    if next == start {
        return Err(owned("not an instance expression"));
    }
    let mut index: usize = next;
    let mut steps: Vec<Step> = Vec::new();
    let ghost whole = steps_from(chars@, next as int);
    assert(whole == then_steps(steps.deep_view(), whole)) by {
        if let Ok(all) = whole {
            assert(steps.deep_view() + all =~= all);
        }
    }
    loop
        invariant
            end == chars@.len(),
            chars@ == expression@,
            index <= end,
            start == space_end(chars@, 0),
            next == identifier_end(chars@, start as int),
            start < next,
            head@ == chars@.subrange(start as int, next as int),
            whole == steps_from(chars@, next as int),
            whole == then_steps(steps.deep_view(), steps_from(chars@, index as int)),
        decreases end - index,
    {
        let ghost before = steps.deep_view();
        let at = skip_space(&chars, index);
        if at >= end {
            assert(before + Seq::<StepModel>::empty() =~= before);
            return Ok(Chain { head, steps });
        }
        let c = chars[at];
        if c == '.' {
            let (name, after) = read_identifier(&chars, at + 1);
            if after == at + 1 {
                return Err(owned("not an instance expression"));
            }
            let ghost step = named_step(name@);
            steps.push(
                if same_text(name.as_str(), "Parent") {
                    Step::Parent
                } else {
                    Step::Child(name)
                },
            );
            index = after;
            proof {
                assert(steps.deep_view() =~= before.push(step));
                if let Ok(rest) = steps_from(chars@, after as int) {
                    assert(before + (seq![step] + rest) =~= steps.deep_view() + rest);
                }
            }
        } else if c == ':' {
            let (method, after) = read_identifier(&chars, at + 1);
            let (argument, after) = read_call_argument(&chars, after);
            match argument {
                Some(name) => {
                    if child_by_name_method(method.as_str()) {
                        let ghost step = StepModel::Child(name@);
                        steps.push(Step::Child(name));
                        index = after;
                        proof {
                            assert(steps.deep_view() =~= before.push(step));
                            if let Ok(rest) = steps_from(chars@, after as int) {
                                assert(before + (seq![step] + rest) =~= steps.deep_view() + rest);
                            }
                        }
                    } else {
                        return Err(unresolvable_method(method.as_str()));
                    }
                },
                None => {
                    return Err(unresolvable_method(method.as_str()));
                },
            }
        } else if c == '[' {
            let (argument, after) = read_bracket_argument(&chars, at);
            match argument {
                Some(name) => {
                    let ghost step = StepModel::Child(name@);
                    steps.push(Step::Child(name));
                    index = after;
                    proof {
                        assert(steps.deep_view() =~= before.push(step));
                        if let Ok(rest) = steps_from(chars@, after as int) {
                            assert(before + (seq![step] + rest) =~= steps.deep_view() + rest);
                        }
                    }
                },
                None => {
                    return Err(owned("indexed by a value, not a literal name"));
                },
            }
        } else if c == '(' {
            return Err(owned("the require argument is a call result"));
        } else {
            return Err(owned("not an instance expression"));
        }
    }
}

fn unresolvable_method(method: &str) -> (reason: String)
    ensures
        reason@ == "cannot resolve :"@ + method@ + "(...) statically"@,
{
    let mut reason = owned("cannot resolve :");
    reason.append(method);
    reason.append("(...) statically");
    reason
}

} // verus!
