//! What holds of every require that names an instance.
use vstd::prelude::*;
use super::chain::{
    bracket_argument_from, bracket_argument_from_moves, call_argument, call_argument_from,
    call_argument_moves, chain_of, finds_a_child, steps_from, ChainModel, StepModel,
};
use super::resolve::{instance_target, require_target, walk_steps, MAX_BINDING_HOPS};
use super::scan::bound_to;
use super::string_require::DiskModel;
use crate::roblox::lexing::{
    identifier_end, identifier_end_moves, is_identifier_char, literal_from, literal_from_moves,
    space_end, space_end_moves,
};
use crate::roblox::sourcemap::{child_named, first_luau, names_luau, NodeModel};
use crate::roblox::sourcemap_laws::is_identifier;
use crate::text::{is_white_space, trimmed};

verus! {

// ---------------------------------------------------------------------------
// Steps

/// Steps lead on from where the steps before them lead: where some steps lead from one instance to
/// another, more steps behind them lead where those lead from the other. Where the first lead nowhere,
/// all of them lead nowhere, and for the same reason. No steps stay where they are.
pub proof fn steps_lead_on(
    nodes: Seq<NodeModel>,
    at: int,
    first: Seq<StepModel>,
    more: Seq<StepModel>,
)
    ensures
        walk_steps(nodes, at, Seq::empty()) == Ok::<int, Seq<char>>(at),
        walk_steps(nodes, at, first) matches Ok(there) ==> walk_steps(nodes, at, first + more)
            == walk_steps(nodes, there, more),
        walk_steps(nodes, at, first) is Err ==> walk_steps(nodes, at, first + more) == walk_steps(
            nodes,
            at,
            first,
        ),
    decreases first.len(),
{
    let all = first + more;
    if first.len() == 0 {
        assert(all =~= more);
    } else {
        assert(all[0] == first[0]);
        assert(all.skip(1) =~= first.skip(1) + more);
        match first[0] {
            StepModel::Parent => {
                if let Some(up) = nodes[at].parent {
                    steps_lead_on(nodes, up, first.skip(1), more);
                }
            },
            StepModel::Child(name) => {
                if let Some(child) = child_named(nodes, nodes[at].children, name, 0) {
                    steps_lead_on(nodes, child, first.skip(1), more);
                }
            },
        }
    }
}

/// Whether an instance is the first child of another that has a name.
pub open spec fn is_first_child(nodes: Seq<NodeModel>, at: int, name: Seq<char>, child: int) -> bool {
    exists|k: int|
        {
            &&& 0 <= k < nodes[at].children.len()
            &&& #[trigger] nodes[at].children[k] == child
            &&& nodes[child].name == name
            &&& forall|j: int|
                0 <= j < k ==> nodes[#[trigger] nodes[at].children[j]].name != name
        }
}

/// Whether an instance has no child of a name.
pub open spec fn has_no_child(nodes: Seq<NodeModel>, at: int, name: Seq<char>) -> bool {
    forall|j: int|
        0 <= j < nodes[at].children.len() ==> nodes[#[trigger] nodes[at].children[j]].name != name
}

pub proof fn the_first_child_is_found(nodes: Seq<NodeModel>, at: int, name: Seq<char>, k: int)
    requires
        0 <= k <= nodes[at].children.len(),
        forall|j: int|
            0 <= j < k ==> nodes[#[trigger] nodes[at].children[j]].name != name,
    ensures
        child_named(nodes, nodes[at].children, name, k) matches Some(child) ==> is_first_child(
            nodes,
            at,
            name,
            child,
        ),
        child_named(nodes, nodes[at].children, name, k) is None ==> has_no_child(nodes, at, name),
    decreases nodes[at].children.len() - k,
{
    if k < nodes[at].children.len() {
        if nodes[nodes[at].children[k]].name == name {
            assert(nodes[at].children[k] == nodes[at].children[k]);
        } else {
            the_first_child_is_found(nodes, at, name, k + 1);
        }
    }
}

/// A step to the parent leads to the parent of an instance and nowhere where it has none; a step to a
/// child leads to the first child of the name, and nowhere where there is none.
pub proof fn a_step_is_to_the_parent_or_a_child(nodes: Seq<NodeModel>, at: int, name: Seq<char>)
    ensures
        match walk_steps(nodes, at, seq![StepModel::Parent]) {
            Ok(up) => nodes[at].parent == Some(up),
            Err(_) => nodes[at].parent is None,
        },
        match walk_steps(nodes, at, seq![StepModel::Child(name)]) {
            Ok(child) => is_first_child(nodes, at, name, child),
            Err(_) => has_no_child(nodes, at, name),
        },
{
    let up = seq![StepModel::Parent];
    let down = seq![StepModel::Child(name)];
    assert(up.skip(1) =~= Seq::empty());
    assert(down.skip(1) =~= Seq::empty());
    the_first_child_is_found(nodes, at, name, 0);
    if let Some(there) = nodes[at].parent {
        steps_lead_on(nodes, there, Seq::empty(), Seq::empty());
    }
    if let Some(there) = child_named(nodes, nodes[at].children, name, 0) {
        steps_lead_on(nodes, there, Seq::empty(), Seq::empty());
    }
}

/// As many steps to the parent as there are from an instance up to another lead to that other.
pub proof fn parents_lead_up(nodes: Seq<NodeModel>, up: Seq<int>)
    requires
        up.len() > 0,
        forall|k: int|
            0 <= k < up.len() - 1 ==> nodes[#[trigger] up[k]].parent == Some(up[k + 1]),
    ensures
        walk_steps(nodes, up[0], Seq::new((up.len() - 1) as nat, |k: int| StepModel::Parent)) == Ok::<
            int,
            Seq<char>,
        >(up.last()),
    decreases up.len(),
{
    let steps = Seq::new((up.len() - 1) as nat, |k: int| StepModel::Parent);
    if up.len() > 1 {
        let rest = up.skip(1);
        assert forall|k: int| 0 <= k < rest.len() - 1 implies nodes[#[trigger] rest[k]].parent == Some(
            rest[k + 1],
        ) by {
            assert(rest[k] == up[k + 1]);
        }
        parents_lead_up(nodes, rest);
        assert(nodes[up[0]].parent == Some(up[1]));
        assert(steps.skip(1) =~= Seq::new((rest.len() - 1) as nat, |k: int| StepModel::Parent));
    }
}

// ---------------------------------------------------------------------------
// Expressions

spec fn starts_a_step(tail: Seq<char>) -> bool {
    tail.len() > 0 && (tail[0] == '.' || tail[0] == ':' || tail[0] == '[')
}

proof fn a_closed_literal_stays(text: Seq<char>, tail: Seq<char>, i: int, quote: char)
    requires
        0 <= i <= text.len(),
        literal_from(text, i, quote).1 < text.len(),
    ensures
        literal_from(text + tail, i, quote) == literal_from(text, i, quote),
    decreases text.len() - i,
{
    let whole = text + tail;
    if i < text.len() {
        assert(whole[i] == text[i]);
        if text[i] == '\\' && i + 1 < text.len() {
            assert(whole[i + 1] == text[i + 1]);
            a_closed_literal_stays(text, tail, i + 2, quote);
        } else if text[i] == quote {
        } else {
            a_closed_literal_stays(text, tail, i + 1, quote);
        }
    }
}

proof fn a_closed_call_stays(
    text: Seq<char>,
    tail: Seq<char>,
    i: int,
    depth: int,
    literal: Option<Seq<char>>,
    only_literal: bool,
)
    requires
        0 <= i <= text.len(),
        call_argument_from(text, i, depth, literal, only_literal).0 is Some,
    ensures
        call_argument_from(text + tail, i, depth, literal, only_literal) == call_argument_from(
            text,
            i,
            depth,
            literal,
            only_literal,
        ),
    decreases text.len() - i,
{
    let whole = text + tail;
    assert(i < text.len());
    assert(whole[i] == text[i]);
    if text[i] == '(' {
        a_closed_call_stays(text, tail, i + 1, depth + 1, literal, only_literal);
    } else if text[i] == ')' {
        if depth != 1 {
            a_closed_call_stays(text, tail, i + 1, depth - 1, literal, only_literal);
        }
    } else if text[i] == '"' || text[i] == '\'' {
        literal_from_moves(text, i + 1, text[i]);
        let (said, end) = literal_from(text, i + 1, text[i]);
        let held = if literal is None {
            Some(said)
        } else {
            literal
        };
        assert(call_argument_from(text, end, depth, held, only_literal).0 is Some);
        a_closed_literal_stays(text, tail, i + 1, text[i]);
        a_closed_call_stays(text, tail, end, depth, held, only_literal);
    } else if is_white_space(text[i]) || text[i] == ',' {
        a_closed_call_stays(text, tail, i + 1, depth, literal, only_literal);
    } else {
        a_closed_call_stays(text, tail, i + 1, depth, literal, only_literal && literal is Some);
    }
}

proof fn closed_brackets_stay(
    text: Seq<char>,
    tail: Seq<char>,
    i: int,
    literal: Option<Seq<char>>,
    only_literal: bool,
)
    requires
        0 <= i <= text.len(),
        bracket_argument_from(text, i, literal, only_literal).0 is Some,
    ensures
        bracket_argument_from(text + tail, i, literal, only_literal) == bracket_argument_from(
            text,
            i,
            literal,
            only_literal,
        ),
    decreases text.len() - i,
{
    let whole = text + tail;
    assert(i < text.len());
    assert(whole[i] == text[i]);
    if text[i] == ']' {
    } else if text[i] == '"' || text[i] == '\'' {
        literal_from_moves(text, i + 1, text[i]);
        let (said, end) = literal_from(text, i + 1, text[i]);
        let held = if literal is None {
            Some(said)
        } else {
            literal
        };
        assert(bracket_argument_from(text, end, held, only_literal).0 is Some);
        a_closed_literal_stays(text, tail, i + 1, text[i]);
        closed_brackets_stay(text, tail, end, held, only_literal);
    } else if is_white_space(text[i]) {
        closed_brackets_stay(text, tail, i + 1, literal, only_literal);
    } else {
        closed_brackets_stay(text, tail, i + 1, literal, false);
    }
}

proof fn words_end_before_a_step(text: Seq<char>, tail: Seq<char>, i: int)
    requires
        0 <= i <= text.len(),
        starts_a_step(tail),
    ensures
        identifier_end(text + tail, i) == identifier_end(text, i),
        space_end(text + tail, i) == space_end(text, i),
    decreases text.len() - i,
{
    let whole = text + tail;
    if i < text.len() {
        assert(whole[i] == text[i]);
        words_end_before_a_step(text, tail, i + 1);
    } else {
        assert(whole[i] == tail[0]);
    }
}

/// The steps of a longer expression are those of the shorter one and then those of what is added.
proof fn steps_go_on(text: Seq<char>, tail: Seq<char>, i: int)
    requires
        0 <= i <= text.len(),
        starts_a_step(tail),
        steps_from(text, i) is Ok,
    ensures
        match steps_from(text + tail, text.len() as int) {
            Ok(more) => steps_from(text + tail, i) == Ok::<Seq<StepModel>, Seq<char>>(
                steps_from(text, i)->Ok_0 + more,
            ),
            Err(reason) => steps_from(text + tail, i) == Err::<Seq<StepModel>, Seq<char>>(reason),
        },
    decreases text.len() - i,
{
    let whole = text + tail;
    let len = text.len() as int;
    space_end_moves(text, i);
    words_end_before_a_step(text, tail, i);
    let at = space_end(text, i);
    let last = steps_from(whole, len);
    if at >= len {
        assert(steps_from(text, i)->Ok_0 =~= Seq::empty());
        assert(whole[len] == tail[0]);
        assert(space_end(whole, len) == len) by {
            assert(!is_white_space(tail[0]));
        }
        assert(steps_from(whole, i) == steps_from(whole, len));
        if let Ok(more) = last {
            assert(Seq::<StepModel>::empty() + more =~= more);
        }
    } else {
        assert(whole[at] == text[at]);
        words_end_before_a_step(text, tail, at + 1);
        identifier_end_moves(text, at + 1);
        let end = identifier_end(text, at + 1);
        assert(whole.subrange(at + 1, end) =~= text.subrange(at + 1, end));
        if text[at] == '.' {
            steps_go_on(text, tail, end);
            if let Ok(more) = last {
                let rest = steps_from(text, end)->Ok_0;
                let one = seq![super::chain::named_step(text.subrange(at + 1, end))];
                assert((one + rest) + more =~= one + (rest + more));
            }
        } else if text[at] == ':' {
            call_argument_moves(text, end);
            let (argument, next) = call_argument(text, end);
            words_end_before_a_step(text, tail, end);
            space_end_moves(text, end);
            let open = space_end(text, end);
            assert(whole[open] == text[open]);
            a_closed_call_stays(text, tail, open, 0, None, true);
            assert(call_argument(whole, end) == call_argument(text, end));
            steps_go_on(text, tail, next);
            if let Ok(more) = last {
                let rest = steps_from(text, next)->Ok_0;
                let one = seq![StepModel::Child(argument->0)];
                assert((one + rest) + more =~= one + (rest + more));
            }
        } else {
            bracket_argument_from_moves(text, at + 1, None, true);
            let (argument, next) = bracket_argument_from(text, at + 1, None, true);
            closed_brackets_stay(text, tail, at + 1, None, true);
            steps_go_on(text, tail, next);
            if let Ok(more) = last {
                let rest = steps_from(text, next)->Ok_0;
                let one = seq![StepModel::Child(argument->0)];
                assert((one + rest) + more =~= one + (rest + more));
            }
        }
    }
}

proof fn an_identifier_goes_to_the_end(whole: Seq<char>, from: int, i: int)
    requires
        0 <= from <= i <= whole.len(),
        forall|k: int| from <= k < whole.len() ==> is_identifier_char(#[trigger] whole[k]),
    ensures
        identifier_end(whole, i) == whole.len(),
    decreases whole.len() - i,
{
    if i < whole.len() {
        assert(is_identifier_char(whole[i]));
        an_identifier_goes_to_the_end(whole, from, i + 1);
    }
}

/// Whether a text can stand between quotes as it is.
pub open spec fn is_plain(name: Seq<char>) -> bool {
    forall|k: int| 0 <= k < name.len() ==> #[trigger] name[k] != '"' && name[k] != '\\'
}

/// A literal without escapes is read as what its quotes hold, up to behind the one that ends it.
pub proof fn a_plain_literal_is_its_text(whole: Seq<char>, from: int, to: int, i: int)
    requires
        0 <= from <= i <= to < whole.len(),
        whole[to] == '"',
        forall|k: int| from <= k < to ==> #[trigger] whole[k] != '"' && whole[k] != '\\',
    ensures
        literal_from(whole, i, '"') == (whole.subrange(i, to), to + 1),
    decreases to - i,
{
    if i < to {
        assert(whole[i] != '"' && whole[i] != '\\');
        a_plain_literal_is_its_text(whole, from, to, i + 1);
        assert(seq![whole[i]] + whole.subrange(i + 1, to) =~= whole.subrange(i, to));
    } else {
        assert(whole.subrange(i, to) =~= Seq::empty());
    }
}

proof fn nothing_is_left_at_the_end(whole: Seq<char>)
    ensures
        steps_from(whole, whole.len() as int) == Ok::<Seq<StepModel>, Seq<char>>(Seq::empty()),
{
    assert(space_end(whole, whole.len() as int) == whole.len());
}

/// The chain of an expression that goes on behind another.
proof fn a_chain_goes_on(text: Seq<char>, tail: Seq<char>, step: StepModel)
    requires
        starts_a_step(tail),
        chain_of(text) is Ok,
        steps_from(text + tail, text.len() as int) == Ok::<Seq<StepModel>, Seq<char>>(seq![step]),
    ensures
        chain_of(text + tail) == Ok::<ChainModel, Seq<char>>(
            ChainModel {
                head: chain_of(text)->Ok_0.head,
                steps: chain_of(text)->Ok_0.steps.push(step),
            },
        ),
{
    let whole = text + tail;
    words_end_before_a_step(text, tail, 0);
    space_end_moves(text, 0);
    let start = space_end(text, 0);
    words_end_before_a_step(text, tail, start);
    identifier_end_moves(text, start);
    let end = identifier_end(text, start);
    assert(whole.subrange(start, end) =~= text.subrange(start, end));
    steps_go_on(text, tail, end);
    let steps = chain_of(text)->Ok_0.steps;
    assert(steps + seq![step] =~= steps.push(step));
}

/// An identifier is a chain without steps. Behind any chain, `.Parent` is a step to the parent, `.Name`
/// with any other identifier a step to the child of that name, and so are `["Name"]` and a call of
/// `GetService`, `WaitForChild` or `FindFirstChild` on the name, for every name that needs no escapes.
pub proof fn every_spelling_adds_its_step(
    text: Seq<char>,
    word: Seq<char>,
    method: Seq<char>,
    name: Seq<char>,
)
    requires
        chain_of(text) is Ok,
        is_identifier(word),
        is_plain(name),
        method == "GetService"@ || method == "WaitForChild"@ || method == "FindFirstChild"@,
    ensures
        !is_white_space(word[0]) ==> chain_of(word) == Ok::<ChainModel, Seq<char>>(
            ChainModel { head: word, steps: Seq::empty() },
        ),
        ({
            let had = chain_of(text)->Ok_0;
            let child = Ok::<ChainModel, Seq<char>>(
                ChainModel { head: had.head, steps: had.steps.push(StepModel::Child(name)) },
            );
            &&& chain_of(text + ("."@ + word)) == Ok::<ChainModel, Seq<char>>(
                ChainModel {
                    head: had.head,
                    steps: had.steps.push(
                        if word == "Parent"@ {
                            StepModel::Parent
                        } else {
                            StepModel::Child(word)
                        },
                    ),
                },
            )
            &&& chain_of(text + ("[\""@ + name + "\"]"@)) == child
            &&& chain_of(text + (":"@ + method + "(\""@ + name + "\")"@)) == child
        }),
{
    if !is_white_space(word[0]) {
        an_identifier_is_a_head(word);
    }
    a_dot_adds_a_step(text, word);
    brackets_add_a_step(text, name);
    a_call_adds_a_step(text, method, name);
}

proof fn an_identifier_is_a_head(word: Seq<char>)
    requires
        is_identifier(word),
        !is_white_space(word[0]),
    ensures
        chain_of(word) == Ok::<ChainModel, Seq<char>>(
            ChainModel { head: word, steps: Seq::empty() },
        ),
{
    assert(is_identifier_char(word[0]));
    assert(space_end(word, 0) == 0);
    an_identifier_goes_to_the_end(word, 0, 0);
    nothing_is_left_at_the_end(word);
    assert(word.subrange(0, word.len() as int) =~= word);
}

proof fn a_dot_adds_a_step(text: Seq<char>, word: Seq<char>)
    requires
        chain_of(text) is Ok,
        is_identifier(word),
    ensures
        chain_of(text + ("."@ + word)) == Ok::<ChainModel, Seq<char>>(
            ChainModel {
                head: chain_of(text)->Ok_0.head,
                steps: chain_of(text)->Ok_0.steps.push(
                    if word == "Parent"@ {
                        StepModel::Parent
                    } else {
                        StepModel::Child(word)
                    },
                ),
            },
        ),
{
    reveal_strlit(".");
    let tail = "."@ + word;
    let whole = text + tail;
    let len = text.len() as int;
    assert(whole[len] == '.');
    assert forall|k: int| len + 1 <= k < whole.len() implies is_identifier_char(
        #[trigger] whole[k],
    ) by {
        assert(whole[k] == word[k - len - 1]);
    }
    an_identifier_goes_to_the_end(whole, len + 1, len + 1);
    assert(whole.subrange(len + 1, whole.len() as int) =~= word);
    nothing_is_left_at_the_end(whole);
    assert(space_end(whole, len) == len);
    let step = if word == "Parent"@ {
        StepModel::Parent
    } else {
        StepModel::Child(word)
    };
    assert(seq![step] + Seq::<StepModel>::empty() =~= seq![step]);
    a_chain_goes_on(text, tail, step);
}

proof fn brackets_add_a_step(text: Seq<char>, name: Seq<char>)
    requires
        chain_of(text) is Ok,
        is_plain(name),
    ensures
        chain_of(text + ("[\""@ + name + "\"]"@)) == Ok::<ChainModel, Seq<char>>(
            ChainModel {
                head: chain_of(text)->Ok_0.head,
                steps: chain_of(text)->Ok_0.steps.push(StepModel::Child(name)),
            },
        ),
{
    reveal_strlit("[\"");
    reveal_strlit("\"]");
    let tail = "[\""@ + name + "\"]"@;
    let whole = text + tail;
    let len = text.len() as int;
    let to = len + 2 + name.len();
    assert(whole.len() == to + 2);
    assert(whole[len] == '[');
    assert(whole[len + 1] == '"');
    assert(whole[to] == '"');
    assert(whole[to + 1] == ']');
    assert forall|k: int| len + 2 <= k < to implies #[trigger] whole[k] != '"' && whole[k] != '\\' by {
        assert(whole[k] == name[k - len - 2]);
    }
    a_plain_literal_is_its_text(whole, len + 2, to, len + 2);
    assert(whole.subrange(len + 2, to) =~= name);
    assert(bracket_argument_from(whole, to + 1, Some(name), true) == (Some(name), to + 2));
    assert(bracket_argument_from(whole, len + 1, None, true) == (Some(name), to + 2));
    nothing_is_left_at_the_end(whole);
    assert(space_end(whole, len) == len);
    let step = StepModel::Child(name);
    assert(seq![step] + Seq::<StepModel>::empty() =~= seq![step]);
    a_chain_goes_on(text, tail, step);
}

proof fn a_call_adds_a_step(text: Seq<char>, method: Seq<char>, name: Seq<char>)
    requires
        chain_of(text) is Ok,
        is_plain(name),
        method == "GetService"@ || method == "WaitForChild"@ || method == "FindFirstChild"@,
    ensures
        chain_of(text + (":"@ + method + "(\""@ + name + "\")"@)) == Ok::<ChainModel, Seq<char>>(
            ChainModel {
                head: chain_of(text)->Ok_0.head,
                steps: chain_of(text)->Ok_0.steps.push(StepModel::Child(name)),
            },
        ),
{
    reveal_strlit(":");
    reveal_strlit("(\"");
    reveal_strlit("\")");
    reveal_strlit("GetService");
    reveal_strlit("WaitForChild");
    reveal_strlit("FindFirstChild");
    let tail = ":"@ + method + "(\""@ + name + "\")"@;
    let whole = text + tail;
    let len = text.len() as int;
    let open = len + 1 + method.len();
    let to = open + 2 + name.len();
    assert(whole.len() == to + 2);
    assert(whole[len] == ':');
    assert(whole[open] == '(');
    assert(whole[open + 1] == '"');
    assert(whole[to] == '"');
    assert(whole[to + 1] == ')');
    assert forall|k: int| len + 1 <= k < open implies is_identifier_char(#[trigger] whole[k]) by {
        assert(whole[k] == method[k - len - 1]);
    }
    an_identifier_goes_up_to(whole, len + 1, open, len + 1);
    assert(whole.subrange(len + 1, open) =~= method);
    assert forall|k: int| open + 2 <= k < to implies #[trigger] whole[k] != '"' && whole[k] != '\\' by {
        assert(whole[k] == name[k - open - 2]);
    }
    a_plain_literal_is_its_text(whole, open + 2, to, open + 2);
    assert(whole.subrange(open + 2, to) =~= name);
    assert(call_argument_from(whole, to + 1, 1, Some(name), true) == (Some(name), to + 2));
    assert(call_argument_from(whole, open + 1, 1, None, true) == (Some(name), to + 2));
    assert(call_argument_from(whole, open, 0, None, true) == (Some(name), to + 2));
    assert(space_end(whole, open) == open);
    assert(call_argument(whole, open) == (Some(name), to + 2));
    nothing_is_left_at_the_end(whole);
    assert(space_end(whole, len) == len);
    let step = StepModel::Child(name);
    assert(seq![step] + Seq::<StepModel>::empty() =~= seq![step]);
    assert(finds_a_child(method));
    a_chain_goes_on(text, tail, step);
}

/// An identifier that a parenthesis follows is read up to it.
pub proof fn an_identifier_goes_up_to(whole: Seq<char>, from: int, to: int, i: int)
    requires
        0 <= from <= i <= to < whole.len(),
        whole[to] == '(',
        forall|k: int| from <= k < to ==> is_identifier_char(#[trigger] whole[k]),
    ensures
        identifier_end(whole, i) == to,
    decreases to - i,
{
    if i < to {
        assert(is_identifier_char(whole[i]));
        an_identifier_goes_up_to(whole, from, to, i + 1);
    }
}

// ---------------------------------------------------------------------------
// Instances

/// A chain that goes on by a step names the instance that the step leads to from what the chain names
/// without it.
proof fn one_step_more(
    nodes: Seq<NodeModel>,
    bindings: Seq<(Seq<char>, Seq<char>)>,
    script_node: Option<int>,
    text: Seq<char>,
    tail: Seq<char>,
    step: StepModel,
    hops: int,
)
    requires
        chain_of(text) is Ok,
        chain_of(text + tail) == Ok::<ChainModel, Seq<char>>(
            ChainModel {
                head: chain_of(text)->Ok_0.head,
                steps: chain_of(text)->Ok_0.steps.push(step),
            },
        ),
    ensures
        instance_target(nodes, bindings, script_node, text + tail, hops) == (match instance_target(
            nodes,
            bindings,
            script_node,
            text,
            hops,
        ) {
            Ok(at) => walk_steps(nodes, at, seq![step]),
            Err(reason) => Err(reason),
        }),
{
    let had = chain_of(text)->Ok_0;
    assert(had.steps.push(step) =~= had.steps + seq![step]);
    assert forall|start: int| #[trigger] walk_steps(nodes, start, had.steps.push(step)) == (
    match walk_steps(nodes, start, had.steps) {
        Ok(at) => walk_steps(nodes, at, seq![step]),
        Err(reason) => Err(reason),
    }) by {
        steps_lead_on(nodes, start, had.steps, seq![step]);
    }
}

/// `x.Parent` names the parent of what `x` names, and `x.Name` the first child of that name, as do
/// `x["Name"]` and the calls that find a child. Where `x` names no instance, what goes on from it names
/// none, for the same reason.
pub proof fn an_expression_names_what_its_last_step_leads_to(
    nodes: Seq<NodeModel>,
    bindings: Seq<(Seq<char>, Seq<char>)>,
    script_node: Option<int>,
    text: Seq<char>,
    word: Seq<char>,
    method: Seq<char>,
    hops: int,
)
    requires
        chain_of(text) is Ok,
        is_identifier(word),
        is_plain(word),
        method == "GetService"@ || method == "WaitForChild"@ || method == "FindFirstChild"@,
    ensures
        ({
            let dotted = instance_target(nodes, bindings, script_node, text + ("."@ + word), hops);
            let indexed = instance_target(
                nodes,
                bindings,
                script_node,
                text + ("[\""@ + word + "\"]"@),
                hops,
            );
            let called = instance_target(
                nodes,
                bindings,
                script_node,
                text + (":"@ + method + "(\""@ + word + "\")"@),
                hops,
            );
            match instance_target(nodes, bindings, script_node, text, hops) {
                Err(reason) => dotted == Err::<int, Seq<char>>(reason) && indexed == Err::<
                    int,
                    Seq<char>,
                >(reason) && called == Err::<int, Seq<char>>(reason),
                Ok(at) => {
                    &&& word == "Parent"@ ==> (match dotted {
                        Ok(up) => nodes[at].parent == Some(up),
                        Err(_) => nodes[at].parent is None,
                    })
                    &&& word != "Parent"@ ==> dotted == indexed
                    &&& called == indexed
                    &&& match indexed {
                        Ok(child) => is_first_child(nodes, at, word, child),
                        Err(_) => has_no_child(nodes, at, word),
                    }
                },
            }
        }),
{
    every_spelling_adds_its_step(text, word, method, word);
    let step = if word == "Parent"@ {
        StepModel::Parent
    } else {
        StepModel::Child(word)
    };
    let child = StepModel::Child(word);
    one_step_more(nodes, bindings, script_node, text, "."@ + word, step, hops);
    one_step_more(nodes, bindings, script_node, text, "[\""@ + word + "\"]"@, child, hops);
    one_step_more(
        nodes,
        bindings,
        script_node,
        text,
        ":"@ + method + "(\""@ + word + "\")"@,
        child,
        hops,
    );
    if let Ok(at) = instance_target(nodes, bindings, script_node, text, hops) {
        a_step_is_to_the_parent_or_a_child(nodes, at, word);
    }
}

/// A name alone names an instance: `script` the one of the requiring file, `game` the root, `workspace`
/// the child of the root called `Workspace`, a name that the file binds whatever it is bound to, and any
/// other name a child of the root.
pub proof fn a_name_alone_names_where_a_chain_starts(
    nodes: Seq<NodeModel>,
    bindings: Seq<(Seq<char>, Seq<char>)>,
    script_node: Option<int>,
    word: Seq<char>,
    hops: int,
)
    requires
        is_identifier(word),
        !is_white_space(word[0]),
        0 <= hops <= MAX_BINDING_HOPS,
    ensures
        ({
            let named = instance_target(nodes, bindings, script_node, word, hops);
            let bound = exists|k: int| 0 <= k < bindings.len() && (#[trigger] bindings[k]).0 == word;
            if word == "script"@ {
                match named {
                    Ok(node) => script_node == Some(node),
                    Err(_) => script_node is None,
                }
            } else if word == "game"@ {
                named == Ok::<int, Seq<char>>(0)
            } else if word == "workspace"@ {
                match named {
                    Ok(node) => is_first_child(nodes, 0, "Workspace"@, node),
                    Err(_) => has_no_child(nodes, 0, "Workspace"@),
                }
            } else if !bound {
                match named {
                    Ok(node) => is_first_child(nodes, 0, word, node),
                    Err(_) => has_no_child(nodes, 0, word),
                }
            } else {
                exists|k: int|
                    {
                        &&& 0 <= k < bindings.len()
                        &&& (#[trigger] bindings[k]).0 == word
                        &&& forall|j: int|
                            k < j < bindings.len() ==> (#[trigger] bindings[j]).0 != word
                        &&& named == instance_target(
                            nodes,
                            bindings,
                            script_node,
                            bindings[k].1,
                            hops + 1,
                        )
                    }
            }
        }),
{
    an_identifier_is_a_head(word);
    the_first_child_is_found(nodes, 0, word, 0);
    the_first_child_is_found(nodes, 0, "Workspace"@, 0);
    the_last_binding_counts(bindings, word, bindings.len() as int);
    assert forall|start: int| #[trigger] walk_steps(nodes, start, Seq::empty()) == Ok::<
        int,
        Seq<char>,
    >(start) by {
        steps_lead_on(nodes, start, Seq::empty(), Seq::empty());
    }
}

proof fn the_last_binding_counts(bindings: Seq<(Seq<char>, Seq<char>)>, word: Seq<char>, n: int)
    requires
        0 <= n <= bindings.len(),
        forall|j: int| n <= j < bindings.len() ==> (#[trigger] bindings[j]).0 != word,
    ensures
        match bound_to(bindings, word, n) {
            Some(value) => exists|k: int|
                {
                    &&& 0 <= k < bindings.len()
                    &&& (#[trigger] bindings[k]).0 == word
                    &&& bindings[k].1 == value
                    &&& forall|j: int|
                        k < j < bindings.len() ==> (#[trigger] bindings[j]).0 != word
                },
            None => forall|k: int| 0 <= k < bindings.len() ==> (#[trigger] bindings[k]).0 != word,
        },
    decreases n,
{
    if n > 0 {
        if bindings[n - 1].0 == word {
            assert(bindings[n - 1].0 == word);
        } else {
            the_last_binding_counts(bindings, word, n - 1);
        }
    }
}

proof fn the_first_luau_file_is_found(paths: Seq<Seq<char>>, k: int)
    requires
        0 <= k <= paths.len(),
        forall|j: int| 0 <= j < k ==> !names_luau(#[trigger] paths[j]),
    ensures
        match first_luau(paths, k) {
            Some(file) => exists|i: int|
                {
                    &&& 0 <= i < paths.len()
                    &&& #[trigger] paths[i] == file
                    &&& names_luau(file)
                    &&& forall|j: int| 0 <= j < i ==> !names_luau(#[trigger] paths[j])
                },
            None => forall|j: int| 0 <= j < paths.len() ==> !names_luau(#[trigger] paths[j]),
        },
    decreases paths.len() - k,
{
    if k < paths.len() {
        if names_luau(paths[k]) {
            assert(paths[k] == paths[k]);
        } else {
            the_first_luau_file_is_found(paths, k + 1);
        }
    }
}

/// A require of an instance means the first Luau file the instance is built from, and no file where the
/// instance has none or the expression names no instance.
pub proof fn a_require_means_the_script_of_its_instance(
    nodes: Seq<NodeModel>,
    bindings: Seq<(Seq<char>, Seq<char>)>,
    script_node: Option<int>,
    disk: DiskModel,
    path: Seq<char>,
    expression: Seq<char>,
)
    requires
        trimmed(expression).len() > 0 ==> trimmed(expression)[0] != '"' && trimmed(expression)[0]
            != '\'',
    ensures
        match (
            instance_target(nodes, bindings, script_node, trimmed(expression), 0),
            require_target(nodes, bindings, script_node, disk, path, expression),
        ) {
            (Ok(node), Ok(file)) => {
                let paths = nodes[node].file_paths;
                exists|i: int|
                    {
                        &&& 0 <= i < paths.len()
                        &&& #[trigger] paths[i] == file
                        &&& names_luau(file)
                        &&& forall|j: int| 0 <= j < i ==> !names_luau(#[trigger] paths[j])
                    }
            },
            (Ok(node), Err(_)) => forall|j: int|
                0 <= j < nodes[node].file_paths.len() ==> !names_luau(
                    #[trigger] nodes[node].file_paths[j],
                ),
            (Err(reason), told) => told == Err::<Seq<char>, Seq<char>>(reason),
        },
{
    if let Ok(node) = instance_target(nodes, bindings, script_node, trimmed(expression), 0) {
        the_first_luau_file_is_found(nodes[node].file_paths, 0);
    }
}

// ---------------------------------------------------------------------------
// What is not followed

/// A call of anything but the methods that name a child is not followed.
pub proof fn a_call_of_anything_else_is_not_followed(chars: Seq<char>, i: int, open: int)
    requires
        0 <= i < open < chars.len(),
        chars[i] == ':',
        chars[open] == '(',
        forall|k: int| i < k < open ==> is_identifier_char(#[trigger] chars[k]),
        chars.subrange(i + 1, open) != "GetService"@,
        chars.subrange(i + 1, open) != "WaitForChild"@,
        chars.subrange(i + 1, open) != "FindFirstChild"@,
    ensures
        steps_from(chars, i) is Err,
{
    an_identifier_goes_up_to(chars, i + 1, open, i + 1);
    assert(space_end(chars, i) == i);
}

proof fn plain_characters_are_read(whole: Seq<char>, i: int, j: int, quote: char)
    requires
        0 <= i <= j <= whole.len(),
        forall|k: int| i <= k < j ==> #[trigger] whole[k] != quote && whole[k] != '\\',
    ensures
        literal_from(whole, i, quote).0 == whole.subrange(i, j) + literal_from(whole, j, quote).0,
        literal_from(whole, i, quote).1 == literal_from(whole, j, quote).1,
    decreases j - i,
{
    let rest = literal_from(whole, j, quote).0;
    if i < j {
        assert(whole[i] != quote);
        plain_characters_are_read(whole, i + 1, j, quote);
        assert(seq![whole[i]] + (whole.subrange(i + 1, j) + rest) =~= whole.subrange(i, j) + rest);
    } else {
        assert(whole.subrange(i, j) + rest =~= rest);
    }
}

/// A backslash in a name stands for the character behind it, so that a quote behind one ends no name.
pub proof fn an_escape_stands_for_what_is_behind_it(
    quote: char,
    before: Seq<char>,
    c: char,
    after: Seq<char>,
    rest: Seq<char>,
)
    requires
        quote == '"' || quote == '\'',
        forall|k: int| 0 <= k < before.len() ==> #[trigger] before[k] != quote && before[k] != '\\',
        forall|k: int| 0 <= k < after.len() ==> #[trigger] after[k] != quote && after[k] != '\\',
    ensures
        ({
            let whole = before + seq!['\\', c] + after.push(quote) + rest;
            literal_from(whole, 0, quote) == (
                before.push(c) + after,
                before.len() as int + 3 + after.len(),
            )
        }),
{
    let whole = before + seq!['\\', c] + after.push(quote) + rest;
    let slash = before.len() as int;
    let end = slash + 2 + after.len();
    assert(whole[slash] == '\\' && whole[slash + 1] == c && whole[end] == quote);
    assert forall|k: int| 0 <= k < slash implies #[trigger] whole[k] != quote && whole[k] != '\\' by {
        assert(whole[k] == before[k]);
    }
    assert forall|k: int| slash + 2 <= k < end implies #[trigger] whole[k] != quote && whole[k]
        != '\\' by {
        assert(whole[k] == after[k - slash - 2]);
    }
    plain_characters_are_read(whole, 0, slash, quote);
    plain_characters_are_read(whole, slash + 2, end, quote);
    assert(whole.subrange(0, slash) =~= before);
    assert(whole.subrange(slash + 2, end) =~= after);
    let none = Seq::<char>::empty();
    assert(literal_from(whole, end, quote) == (none, end + 1));
    assert(after + none =~= after);
    assert(literal_from(whole, slash, quote) == (seq![c] + after, end + 1));
    assert(before + (seq![c] + after) =~= before.push(c) + after);
}

} // verus!
