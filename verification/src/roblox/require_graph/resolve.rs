//! Resolving a require to the file it means.
use vstd::prelude::*;
use super::chain::{chain_of, parse_chain, Step, StepModel};
use super::scan::{bound_to, Bindings};
use super::string_require::{resolve_string_require, string_require_target, DiskFacts, DiskModel};
use crate::roblox::lexing::{literal_from, read_string};
use crate::roblox::shared_require::{resolution, Resolution, ResolutionModel, SharedIndex};
use crate::roblox::sourcemap::{child_named, first_luau, node_wf, NodeModel, Sourcemap};
use crate::text::{join, joined, owned, quote, quoted, same_text, to_chars, trim, trimmed};

verus! {

/// How often a local binding may lead to another.
pub const MAX_BINDING_HOPS: usize = 8;

/// The file a `shared` call resolves to, or why it resolves to none.
pub open spec fn shared_target(
    name: Option<Seq<char>>,
    lookup: Option<ResolutionModel>,
) -> Result<Seq<char>, Seq<char>> {
    match name {
        None => Err(
            "a shared() call whose argument is not a string literal, which the language server does not resolve either"@,
        ),
        Some(said) => match lookup {
            None => Err("shared() resolution is off; set project.shared_require to true"@),
            Some(ResolutionModel::Found(relative)) => Ok(relative),
            Some(ResolutionModel::NotFound) => Err(
                "shared("@ + quoted(said) + ") names no module in the project"@,
            ),
            Some(ResolutionModel::Ambiguous(candidates)) => Err(
                "shared("@ + quoted(said) + ") is ambiguous: it matches "@ + joined(
                    candidates,
                    ", "@,
                ) + ", and none of them is nearer than the rest"@,
            ),
        },
    }
}

/// What the index says of a name, where both are there.
pub open spec fn shared_lookup(
    name: Option<Seq<char>>,
    index: Option<&SharedIndex>,
    requiring: Seq<char>,
) -> Option<ResolutionModel> {
    match (name, index) {
        (Some(said), Some(files)) => Some(
            resolution(files.entries_model(), files.names_model(), said, requiring),
        ),
        _ => None,
    }
}

/// Resolves a `shared` call.
pub fn resolve_shared(
    name: Option<&str>,
    index: Option<&SharedIndex>,
    requiring_relative_path: &str,
) -> (r: Result<String, String>)
    ensures
        match r {
            Ok(relative) => shared_target(
                name.deep_view(),
                shared_lookup(name.deep_view(), index, requiring_relative_path@),
            ) == Ok::<Seq<char>, Seq<char>>(relative@),
            Err(reason) => shared_target(
                name.deep_view(),
                shared_lookup(name.deep_view(), index, requiring_relative_path@),
            ) == Err::<Seq<char>, Seq<char>>(reason@),
        },
{
    let said = match name {
        Some(said) => said,
        None => {
            return Err(
                owned(
                    "a shared() call whose argument is not a string literal, which the language server does not resolve either",
                ),
            );
        },
    };
    let files = match index {
        Some(files) => files,
        None => {
            return Err(
                owned("shared() resolution is off; set project.shared_require to true"),
            );
        },
    };
    match files.resolve(said, requiring_relative_path) {
        Resolution::Found(relative) => Ok(relative),
        Resolution::NotFound => {
            let mut reason = owned("shared(");
            reason.append(quote(said).as_str());
            reason.append(") names no module in the project");
            Err(reason)
        },
        Resolution::Ambiguous(candidates) => {
            let mut reason = owned("shared(");
            reason.append(quote(said).as_str());
            reason.append(") is ambiguous: it matches ");
            reason.append(join(&candidates, ", ").as_str());
            reason.append(", and none of them is nearer than the rest");
            Err(reason)
        },
    }
}

/// Where steps from an instance lead, or why they lead nowhere.
pub open spec fn walk_steps(nodes: Seq<NodeModel>, at: int, steps: Seq<StepModel>) -> Result<
    int,
    Seq<char>,
>
    decreases steps.len(),
{
    if steps.len() == 0 {
        Ok(at)
    } else {
        match steps[0] {
            StepModel::Parent => match nodes[at].parent {
                Some(up) => walk_steps(nodes, up, steps.skip(1)),
                None => Err(
                    nodes[at].instance_path
                        + " has no parent, so the require walks past the DataModel"@,
                ),
            },
            StepModel::Child(name) => match child_named(nodes, nodes[at].children, name, 0) {
                Some(child) => walk_steps(nodes, child, steps.skip(1)),
                None => Err(
                    "no instance named "@ + name + " under "@ + nodes[at].instance_path,
                ),
            },
        }
    }
}

/// The instance an expression names, or why it names none. A name that is neither `script`,
/// `game` nor `workspace` is what the file binds it to, or a service.
pub open spec fn instance_target(
    nodes: Seq<NodeModel>,
    bindings: Seq<(Seq<char>, Seq<char>)>,
    script_node: Option<int>,
    expression: Seq<char>,
    hops: int,
) -> Result<int, Seq<char>>
    decreases MAX_BINDING_HOPS + 1 - hops,
{
    if hops > MAX_BINDING_HOPS {
        Err("the local bindings it is built from refer to each other"@)
    } else {
        match chain_of(expression) {
            Err(reason) => Err(reason),
            Ok(chain) => {
                let start = if chain.head == "script"@ {
                    match script_node {
                        Some(node) => Ok(node),
                        None => Err("the requiring file is not in the sourcemap"@),
                    }
                } else if chain.head == "game"@ {
                    Ok(0int)
                } else if chain.head == "workspace"@ {
                    match child_named(nodes, nodes[0].children, "Workspace"@, 0) {
                        Some(node) => Ok(node),
                        None => Err("the sourcemap has no Workspace"@),
                    }
                } else {
                    match bound_to(bindings, chain.head, bindings.len() as int) {
                        Some(bound) => instance_target(
                            nodes,
                            bindings,
                            script_node,
                            bound,
                            hops + 1,
                        ),
                        None => match child_named(nodes, nodes[0].children, chain.head, 0) {
                            Some(node) => Ok(node),
                            None => Err(
                                chain.head + " is not a known instance in this file"@,
                            ),
                        },
                    }
                };
                match start {
                    Err(reason) => Err(reason),
                    Ok(node) => walk_steps(nodes, node, chain.steps),
                }
            },
        }
    }
}

/// Whether a node is there.
pub open spec fn node_in_range(node: Option<usize>, nodes: Seq<NodeModel>) -> bool {
    node matches Some(n) ==> n < nodes.len()
}

/// A position as contracts write it.
pub open spec fn as_position(node: Option<usize>) -> Option<int> {
    match node {
        Some(n) => Some(n as int),
        None => None,
    }
}

fn instance_after(sourcemap: &Sourcemap, start: usize, steps: &Vec<Step>) -> (r: Result<
    usize,
    String,
>)
    requires
        sourcemap.wf(),
        start < sourcemap@.len(),
    ensures
        match r {
            Ok(node) => walk_steps(sourcemap@, start as int, steps.deep_view()) == Ok::<
                int,
                Seq<char>,
            >(node as int) && node < sourcemap@.len(),
            Err(reason) => walk_steps(sourcemap@, start as int, steps.deep_view()) == Err::<
                int,
                Seq<char>,
            >(reason@),
        },
{
    let ghost nodes = sourcemap@;
    let ghost all = steps.deep_view();
    let mut current: usize = start;
    let mut i: usize = 0;
    assert(all.skip(0) =~= all);
    while i < steps.len()
        invariant
            sourcemap.wf(),
            nodes == sourcemap@,
            all == steps.deep_view(),
            i <= steps@.len(),
            current < nodes.len(),
            walk_steps(nodes, start as int, all) == walk_steps(
                nodes,
                current as int,
                all.skip(i as int),
            ),
        decreases steps@.len() - i,
    {
        assert(all.skip(i as int)[0] == steps@[i as int].deep_view());
        assert(all.skip(i as int).skip(1) =~= all.skip(i + 1));
        assert(node_wf(nodes, current as int));
        match &steps[i] {
            Step::Parent => {
                match sourcemap.parent(current) {
                    Some(up) => {
                        current = up;
                    },
                    None => {
                        let mut reason = sourcemap.node(current).instance_path.clone();
                        reason.append(
                            " has no parent, so the require walks past the DataModel",
                        );
                        return Err(reason);
                    },
                }
            },
            Step::Child(name) => {
                match sourcemap.child(current, name.as_str()) {
                    Some(child) => {
                        current = child;
                    },
                    None => {
                        let mut reason = owned("no instance named ");
                        reason.append(name.as_str());
                        reason.append(" under ");
                        reason.append(sourcemap.node(current).instance_path.as_str());
                        return Err(reason);
                    },
                }
            },
        }
        i = i + 1;
    }
    Ok(current)
}

/// Finds the instance an expression names.
pub fn resolve_instance(
    expression: &str,
    environment: &Bindings,
    sourcemap: &Sourcemap,
    script_node: Option<usize>,
    hops: usize,
) -> (r: Result<usize, String>)
    requires
        sourcemap.wf(),
        node_in_range(script_node, sourcemap@),
    ensures
        match r {
            Ok(node) => instance_target(
                sourcemap@,
                environment@,
                as_position(script_node),
                expression@,
                hops as int,
            ) == Ok::<int, Seq<char>>(node as int) && node < sourcemap@.len(),
            Err(reason) => instance_target(
                sourcemap@,
                environment@,
                as_position(script_node),
                expression@,
                hops as int,
            ) == Err::<int, Seq<char>>(reason@),
        },
    decreases MAX_BINDING_HOPS + 1 - hops,
{
    if hops > MAX_BINDING_HOPS {
        return Err(owned("the local bindings it is built from refer to each other"));
    }
    let chain = match parse_chain(expression) {
        Ok(chain) => chain,
        Err(reason) => {
            return Err(reason);
        },
    };
    let head = chain.head.as_str();
    let start: usize = if same_text(head, "script") {
        match script_node {
            Some(node) => node,
            None => {
                return Err(owned("the requiring file is not in the sourcemap"));
            },
        }
    } else if same_text(head, "game") {
        sourcemap.root()
    } else if same_text(head, "workspace") {
        match sourcemap.child(sourcemap.root(), "Workspace") {
            Some(node) => node,
            None => {
                return Err(owned("the sourcemap has no Workspace"));
            },
        }
    } else {
        match environment.get(head) {
            Some(bound) => match resolve_instance(
                bound,
                environment,
                sourcemap,
                script_node,
                hops + 1,
            ) {
                Ok(node) => node,
                Err(reason) => {
                    return Err(reason);
                },
            },
            None => match sourcemap.child(sourcemap.root(), head) {
                Some(node) => node,
                None => {
                    let mut reason = owned(head);
                    reason.append(" is not a known instance in this file");
                    return Err(reason);
                },
            },
        }
    };
    instance_after(sourcemap, start, &chain.steps)
}

/// The file a `require` resolves to, or why it resolves to none: a string names a file, anything
/// else an instance that must be a script.
pub open spec fn require_target(
    nodes: Seq<NodeModel>,
    bindings: Seq<(Seq<char>, Seq<char>)>,
    script_node: Option<int>,
    disk: DiskModel,
    path: Seq<char>,
    expression: Seq<char>,
) -> Result<Seq<char>, Seq<char>> {
    let said = trimmed(expression);
    if said.len() > 0 && (said[0] == '"' || said[0] == '\'') {
        string_require_target(disk, literal_from(said, 1, said[0]).0, path)
    } else {
        match instance_target(nodes, bindings, script_node, said, 0) {
            Err(reason) => Err(reason),
            Ok(node) => match first_luau(nodes[node].file_paths, 0) {
                Some(file) => Ok(file),
                None => Err(
                    "resolves to "@ + nodes[node].instance_path + ", which is a "@
                        + nodes[node].class_name + " rather than a script"@,
                ),
            },
        }
    }
}

/// Resolves a `require` of the file at `path`.
pub fn resolve(
    expression: &str,
    environment: &Bindings,
    sourcemap: &Sourcemap,
    script_node: Option<usize>,
    path: &str,
    disk: &DiskFacts,
) -> (r: Result<String, String>)
    requires
        sourcemap.wf(),
        node_in_range(script_node, sourcemap@),
    ensures
        match r {
            Ok(relative) => require_target(
                sourcemap@,
                environment@,
                as_position(script_node),
                disk.deep_view(),
                path@,
                expression@,
            ) == Ok::<Seq<char>, Seq<char>>(relative@),
            Err(reason) => require_target(
                sourcemap@,
                environment@,
                as_position(script_node),
                disk.deep_view(),
                path@,
                expression@,
            ) == Err::<Seq<char>, Seq<char>>(reason@),
        },
{
    let said = trim(expression);
    let chars = to_chars(said);
    if chars.len() > 0 && (chars[0] == '"' || chars[0] == '\'') {
        let (literal, _) = read_string(&chars, 0, chars[0]);
        return resolve_string_require(literal.as_str(), path, disk);
    }
    match resolve_instance(said, environment, sourcemap, script_node, 0) {
        Err(reason) => Err(reason),
        Ok(node) => match sourcemap.script_file(node) {
            Some(file) => Ok(owned(file)),
            None => {
                let held = sourcemap.node(node);
                let mut reason = owned("resolves to ");
                reason.append(held.instance_path.as_str());
                reason.append(", which is a ");
                reason.append(held.class_name.as_str());
                reason.append(" rather than a script");
                Err(reason)
            },
        },
    }
}

} // verus!
