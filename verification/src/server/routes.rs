//! Which tools are offered.
use vstd::prelude::*;
use crate::text::{list_holds, same_text};

verus! {

/// The tools that need the language server.
pub open spec fn needs_language_server(name: Seq<char>) -> bool {
    ||| name == "get_symbols_overview"@
    ||| name == "find_symbol"@
    ||| name == "find_declaration"@
    ||| name == "find_referencing_symbols"@
    ||| name == "get_file_diagnostics"@
    ||| name == "get_symbol_diagnostics"@
    ||| name == "restart_language_server"@
    ||| name == "explain_symbol"@
    ||| name == "get_type_definition"@
    ||| name == "get_inlay_hints"@
    ||| name == "get_signature_help"@
    ||| name == "resolve_instance_path"@
    ||| name == "get_require_graph"@
    ||| name == "get_module_context"@
    ||| name == "query_roblox_api"@
}

/// Whether a tool needs the language server.
pub fn is_language_server_tool(name: &str) -> (b: bool)
    ensures
        b == needs_language_server(name@),
{
    same_text(name, "get_symbols_overview") || same_text(name, "find_symbol") || same_text(
        name,
        "find_declaration",
    ) || same_text(name, "find_referencing_symbols") || same_text(name, "get_file_diagnostics")
        || same_text(name, "get_symbol_diagnostics") || same_text(name, "restart_language_server")
        || same_text(name, "explain_symbol") || same_text(name, "get_type_definition")
        || same_text(name, "get_inlay_hints") || same_text(name, "get_signature_help")
        || same_text(name, "resolve_instance_path") || same_text(name, "get_require_graph")
        || same_text(name, "get_module_context") || same_text(name, "query_roblox_api")
}

/// The tools that are offered, and the names that were to be excluded and are not known.
#[derive(Debug)]
pub struct Routing {
    pub routed: Vec<String>,
    pub unknown: Vec<String>,
}

/// Those of the first `n` tools that are offered: with memories only, none that needs the language
/// server, and never one that is excluded.
pub open spec fn routed_tools(
    tools: Seq<Seq<char>>,
    memory_only: bool,
    excluded: Seq<Seq<char>>,
    n: int,
) -> Seq<Seq<char>>
    decreases n,
{
    if n <= 0 {
        Seq::empty()
    } else {
        let before = routed_tools(tools, memory_only, excluded, n - 1);
        let tool = tools[n - 1];
        if (memory_only && needs_language_server(tool)) || excluded.contains(tool) {
            before
        } else {
            before.push(tool)
        }
    }
}

/// Whether a name that is to be excluded is not known: no tool has it, or it was excluded before.
/// What is not offered anyway, with memories only, is known.
pub open spec fn is_unknown(
    tools: Seq<Seq<char>>,
    memory_only: bool,
    excluded: Seq<Seq<char>>,
    i: int,
) -> bool {
    let name = excluded[i];
    &&& !(memory_only && needs_language_server(name))
    &&& !tools.contains(name) || excluded.take(i).contains(name)
}

/// Those of the first `n` names to be excluded that are not known.
pub open spec fn unknown_names(
    tools: Seq<Seq<char>>,
    memory_only: bool,
    excluded: Seq<Seq<char>>,
    n: int,
) -> Seq<Seq<char>>
    decreases n,
{
    if n <= 0 {
        Seq::empty()
    } else if is_unknown(tools, memory_only, excluded, n - 1) {
        unknown_names(tools, memory_only, excluded, n - 1).push(excluded[n - 1])
    } else {
        unknown_names(tools, memory_only, excluded, n - 1)
    }
}

fn stands_before(list: &Vec<String>, to: usize) -> (b: bool)
    requires
        to < list@.len(),
    ensures
        b == list.deep_view().take(to as int).contains(list.deep_view()[to as int]),
{
    let ghost all = list.deep_view();
    let mut i: usize = 0;
    while i < to
        invariant
            i <= to < list@.len(),
            all == list.deep_view(),
            forall|k: int| 0 <= k < i ==> all[k] != all[to as int],
        decreases to - i,
    {
        assert(all[i as int] == list@[i as int]@);
        assert(all[to as int] == list@[to as int]@);
        if same_text(list[i].as_str(), list[to].as_str()) {
            assert(all.take(to as int)[i as int] == all[to as int]);
            return true;
        }
        i = i + 1;
    }
    assert forall|k: int| 0 <= k < all.take(to as int).len() implies all.take(to as int)[k]
        != all[to as int] by {
        assert(all.take(to as int)[k] == all[k]);
    }
    false
}

/// Decides which tools are offered.
pub fn route(tools: &Vec<String>, memory_only: bool, excluded: &Vec<String>) -> (r: Routing)
    ensures
        r.routed.deep_view() == routed_tools(
            tools.deep_view(),
            memory_only,
            excluded.deep_view(),
            tools@.len() as int,
        ),
        r.unknown.deep_view() == unknown_names(
            tools.deep_view(),
            memory_only,
            excluded.deep_view(),
            excluded@.len() as int,
        ),
{
    let ghost all = tools.deep_view();
    let ghost out = excluded.deep_view();
    let mut routed: Vec<String> = Vec::new();
    let mut i: usize = 0;
    assert(routed.deep_view() =~= routed_tools(all, memory_only, out, 0));
    while i < tools.len()
        invariant
            i <= tools@.len(),
            all == tools.deep_view(),
            out == excluded.deep_view(),
            routed.deep_view() == routed_tools(all, memory_only, out, i as int),
        decreases tools@.len() - i,
    {
        assert(all[i as int] == tools@[i as int]@);
        let ghost before = routed.deep_view();
        let tool = tools[i].as_str();
        if !((memory_only && is_language_server_tool(tool)) || list_holds(excluded, tool)) {
            routed.push(tools[i].clone());
            assert(routed.deep_view() =~= before.push(all[i as int]));
        }
        i = i + 1;
    }
    let mut unknown: Vec<String> = Vec::new();
    let mut k: usize = 0;
    assert(unknown.deep_view() =~= unknown_names(all, memory_only, out, 0));
    while k < excluded.len()
        invariant
            k <= excluded@.len(),
            all == tools.deep_view(),
            out == excluded.deep_view(),
            unknown.deep_view() == unknown_names(all, memory_only, out, k as int),
        decreases excluded@.len() - k,
    {
        assert(out[k as int] == excluded@[k as int]@);
        let ghost before = unknown.deep_view();
        let name = excluded[k].as_str();
        if !(memory_only && is_language_server_tool(name)) && (!list_holds(tools, name)
            || stands_before(excluded, k)) {
            unknown.push(excluded[k].clone());
            assert(unknown.deep_view() =~= before.push(out[k as int]));
        }
        k = k + 1;
    }
    Routing { routed, unknown }
}

/// With memories only, no tool that needs the language server is offered; and whatever the mode, no
/// tool that is excluded is.
pub proof fn what_is_dropped_is_not_offered(
    tools: Seq<Seq<char>>,
    memory_only: bool,
    excluded: Seq<Seq<char>>,
    n: int,
    name: Seq<char>,
)
    requires
        0 <= n <= tools.len(),
    ensures
        routed_tools(tools, memory_only, excluded, n).contains(name) <==> tools.take(n).contains(
            name,
        ) && !(memory_only && needs_language_server(name)) && !excluded.contains(name),
    decreases n,
{
    if n > 0 {
        what_is_dropped_is_not_offered(tools, memory_only, excluded, n - 1, name);
        let before = routed_tools(tools, memory_only, excluded, n - 1);
        let now = routed_tools(tools, memory_only, excluded, n);
        let shorter = tools.take(n - 1);
        let longer = tools.take(n);
        assert(longer =~= shorter.push(tools[n - 1]));
        if longer.contains(name) {
            let k = choose|k: int| 0 <= k < longer.len() && longer[k] == name;
            if k < n - 1 {
                assert(shorter[k] == name);
            }
        }
        if shorter.contains(name) {
            let k = choose|k: int| 0 <= k < shorter.len() && shorter[k] == name;
            assert(longer[k] == name);
        }
        assert(longer[n - 1] == tools[n - 1]);
        if now.contains(name) {
            let k = choose|k: int| 0 <= k < now.len() && now[k] == name;
            if k < before.len() {
                assert(before[k] == name);
            }
        }
        if before.contains(name) {
            let k = choose|k: int| 0 <= k < before.len() && before[k] == name;
            assert(now[k] == name);
        }
        if now.len() > before.len() {
            assert(now[before.len() as int] == tools[n - 1]);
        }
    }
}

} // verus!
