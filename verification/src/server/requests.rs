//! What the tools are asked for.
use vstd::prelude::*;
use crate::roblox::api::{ApiQuery, QueryModel};
use crate::roblox::require_graph::graph::GraphRequest;
use crate::roblox::require_graph::Direction;
use crate::text::owned;

verus! {
/// A memory, by its name.
#[derive(Debug)]
pub struct MemoryNameRequest {
    /// Memory name, without the .md extension. Nest with `/`.
    pub memory_name: String,
}

/// A memory to write.
#[derive(Debug)]
pub struct CreateMemoryRequest {
    /// Memory name, without the .md extension. Nest with `/`.
    pub memory_name: String,
    /// Markdown body. Reference other memories with `mem:name` in backticks.
    pub content: String,
    /// Replace a memory that already exists. Prefer edit_memory over a wholesale rewrite.
    pub overwrite: bool,
}

/// A memory to edit.
#[derive(Debug)]
pub struct EditMemoryRequest {
    pub memory_name: String,
    /// Regular expression matched against the memory body.
    pub pattern: String,
    /// Replacement text. Capture groups are available as `$1`, `$2`, and `${name}`; write `$$` for
    /// a literal dollar sign.
    pub replacement: String,
    /// Replace every match instead of erroring when the pattern is ambiguous.
    pub allow_multiple_occurrences: bool,
}

/// A memory to rename.
#[derive(Debug)]
pub struct RenameMemoryRequest {
    pub old_name: String,
    pub new_name: String,
}

/// A directory to list.
#[derive(Debug)]
pub struct ListDirRequest {
    /// Directory relative to the project root. Use "." for the root itself.
    pub relative_path: String,
    /// Descend into subdirectories.
    pub recursive: bool,
}

/// Files to find by name.
#[derive(Debug)]
pub struct FindFileRequest {
    /// Filename glob, for example "*.luau" or "init.*".
    pub file_mask: String,
    /// Directory to search under, relative to the project root.
    pub relative_path: String,
}

/// A pattern to search for.
#[derive(Debug)]
pub struct SearchForPatternRequest {
    /// Regular expression matched against file contents.
    pub substring_pattern: String,
    pub context_lines_before: usize,
    pub context_lines_after: usize,
    /// Restrict to paths matching this glob, for example "src/**".
    pub paths_include_glob: Option<String>,
    /// Skip paths matching this glob. Takes precedence over the include glob.
    pub paths_exclude_glob: Option<String>,
    /// Directory or file to search under, relative to the project root.
    pub relative_path: String,
    /// Only search .luau, .lua, and .luaurc files.
    pub restrict_search_to_code_files: bool,
    /// How much to report: "snippets" (the default) returns the matching lines, "files" returns
    /// only the paths that match, "counts" returns a match count per file.
    pub mode: SearchOutputMode,
    /// Match without regard to case.
    pub case_insensitive: bool,
    /// Let "." match a newline, so one pattern can span lines. Off by default, because with it on
    /// a plain ".*" runs to the end of the file and returns the whole file as one match.
    pub dot_matches_newline: bool,
}

/// How much a search reports: the matching lines, the paths that match, or a count per file.
#[derive(Debug, Clone, Copy, PartialEq, Eq, Structural)]
pub enum SearchOutputMode {
    Snippets,
    Files,
    Counts,
}

/// A file whose symbols are listed.
#[derive(Debug)]
pub struct SymbolsOverviewRequest {
    /// Luau source file relative to the project root.
    pub relative_path: String,
    /// How many levels of nested symbols to include. 0 lists top-level symbols only. Defaults to
    /// 1, which is where the members of a table live.
    pub depth: u32,
    /// Include each symbol's resolved type signature. Off by default because signatures are long
    /// and each one costs the language server a request.
    pub include_detail: bool,
    /// Include variables declared inside a function body. Off by default, where each symbol
    /// instead reports how many children were left out as "omitted_children".
    pub include_locals: bool,
}

/// A symbol to find.
#[derive(Debug)]
pub struct FindSymbolRequestInput {
    /// Name path such as "update", "PlayerService/update", "PlayerService:update", or
    /// "/PlayerService". Append "[n]" to a segment to pick one of several same-named symbols.
    pub name_path: String,
    /// File or directory to search. Omit to search the whole project.
    pub relative_path: Option<String>,
    /// Levels of children to include alongside each match.
    pub depth: u32,
    /// Include each matched symbol's source text.
    pub include_body: bool,
    /// Include each symbol's resolved type signature. Off by default because signatures are long
    /// and each one costs the language server a request.
    pub include_detail: bool,
    /// Include variables declared inside a function body. Off by default, where each symbol
    /// instead reports how many children were left out as "omitted_children".
    pub include_locals: bool,
    /// LSP SymbolKind numbers to keep. Empty means all kinds.
    pub include_kinds: Vec<u32>,
    /// LSP SymbolKind numbers to drop.
    pub exclude_kinds: Vec<u32>,
    /// Match the final name path segment as a substring.
    pub substring_matching: bool,
    /// Cap on returned matches.
    pub max_matches: usize,
}

/// A symbol whose references are found.
#[derive(Debug)]
pub struct SymbolLocationRequest {
    /// Name path of the symbol. Append "[n]" to a segment to pick one of several same-named symbols.
    pub name_path: String,
    /// File containing the symbol, relative to the project root.
    pub relative_path: String,
    /// Source lines to show either side of each reference. 0 shows the reference line alone.
    pub context_lines: usize,
}

/// A symbol whose declaration is found.
#[derive(Debug)]
pub struct FindDeclarationRequest {
    /// Name path of a symbol the file itself declares. Append "[n]" to a segment to pick one of
    /// several same-named symbols. Omit to point with line and column instead, which is how a
    /// symbol declared in another file is asked about.
    pub name_path: Option<String>,
    /// File containing the symbol, relative to the project root.
    pub relative_path: String,
    /// 1-based line of a use of the symbol. Omit when name_path is given.
    pub line: Option<u32>,
    /// 1-based column on that line. Defaults to the start of the line.
    pub column: Option<u32>,
    /// Include a source snippet around each result.
    pub include_body: bool,
    /// Include each symbol's type signature. Off by default because signatures are long.
    pub include_detail: bool,
}

/// A file whose diagnostics are listed.
#[derive(Debug)]
pub struct FileDiagnosticsRequest {
    pub relative_path: String,
    /// First line to report on, 1-based.
    pub start_line: Option<u32>,
    /// Last line to report on, 1-based.
    pub end_line: Option<u32>,
    /// 1 error, 2 warning, 3 information, 4 hint. Defaults to 2.
    pub min_severity: Option<u32>,
}

/// A symbol whose diagnostics are listed.
#[derive(Debug)]
pub struct SymbolDiagnosticsRequest {
    pub name_path: String,
    pub relative_path: String,
    /// Also report diagnostics in every file that references this symbol.
    pub check_symbol_references: bool,
    /// 1 error, 2 warning, 3 information, 4 hint. Defaults to 2.
    pub min_severity: Option<u32>,
}

/// A symbol to explain.
#[derive(Debug)]
pub struct ExplainSymbolRequest {
    /// Name path of the symbol. Omit to point with line and column instead.
    pub name_path: Option<String>,
    /// File containing the position, relative to the project root.
    pub relative_path: String,
    /// 1-based line, used instead of name_path. Aim it at a use of the symbol.
    pub line: Option<u32>,
    /// 1-based column on that line. Defaults to 1.
    pub column: Option<u32>,
    /// Include the doc comment alongside the type. Off by default because docs are long.
    pub include_documentation: bool,
}

/// A type whose definition is found.
#[derive(Debug)]
pub struct TypeDefinitionRequest {
    /// Name path of a type. Omit to point with line and column instead, which is what a type
    /// written as an annotation needs.
    pub name_path: Option<String>,
    /// File containing the position, relative to the project root.
    pub relative_path: String,
    /// 1-based line. Aim it at the type's own name: in `local config: PlayerConfig`, at
    /// `PlayerConfig` rather than at `config`.
    pub line: Option<u32>,
    /// 1-based column on that line. Defaults to 1.
    pub column: Option<u32>,
    /// Include a source snippet around each result.
    pub include_body: bool,
    /// Include each symbol's type signature. Off by default because signatures are long.
    pub include_detail: bool,
}

/// A file whose inlay hints are listed.
#[derive(Debug)]
pub struct InlayHintsRequest {
    /// Luau source file relative to the project root.
    pub relative_path: String,
    /// First line to report on, 1-based. Defaults to the start of the file.
    pub start_line: Option<u32>,
    /// Last line to report on, 1-based. Defaults to the end of the file.
    pub end_line: Option<u32>,
}

/// A symbol to plan a rename of.
#[derive(Debug)]
pub struct PlanSymbolRenameRequest {
    /// Name path of the symbol to rename. Append "[n]" to a segment to pick one of several
    /// same-named symbols.
    pub name_path: String,
    /// File containing the symbol, relative to the project root.
    pub relative_path: String,
    /// The new name. Must be a valid Luau identifier.
    pub new_name: String,
}

/// An instance path or a file to translate into the other.
#[derive(Debug)]
pub struct ResolveInstancePathRequest {
    /// DataModel path such as "game.ReplicatedStorage.Shared.Combat". Omit to translate a file
    /// path instead.
    pub instance_path: Option<String>,
    /// Luau file relative to the project root, such as "src/Shared/Combat/init.luau". Omit to
    /// translate an instance path instead.
    pub relative_path: Option<String>,
}

/// A question about the require graph.
#[derive(Debug)]
pub struct RequireGraphRequest {
    /// Module to centre the graph on, relative to the project root. Omit for a project-wide
    /// answer, which reports cycles and unresolved requires rather than every edge.
    pub relative_path: Option<String>,
    /// "dependencies" for what it requires, "dependents" for what requires it, or "both".
    pub direction: Option<String>,
    /// How many hops to follow. 1 is direct edges only.
    pub depth: u32,
    /// Report require cycles. On by default for a project-wide answer.
    pub include_cycles: Option<bool>,
    /// Report requires that could not be resolved statically.
    pub include_unresolved: bool,
}

/// A module to describe.
#[derive(Debug)]
pub struct ModuleContextRequest {
    /// Luau file relative to the project root.
    pub relative_path: String,
}

/// A module whose public surface is told.
#[derive(Debug)]
pub struct ModuleApiRequest {
    /// ModuleScript relative to the project root.
    pub relative_path: String,
}

/// A question about the Roblox API.
#[derive(Debug)]
pub struct RobloxApiRequest {
    /// A class ("BasePart"), a service ("TweenService"), a member ("TweenService:Create" or
    /// "BasePart.Anchored"), or an enum ("Enum.EasingStyle").
    pub query: String,
    /// Keep only members whose name contains this, case-insensitively.
    pub member_filter: Option<String>,
    /// Include members a class inherits from its ancestors. Off by default because Instance alone
    /// carries dozens.
    pub include_inherited: bool,
    /// Include the documentation prose. Off by default for a class listing; a single member
    /// carries it regardless.
    pub include_documentation: bool,
    /// Cap on members returned for a class or items for an enum.
    pub max_members: usize,
}

/// Nothing more to ask.
#[derive(Debug)]
pub struct NoArguments {}

/// The mode of a search that says nothing of it.
impl Default for SearchOutputMode {
    fn default() -> (r: SearchOutputMode)
        ensures
            r == SearchOutputMode::Snippets,
    {
        SearchOutputMode::Snippets
    }
}

/// The directory that is searched where none is given.
pub fn project_root() -> (r: String)
    ensures
        r@ == "."@,
{
    owned(".")
}

/// How many symbols are returned where nothing is said of it.
pub fn default_max_matches() -> (r: usize)
    ensures
        r == 50,
{
    50
}

/// How deep symbols are listed where nothing is said of it.
pub fn default_overview_depth() -> (r: u32)
    ensures
        r == 1,
{
    1
}

/// How many hops of the graph are followed where nothing is said of it.
pub fn default_graph_depth() -> (r: u32)
    ensures
        r == 1,
{
    1
}

/// How many members are returned where nothing is said of it.
pub fn default_max_members() -> (r: usize)
    ensures
        r == 200,
{
    200
}

/// What is reported where nothing is said of it.
pub fn default_true() -> (r: bool)
    ensures
        r,
{
    true
}

/// The lesser of what is asked for and what is configured.
pub fn at_most(asked: usize, configured: usize) -> (r: usize)
    ensures
        r == (if asked <= configured {
            asked
        } else {
            configured
        }),
{
    if asked <= configured {
        asked
    } else {
        configured
    }
}

/// The question about the graph that a request asks: cycles are reported where that is asked for
/// and, where nothing is said of it, for an answer about the whole project.
pub fn graph_request<'a>(
    request: &'a RequireGraphRequest,
    directions: Vec<Direction>,
    max_listing_entries: usize,
) -> (r: GraphRequest<'a>)
    ensures
        r.relative_path.deep_view() == request.relative_path.deep_view(),
        r.directions@ == directions@,
        r.depth == request.depth,
        r.include_cycles == (match request.include_cycles {
            Some(asked) => asked,
            None => request.relative_path is None,
        }),
        r.include_unresolved == request.include_unresolved,
        r.limit == max_listing_entries,
{
    GraphRequest {
        relative_path: match &request.relative_path {
            Some(path) => Some(path.as_str()),
            None => None,
        },
        directions,
        depth: request.depth,
        include_cycles: match request.include_cycles {
            Some(asked) => asked,
            None => request.relative_path.is_none(),
        },
        include_unresolved: request.include_unresolved,
        limit: max_listing_entries,
    }
}

/// The question about the API that a request asks, for no more members than are ever listed.
pub fn api_query<'a>(request: &'a RobloxApiRequest, max_listing_entries: usize) -> (r: ApiQuery<'a>)
    ensures
        r.deep_view() == (QueryModel {
            query: request.query@,
            member_filter: request.member_filter.deep_view(),
            include_inherited: request.include_inherited,
            include_documentation: request.include_documentation,
            max_members: if request.max_members <= max_listing_entries {
                request.max_members as int
            } else {
                max_listing_entries as int
            },
        }),
{
    ApiQuery {
        query: request.query.as_str(),
        member_filter: match &request.member_filter {
            Some(filter) => Some(filter.as_str()),
            None => None,
        },
        include_inherited: request.include_inherited,
        include_documentation: request.include_documentation,
        max_members: at_most(request.max_members, max_listing_entries),
    }
}

} // verus!
