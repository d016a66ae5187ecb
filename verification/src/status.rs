//! What a confused caller needs to tell "no matches" from "nothing is running".
use vstd::prelude::*;
use crate::json::{
    a_document_is_itself, copy_json, equal_json, json_model, keys_differ, member_keys_differ,
    member_keys_differ_means, member_position, member_position_is_first, members_model,
    members_model_items, position_of, same_json, Json, JsonModel,
};
use crate::roblox::sourcemap::{seconds_between, seconds_from};
use crate::text::{owned, same_text, split, split_on, to_chars, slice_text};
use crate::text_map::TextMap;

verus! {

/// Everything a confused caller needs to tell "no matches" from "nothing is running".
#[derive(Debug)]
pub struct Status {
    pub biskit_version: &'static str,
    pub project_root: String,
    /// How the root was chosen, which is the first thing to doubt when the answers look wrong.
    pub root_source: String,
    pub mode: &'static str,
    pub settings: SettingsStatus,
    pub language_server: LanguageServerStatus,
    pub sourcemap: Option<SourcemapStatus>,
    pub shared_require: Option<SharedRequireStatus>,
    pub memories: MemoryStatus,
}

/// Where the settings stand.
#[derive(Debug)]
pub struct SettingsStatus {
    pub settings_file: String,
    pub settings_file_present: bool,
    pub local_settings_file: String,
    pub local_settings_file_present: bool,
    /// Every setting that differs from Biskit's default, as dotted keys.
    pub overrides: TextMap<Json>,
}

/// Where the language server stands.
#[derive(Debug)]
pub struct LanguageServerStatus {
    /// One of `running`, `not started`, `starting`, or `disabled`.
    pub state: &'static str,
    pub version: String,
    pub repository: String,
    pub platform: &'static str,
    pub roblox_security_level: &'static str,
    /// Absent when nothing has been downloaded yet.
    pub binary: Option<String>,
    pub request_timeout_ms: u64,
}

/// Where the carpenter fork's `shared("Name")` require stands for this project.
#[derive(Debug)]
pub struct SharedRequireStatus {
    /// Whether the require graph counts `shared("Name")` calls as dependency edges.
    pub graph_edges: bool,
    /// One of `supported`, `unsupported`, or `unknown`.
    pub language_server: &'static str,
    pub note: Option<String>,
}

/// Where the sourcemap stands.
#[derive(Debug)]
pub struct SourcemapStatus {
    pub relative_path: String,
    pub present: bool,
    pub modified_epoch_seconds: Option<u64>,
    pub age_seconds: Option<u64>,
    pub watched: bool,
    /// True when a Luau file has been written since the sourcemap was generated.
    pub stale: Option<bool>,
    /// The file that makes it stale, so the claim can be checked rather than taken on faith.
    pub newest_source: Option<String>,
    pub note: Option<String>,
}

/// Where the memories stand.
#[derive(Debug)]
pub struct MemoryStatus {
    pub count: usize,
    pub directory: String,
}

// ---------------------------------------------------------------------------
// Overrides

/// The dotted key of a setting below another.
pub open spec fn dotted(prefix: Seq<char>, key: Seq<char>) -> Seq<char> {
    if prefix.len() == 0 {
        key
    } else {
        prefix + "."@ + key
    }
}

/// The settings known to differ, once those below `prefix` are compared with their defaults.
pub open spec fn overrides_in(
    current: JsonModel,
    defaults: JsonModel,
    prefix: Seq<char>,
    known: Map<Seq<char>, JsonModel>,
) -> Map<Seq<char>, JsonModel>
    decreases current, 0int,
{
    match (current, defaults) {
        (JsonModel::Object(members), JsonModel::Object(default_members)) => overrides_among(
            members,
            default_members,
            prefix,
            known,
        ),
        _ => if same_json(current, defaults) {
            known
        } else {
            known.insert(prefix, current)
        },
    }
}

/// The settings known to differ, once some members are compared with their defaults.
pub open spec fn overrides_among(
    members: Seq<(Seq<char>, JsonModel)>,
    defaults: Seq<(Seq<char>, JsonModel)>,
    prefix: Seq<char>,
    known: Map<Seq<char>, JsonModel>,
) -> Map<Seq<char>, JsonModel>
    decreases members, 1int,
{
    if members.len() == 0 {
        known
    } else {
        let path = dotted(prefix, members[0].0);
        let found = match member_position(defaults, members[0].0, 0) {
            Some(i) => overrides_in(members[0].1, defaults[i].1, path, known),
            None => known.insert(path, members[0].1),
        };
        overrides_among(members.skip(1), defaults, prefix, found)
    }
}

/// What a map of settings says.
pub open spec fn overrides_model(overrides: Map<Seq<char>, Json>) -> Map<Seq<char>, JsonModel> {
    overrides.map_values(|value: Json| json_model(value))
}

fn put_override(out: &mut TextMap<Json>, key: &str, value: &Json)
    ensures
        overrides_model(final(out)@) == overrides_model(old(out)@).insert(key@, value.deep_view()),
{
    let ghost before = out@;
    out.insert(owned(key), copy_json(value));
    assert(overrides_model(out@) =~= overrides_model(before).insert(key@, value.deep_view()));
}

/// Collects the settings below `prefix` that differ from their defaults.
pub fn collect_overrides(current: &Json, defaults: &Json, prefix: &str, out: &mut TextMap<Json>)
    ensures
        overrides_model(final(out)@) == overrides_in(
            current.deep_view(),
            defaults.deep_view(),
            prefix@,
            overrides_model(old(out)@),
        ),
    decreases current,
{
    match (current, defaults) {
        (Json::Object(members), Json::Object(default_members)) => {
            let ghost left = members_model(members@);
            let ghost right = members_model(default_members@);
            let ghost whole = overrides_among(left, right, prefix@, overrides_model(out@));
            proof {
                members_model_items(members@);
                members_model_items(default_members@);
                assert(left.skip(0) =~= left);
            }
            let mut i: usize = 0;
            while i < members.len()
                invariant
                    i <= members@.len(),
                    *current == Json::Object(*members),
                    left == members_model(members@),
                    right == members_model(default_members@),
                    left.len() == members@.len(),
                    right.len() == default_members@.len(),
                    forall|k: int|
                        0 <= k < members@.len() ==> #[trigger] left[k] == (
                            members@[k].0@,
                            json_model(members@[k].1),
                        ),
                    forall|k: int|
                        0 <= k < default_members@.len() ==> #[trigger] right[k] == (
                            default_members@[k].0@,
                            json_model(default_members@[k].1),
                        ),
                    whole == overrides_among(
                        left.skip(i as int),
                        right,
                        prefix@,
                        overrides_model(out@),
                    ),
                decreases members@.len() - i,
            {
                proof {
                    let l = left.skip(i as int);
                    assert(l[0] == left[i as int]);
                    assert(l.skip(1) =~= left.skip(i + 1));
                    assert(decreases_to!(*current => current->Object_0));
                    assert(decreases_to!(*members => members@));
                    assert(decreases_to!(members@ => members@[i as int]));
                    assert(decreases_to!(members@[i as int] => members@[i as int].1));
                }
                let key = members[i].0.as_str();
                let path: String = if prefix.is_empty() {
                    owned(key)
                } else {
                    let mut path = owned(prefix);
                    path.append(".");
                    path.append(key);
                    path
                };
                match position_of(default_members, key) {
                    Some(j) => {
                        assert(right[j as int] == (
                            default_members@[j as int].0@,
                            json_model(default_members@[j as int].1),
                        ));
                        collect_overrides(
                            &members[i].1,
                            &default_members[j].1,
                            path.as_str(),
                            out,
                        );
                    },
                    None => {
                        put_override(out, path.as_str(), &members[i].1);
                    },
                }
                i = i + 1;
            }
            assert(left.skip(i as int) =~= Seq::empty());
        },
        _ => {
            if !equal_json(current, defaults) {
                put_override(out, prefix, current);
            }
        },
    }
}

/// The settings that differ from their defaults, as dotted keys.
pub fn settings_overrides(current: &Json, defaults: &Json) -> (r: TextMap<Json>)
    ensures
        overrides_model(r@) == overrides_in(
            current.deep_view(),
            defaults.deep_view(),
            Seq::empty(),
            Map::empty(),
        ),
{
    let mut out: TextMap<Json> = TextMap::new();
    assert(overrides_model(out@) =~= Map::empty());
    assert(""@ =~= Seq::empty()) by {
        reveal_strlit("");
    }
    collect_overrides(current, defaults, "", &mut out);
    out
}

/// Settings that are the defaults differ from them in nothing.
pub proof fn the_defaults_override_nothing(
    settings: JsonModel,
    prefix: Seq<char>,
    known: Map<Seq<char>, JsonModel>,
)
    requires
        keys_differ(settings),
    ensures
        overrides_in(settings, settings, prefix, known) == known,
    decreases settings, 0int,
{
    a_document_is_itself(settings);
    if let JsonModel::Object(members) = settings {
        assert(members.skip(0) =~= members);
        default_members_override_nothing(members, 0, prefix, known);
    }
}

proof fn default_members_override_nothing(
    members: Seq<(Seq<char>, JsonModel)>,
    i: int,
    prefix: Seq<char>,
    known: Map<Seq<char>, JsonModel>,
)
    requires
        member_keys_differ(members),
        0 <= i <= members.len(),
    ensures
        overrides_among(members.skip(i), members, prefix, known) == known,
    decreases members, 1int, members.len() - i,
{
    if i < members.len() {
        let rest = members.skip(i);
        member_keys_differ_means(members);
        member_position_is_first(members, members[i].0, 0);
        let found = member_position(members, members[i].0, 0)->0;
        assert(found == i) by {
            if found < i {
                assert(members[found].0 != members[i].0);
            }
        }
        assert(rest[0] == members[i]);
        assert(rest.skip(1) =~= members.skip(i + 1));
        assert(decreases_to!(members => members[i]));
        assert(decreases_to!(members[i] => members[i].1));
        the_defaults_override_nothing(members[i].1, dotted(prefix, members[i].0), known);
        default_members_override_nothing(members, i + 1, prefix, known);
    }
}

// ---------------------------------------------------------------------------
// Versions

/// Where the `v`s a text starts with end.
pub open spec fn after_vs(s: Seq<char>, i: int) -> int
    decreases s.len() - i,
{
    if 0 <= i < s.len() && s[i] == 'v' {
        after_vs(s, i + 1)
    } else {
        i
    }
}

/// The number that decimal digits write, where they are digits.
pub open spec fn digits_value(s: Seq<char>) -> Option<int>
    decreases s.len(),
{
    if s.len() == 0 {
        Some(0)
    } else {
        match digits_value(s.drop_last()) {
            Some(value) => if '0' <= s.last() <= '9' {
                Some(value * 10 + (s.last() as int - '0' as int))
            } else {
                None
            },
            None => None,
        }
    }
}

/// The number a text holds: digits, behind a plus sign or not, of a value below 2^32.
pub open spec fn number_in(s: Seq<char>) -> Option<u32> {
    let digits = if s.len() > 0 && s[0] == '+' {
        s.skip(1)
    } else {
        s
    };
    if digits.len() == 0 {
        None
    } else {
        match digits_value(digits) {
            Some(value) => if value <= u32::MAX {
                Some(value as u32)
            } else {
                None
            },
            None => None,
        }
    }
}

/// The three numbers of a version, with or without a `v` before them.
pub open spec fn version_numbers(value: Seq<char>) -> Option<(u32, u32, u32)> {
    let parts = split_on(value.skip(after_vs(value, 0)), '.');
    if parts.len() != 3 {
        None
    } else {
        match (number_in(parts[0]), number_in(parts[1]), number_in(parts[2])) {
            (Some(major), Some(minor), Some(patch)) => Some((major, minor, patch)),
            _ => None,
        }
    }
}

proof fn digits_value_is_no_less(s: Seq<char>, n: int)
    requires
        0 <= n <= s.len(),
    ensures
        digits_value(s) matches Some(value) ==> (digits_value(s.take(n)) matches Some(part) && 0
            <= part <= value),
    decreases s.len() - n,
{
    if n == s.len() {
        assert(s.take(n) =~= s);
        digits_are_not_negative(s);
    } else {
        digits_value_is_no_less(s, n + 1);
        let longer = s.take(n + 1);
        assert(longer.drop_last() =~= s.take(n));
        digits_are_not_negative(s.take(n));
    }
}

proof fn digits_are_not_negative(s: Seq<char>)
    ensures
        digits_value(s) matches Some(value) ==> value >= 0,
    decreases s.len(),
{
    if s.len() > 0 {
        digits_are_not_negative(s.drop_last());
    }
}

fn parse_number(text: &str) -> (r: Option<u32>)
    ensures
        r == number_in(text@),
{
    let chars = to_chars(text);
    let start: usize = if chars.len() > 0 && chars[0] == '+' {
        1
    } else {
        0
    };
    let ghost digits = text@.skip(start as int);
    assert(start == 0 ==> digits =~= text@);
    if start == chars.len() {
        return None;
    }
    let mut value: u32 = 0;
    let mut i: usize = start;
    assert(digits.take(0) =~= Seq::empty());
    while i < chars.len()
        invariant
            start <= i <= chars@.len(),
            start <= 1,
            chars@ == text@,
            digits == text@.skip(start as int),
            digits.len() > 0,
            digits == (if text@.len() > 0 && text@[0] == '+' {
                text@.skip(1)
            } else {
                text@
            }),
            digits_value(digits.take(i - start)) == Some(value as int),
        decreases chars@.len() - i,
    {
        let c = chars[i];
        proof {
            let next = digits.take(i - start + 1);
            assert(next.drop_last() =~= digits.take(i - start));
            assert(next.last() == c);
            digits_value_is_no_less(digits, i - start + 1);
        }
        if !('0' <= c && c <= '9') {
            return None;
        }
        let digit: u32 = (c as u32) - ('0' as u32);
        match value.checked_mul(10) {
            Some(tenfold) => match tenfold.checked_add(digit) {
                Some(next) => {
                    value = next;
                },
                None => {
                    return None;
                },
            },
            None => {
                return None;
            },
        }
        i = i + 1;
    }
    assert(digits.take(i - start) =~= digits);
    Some(value)
}

/// Reads the three numbers of a version.
pub fn parsed_version(value: &str) -> (r: Option<(u32, u32, u32)>)
    ensures
        r == version_numbers(value@),
{
    let chars = to_chars(value);
    let mut start: usize = 0;
    while start < chars.len() && chars[start] == 'v'
        invariant
            start <= chars@.len(),
            chars@ == value@,
            after_vs(value@, 0) == after_vs(value@, start as int),
        decreases chars@.len() - start,
    {
        start = start + 1;
    }
    let bare = slice_text(&chars, start, chars.len());
    assert(bare@ =~= value@.skip(after_vs(value@, 0)));
    let parts = split(bare.as_str(), '.');
    let ghost model = parts.deep_view();
    assert(model.len() == parts@.len());
    if parts.len() != 3 {
        return None;
    }
    assert(model[0] == parts@[0]@ && model[1] == parts@[1]@ && model[2] == parts@[2]@);
    match (
        parse_number(parts[0].as_str()),
        parse_number(parts[1].as_str()),
        parse_number(parts[2].as_str()),
    ) {
        (Some(major), Some(minor), Some(patch)) => Some((major, minor, patch)),
        _ => None,
    }
}

/// Whether a version is another or comes after it.
pub open spec fn at_least(version: (u32, u32, u32), first: (u32, u32, u32)) -> bool {
    ||| version.0 > first.0
    ||| version.0 == first.0 && version.1 > first.1
    ||| version.0 == first.0 && version.1 == first.1 && version.2 >= first.2
}

// ---------------------------------------------------------------------------
// Shared requires

/// The release of the language server that is pinned where the settings name none.
pub const DEFAULT_LSP_VERSION: &'static str = "v0.2.0";

/// The repository whose releases can be judged.
pub const DEFAULT_LSP_REPOSITORY: &'static str = "Sawhorse-Interactive/luau-lsp-carpenter";

/// The first of those releases that follows `shared("Name")`.
pub open spec fn first_shared_release() -> (u32, u32, u32) {
    (0, 2, 0)
}

/// What decides whether `shared("Name")` is followed: whether the graph counts it, and which release
/// of which language server is pinned.
#[derive(Debug)]
pub struct SharedRequireFacts<'a> {
    pub graph_edges: bool,
    pub version: &'a str,
    pub repository: &'a str,
}

/// Whether the language server follows `shared("Name")`. A release or a repository that cannot be
/// judged is not guessed at.
pub open spec fn shared_support(
    version: Seq<char>,
    repository: Seq<char>,
) -> Seq<char> {
    if repository != DEFAULT_LSP_REPOSITORY@ {
        "unknown"@
    } else {
        match version_numbers(version) {
            Some(numbers) => if at_least(numbers, first_shared_release()) {
                "supported"@
            } else {
                "unsupported"@
            },
            None => "unknown"@,
        }
    }
}

/// The note on where the graph and the language server disagree.
pub open spec fn shared_note(graph_edges: bool, language_server: Seq<char>) -> Option<Seq<char>> {
    if graph_edges && language_server == "unsupported"@ {
        Some(
            "the require graph follows shared(\"Name\") calls but the pinned language server release predates support for them, so diagnostics will report as errors the same calls the graph reports as edges. Raise lsp.version."@,
        )
    } else if !graph_edges && language_server == "supported"@ {
        Some(
            "project.shared_require is off, so the require graph does not count shared(\"Name\") calls as dependencies. The language server still resolves them, so hover, diagnostics and go-to-definition disagree with get_require_graph and get_module_context here."@,
        )
    } else {
        None
    }
}

/// Tells where `shared("Name")` stands.
pub fn shared_require_status(facts: &SharedRequireFacts<'_>) -> (r: SharedRequireStatus)
    ensures
        r.graph_edges == facts.graph_edges,
        r.language_server@ == shared_support(facts.version@, facts.repository@),
        r.note.deep_view() == shared_note(facts.graph_edges, r.language_server@),
{
    let language_server = if !same_text(facts.repository, DEFAULT_LSP_REPOSITORY) {
        "unknown"
    } else {
        match parsed_version(facts.version) {
            Some((major, minor, _)) => if major > 0 || minor >= 2 {
                "supported"
            } else {
                "unsupported"
            },
            None => "unknown",
        }
    };
    let note: Option<String> = if facts.graph_edges && same_text(language_server, "unsupported") {
        Some(
            owned(
                "the require graph follows shared(\"Name\") calls but the pinned language server release predates support for them, so diagnostics will report as errors the same calls the graph reports as edges. Raise lsp.version.",
            ),
        )
    } else if !facts.graph_edges && same_text(language_server, "supported") {
        Some(
            owned(
                "project.shared_require is off, so the require graph does not count shared(\"Name\") calls as dependencies. The language server still resolves them, so hover, diagnostics and go-to-definition disagree with get_require_graph and get_module_context here.",
            ),
        )
    } else {
        None
    };
    SharedRequireStatus { graph_edges: facts.graph_edges, language_server, note }
}

// ---------------------------------------------------------------------------
// The sourcemap

pub struct SourcemapStatusModel {
    pub relative_path: Seq<char>,
    pub present: bool,
    pub modified_epoch_seconds: Option<u64>,
    pub age_seconds: Option<u64>,
    pub watched: bool,
    pub stale: Option<bool>,
    pub newest_source: Option<Seq<char>>,
    pub note: Option<Seq<char>>,
}

impl DeepView for SourcemapStatus {
    type V = SourcemapStatusModel;

    open spec fn deep_view(&self) -> SourcemapStatusModel {
        SourcemapStatusModel {
            relative_path: self.relative_path@,
            present: self.present,
            modified_epoch_seconds: self.modified_epoch_seconds,
            age_seconds: self.age_seconds,
            watched: self.watched,
            stale: self.stale,
            newest_source: self.newest_source.deep_view(),
            note: self.note.deep_view(),
        }
    }
}

/// The source written last: its path, where it can be told, and when it was written.
#[derive(Debug)]
pub struct NewestSource {
    pub relative_path: Option<String>,
    pub written_nanos: i128,
}

/// Where a sourcemap stands that was modified at a time, or is not there. It is stale where a
/// source was written after it.
pub open spec fn sourcemap_standing(
    relative_path: Seq<char>,
    modified: Option<i128>,
    watched: bool,
    newest: Option<(Option<Seq<char>>, i128)>,
    now: i128,
) -> SourcemapStatusModel {
    match modified {
        None => SourcemapStatusModel {
            relative_path,
            present: false,
            modified_epoch_seconds: None,
            age_seconds: None,
            watched,
            stale: None,
            newest_source: None,
            note: Some(
                "no sourcemap on disk, so instance paths and DataModel types will not resolve. Generate one with `rojo sourcemap --include-non-scripts --watch default.project.json --output sourcemap.json`."@,
            ),
        },
        Some(written) => {
            let stale = newest is Some && (newest->0).1 > written;
            SourcemapStatusModel {
                relative_path,
                present: true,
                modified_epoch_seconds: seconds_between(0, written as int),
                age_seconds: seconds_between(written as int, now as int),
                watched,
                stale: Some(stale),
                newest_source: if stale {
                    (newest->0).0
                } else {
                    None
                },
                note: if stale {
                    Some(
                        "a Luau file is newer than the sourcemap, so a script added or moved since then is invisible to the language server. Regenerate the sourcemap."@,
                    )
                } else {
                    None
                },
            }
        },
    }
}

/// The source written last, as contracts write it.
pub open spec fn newest_model(newest: Option<NewestSource>) -> Option<(Option<Seq<char>>, i128)> {
    match newest {
        Some(source) => Some((source.relative_path.deep_view(), source.written_nanos)),
        None => None,
    }
}

/// Tells where the sourcemap stands. Times are nanoseconds since the epoch.
pub fn sourcemap_status(
    relative_path: &str,
    modified_nanos: Option<i128>,
    watched: bool,
    newest: Option<NewestSource>,
    now_nanos: i128,
) -> (r: SourcemapStatus)
    ensures
        r.deep_view() == sourcemap_standing(
            relative_path@,
            modified_nanos,
            watched,
            newest_model(newest),
            now_nanos,
        ),
{
    let written = match modified_nanos {
        Some(written) => written,
        None => {
            return SourcemapStatus {
                relative_path: owned(relative_path),
                present: false,
                modified_epoch_seconds: None,
                age_seconds: None,
                watched,
                stale: None,
                newest_source: None,
                note: Some(
                    owned(
                        "no sourcemap on disk, so instance paths and DataModel types will not resolve. Generate one with `rojo sourcemap --include-non-scripts --watch default.project.json --output sourcemap.json`.",
                    ),
                ),
            };
        },
    };
    let (stale, newest_source): (bool, Option<String>) = match newest {
        Some(source) => {
            if source.written_nanos > written {
                (true, source.relative_path)
            } else {
                (false, None)
            }
        },
        None => (false, None),
    };
    SourcemapStatus {
        relative_path: owned(relative_path),
        present: true,
        modified_epoch_seconds: seconds_from(0, written),
        age_seconds: seconds_from(written, now_nanos),
        watched,
        stale: Some(stale),
        newest_source,
        note: if stale {
            Some(
                owned(
                    "a Luau file is newer than the sourcemap, so a script added or moved since then is invisible to the language server. Regenerate the sourcemap.",
                ),
            )
        } else {
            None
        },
    }
}

// ---------------------------------------------------------------------------
// The whole

/// Puts a status together. With memories only, neither the sourcemap nor `shared("Name")` is told of.
pub fn collect(
    biskit_version: &'static str,
    project_root: String,
    root_source: &str,
    memory_only: bool,
    settings: SettingsStatus,
    language_server: LanguageServerStatus,
    sourcemap: Option<SourcemapStatus>,
    shared_require: SharedRequireStatus,
    memories: MemoryStatus,
) -> (r: Status)
    ensures
        r.biskit_version@ == biskit_version@,
        r.project_root@ == project_root@,
        r.root_source@ == root_source@,
        r.mode@ == (if memory_only {
            "memory-only"@
        } else {
            "full"@
        }),
        r.settings == settings,
        r.language_server == language_server,
        r.sourcemap == (if memory_only {
            None
        } else {
            sourcemap
        }),
        r.shared_require == (if memory_only {
            None
        } else {
            Some(shared_require)
        }),
        r.memories == memories,
{
    Status {
        biskit_version,
        project_root,
        root_source: owned(root_source),
        mode: if memory_only {
            "memory-only"
        } else {
            "full"
        },
        settings,
        language_server,
        sourcemap: if memory_only {
            None
        } else {
            sourcemap
        },
        shared_require: if memory_only {
            None
        } else {
            Some(shared_require)
        },
        memories,
    }
}

} // verus!
