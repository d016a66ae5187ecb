//! What holds of every require of a string.
use vstd::prelude::*;
use super::string_require::{
    alias_target, aliases_of, first_on_disk, module_files, paired_with, required_base,
    string_require_target, table_of, text_members, uncommented, DiskModel, TableModel,
};
use crate::json::{member, JsonModel};
use crate::paths::{
    cleaned_on, is_below_on, joined_on, parent_on, parent_on_is_shorter, told_from_on,
};
use crate::text::{starts_with, trim_start_of};
use crate::text_laws::{
    a_prefix_comes_off, a_text_is_split_at_the_first, a_text_without_it_is_not_split, free_of,
    is_space, leading_space_goes,
};

verus! {

// ---------------------------------------------------------------------------
// Aliases

/// Whether the `.luaurc` of a directory says what an alias means: the first table of the directory, and the
/// first entry of the alias in it.
pub open spec fn says(
    disk: DiskModel,
    directory: Seq<char>,
    alias: Seq<char>,
    target: Seq<char>,
) -> bool {
    exists|t: int, k: int|
        {
            &&& 0 <= t < disk.tables.len()
            &&& #[trigger] disk.tables[t].directory == directory
            &&& forall|u: int|
                0 <= u < t ==> (#[trigger] disk.tables[u]).directory != directory
            &&& 0 <= k < disk.tables[t].aliases.len()
            &&& #[trigger] disk.tables[t].aliases[k] == (alias, target)
            &&& forall|j: int|
                0 <= j < k ==> (#[trigger] disk.tables[t].aliases[j]).0 != alias
        }
}

proof fn a_pair_is_found(pairs: Seq<(Seq<char>, Seq<char>)>, name: Seq<char>, from: int)
    requires
        0 <= from <= pairs.len(),
        forall|j: int| 0 <= j < from ==> (#[trigger] pairs[j]).0 != name,
    ensures
        match paired_with(pairs, name, from) {
            Some(target) => exists|k: int|
                {
                    &&& 0 <= k < pairs.len()
                    &&& #[trigger] pairs[k] == (name, target)
                    &&& forall|j: int| 0 <= j < k ==> (#[trigger] pairs[j]).0 != name
                },
            None => forall|j: int| 0 <= j < pairs.len() ==> (#[trigger] pairs[j]).0 != name,
        },
    decreases pairs.len() - from,
{
    if from < pairs.len() {
        if pairs[from].0 == name {
            assert(pairs[from] == (name, pairs[from].1));
        } else {
            a_pair_is_found(pairs, name, from + 1);
        }
    }
}

proof fn a_table_is_found(tables: Seq<TableModel>, directory: Seq<char>, from: int)
    requires
        0 <= from <= tables.len(),
        forall|u: int| 0 <= u < from ==> (#[trigger] tables[u]).directory != directory,
    ensures
        (exists|t: int|
            {
                &&& 0 <= t < tables.len()
                &&& (#[trigger] tables[t]).directory == directory
                &&& forall|u: int|
                    0 <= u < t ==> (#[trigger] tables[u]).directory != directory
                &&& table_of(tables, directory, from) == tables[t].aliases
            }) || (table_of(tables, directory, from).len() == 0 && forall|u: int|
            0 <= u < tables.len() ==> (#[trigger] tables[u]).directory != directory),
    decreases tables.len() - from,
{
    if from < tables.len() {
        if tables[from].directory == directory {
            assert(tables[from].directory == directory);
        } else {
            a_table_is_found(tables, directory, from + 1);
        }
    }
}

proof fn what_is_said_is_paired(disk: DiskModel, directory: Seq<char>, alias: Seq<char>)
    ensures
        forall|target: Seq<char>|
            #[trigger] says(disk, directory, alias, target) <==> paired_with(
                table_of(disk.tables, directory, 0),
                alias,
                0,
            ) == Some(target),
{
    a_table_is_found(disk.tables, directory, 0);
    let table = table_of(disk.tables, directory, 0);
    a_pair_is_found(table, alias, 0);
    assert forall|target: Seq<char>| #[trigger] says(disk, directory, alias, target) <==> paired_with(
        table,
        alias,
        0,
    ) == Some(target) by {
        if says(disk, directory, alias, target) {
            let (t, k) = choose|t: int, k: int|
                {
                    &&& 0 <= t < disk.tables.len()
                    &&& #[trigger] disk.tables[t].directory == directory
                    &&& forall|u: int|
                        0 <= u < t ==> (#[trigger] disk.tables[u]).directory != directory
                    &&& 0 <= k < disk.tables[t].aliases.len()
                    &&& #[trigger] disk.tables[t].aliases[k] == (alias, target)
                    &&& forall|j: int|
                        0 <= j < k ==> (#[trigger] disk.tables[t].aliases[j]).0 != alias
                };
            let s = choose|s: int|
                {
                    &&& 0 <= s < disk.tables.len()
                    &&& (#[trigger] disk.tables[s]).directory == directory
                    &&& forall|u: int|
                        0 <= u < s ==> (#[trigger] disk.tables[u]).directory != directory
                    &&& table == disk.tables[s].aliases
                };
            assert(s == t);
            assert(table[k] == (alias, target));
            if let Some(found) = paired_with(table, alias, 0) {
                let m = choose|m: int|
                    {
                        &&& 0 <= m < table.len()
                        &&& #[trigger] table[m] == (alias, found)
                        &&& forall|j: int| 0 <= j < m ==> (#[trigger] table[j]).0 != alias
                    };
                if m < k {
                    assert(disk.tables[t].aliases[m].0 != alias);
                }
                assert(m == k);
            }
        }
        if paired_with(table, alias, 0) == Some(target) {
            let k = choose|k: int|
                {
                    &&& 0 <= k < table.len()
                    &&& #[trigger] table[k] == (alias, target)
                    &&& forall|j: int| 0 <= j < k ==> (#[trigger] table[j]).0 != alias
                };
            let s = choose|s: int|
                {
                    &&& 0 <= s < disk.tables.len()
                    &&& (#[trigger] disk.tables[s]).directory == directory
                    &&& forall|u: int|
                        0 <= u < s ==> (#[trigger] disk.tables[u]).directory != directory
                    &&& table == disk.tables[s].aliases
                };
            assert(disk.tables[s].directory == directory && disk.tables[s].aliases[k] == (
                alias,
                target,
            ));
        }
    }
}

/// In a directory of the project an alias means what the `.luaurc` of the directory says, told from there;
/// where that says nothing, it means what it means in the directory above. Outside the project, and above
/// its topmost directory, it means nothing.
pub proof fn the_nearest_luaurc_decides(disk: DiskModel, directory: Seq<char>, alias: Seq<char>)
    ensures
        !is_below_on(disk.windows, directory, disk.root) ==> alias_target(disk, directory, alias) is None,
        is_below_on(disk.windows, directory, disk.root) ==> {
            &&& forall|target: Seq<char>|
                #[trigger] says(disk, directory, alias, target) ==> alias_target(
                    disk,
                    directory,
                    alias,
                ) == Some(joined_on(disk.windows, directory, target))
            &&& (forall|target: Seq<char>| !#[trigger] says(disk, directory, alias, target))
                ==> alias_target(disk, directory, alias) == (match parent_on(
                disk.windows,
                directory,
            ) {
                Some(up) => alias_target(disk, up, alias),
                None => None,
            })
        },
{
    what_is_said_is_paired(disk, directory, alias);
    if paired_with(table_of(disk.tables, directory, 0), alias, 0) is Some {
        let target = paired_with(table_of(disk.tables, directory, 0), alias, 0)->0;
        assert(says(disk, directory, alias, target));
    }
    parent_on_is_shorter(disk.windows, directory);
}

/// A `.luaurc` names exactly the aliases whose values are texts.
pub proof fn a_luaurc_names_its_aliases(
    document: JsonModel,
    members: Seq<(Seq<char>, JsonModel)>,
    alias: Seq<char>,
    target: Seq<char>,
)
    requires
        member(document, "aliases"@) == Some(JsonModel::Object(members)),
    ensures
        aliases_of(Some(document)).contains((alias, target)) <==> members.contains(
            (alias, JsonModel::Text(target)),
        ),
        aliases_of(None).len() == 0,
{
    texts_are_members(members, members.len() as int, alias, target);
    let found = text_members(members, members.len() as int);
    if members.contains((alias, JsonModel::Text(target))) {
        let k = choose|k: int|
            0 <= k < members.len() && members[k] == (alias, JsonModel::Text(target));
        assert(0 <= k < members.len() && members[k] == (alias, JsonModel::Text(target)));
    }
}

proof fn texts_are_members(
    members: Seq<(Seq<char>, JsonModel)>,
    n: int,
    alias: Seq<char>,
    target: Seq<char>,
)
    requires
        0 <= n <= members.len(),
    ensures
        text_members(members, n).contains((alias, target)) <==> exists|k: int|
            0 <= k < n && #[trigger] members[k] == (alias, JsonModel::Text(target)),
    decreases n,
{
    let now = text_members(members, n);
    if n > 0 {
        texts_are_members(members, n - 1, alias, target);
        let before = text_members(members, n - 1);
        if before.contains((alias, target)) {
            let j = choose|j: int| 0 <= j < before.len() && before[j] == (alias, target);
            assert(now[j] == (alias, target));
        }
        if members[n - 1] == (alias, JsonModel::Text(target)) {
            assert(now[before.len() as int] == (alias, target));
        }
        if now.contains((alias, target)) && !before.contains((alias, target)) {
            let j = choose|j: int| 0 <= j < now.len() && now[j] == (alias, target);
            if j < before.len() {
                assert(before[j] == (alias, target));
            }
            assert(members[n - 1] == (alias, JsonModel::Text(target)));
        }
    }
}

// ---------------------------------------------------------------------------
// Where a string leads

/// A relative string is told from the directory of the file that requires it; `@alias` and `@alias/rest`
/// from what the alias means there; any other string leads nowhere, and so does an alias that means
/// nothing.
pub proof fn a_string_is_told_from_its_directory(
    disk: DiskModel,
    path: Seq<char>,
    directory: Seq<char>,
    alias: Seq<char>,
    rest: Seq<char>,
    literal: Seq<char>,
)
    requires
        parent_on(disk.windows, path) == Some(directory),
        free_of(alias, '/'),
    ensures
        !starts_with(literal, "@"@) ==> (match required_base(disk, literal, path) {
            Ok(base) => (starts_with(literal, "./"@) || starts_with(literal, "../"@)) && base
                == joined_on(disk.windows, directory, literal),
            Err(_) => !starts_with(literal, "./"@) && !starts_with(literal, "../"@),
        }),
        match (alias_target(disk, directory, alias), required_base(disk, "@"@ + alias, path)) {
            (Some(target), Ok(base)) => base == target,
            (None, Err(_)) => true,
            _ => false,
        },
        match (
            alias_target(disk, directory, alias),
            required_base(disk, "@"@ + (alias.push('/') + rest), path),
        ) {
            (Some(target), Ok(base)) => base == if rest.len() == 0 {
                target
            } else {
                joined_on(disk.windows, target, rest)
            },
            (None, Err(_)) => true,
            _ => false,
        },
{
    a_prefix_comes_off("@"@, literal);
    a_prefix_comes_off("@"@, alias);
    a_prefix_comes_off("@"@, alias.push('/') + rest);
    a_text_is_split_at_the_first(alias, '/', rest);
    a_text_without_it_is_not_split(alias, '/');
}

/// Whether a file is on disk and in the project, and how the project tells it.
pub open spec fn is_told_file(disk: DiskModel, file: Seq<char>, relative: Seq<char>) -> bool {
    disk.files.contains(file) && told_from_on(
        disk.windows,
        disk.root,
        cleaned_on(disk.windows, file),
    ) == Some(relative)
}

proof fn the_first_file_on_disk(disk: DiskModel, wanted: Seq<Seq<char>>, from: int)
    requires
        0 <= from <= wanted.len(),
    ensures
        match first_on_disk(disk, wanted, from) {
            Some(relative) => exists|k: int|
                {
                    &&& from <= k < wanted.len()
                    &&& is_told_file(disk, #[trigger] wanted[k], relative)
                    &&& forall|j: int, other: Seq<char>|
                        from <= j < k ==> !#[trigger] is_told_file(disk, wanted[j], other)
                },
            None => forall|j: int, other: Seq<char>|
                from <= j < wanted.len() ==> !#[trigger] is_told_file(disk, wanted[j], other),
        },
    decreases wanted.len() - from,
{
    if from < wanted.len() {
        the_first_file_on_disk(disk, wanted, from + 1);
        let here = told_from_on(disk.windows, disk.root, cleaned_on(disk.windows, wanted[from]));
        if disk.files.contains(wanted[from]) && here is Some {
            assert(is_told_file(disk, wanted[from], here->0));
        } else if first_on_disk(disk, wanted, from + 1) is Some {
            let relative = first_on_disk(disk, wanted, from + 1)->0;
            let k = choose|k: int|
                {
                    &&& from + 1 <= k < wanted.len()
                    &&& is_told_file(disk, #[trigger] wanted[k], relative)
                    &&& forall|j: int, other: Seq<char>|
                        from + 1 <= j < k ==> !#[trigger] is_told_file(disk, wanted[j], other)
                };
            assert(is_told_file(disk, wanted[k], relative));
            assert forall|j: int, other: Seq<char>| from <= j < k implies !#[trigger] is_told_file(
                disk,
                wanted[j],
                other,
            ) by {}
        }
    }
}

/// A string that leads to a place means the first of four files there that is on disk and in the project:
/// the place with `.luau`, with `.lua`, and the two init files in it. Where none is, it means none.
pub proof fn a_string_means_the_first_file_there(
    disk: DiskModel,
    literal: Seq<char>,
    path: Seq<char>,
    base: Seq<char>,
)
    requires
        required_base(disk, literal, path) == Ok::<Seq<char>, Seq<char>>(base),
    ensures
        ({
            let wanted = seq![
                base + ".luau"@,
                base + ".lua"@,
                base + "/init.luau"@,
                base + "/init.lua"@,
            ];
            match string_require_target(disk, literal, path) {
                Ok(relative) => exists|k: int|
                    {
                        &&& 0 <= k < 4
                        &&& is_told_file(disk, #[trigger] wanted[k], relative)
                        &&& forall|j: int, other: Seq<char>|
                            0 <= j < k ==> !#[trigger] is_told_file(disk, wanted[j], other)
                    },
                Err(_) => forall|j: int, other: Seq<char>|
                    0 <= j < 4 ==> !#[trigger] is_told_file(disk, wanted[j], other),
            }
        }),
{
    let wanted = seq![
        base + ".luau"@,
        base + ".lua"@,
        base + "/init.luau"@,
        base + "/init.lua"@,
    ];
    assert(module_files(base) =~= wanted);
    the_first_file_on_disk(disk, wanted, 0);
}

/// A line of a `.luaurc` whose first characters behind white space are two slashes says nothing. Every other
/// line stays as it is.
pub proof fn a_comment_line_says_nothing(space: Seq<char>, text: Seq<char>, line: Seq<char>)
    requires
        is_space(space),
    ensures
        uncommented(space + ("//"@ + text)).len() == 0,
        !starts_with(trim_start_of(line), "//"@) ==> uncommented(line) == line,
{
    reveal_strlit("//");
    let comment = "//"@ + text;
    a_prefix_comes_off("//"@, text);
    assert(comment[0] == '/');
    leading_space_goes(space, comment);
}

} // verus!
