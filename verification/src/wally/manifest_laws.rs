//! What every edit of a manifest keeps.
use vstd::prelude::*;
use super::manifest::{
    after_insertion, after_removal, declarations_in, declarations_of, declares, first_declaration,
    insertion, removal, removal_matches, removal_realms, swept, swept_alias, swept_entries,
    with_section, written_requirement, DeclarationModel,
};
use super::package::{
    a_requirement_reads_back, all_realms, is_segment, section_of, sections_differ, PackageModel,
    Realm,
};
use super::toml::{contents_without, entries_without, table_at, TomlModel};

verus! {

proof fn realm_index(realm: Realm) -> (j: int)
    ensures
        0 <= j < 3,
        all_realms()[j] == realm,
{
    match realm {
        Realm::Shared => 0,
        Realm::Server => 1,
        Realm::Dev => 2,
    }
}

proof fn swept_tables(
    contents: Map<Seq<char>, TomlModel>,
    package: PackageModel,
    alias: Seq<char>,
    realm: Realm,
    k: int,
    j: int,
)
    requires
        0 <= k <= 3,
        0 <= j < 3,
    ensures
        ({
            let key = section_of(all_realms()[j]);
            let now = swept(contents, package, alias, realm, k);
            &&& now.contains_key(key) == contents.contains_key(key)
            &&& table_at(now, key) == (match table_at(contents, key) {
                Some(entries) => Some(
                    if k > j {
                        swept_entries(
                            entries,
                            package,
                            swept_alias(alias, realm, all_realms()[j]),
                            entries.len() as int,
                        )
                    } else {
                        entries
                    },
                ),
                None => None,
            })
        }),
    decreases k,
{
    if k > 0 {
        swept_tables(contents, package, alias, realm, k - 1, j);
        sections_differ();
        if j != k - 1 {
            assert(all_realms()[j] != all_realms()[k - 1]);
        }
    }
}

proof fn swept_elsewhere(
    contents: Map<Seq<char>, TomlModel>,
    package: PackageModel,
    alias: Seq<char>,
    realm: Realm,
    k: int,
    key: Seq<char>,
)
    requires
        0 <= k <= 3,
        forall|other: Realm| key != #[trigger] section_of(other),
    ensures
        swept(contents, package, alias, realm, k).contains_key(key) == contents.contains_key(key),
        contents.contains_key(key) ==> swept(contents, package, alias, realm, k)[key]
            == contents[key],
    decreases k,
{
    if k > 0 {
        swept_elsewhere(contents, package, alias, realm, k - 1, key);
        assert(key != section_of(all_realms()[k - 1]));
    }
}

proof fn swept_are_others(
    entries: Seq<(Seq<char>, TomlModel)>,
    package: PackageModel,
    alias: Option<Seq<char>>,
    n: int,
)
    requires
        0 <= n <= entries.len(),
    ensures
        forall|k: int|
            0 <= k < swept_entries(entries, package, alias, n).len() ==> {
                let entry = #[trigger] swept_entries(entries, package, alias, n)[k];
                !declares(entry.1, package) && alias != Some(entry.0)
            },
    decreases n,
{
    if n > 0 {
        swept_are_others(entries, package, alias, n - 1);
        let before = swept_entries(entries, package, alias, n - 1);
        let now = swept_entries(entries, package, alias, n);
        assert forall|k: int| 0 <= k < now.len() implies !declares((#[trigger] now[k]).1, package)
            && alias != Some(now[k].0) by {
            if k < before.len() {
                assert(now[k] == before[k]);
            } else {
                assert(now[k] == entries[n - 1]);
            }
        }
    }
}

proof fn without_none(s: Seq<(Seq<char>, TomlModel)>, key: Seq<char>, n: int)
    requires
        0 <= n <= s.len(),
        forall|k: int| 0 <= k < s.len() ==> (#[trigger] s[k]).0 != key,
    ensures
        entries_without(s, key, n) == s.take(n),
    decreases n,
{
    if n > 0 {
        without_none(s, key, n - 1);
        assert(s.take(n) =~= s.take(n - 1).push(s[n - 1]));
    } else {
        assert(s.take(0) =~= Seq::empty());
    }
}

/// What an insertion makes of one realm's table: the entries that are neither the package nor the
/// alias stay, in order, and the new entry comes last in the realm it was written to.
pub open spec fn table_after_insertion(
    contents: Map<Seq<char>, TomlModel>,
    alias: Seq<char>,
    package: PackageModel,
    version_req: Seq<char>,
    realm: Realm,
    other: Realm,
) -> Option<Seq<(Seq<char>, TomlModel)>> {
    let kept = match table_at(contents, section_of(other)) {
        Some(entries) => Some(
            swept_entries(
                entries,
                package,
                swept_alias(alias, realm, other),
                entries.len() as int,
            ),
        ),
        None => None,
    };
    if other == realm {
        let had = match kept {
            Some(entries) => entries,
            None => Seq::empty(),
        };
        Some(had.push((alias, TomlModel::Text(written_requirement(package, version_req)))))
    } else {
        kept
    }
}

/// Whether two manifests hold the same under a key.
pub open spec fn same_at(
    a: Map<Seq<char>, TomlModel>,
    b: Map<Seq<char>, TomlModel>,
    key: Seq<char>,
) -> bool {
    a.contains_key(key) == b.contains_key(key) && (a.contains_key(key) ==> a[key] == b[key])
}

/// An insertion that succeeds rewrites the dependency tables and nothing else: whatever is neither
/// the package nor the alias stays as it was, in its order, and every other key of the manifest
/// keeps what it holds.
pub proof fn an_insertion_keeps_the_rest(
    contents: Map<Seq<char>, TomlModel>,
    alias: Seq<char>,
    package: PackageModel,
    version_req: Seq<char>,
    realm: Realm,
    overwrite: bool,
)
    requires
        insertion(contents, alias, package, realm, overwrite) is Ok,
    ensures
        forall|other: Realm|
            table_at(
                after_insertion(contents, alias, package, version_req, realm, overwrite),
                #[trigger] section_of(other),
            ) == table_after_insertion(contents, alias, package, version_req, realm, other),
        forall|key: Seq<char>|
            (forall|other: Realm| key != #[trigger] section_of(other)) ==> #[trigger] same_at(
                contents,
                after_insertion(contents, alias, package, version_req, realm, overwrite),
                key,
            ),
{
    let after = after_insertion(contents, alias, package, version_req, realm, overwrite);
    let all = swept(contents, package, alias, realm, 3);
    let section = section_of(realm);
    let ready = with_section(all, section);
    sections_differ();
    let r = realm_index(realm);
    swept_tables(contents, package, alias, realm, 3, r);
    let here = table_at(ready, section)->0;
    assert forall|k: int| 0 <= k < here.len() implies (#[trigger] here[k]).0 != alias by {
        if let Some(entries) = table_at(contents, section) {
            swept_are_others(entries, package, Some(alias), entries.len() as int);
        }
    }
    without_none(here, alias, here.len() as int);
    assert(here.take(here.len() as int) =~= here);
    assert forall|other: Realm| table_at(after, #[trigger] section_of(other))
        == table_after_insertion(contents, alias, package, version_req, realm, other) by {
        let j = realm_index(other);
        swept_tables(contents, package, alias, realm, 3, j);
    }
    assert forall|key: Seq<char>| (forall|other: Realm| key != #[trigger] section_of(other)) implies
        #[trigger] same_at(contents, after, key) by {
        swept_elsewhere(contents, package, alias, realm, 3, key);
        assert(key != section_of(realm));
    }
}

/// A package that was inserted is declared exactly once, whatever the manifest held before: under
/// the alias and in the realm asked for, as the last entry of that table.
pub proof fn an_insertion_leaves_one_declaration(
    contents: Map<Seq<char>, TomlModel>,
    alias: Seq<char>,
    package: PackageModel,
    version_req: Seq<char>,
    realm: Realm,
    overwrite: bool,
)
    requires
        is_segment(package.scope),
        is_segment(package.name),
        insertion(contents, alias, package, realm, overwrite) is Ok,
    ensures
        ({
            let after = after_insertion(contents, alias, package, version_req, realm, overwrite);
            &&& table_at(after, section_of(realm)) matches Some(entries) && entries.len() > 0
                && entries.last().0 == alias && declares(entries.last().1, package)
            &&& forall|other: Realm, i: int|
                (table_at(after, section_of(other)) matches Some(entries) && 0 <= i < entries.len()
                    && declares((#[trigger] table_at(after, section_of(other))->0[i]).1, package))
                    ==> other == realm && i == table_at(after, section_of(other))->0.len() - 1
        }),
{
    let after = after_insertion(contents, alias, package, version_req, realm, overwrite);
    an_insertion_keeps_the_rest(contents, alias, package, version_req, realm, overwrite);
    a_requirement_reads_back(package, version_req);
    assert(table_at(after, section_of(realm)) == table_after_insertion(
        contents,
        alias,
        package,
        version_req,
        realm,
        realm,
    ));
    assert forall|other: Realm, i: int|
        (table_at(after, section_of(other)) matches Some(entries) && 0 <= i < entries.len()
            && declares(
            (#[trigger] table_at(after, section_of(other))->0[i]).1,
            package,
        )) implies other == realm && i == table_at(after, section_of(other))->0.len() - 1 by {
        assert(table_at(after, section_of(other)) == table_after_insertion(
            contents,
            alias,
            package,
            version_req,
            realm,
            other,
        ));
        if let Some(entries) = table_at(contents, section_of(other)) {
            swept_are_others(
                entries,
                package,
                swept_alias(alias, realm, other),
                entries.len() as int,
            );
        }
    }
}

/// A package that is declared already is not declared again unless overwriting is asked for, and
/// the refusal changes nothing.
pub proof fn a_declared_package_is_refused(
    contents: Map<Seq<char>, TomlModel>,
    alias: Seq<char>,
    package: PackageModel,
    version_req: Seq<char>,
    realm: Realm,
)
    requires
        first_declaration(contents, package, 0) is Some,
    ensures
        insertion(contents, alias, package, realm, false) is Err,
        after_insertion(contents, alias, package, version_req, realm, false) == contents,
{
}

proof fn prefix_decides_declarations(
    a: Seq<(Seq<char>, TomlModel)>,
    b: Seq<(Seq<char>, TomlModel)>,
    realm: Realm,
    target: Seq<char>,
    n: int,
)
    requires
        0 <= n <= a.len(),
        n <= b.len(),
        forall|k: int| 0 <= k < n ==> #[trigger] a[k] == b[k],
    ensures
        declarations_in(a, realm, target, n) == declarations_in(b, realm, target, n),
    decreases n,
{
    if n > 0 {
        prefix_decides_declarations(a, b, realm, target, n - 1);
        assert(a[n - 1] == b[n - 1]);
    }
}

/// Whether every declaration has the alias.
spec fn all_under(declarations: Seq<DeclarationModel>, alias: Seq<char>) -> bool {
    forall|k: int| 0 <= k < declarations.len() ==> (#[trigger] declarations[k]).alias == alias
}

proof fn none_left_without(
    entries: Seq<(Seq<char>, TomlModel)>,
    realm: Realm,
    target: Seq<char>,
    key: Seq<char>,
    n: int,
)
    requires
        0 <= n <= entries.len(),
        all_under(declarations_in(entries, realm, target, n), key),
    ensures
        ({
            let rest = entries_without(entries, key, n);
            declarations_in(rest, realm, target, rest.len() as int).len() == 0
        }),
    decreases n,
{
    if n > 0 {
        let before = declarations_in(entries, realm, target, n - 1);
        let now = declarations_in(entries, realm, target, n);
        assert forall|k: int| 0 <= k < before.len() implies (#[trigger] before[k]).alias == key by {
            assert(now[k] == before[k]);
        }
        none_left_without(entries, realm, target, key, n - 1);
        let rest = entries_without(entries, key, n - 1);
        if entries[n - 1].0 != key {
            let longer = rest.push(entries[n - 1]);
            prefix_decides_declarations(longer, rest, realm, target, rest.len() as int);
            if now.len() > before.len() {
                assert(now[before.len() as int].alias == entries[n - 1].0);
            }
        }
    }
}

proof fn a_realm_has_part_of_what_is_found(
    contents: Map<Seq<char>, TomlModel>,
    realms: Seq<Realm>,
    target: Seq<char>,
    n: int,
    i: int,
)
    requires
        0 <= i < n <= realms.len(),
    ensures
        table_at(contents, section_of(realms[i])) matches Some(entries) ==> {
            let here = declarations_in(entries, realms[i], target, entries.len() as int);
            let found = declarations_of(contents, realms, target, n);
            &&& here.len() <= found.len()
            &&& forall|k: int|
                0 <= k < here.len() ==> found.contains(#[trigger] here[k])
        },
    decreases n,
{
    let found = declarations_of(contents, realms, target, n);
    let before = declarations_of(contents, realms, target, n - 1);
    if i < n - 1 {
        a_realm_has_part_of_what_is_found(contents, realms, target, n - 1, i);
        if let Some(entries) = table_at(contents, section_of(realms[i])) {
            let here = declarations_in(entries, realms[i], target, entries.len() as int);
            assert forall|k: int| 0 <= k < here.len() implies found.contains(
                #[trigger] here[k],
            ) by {
                assert(before.contains(here[k]));
                let j = choose|j: int| 0 <= j < before.len() && before[j] == here[k];
                assert(found[j] == here[k]);
            }
        }
    } else {
        if let Some(entries) = table_at(contents, section_of(realms[i])) {
            let here = declarations_in(entries, realms[i], target, entries.len() as int);
            assert forall|k: int| 0 <= k < here.len() implies found.contains(
                #[trigger] here[k],
            ) by {
                assert(found[before.len() + k] == here[k]);
            }
        }
    }
}

proof fn declarations_name_their_realm(
    entries: Seq<(Seq<char>, TomlModel)>,
    realm: Realm,
    target: Seq<char>,
    n: int,
)
    requires
        0 <= n <= entries.len(),
    ensures
        forall|k: int|
            0 <= k < declarations_in(entries, realm, target, n).len() ==> (
            #[trigger] declarations_in(entries, realm, target, n)[k]).realm == realm,
    decreases n,
{
    if n > 0 {
        declarations_name_their_realm(entries, realm, target, n - 1);
    }
}

proof fn none_found_after(
    contents: Map<Seq<char>, TomlModel>,
    after: Map<Seq<char>, TomlModel>,
    realms: Seq<Realm>,
    target: Seq<char>,
    found: DeclarationModel,
    n: int,
)
    requires
        0 <= n <= realms.len(),
        declarations_of(contents, realms, target, realms.len() as int) == seq![found],
        after == contents_without(contents, section_of(found.realm), found.alias),
    ensures
        declarations_of(after, realms, target, n).len() == 0,
    decreases n,
{
    if n > 0 {
        none_found_after(contents, after, realms, target, found, n - 1);
        let i = n - 1;
        let realm = realms[i];
        a_realm_has_part_of_what_is_found(contents, realms, target, realms.len() as int, i);
        sections_differ();
        if let Some(entries) = table_at(contents, section_of(realm)) {
            let here = declarations_in(entries, realm, target, entries.len() as int);
            declarations_name_their_realm(entries, realm, target, entries.len() as int);
            assert forall|k: int| 0 <= k < here.len() implies (#[trigger] here[k]).alias
                == found.alias && found.realm == realm by {
                assert(seq![found].contains(here[k]));
            }
            if realm == found.realm {
                none_left_without(entries, realm, target, found.alias, entries.len() as int);
            } else {
                if here.len() > 0 {
                    assert(here[0].realm == realm);
                    assert(seq![found].contains(here[0]));
                }
            }
        }
    }
}

/// What was removed is no longer declared where it was looked for.
pub proof fn what_was_removed_is_gone(
    contents: Map<Seq<char>, TomlModel>,
    target: Seq<char>,
    realm: Option<Realm>,
)
    requires
        removal(contents, target, realm) is Ok,
    ensures
        removal_matches(after_removal(contents, target, realm), target, realm).len() == 0,
{
    let realms = removal_realms(realm);
    let found = removal_matches(contents, target, realm);
    assert(found =~= seq![found[0]]);
    none_found_after(
        contents,
        after_removal(contents, target, realm),
        realms,
        target,
        found[0],
        realms.len() as int,
    );
}

/// A removal takes entries with one alias out of one table. Every other table, and every other key
/// of the manifest, keeps what it holds; a removal that is refused changes nothing.
pub proof fn a_removal_keeps_the_rest(
    contents: Map<Seq<char>, TomlModel>,
    target: Seq<char>,
    realm: Option<Realm>,
)
    ensures
        match removal(contents, target, realm) {
            Ok(removed) => {
                let after = after_removal(contents, target, realm);
                &&& after.dom() == contents.dom()
                &&& forall|key: Seq<char>|
                    contents.contains_key(key) && key != section_of(removed.realm)
                        ==> #[trigger] after[key] == contents[key]
                &&& table_at(after, section_of(removed.realm)) == (match table_at(
                    contents,
                    section_of(removed.realm),
                ) {
                    Some(entries) => Some(
                        entries_without(entries, removed.alias, entries.len() as int),
                    ),
                    None => None,
                })
            },
            Err(_) => after_removal(contents, target, realm) == contents,
        },
{
    let after = after_removal(contents, target, realm);
    if removal(contents, target, realm) is Ok {
        assert(after.dom() =~= contents.dom());
    }
}

} // verus!
