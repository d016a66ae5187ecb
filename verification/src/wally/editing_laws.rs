//! What an edit of a manifest does to the entries of its tables.
use vstd::prelude::*;
use super::manifest::{
    after_insertion, after_removal, declarations_in, declarations_of, declares, displaced,
    displaced_in, first_declaration, first_declaring, insertion, removal, removal_matches,
    removal_realms, swept, swept_alias, swept_entries, DeclarationModel,
};
use super::manifest_laws::{an_insertion_keeps_the_rest, table_after_insertion};
use super::package::{
    a_requirement_reads_back, all_realms, is_segment, requirement_in, section_of, sections_differ,
    PackageModel, Realm,
};
use super::toml::{entries_without, entry_position, table_at, text_of, TomlModel};
use crate::picking::{one_more_is_picked, picks};
use crate::text::trimmed;

verus! {

/// An entry of a table.
pub type Entry = (Seq<char>, TomlModel);

/// Whether a manifest holds a table under a key.
pub open spec fn holds_table(
    contents: Map<Seq<char>, TomlModel>,
    key: Seq<char>,
    entries: Seq<Entry>,
) -> bool {
    contents.contains_key(key) && contents[key] == TomlModel::Table(entries)
}

/// Each realm has a table of its own.
pub proof fn a_realm_has_its_own_table(realm: Realm)
    ensures
        section_of(realm) == match realm {
            Realm::Shared => "dependencies"@,
            Realm::Server => "server-dependencies"@,
            Realm::Dev => "dev-dependencies"@,
        },
        all_realms().contains(realm),
        all_realms().no_duplicates(),
{
    let at: int = match realm {
        Realm::Shared => 0,
        Realm::Server => 1,
        Realm::Dev => 2,
    };
    assert(all_realms()[at] == realm);
}

/// Whether an entry is that of a package, whatever its alias is: a text that names it.
pub open spec fn is_of_package(entry: Entry, package: PackageModel) -> bool {
    entry.1 matches TomlModel::Text(text) && (requirement_in(text) matches Ok((found, _))
        && found == package)
}

/// A package and the version asked of it are written as one text, which is read as both.
pub proof fn a_written_requirement_is_of_its_package(
    alias: Seq<char>,
    package: PackageModel,
    version: Seq<char>,
)
    requires
        is_segment(package.scope),
        is_segment(package.name),
        trimmed(version) == version,
    ensures
        is_of_package(
            (alias, TomlModel::Text(package.scope + "/"@ + package.name + "@"@ + version)),
            package,
        ),
        requirement_in(package.scope + "/"@ + package.name + "@"@ + version) matches Ok((_, read))
            && read == Some(version),
{
    a_requirement_reads_back(package, version);
}

// ---------------------------------------------------------------------------
// What is kept

/// Whether an insertion leaves an entry of a realm's table alone.
pub open spec fn is_left(
    entry: Entry,
    package: PackageModel,
    alias: Seq<char>,
    realm: Realm,
    other: Realm,
) -> bool {
    !is_of_package(entry, package) && !(other == realm && entry.0 == alias)
}

/// Whether what is kept of a realm's table is what an insertion leaves alone, in order.
pub open spec fn keeps_what_is_left(
    entries: Seq<Entry>,
    kept: Seq<Entry>,
    package: PackageModel,
    alias: Seq<char>,
    realm: Realm,
    other: Realm,
) -> bool {
    exists|at: Seq<int>| #[trigger]
        picks(at, entries, kept) && forall|i: int|
            0 <= i < entries.len() ==> (#[trigger] at.contains(i) <==> is_left(
                entries[i],
                package,
                alias,
                realm,
                other,
            ))
}

proof fn sweeping_picks(
    entries: Seq<Entry>,
    package: PackageModel,
    alias: Seq<char>,
    realm: Realm,
    other: Realm,
    n: int,
) -> (at: Seq<int>)
    requires
        0 <= n <= entries.len(),
    ensures
        picks(at, entries, swept_entries(entries, package, swept_alias(alias, realm, other), n)),
        forall|k: int| 0 <= k < at.len() ==> #[trigger] at[k] < n,
        forall|i: int|
            0 <= i < n ==> (#[trigger] at.contains(i) <==> is_left(
                entries[i],
                package,
                alias,
                realm,
                other,
            )),
    decreases n,
{
    if n <= 0 {
        Seq::empty()
    } else {
        let before = sweeping_picks(entries, package, alias, realm, other, n - 1);
        let entry = entries[n - 1];
        if is_left(entry, package, alias, realm, other) {
            one_more_is_picked(before, n - 1);
            before.push(n - 1)
        } else {
            before
        }
    }
}

/// Whether an insertion made one realm's table what it is: what is left of it in order, and in the realm
/// asked for the new entry behind it.
pub open spec fn is_edited_table(
    before: Map<Seq<char>, TomlModel>,
    after: Map<Seq<char>, TomlModel>,
    alias: Seq<char>,
    package: PackageModel,
    version: Seq<char>,
    realm: Realm,
    other: Realm,
) -> bool {
    let entry = (alias, TomlModel::Text(package.scope + "/"@ + package.name + "@"@ + version));
    let key = section_of(other);
    &&& forall|entries: Seq<Entry>| #[trigger]
        holds_table(before, key, entries) ==> exists|kept: Seq<Entry>| #[trigger]
            keeps_what_is_left(entries, kept, package, alias, realm, other) && holds_table(
                after,
                key,
                if other == realm {
                    kept.push(entry)
                } else {
                    kept
                },
            )
    &&& !before.contains_key(key) && other == realm ==> holds_table(after, key, seq![entry])
    &&& !before.contains_key(key) && other != realm ==> !after.contains_key(key)
}

/// An insertion takes out what names the package, in every realm, and what has the alias, in the realm
/// asked for. It leaves the rest in order and writes the new entry last.
pub proof fn an_insertion_edits_the_tables(
    contents: Map<Seq<char>, TomlModel>,
    alias: Seq<char>,
    package: PackageModel,
    version: Seq<char>,
    realm: Realm,
    overwrite: bool,
    other: Realm,
)
    requires
        insertion(contents, alias, package, realm, overwrite) is Ok,
    ensures
        is_edited_table(
            contents,
            after_insertion(contents, alias, package, version, realm, overwrite),
            alias,
            package,
            version,
            realm,
            other,
        ),
{
    let after = after_insertion(contents, alias, package, version, realm, overwrite);
    let entry = (alias, TomlModel::Text(package.scope + "/"@ + package.name + "@"@ + version));
    let key = section_of(other);
    an_insertion_keeps_the_rest(contents, alias, package, version, realm, overwrite);
    assert(table_at(after, section_of(other)) == table_after_insertion(
        contents,
        alias,
        package,
        version,
        realm,
        other,
    ));
    assert forall|entries: Seq<Entry>| #[trigger] holds_table(contents, key, entries) implies exists|
        kept: Seq<Entry>,
    | #[trigger]
        keeps_what_is_left(entries, kept, package, alias, realm, other) && holds_table(
            after,
            key,
            if other == realm {
                kept.push(entry)
            } else {
                kept
            },
        ) by {
        let at = sweeping_picks(entries, package, alias, realm, other, entries.len() as int);
        let kept = swept_entries(
            entries,
            package,
            swept_alias(alias, realm, other),
            entries.len() as int,
        );
        assert(picks(at, entries, kept));
        assert(keeps_what_is_left(entries, kept, package, alias, realm, other));
    }
    if !contents.contains_key(key) {
        assert(Seq::<Entry>::empty().push(entry) =~= seq![entry]);
        the_keys_of_a_sweep(contents, package, alias, realm, 3);
        if other != realm {
            sections_differ();
            assert(!after.contains_key(key));
        }
    }
}

proof fn the_keys_of_a_sweep(
    contents: Map<Seq<char>, TomlModel>,
    package: PackageModel,
    alias: Seq<char>,
    realm: Realm,
    k: int,
)
    requires
        0 <= k <= 3,
    ensures
        swept(contents, package, alias, realm, k).dom() =~= contents.dom(),
        forall|key: Seq<char>|
            contents.contains_key(key) ==> (table_at(
                swept(contents, package, alias, realm, k),
                key,
            ) is None <==> #[trigger] table_at(contents, key) is None),
    decreases k,
{
    if k > 0 {
        the_keys_of_a_sweep(contents, package, alias, realm, k - 1);
    }
}

// ---------------------------------------------------------------------------
// When it is refused

/// Whether an entry of a realm's table names a package.
pub open spec fn is_declared_in(
    contents: Map<Seq<char>, TomlModel>,
    package: PackageModel,
    other: Realm,
    i: int,
) -> bool {
    contents.contains_key(section_of(other)) && (contents[section_of(other)] matches TomlModel::Table(
        entries,
    ) && 0 <= i < entries.len() && is_of_package(entries[i], package))
}

proof fn the_first_that_declares(entries: Seq<Entry>, package: PackageModel, from: int)
    requires
        0 <= from <= entries.len(),
    ensures
        match first_declaring(entries, package, from) {
            Some(i) => from <= i < entries.len() && is_of_package(entries[i], package),
            None => forall|i: int|
                from <= i < entries.len() ==> !is_of_package(#[trigger] entries[i], package),
        },
    decreases entries.len() - from,
{
    if from < entries.len() && !declares(entries[from].1, package) {
        the_first_that_declares(entries, package, from + 1);
    }
}

proof fn a_declaration_is_found(
    contents: Map<Seq<char>, TomlModel>,
    package: PackageModel,
    k: int,
)
    requires
        0 <= k <= 3,
    ensures
        match first_declaration(contents, package, k) {
            Some(_) => exists|other: Realm, i: int| #[trigger]
                is_declared_in(contents, package, other, i),
            None => forall|j: int, i: int|
                k <= j < 3 ==> !(#[trigger] is_declared_in(contents, package, all_realms()[j], i)),
        },
    decreases 3 - k,
{
    if k < 3 {
        a_declaration_is_found(contents, package, k + 1);
        let realm = all_realms()[k];
        if let Some(entries) = table_at(contents, section_of(realm)) {
            the_first_that_declares(entries, package, 0);
            if let Some(i) = first_declaring(entries, package, 0) {
                assert(is_declared_in(contents, package, realm, i));
            }
        }
        if first_declaration(contents, package, k) is None {
            assert forall|j: int, i: int| k <= j < 3 implies !(#[trigger] is_declared_in(
                contents,
                package,
                all_realms()[j],
                i,
            )) by {
                if j == k && is_declared_in(contents, package, realm, i) {
                    let entries = contents[section_of(realm)]->Table_0;
                    assert(!is_of_package(entries[i], package));
                }
            }
        }
    }
}

/// Whether any entry of any realm's table names a package.
pub open spec fn is_declared(contents: Map<Seq<char>, TomlModel>, package: PackageModel) -> bool {
    exists|other: Realm, i: int| #[trigger] is_declared_in(contents, package, other, i)
}

proof fn a_lookup_finds_a_declaration(contents: Map<Seq<char>, TomlModel>, package: PackageModel)
    ensures
        first_declaration(contents, package, 0) is Some <==> is_declared(contents, package),
{
    a_declaration_is_found(contents, package, 0);
    if is_declared(contents, package) {
        let (other, i) = choose|other: Realm, i: int| #[trigger]
            is_declared_in(contents, package, other, i);
        a_realm_has_its_own_table(other);
        let j = choose|j: int| 0 <= j < all_realms().len() && all_realms()[j] == other;
        assert(is_declared_in(contents, package, all_realms()[j], i));
    }
}

/// An insertion is refused where the package is declared already, in whatever realm, and overwriting was
/// not asked for, and where something that is no table has the realm's key. It succeeds otherwise.
pub proof fn an_insertion_is_refused_only_where_it_must_be(
    contents: Map<Seq<char>, TomlModel>,
    alias: Seq<char>,
    package: PackageModel,
    realm: Realm,
    overwrite: bool,
)
    ensures
        insertion(contents, alias, package, realm, overwrite) is Ok <==> {
            &&& overwrite || !is_declared(contents, package)
            &&& contents.contains_key(section_of(realm)) ==> contents[section_of(realm)] is Table
        },
{
    a_lookup_finds_a_declaration(contents, package);
    the_keys_of_a_sweep(contents, package, alias, realm, 3);
    let clean = swept(contents, package, alias, realm, 3);
    let key = section_of(realm);
    assert(contents.contains_key(key) ==> (table_at(contents, key) is None <==> table_at(
        clean,
        key,
    ) is None));
    assert(clean.contains_key(key) == clean.dom().contains(key));
    assert(contents.contains_key(key) == contents.dom().contains(key));
}

/// Whether an insertion takes an entry out of a realm's table, and the entry holds a text.
pub open spec fn is_taken_out(
    contents: Map<Seq<char>, TomlModel>,
    alias: Seq<char>,
    package: PackageModel,
    realm: Realm,
    other: Realm,
    i: int,
    text: Seq<char>,
) -> bool {
    contents.contains_key(section_of(other)) && (contents[section_of(other)] matches TomlModel::Table(
        entries,
    ) && 0 <= i < entries.len() && !is_left(entries[i], package, alias, realm, other)
        && entries[i].1 == TomlModel::Text(text))
}

/// Whether the first entry of a realm's table with an alias is a text.
pub open spec fn has_text_under(
    contents: Map<Seq<char>, TomlModel>,
    realm: Realm,
    alias: Seq<char>,
    i: int,
) -> bool {
    contents.contains_key(section_of(realm)) && (contents[section_of(realm)] matches TomlModel::Table(
        entries,
    ) && 0 <= i < entries.len() && entries[i].0 == alias && entries[i].1 is Text && forall|j: int|
        0 <= j < i ==> (#[trigger] entries[j]).0 != alias)
}

/// The entry of a key is the first that has it.
pub proof fn the_first_of_a_key(entries: Seq<Entry>, key: Seq<char>, from: int)
    requires
        0 <= from <= entries.len(),
    ensures
        match entry_position(entries, key, from) {
            Some(i) => from <= i < entries.len() && entries[i].0 == key && forall|j: int|
                from <= j < i ==> (#[trigger] entries[j]).0 != key,
            None => forall|j: int| from <= j < entries.len() ==> (#[trigger] entries[j]).0 != key,
        },
    decreases entries.len() - from,
{
    if from < entries.len() && entries[from].0 != key {
        the_first_of_a_key(entries, key, from + 1);
    }
}

proof fn one_realm_displaces(
    contents: Map<Seq<char>, TomlModel>,
    entries: Seq<Entry>,
    package: PackageModel,
    alias: Seq<char>,
    realm: Realm,
    other: Realm,
)
    requires
        holds_table(contents, section_of(other), entries),
    ensures
        match displaced_in(entries, package, swept_alias(alias, realm, other)) {
            Some(text) => exists|i: int| #[trigger]
                is_taken_out(contents, alias, package, realm, other, i, text),
            None => {
                &&& forall|i: int| !(#[trigger] is_declared_in(contents, package, other, i))
                &&& other == realm ==> forall|i: int|
                    !(#[trigger] has_text_under(contents, realm, alias, i))
            },
        },
{
    the_first_that_declares(entries, package, 0);
    the_first_of_a_key(entries, alias, 0);
    match first_declaring(entries, package, 0) {
        Some(i) => {
            let text = text_of(entries[i].1)->0;
            assert(is_taken_out(contents, alias, package, realm, other, i, text));
        },
        None => {
            if other == realm {
                if let Some(i) = entry_position(entries, alias, 0) {
                    if let Some(text) = text_of(entries[i].1) {
                        assert(is_taken_out(contents, alias, package, realm, other, i, text));
                    }
                    assert forall|j: int| #[trigger] has_text_under(contents, realm, alias, j)
                        implies j == i by {
                        if i < j {
                            assert(entries[i].0 != alias);
                        } else if j < i {
                            assert(entries[j].0 != alias);
                        }
                    }
                }
            }
        },
    }
}

proof fn realms_displace(
    contents: Map<Seq<char>, TomlModel>,
    package: PackageModel,
    alias: Seq<char>,
    realm: Realm,
    k: int,
)
    requires
        0 <= k <= 3,
    ensures
        match displaced(contents, package, alias, realm, k) {
            Some(text) => exists|other: Realm, i: int| #[trigger]
                is_taken_out(contents, alias, package, realm, other, i, text),
            None => forall|j: int, i: int|
                #![trigger is_declared_in(contents, package, all_realms()[j], i)]
                #![trigger has_text_under(contents, all_realms()[j], alias, i)]
                0 <= j < k ==> !is_declared_in(contents, package, all_realms()[j], i) && (
                all_realms()[j] == realm ==> !has_text_under(
                    contents,
                    all_realms()[j],
                    alias,
                    i,
                )),
        },
    decreases k,
{
    if k > 0 {
        realms_displace(contents, package, alias, realm, k - 1);
        let other = all_realms()[k - 1];
        if let Some(entries) = table_at(contents, section_of(other)) {
            assert(holds_table(contents, section_of(other), entries));
            one_realm_displaces(contents, entries, package, alias, realm, other);
        }
    }
}

/// An insertion that succeeds answers with a requirement that it took out, and with none only where the
/// package was not declared and the alias was free.
pub proof fn an_insertion_tells_what_it_displaced(
    contents: Map<Seq<char>, TomlModel>,
    alias: Seq<char>,
    package: PackageModel,
    realm: Realm,
    overwrite: bool,
)
    ensures
        match insertion(contents, alias, package, realm, overwrite) {
            Ok(Some(text)) => exists|other: Realm, i: int| #[trigger]
                is_taken_out(contents, alias, package, realm, other, i, text),
            Ok(None) => !is_declared(contents, package) && forall|i: int|
                !(#[trigger] has_text_under(contents, realm, alias, i)),
            Err(_) => true,
        },
{
    realms_displace(contents, package, alias, realm, 3);
    if insertion(contents, alias, package, realm, overwrite) matches Ok(None) {
        if is_declared(contents, package) {
            let (other, i) = choose|other: Realm, i: int| #[trigger]
                is_declared_in(contents, package, other, i);
            a_realm_has_its_own_table(other);
            let j = choose|j: int| 0 <= j < all_realms().len() && all_realms()[j] == other;
            assert(is_declared_in(contents, package, all_realms()[j], i));
        }
        assert forall|i: int| !(#[trigger] has_text_under(contents, realm, alias, i)) by {
            a_realm_has_its_own_table(realm);
            let j = choose|j: int| 0 <= j < all_realms().len() && all_realms()[j] == realm;
            assert(has_text_under(contents, all_realms()[j], alias, i) || !has_text_under(
                contents,
                all_realms()[j],
                alias,
                i,
            ));
        }
    }
}

// ---------------------------------------------------------------------------
// Removal

/// The package that a requirement names, or nothing where it names none.
pub open spec fn named_by(requirement: Seq<char>) -> Seq<char> {
    match requirement_in(requirement) {
        Ok((package, _)) => package.scope + "/"@ + package.name,
        Err(_) => Seq::empty(),
    }
}

/// Whether an entry of the table of one of the realms asked is meant by a target: it has the target for
/// its alias, or it names it as a package.
pub open spec fn is_meant(
    contents: Map<Seq<char>, TomlModel>,
    target: Seq<char>,
    asked: Option<Realm>,
    other: Realm,
    i: int,
) -> bool {
    &&& asked matches Some(one) ==> other == one
    &&& contents.contains_key(section_of(other))
    &&& contents[section_of(other)] matches TomlModel::Table(entries)
    &&& 0 <= i < entries.len()
    &&& entries[i].1 matches TomlModel::Text(text)
    &&& entries[i].0 == target || named_by(text) == target
}

/// The entry at a place.
pub open spec fn entry_in(contents: Map<Seq<char>, TomlModel>, other: Realm, i: int) -> Entry {
    contents[section_of(other)]->Table_0[i]
}

/// Whether a declaration is told from the entry at a place.
pub open spec fn is_told_from(
    contents: Map<Seq<char>, TomlModel>,
    told: DeclarationModel,
    other: Realm,
    i: int,
) -> bool {
    let entry = entry_in(contents, other, i);
    &&& told.realm == other
    &&& told.alias == entry.0
    &&& entry.1 == TomlModel::Text(told.requirement)
    &&& told.package == named_by(told.requirement)
}

/// Whether places are those of declarations, one for one.
spec fn are_places(
    contents: Map<Seq<char>, TomlModel>,
    target: Seq<char>,
    asked: Option<Realm>,
    found: Seq<DeclarationModel>,
    at: Seq<(Realm, int)>,
) -> bool {
    &&& at.len() == found.len()
    &&& at.no_duplicates()
    &&& forall|k: int|
        0 <= k < at.len() ==> is_meant(contents, target, asked, (#[trigger] at[k]).0, at[k].1)
            && is_told_from(contents, found[k], at[k].0, at[k].1)
}

proof fn places_in_a_table(
    contents: Map<Seq<char>, TomlModel>,
    target: Seq<char>,
    asked: Option<Realm>,
    entries: Seq<Entry>,
    other: Realm,
    n: int,
) -> (at: Seq<(Realm, int)>)
    requires
        asked matches Some(one) ==> other == one,
        holds_table(contents, section_of(other), entries),
        0 <= n <= entries.len(),
    ensures
        are_places(contents, target, asked, declarations_in(entries, other, target, n), at),
        forall|k: int|
            0 <= k < at.len() ==> (#[trigger] at[k]).0 == other && 0 <= at[k].1 < n,
        forall|i: int|
            i < n && #[trigger] is_meant(contents, target, asked, other, i) ==> at.contains(
                (other, i),
            ),
    decreases n,
{
    if n <= 0 {
        Seq::empty()
    } else {
        let before = places_in_a_table(contents, target, asked, entries, other, n - 1);
        let found = declarations_in(entries, other, target, n - 1);
        if is_meant(contents, target, asked, other, n - 1) {
            let more = before.push((other, n - 1));
            let now = declarations_in(entries, other, target, n);
            assert(now.len() == found.len() + 1);
            assert forall|k: int| 0 <= k < more.len() implies is_meant(
                contents,
                target,
                asked,
                (#[trigger] more[k]).0,
                more[k].1,
            ) && is_told_from(contents, now[k], more[k].0, more[k].1) && more[k].0 == other && 0
                <= more[k].1 < n by {
                if k < before.len() {
                    assert(more[k] == before[k]);
                    assert(now[k] == found[k]);
                }
            }
            assert forall|i: int| i < n && #[trigger] is_meant(
                contents,
                target,
                asked,
                other,
                i,
            ) implies more.contains((other, i)) by {
                if i == n - 1 {
                    assert(more[before.len() as int] == (other, i));
                } else {
                    assert(before.contains((other, i)));
                    let k = choose|k: int| 0 <= k < before.len() && before[k] == (other, i);
                    assert(more[k] == (other, i));
                }
            }
            more
        } else {
            before
        }
    }
}

/// Whether each place stands in one of the first `n` realms.
spec fn stand_in(at: Seq<(Realm, int)>, realms: Seq<Realm>, n: int) -> bool {
    forall|k: int| 0 <= k < at.len() ==> realms.take(n).contains((#[trigger] at[k]).0)
}

proof fn places_add_up(
    contents: Map<Seq<char>, TomlModel>,
    target: Seq<char>,
    asked: Option<Realm>,
    a: Seq<DeclarationModel>,
    at: Seq<(Realm, int)>,
    b: Seq<DeclarationModel>,
    bt: Seq<(Realm, int)>,
)
    requires
        are_places(contents, target, asked, a, at),
        are_places(contents, target, asked, b, bt),
        forall|j: int, k: int|
            0 <= j < at.len() && 0 <= k < bt.len() ==> (#[trigger] at[j]).0 != (
            #[trigger] bt[k]).0,
    ensures
        are_places(contents, target, asked, a + b, at + bt),
        forall|x: (Realm, int)|
            at.contains(x) || bt.contains(x) ==> #[trigger] (at + bt).contains(x),
{
    let sum = at + bt;
    let found = a + b;
    assert forall|k: int| 0 <= k < sum.len() implies is_meant(
        contents,
        target,
        asked,
        (#[trigger] sum[k]).0,
        sum[k].1,
    ) && is_told_from(contents, found[k], sum[k].0, sum[k].1) by {
        if k < at.len() {
            assert(sum[k] == at[k]);
            assert(found[k] == a[k]);
        } else {
            assert(sum[k] == bt[k - at.len()]);
            assert(found[k] == b[k - a.len()]);
        }
    }
    assert forall|j: int, k: int| 0 <= j < sum.len() && 0 <= k < sum.len() && j != k implies sum[j]
        != sum[k] by {
        if j < at.len() && k >= at.len() {
            assert(at[j].0 != bt[k - at.len()].0);
        } else if k < at.len() && j >= at.len() {
            assert(at[k].0 != bt[j - at.len()].0);
        } else if j < at.len() {
            assert(at[j] != at[k]);
        } else {
            assert(bt[j - at.len()] != bt[k - at.len()]);
        }
    }
    assert forall|x: (Realm, int)| at.contains(x) || bt.contains(x) implies #[trigger] sum.contains(
        x,
    ) by {
        if at.contains(x) {
            let k = choose|k: int| 0 <= k < at.len() && at[k] == x;
            assert(sum[k] == x);
        } else {
            let k = choose|k: int| 0 <= k < bt.len() && bt[k] == x;
            assert(sum[at.len() + k] == x);
        }
    }
}

proof fn places_of_all(
    contents: Map<Seq<char>, TomlModel>,
    target: Seq<char>,
    asked: Option<Realm>,
    n: int,
) -> (at: Seq<(Realm, int)>)
    requires
        0 <= n <= removal_realms(asked).len(),
    ensures
        are_places(
            contents,
            target,
            asked,
            declarations_of(contents, removal_realms(asked), target, n),
            at,
        ),
        stand_in(at, removal_realms(asked), n),
        forall|j: int, i: int|
            0 <= j < n && #[trigger] is_meant(contents, target, asked, removal_realms(asked)[j], i)
                ==> at.contains((removal_realms(asked)[j], i)),
    decreases n,
{
    let realms = removal_realms(asked);
    if n <= 0 {
        Seq::empty()
    } else {
        let before = places_of_all(contents, target, asked, n - 1);
        let found = declarations_of(contents, realms, target, n - 1);
        let other = realms[n - 1];
        assert(realms.no_duplicates());
        assert forall|k: int| 0 <= k < before.len() implies realms.take(n).contains(
            (#[trigger] before[k]).0,
        ) && before[k].0 != other by {
            let earlier = realms.take(n - 1);
            let j = choose|j: int| 0 <= j < earlier.len() && earlier[j] == before[k].0;
            assert(realms.take(n)[j] == before[k].0);
            assert(realms[j] != realms[n - 1]);
        }
        match table_at(contents, section_of(other)) {
            Some(entries) => {
                let here = places_in_a_table(
                    contents,
                    target,
                    asked,
                    entries,
                    other,
                    entries.len() as int,
                );
                let told = declarations_in(entries, other, target, entries.len() as int);
                places_add_up(contents, target, asked, found, before, told, here);
                let all = before + here;
                assert forall|k: int| 0 <= k < all.len() implies realms.take(n).contains(
                    (#[trigger] all[k]).0,
                ) by {
                    if k < before.len() {
                        assert(all[k] == before[k]);
                    } else {
                        assert(all[k] == here[k - before.len()]);
                        assert(realms.take(n)[n - 1] == other);
                    }
                }
                all
            },
            None => before,
        }
    }
}

/// Whether one entry is meant by a target, and no other.
pub open spec fn is_the_one_meant(
    contents: Map<Seq<char>, TomlModel>,
    target: Seq<char>,
    asked: Option<Realm>,
    other: Realm,
    i: int,
) -> bool {
    &&& is_meant(contents, target, asked, other, i)
    &&& forall|realm: Realm, j: int| #[trigger]
        is_meant(contents, target, asked, realm, j) ==> realm == other && j == i
}

/// A removal succeeds where exactly one entry is meant in the realms asked. It tells that entry: its
/// alias, its realm, the package it names and the version it asks of it.
pub proof fn a_removal_needs_one_entry_that_is_meant(
    contents: Map<Seq<char>, TomlModel>,
    target: Seq<char>,
    asked: Option<Realm>,
)
    ensures
        match removal(contents, target, asked) {
            Ok(removed) => exists|i: int| #[trigger]
                is_the_one_meant(contents, target, asked, removed.realm, i) && {
                    let entry = entry_in(contents, removed.realm, i);
                    &&& removed.alias == entry.0
                    &&& entry.1 matches TomlModel::Text(text)
                    &&& removed.package == named_by(text)
                    &&& removed.version_req == match requirement_in(text) {
                        Ok((_, Some(version))) => version,
                        _ => Seq::<char>::empty(),
                    }
                },
            Err(_) => forall|other: Realm, i: int|
                !(#[trigger] is_the_one_meant(contents, target, asked, other, i)),
        },
{
    let realms = removal_realms(asked);
    let found = removal_matches(contents, target, asked);
    let at = places_of_all(contents, target, asked, realms.len() as int);
    assert forall|other: Realm, i: int| #[trigger]
        is_meant(contents, target, asked, other, i) implies at.contains((other, i)) by {
        a_realm_has_its_own_table(other);
        let j = choose|j: int| 0 <= j < all_realms().len() && all_realms()[j] == other;
        if asked is None {
            assert(is_meant(contents, target, asked, realms[j], i));
        } else {
            assert(realms[0] == other);
            assert(is_meant(contents, target, asked, realms[0], i));
        }
    }
    if found.len() == 1 {
        let (other, i) = at[0];
        assert(is_meant(contents, target, asked, other, i));
        assert forall|realm: Realm, j: int| #[trigger]
            is_meant(contents, target, asked, realm, j) implies realm == other && j == i by {
            assert(at.contains((realm, j)));
        }
        assert(is_told_from(contents, found[0], other, i));
        assert(is_the_one_meant(contents, target, asked, other, i));
    } else {
        assert forall|other: Realm, i: int| !(#[trigger] is_the_one_meant(
            contents,
            target,
            asked,
            other,
            i,
        )) by {
            if is_the_one_meant(contents, target, asked, other, i) {
                assert(at.contains((other, i)));
                assert(at[0] != at[1]);
                assert(is_meant(contents, target, asked, at[0].0, at[0].1));
                assert(is_meant(contents, target, asked, at[1].0, at[1].1));
            }
        }
    }
}

proof fn leaving_out_picks(entries: Seq<Entry>, key: Seq<char>, n: int) -> (at: Seq<int>)
    requires
        0 <= n <= entries.len(),
    ensures
        picks(at, entries, entries_without(entries, key, n)),
        forall|k: int| 0 <= k < at.len() ==> #[trigger] at[k] < n,
        forall|i: int| 0 <= i < n ==> (#[trigger] at.contains(i) <==> entries[i].0 != key),
    decreases n,
{
    if n <= 0 {
        Seq::empty()
    } else {
        let before = leaving_out_picks(entries, key, n - 1);
        if entries[n - 1].0 != key {
            one_more_is_picked(before, n - 1);
            before.push(n - 1)
        } else {
            before
        }
    }
}

/// Whether what is kept is what has another key, in order.
pub open spec fn keeps_other_keys(entries: Seq<Entry>, kept: Seq<Entry>, key: Seq<char>) -> bool {
    exists|at: Seq<int>| #[trigger]
        picks(at, entries, kept) && forall|i: int|
            0 <= i < entries.len() ==> (#[trigger] at.contains(i) <==> entries[i].0 != key)
}

/// A removal that succeeds takes what has the alias it tells out of the table of the realm it tells, keeps
/// the rest of that table in order, and changes nothing else.
pub proof fn a_removal_takes_out_one_alias(
    contents: Map<Seq<char>, TomlModel>,
    target: Seq<char>,
    asked: Option<Realm>,
)
    ensures
        match removal(contents, target, asked) {
            Ok(removed) => {
                let after = after_removal(contents, target, asked);
                let key = section_of(removed.realm);
                &&& exists|entries: Seq<Entry>, kept: Seq<Entry>|
                    {
                        &&& #[trigger] holds_table(contents, key, entries)
                        &&& #[trigger] holds_table(after, key, kept)
                        &&& keeps_other_keys(entries, kept, removed.alias)
                    }
                &&& forall|other: Seq<char>|
                    other != key ==> after.contains_key(other) == #[trigger] contents.contains_key(
                        other,
                    ) && (contents.contains_key(other) ==> after[other] == contents[other])
            },
            Err(_) => after_removal(contents, target, asked) == contents,
        },
{
    a_removal_needs_one_entry_that_is_meant(contents, target, asked);
    if let Ok(removed) = removal(contents, target, asked) {
        let after = after_removal(contents, target, asked);
        let key = section_of(removed.realm);
        let i = choose|i: int| #[trigger]
            is_the_one_meant(contents, target, asked, removed.realm, i);
        assert(is_the_one_meant(contents, target, asked, removed.realm, i));
        let entries = contents[key]->Table_0;
        let kept = entries_without(entries, removed.alias, entries.len() as int);
        let at = leaving_out_picks(entries, removed.alias, entries.len() as int);
        assert(picks(at, entries, kept));
        assert(holds_table(contents, key, entries));
        assert(holds_table(after, key, kept));
    }
}

} // verus!
