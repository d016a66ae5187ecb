//! What a request for packages asks for, and how it is answered.
use vstd::prelude::*;
use vstd::utf8::*;
use super::editing_laws::the_first_of_a_key;
use super::manifest::{DeclaredModel, RemovedModel};
use super::package::{
    a_package_reads_back, a_requirement_reads_back, alias_of, all_name_chars, is_alias, is_segment,
    package_in, package_text, realm_in, section_of, without_hyphens, PackageModel, Realm,
};
use super::toml::{entry_position, table_at, TomlModel};
use super::tools::{
    addition_of, listing_note, missing_count, missing_packages_of, removal_of, requested_package,
    requested_place, requested_removal, says_shared_place, search_note, search_query,
};
use super::versions::requirement_parses;
use crate::picking::{one_more_is_picked, rises};
use crate::text::{ascii_lowercase, position_from, split_once_on, trimmed};
use crate::text_laws::{
    a_text_is_split_at_the_first, a_text_without_it_is_not_split, free_of, space_around_is_trimmed,
};

verus! {

// ---------------------------------------------------------------------------
// Listings

/// Whether positions are those of the packages that are not on disk.
pub open spec fn are_missing(packages: Seq<DeclaredModel>, at: Seq<int>) -> bool {
    &&& rises(at)
    &&& forall|k: int| 0 <= k < at.len() ==> 0 <= #[trigger] at[k] < packages.len()
    &&& forall|i: int|
        0 <= i < packages.len() ==> (#[trigger] at.contains(i) <==> !packages[i].installed)
}

proof fn missing_ones_are_picked(packages: Seq<DeclaredModel>, n: int) -> (at: Seq<int>)
    requires
        0 <= n <= packages.len(),
    ensures
        at.len() == missing_count(packages, n),
        rises(at),
        forall|k: int| 0 <= k < at.len() ==> 0 <= #[trigger] at[k] < n,
        forall|i: int| 0 <= i < n ==> (#[trigger] at.contains(i) <==> !packages[i].installed),
    decreases n,
{
    if n <= 0 {
        Seq::empty()
    } else {
        let before = missing_ones_are_picked(packages, n - 1);
        if !packages[n - 1].installed {
            one_more_is_picked(before, n - 1);
            before.push(n - 1)
        } else {
            before
        }
    }
}

/// What is counted as missing is what is declared and not on disk, each once.
pub proof fn every_missing_package_is_counted(packages: Seq<DeclaredModel>) -> (at: Seq<int>)
    ensures
        are_missing(packages, at),
        missing_count(packages, packages.len() as int) == at.len(),
{
    missing_ones_are_picked(packages, packages.len() as int)
}

/// A listing has nothing to remark exactly where something is declared, there is a lockfile, and
/// everything that is declared is on disk.
pub proof fn a_complete_listing_needs_no_note(
    lockfile_present: bool,
    packages: Seq<DeclaredModel>,
)
    ensures
        listing_note(lockfile_present, packages) is None <==> packages.len() > 0 && lockfile_present
            && forall|i: int| 0 <= i < packages.len() ==> (#[trigger] packages[i]).installed,
{
    let at = every_missing_package_is_counted(packages);
    if at.len() > 0 {
        assert(at.contains(at[0]));
        assert(!packages[at[0]].installed);
    } else {
        assert forall|i: int| 0 <= i < packages.len() implies (#[trigger] packages[i]).installed by {
            assert(!at.contains(i));
        }
    }
}

proof fn lost_ones_are_picked(packages: Seq<DeclaredModel>, n: int) -> (at: Seq<int>)
    requires
        0 <= n <= packages.len(),
    ensures
        at.len() == missing_packages_of(packages, n).len(),
        rises(at),
        forall|k: int|
            0 <= k < at.len() ==> 0 <= #[trigger] at[k] < n && missing_packages_of(packages, n)[k]
                == packages[at[k]].package,
        forall|i: int|
            0 <= i < n ==> (#[trigger] at.contains(i) <==> !packages[i].installed
                && packages[i].resolved_version is Some),
    decreases n,
{
    if n <= 0 {
        Seq::empty()
    } else {
        let before = lost_ones_are_picked(packages, n - 1);
        if !packages[n - 1].installed && packages[n - 1].resolved_version is Some {
            one_more_is_picked(before, n - 1);
            before.push(n - 1)
        } else {
            before
        }
    }
}

/// What is reported missing after an install that failed is what was resolved and is not on disk, by its
/// package name, in the order it is declared in.
pub proof fn every_lost_package_is_named(packages: Seq<DeclaredModel>) -> (at: Seq<int>)
    ensures
        at.len() == missing_packages_of(packages, packages.len() as int).len(),
        rises(at),
        forall|k: int|
            0 <= k < at.len() ==> 0 <= #[trigger] at[k] < packages.len() && missing_packages_of(
                packages,
                packages.len() as int,
            )[k] == packages[at[k]].package,
        forall|i: int|
            0 <= i < packages.len() ==> (#[trigger] at.contains(i) <==> !packages[i].installed
                && packages[i].resolved_version is Some),
{
    lost_ones_are_picked(packages, packages.len() as int)
}

// ---------------------------------------------------------------------------
// Searches

/// A search is sent as it was written, without the white space around it, unless nothing is left of it or
/// nothing may be returned.
pub proof fn a_search_is_sent_as_it_is_written(query: Seq<char>, max_results: int)
    ensures
        match search_query(query, max_results) {
            Ok(sent) => sent == trimmed(query) && sent.len() > 0 && max_results != 0,
            Err(_) => trimmed(query).len() == 0 || max_results == 0,
        },
{
}

/// A search has nothing to remark exactly where something was found and all of it is shown.
pub proof fn a_search_that_shows_all_needs_no_note(matched: int, max_results: int)
    requires
        0 <= matched,
    ensures
        search_note(matched, max_results) is None <==> 0 < matched <= max_results,
{
}

// ---------------------------------------------------------------------------
// Additions

/// The two ways of asking for a version mean the same: behind the name of the package, or beside it. Both
/// at once mean it too where they agree, and are refused where they do not. Without a version, none is
/// asked for.
pub proof fn a_version_is_asked_for_in_either_place(
    package: PackageModel,
    version: Seq<char>,
    other: Seq<char>,
)
    requires
        is_segment(package.scope),
        is_segment(package.name),
        version.len() > 0,
        trimmed(version) == version,
        trimmed(other) != version,
    ensures
        ({
            let name = package.scope + "/"@ + package.name;
            let both = name + "@"@ + version;
            &&& requested_package(both, None) == requested_package(name, Some(version))
            &&& requested_package(both, Some(version)) == requested_package(name, Some(version))
            &&& requested_package(both, Some(other)) is Err
            &&& match requested_package(name, Some(version)) {
                Ok((found, asked)) => found == package && asked == Some(version)
                    && requirement_parses(version),
                Err(_) => !requirement_parses(version),
            }
            &&& requested_package(name, None) matches Ok((found, asked)) && found == package && asked
                is None
        }),
{
    a_requirement_reads_back(package, version);
    a_package_reads_back(package);
    let name = package_text(package);
    reveal_strlit("/");
    assert forall|k: int| 0 <= k < name.len() implies #[trigger] name[k] != '@' by {
        let s = package.scope.len() as int;
        if k < s {
            assert(name[k] == package.scope[k]);
        } else if k > s {
            assert(name[k] == package.name[k - s - 1]);
        }
    }
    a_text_without_it_is_not_split(name, '@');
    let none = Seq::<char>::empty();
    assert(name[0] == package.scope[0]);
    assert(name.last() == package.name[package.name.len() - 1]);
    space_around_is_trimmed(none, name, none);
}

/// The words a realm is asked for with, whatever the case of their letters and whatever white space is
/// around them. Where none is asked for, it is the shared one.
pub proof fn a_realm_is_asked_for_by_its_name(text: Seq<char>)
    ensures
        realm_in(None) == Ok::<Realm, crate::errors::FailureModel>(Realm::Shared),
        ({
            let word = ascii_lowercase(trimmed(text));
            match realm_in(Some(text)) {
                Ok(realm) => word == section_of(realm) || word == (match realm {
                    Realm::Shared => "shared"@,
                    Realm::Server => "server"@,
                    Realm::Dev => "dev"@,
                }),
                Err(_) => word != "shared"@ && word != "server"@ && word != "dev"@ && word
                    != "dependencies"@ && word != "server-dependencies"@ && word
                    != "dev-dependencies"@,
            }
        }),
{
}

proof fn hyphens_drop_out(a: Seq<char>, b: Seq<char>)
    ensures
        without_hyphens(a + b) == without_hyphens(a) + without_hyphens(b),
    decreases b.len(),
{
    let whole = a + b;
    if b.len() == 0 {
        assert(whole =~= a);
        assert(without_hyphens(a) + without_hyphens(b) =~= without_hyphens(a));
    } else {
        assert(whole.last() == b.last());
        assert(whole.drop_last() =~= a + b.drop_last());
        hyphens_drop_out(a, b.drop_last());
        assert(without_hyphens(whole) =~= without_hyphens(a) + without_hyphens(b));
    }
}

proof fn nothing_drops_out(s: Seq<char>)
    requires
        free_of(s, '-'),
    ensures
        without_hyphens(s) == s,
    decreases s.len(),
{
    if s.len() > 0 {
        let shorter = s.drop_last();
        assert(s[s.len() - 1] != '-');
        assert forall|k: int| 0 <= k < shorter.len() implies #[trigger] shorter[k] != '-' by {
            assert(shorter[k] == s[k]);
        }
        nothing_drops_out(shorter);
        assert(shorter.push(s.last()) =~= s);
    }
}

/// The alias of a package, where none is asked for, is its name: a small letter at its start becomes a
/// capital, hyphens behind it drop out, and nothing else changes.
pub proof fn an_alias_is_the_name_with_a_capital(name: Seq<char>, front: Seq<char>, back: Seq<char>)
    requires
        name.len() > 0,
        front.len() > 0,
    ensures
        alias_of(name).len() > 0,
        alias_of(name)[0] as int == if 'a' <= name[0] <= 'z' {
            name[0] as int - 32
        } else {
            name[0] as int
        },
        free_of(name, '-') ==> alias_of(name).skip(1) == name.skip(1),
        alias_of(front.push('-') + back) == alias_of(front + back),
{
    let rest = name.skip(1);
    assert(alias_of(name).skip(1) =~= without_hyphens(rest));
    if free_of(name, '-') {
        assert forall|k: int| 0 <= k < rest.len() implies #[trigger] rest[k] != '-' by {
            assert(rest[k] == name[k + 1]);
        }
        nothing_drops_out(rest);
    }
    let marked = front.push('-') + back;
    let plain = front + back;
    let tail = front.skip(1);
    assert(marked[0] == front[0] && plain[0] == front[0]);
    assert(marked.skip(1) =~= tail.push('-') + back);
    assert(plain.skip(1) =~= tail + back);
    hyphens_drop_out(tail.push('-'), back);
    hyphens_drop_out(tail, back);
    assert(tail.push('-').drop_last() =~= tail);
}

/// A package is put where it is asked to be, under the alias that is asked for, or under its own.
pub proof fn a_package_is_put_where_it_is_asked_for(
    name: PackageModel,
    realm: Option<Seq<char>>,
    alias: Option<Seq<char>>,
)
    ensures
        match requested_place(name, realm, alias) {
            Ok((place, key)) => {
                &&& realm_in(realm) matches Ok(asked) && asked == place
                &&& match alias {
                    Some(text) => key == trimmed(text) && is_alias(key),
                    None => key == alias_of(name.name),
                }
            },
            Err(_) => realm_in(realm) is Err || (alias matches Some(text) && !is_alias(
                trimmed(text),
            )),
        },
{
}

/// A removal looks for what it is asked for, in the realm that is named, or in all where none is.
pub proof fn a_removal_looks_where_it_is_asked_to(package: Seq<char>, realm: Option<Seq<char>>)
    ensures
        match requested_removal(package, realm) {
            Ok((target, place)) => target == trimmed(package) && match realm {
                None => place is None,
                Some(_) => place is Some && (realm_in(realm) matches Ok(asked) && place == Some(
                    asked,
                )),
            },
            Err(_) => realm is Some && realm_in(realm) is Err,
        },
{
}

/// An answer tells what was changed: the package, its realm and the table of it, and whether an install
/// ran. It remarks on what is left to do: an install that was not run, and a place for shared packages
/// that is not told where another realm needs one.
pub proof fn a_change_tells_what_was_done(
    name: PackageModel,
    version_req: Seq<char>,
    alias: Seq<char>,
    realm: Realm,
    placed: bool,
    replaced: Option<Seq<char>>,
    output: Option<Seq<char>>,
)
    ensures
        ({
            let change = addition_of(name, version_req, alias, realm, placed, replaced, output);
            &&& change.package == name.scope + "/"@ + name.name
            &&& change.alias == alias
            &&& change.version_req == version_req
            &&& change.realm == realm
            &&& change.section == section_of(realm)
            &&& change.replaced == replaced
            &&& change.install_output == output
            &&& change.install_ran <==> output is Some
            &&& change.note is None <==> output is Some && (placed || realm == Realm::Shared)
        }),
{
}

/// An answer to a removal tells what was removed, and remarks on an install that was not run.
pub proof fn a_removal_tells_what_was_removed(removed: RemovedModel, output: Option<Seq<char>>)
    ensures
        ({
            let change = removal_of(removed, output);
            &&& change.package == removed.package
            &&& change.alias == removed.alias
            &&& change.version_req == removed.version_req
            &&& change.realm == removed.realm
            &&& change.section == section_of(removed.realm)
            &&& change.replaced is None
            &&& change.install_output == output
            &&& change.install_ran <==> output is Some
            &&& change.note is None <==> output is Some
        }),
{
}

/// Whether a manifest holds a text under a key of a table: the first time the key stands in it.
pub open spec fn holds_text(
    contents: Map<Seq<char>, TomlModel>,
    section: Seq<char>,
    key: Seq<char>,
    text: Seq<char>,
) -> bool {
    contents.contains_key(section) && (contents[section] matches TomlModel::Table(entries) && exists|
        i: int,
    |
        {
            &&& 0 <= i < entries.len()
            &&& #[trigger] entries[i] == (key, TomlModel::Text(text))
            &&& forall|j: int| 0 <= j < i ==> (#[trigger] entries[j]).0 != key
        })
}

/// A manifest says where shared packages sit where its place table holds a text for them that is more than
/// white space.
pub proof fn a_place_is_told_by_the_manifest(contents: Map<Seq<char>, TomlModel>)
    ensures
        says_shared_place(contents) <==> exists|text: Seq<char>| #[trigger]
            holds_text(contents, "place"@, "shared-packages"@, text) && trimmed(text).len() > 0,
{
    let key = "shared-packages"@;
    if let Some(entries) = table_at(contents, "place"@) {
        the_first_of_a_key(entries, key, 0);
        if let Some(i) = entry_position(entries, key, 0) {
            if let TomlModel::Text(text) = entries[i].1 {
                assert(entries[i] == (key, TomlModel::Text(text)));
                assert(holds_text(contents, "place"@, key, text));
            }
            assert forall|text: Seq<char>| #[trigger] holds_text(contents, "place"@, key, text) implies entries[i].1
                == TomlModel::Text(text) by {
                let j = choose|j: int|
                    {
                        &&& 0 <= j < entries.len()
                        &&& #[trigger] entries[j] == (key, TomlModel::Text(text))
                        &&& forall|k: int| 0 <= k < j ==> (#[trigger] entries[k]).0 != key
                    };
                if i < j {
                    assert(entries[i].0 != key);
                } else if j < i {
                    assert(entries[j].0 != key);
                }
            }
        }
    }
}

/// Whether a text can be the scope or the name of a package: small letters, digits and hyphens, one at
/// least and no more than sixty-four.
pub open spec fn is_package_part(s: Seq<char>) -> bool {
    &&& 0 < s.len()
    &&& encode_utf8(s).len() <= 64
    &&& forall|k: int|
        0 <= k < s.len() ==> 'a' <= #[trigger] s[k] <= 'z' || '0' <= s[k] <= '9' || s[k] == '-'
}

/// A package is named by a scope, one slash and a name, and by nothing else; white space around them does
/// not count.
pub proof fn a_package_is_a_scope_and_a_name(value: Seq<char>, scope: Seq<char>, name: Seq<char>)
    ensures
        match package_in(value) {
            Ok(package) => trimmed(value) == package.scope.push('/') + package.name
                && is_package_part(package.scope) && is_package_part(package.name),
            Err(_) => is_package_part(scope) && is_package_part(name) ==> trimmed(value)
                != scope.push('/') + name,
        },
{
    reveal_strlit("/");
    let text = trimmed(value);
    if let Ok(package) = package_in(value) {
        a_split_text_comes_together(text, '/');
    }
    if is_package_part(scope) && is_package_part(name) && text == scope.push('/') + name {
        assert forall|k: int| 0 <= k < scope.len() implies #[trigger] scope[k] != '/' by {}
        assert forall|k: int| 0 <= k < name.len() implies #[trigger] name[k] != '/' by {}
        a_text_is_split_at_the_first(scope, '/', name);
        a_text_without_it_is_not_split(name, '/');
        assert(all_name_chars(scope) && all_name_chars(name));
    }
}

proof fn a_split_text_comes_together(text: Seq<char>, c: char)
    ensures
        split_once_on(text, c) matches Some((before, after)) ==> text == before.push(c) + after,
{
    the_first_is_inside(text, c, 0);
    if let Some(i) = position_from(text, c, 0) {
        assert(text =~= text.take(i).push(c) + text.skip(i + 1));
    }
}

proof fn the_first_is_inside(s: Seq<char>, c: char, from: int)
    requires
        0 <= from,
    ensures
        position_from(s, c, from) matches Some(i) ==> from <= i < s.len() && s[i] == c,
    decreases s.len() - from,
{
    if from < s.len() && s[from] != c {
        the_first_is_inside(s, c, from + 1);
    }
}

} // verus!
