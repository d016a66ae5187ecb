//! What the status tells.
use vstd::prelude::*;
use crate::json::{member_position, member_position_is_first, same_json, JsonModel};
use crate::status::{
    after_vs, digits_value, dotted, number_in, overrides_among, overrides_in, shared_note,
    shared_support, sourcemap_standing, version_numbers, DEFAULT_LSP_REPOSITORY,
};
use crate::text::{decimal, split_on};
use crate::text_laws::{a_text_without_it_is_not_split, free_of, parts_come_one_by_one};

verus! {

// ---------------------------------------------------------------------------
// Versions

proof fn a_number_is_read_from_its_digits(n: nat)
    ensures
        digits_value(decimal(n)) == Some(n as int),
        decimal(n).len() > 0,
        free_of(decimal(n), '.'),
        decimal(n)[0] != '+',
        decimal(n)[0] != 'v',
    decreases n,
{
    let text = decimal(n);
    let digit = ('0' as u32 + n % 10) as u32 as char;
    assert('0' <= digit <= '9');
    if n < 10 {
        assert(text =~= seq![digit]);
        assert(text.drop_last() =~= Seq::<char>::empty());
        assert(digits_value(text.drop_last()) == Some(0int));
    } else {
        a_number_is_read_from_its_digits(n / 10);
        assert(text.drop_last() =~= decimal(n / 10));
        assert forall|k: int| 0 <= k < text.len() implies #[trigger] text[k] != '.' by {
            if k < text.len() - 1 {
                assert(text[k] == decimal(n / 10)[k]);
            }
        }
        assert(text[0] == decimal(n / 10)[0]);
    }
}

proof fn a_number_is_read(n: u32)
    ensures
        number_in(decimal(n as nat)) == Some(n),
{
    a_number_is_read_from_its_digits(n as nat);
}

/// A version that is written as three numbers with dots between them is read as them, with a `v` before it
/// or without.
pub proof fn a_version_is_read_as_its_numbers(major: u32, minor: u32, patch: u32)
    ensures
        ({
            let text = decimal(major as nat).push('.') + (decimal(minor as nat).push('.') + decimal(
                patch as nat,
            ));
            &&& version_numbers(text) == Some((major, minor, patch))
            &&& version_numbers(seq!['v'] + text) == Some((major, minor, patch))
        }),
{
    let first = decimal(major as nat);
    let second = decimal(minor as nat);
    let third = decimal(patch as nat);
    let text = first.push('.') + (second.push('.') + third);
    a_number_is_read(major);
    a_number_is_read(minor);
    a_number_is_read(patch);
    a_number_is_read_from_its_digits(major as nat);
    a_number_is_read_from_its_digits(minor as nat);
    a_number_is_read_from_its_digits(patch as nat);
    parts_come_one_by_one(first, '.', second.push('.') + third);
    parts_come_one_by_one(second, '.', third);
    a_text_without_it_is_not_split(third, '.');
    assert(split_on(text, '.') =~= seq![first, second, third]);
    assert(text[0] == first[0]);
    assert(text.skip(0) =~= text);
    assert(after_vs(text, 0) == 0);
    let marked = seq!['v'] + text;
    assert(marked[0] == 'v' && marked[1] == text[0]);
    assert(after_vs(marked, 1) == 1);
    assert(after_vs(marked, 0) == 1);
    assert(marked.skip(1) =~= text);
}

/// A release of the language server that can be judged follows shared requires from 0.2.0 on, and one of
/// another repository cannot be judged.
pub proof fn shared_requires_are_followed_from_one_release_on(
    major: u32,
    minor: u32,
    patch: u32,
    other: Seq<char>,
    version: Seq<char>,
)
    requires
        other != DEFAULT_LSP_REPOSITORY@,
    ensures
        ({
            let text = decimal(major as nat).push('.') + (decimal(minor as nat).push('.') + decimal(
                patch as nat,
            ));
            shared_support(text, DEFAULT_LSP_REPOSITORY@) == if major > 0 || minor >= 2 {
                "supported"@
            } else {
                "unsupported"@
            }
        }),
        shared_support(version, other) == "unknown"@,
{
    a_version_is_read_as_its_numbers(major, minor, patch);
}

/// There is something to remark exactly where the graph and the language server are known to disagree.
pub proof fn only_a_disagreement_is_remarked_on(graph_edges: bool, language_server: Seq<char>)
    ensures
        shared_note(graph_edges, language_server) is Some <==> if graph_edges {
            language_server == "unsupported"@
        } else {
            language_server == "supported"@
        },
{
}

// ---------------------------------------------------------------------------
// The sourcemap

/// A sourcemap is stale exactly where a source was written after it, and then that source is named. Its
/// age is the whole seconds since it was written.
pub proof fn a_sourcemap_is_stale_where_a_source_is_newer(
    path: Seq<char>,
    modified: Option<i128>,
    watched: bool,
    newest: Option<(Option<Seq<char>>, i128)>,
    now: i128,
)
    ensures
        ({
            let told = sourcemap_standing(path, modified, watched, newest, now);
            &&& told.relative_path == path
            &&& told.watched == watched
            &&& told.present <==> modified is Some
            &&& match modified {
                None => told.stale is None && told.age_seconds is None && told.newest_source is None
                    && told.note is Some,
                Some(written) => {
                    let newer = newest matches Some((_, at)) && at > written;
                    &&& told.stale == Some(newer)
                    &&& told.note is Some <==> newer
                    &&& told.newest_source == if newer {
                        (newest->0).0
                    } else {
                        None
                    }
                    &&& told.age_seconds matches Some(age) ==> age * 1_000_000_000 <= now - written
                        < (age + 1) * 1_000_000_000
                    &&& told.modified_epoch_seconds matches Some(at) ==> at * 1_000_000_000
                        <= written < (at + 1) * 1_000_000_000
                    &&& written > now ==> told.age_seconds is None
                },
            }
        }),
{
}

// ---------------------------------------------------------------------------
// Overrides

/// Whether a setting differs from its default: it has none, or another value.
pub open spec fn differs(
    value: JsonModel,
    key: Seq<char>,
    defaults: Seq<(Seq<char>, JsonModel)>,
) -> bool {
    forall|i: int|
        0 <= i < defaults.len() && (#[trigger] defaults[i]).0 == key && (forall|j: int|
            0 <= j < i ==> (#[trigger] defaults[j]).0 != key) ==> !same_json(value, defaults[i].1)
}

proof fn differing_is_not_finding(
    value: JsonModel,
    key: Seq<char>,
    defaults: Seq<(Seq<char>, JsonModel)>,
)
    ensures
        differs(value, key, defaults) <==> match member_position(defaults, key, 0) {
            Some(i) => !same_json(value, defaults[i].1),
            None => true,
        },
{
    member_position_is_first(defaults, key, 0);
    if let Some(i) = member_position(defaults, key, 0) {
        assert(defaults[i].0 == key);
        assert forall|k: int|
            0 <= k < defaults.len() && (#[trigger] defaults[k]).0 == key && (forall|j: int|
                0 <= j < k ==> (#[trigger] defaults[j]).0 != key) implies k == i by {
            if i < k {
                assert(defaults[i].0 != key);
            }
        }
    }
}

proof fn flat_settings_are_told(
    members: Seq<(Seq<char>, JsonModel)>,
    defaults: Seq<(Seq<char>, JsonModel)>,
    known: Map<Seq<char>, JsonModel>,
    key: Seq<char>,
)
    requires
        forall|i: int| 0 <= i < members.len() ==> !((#[trigger] members[i]).1 is Object),
        forall|i: int, j: int|
            0 <= i < j < members.len() ==> (#[trigger] members[i]).0 != (#[trigger] members[j]).0,
    ensures
        ({
            let told = overrides_among(members, defaults, Seq::empty(), known);
            &&& told.contains_key(key) <==> known.contains_key(key) || exists|i: int|
                0 <= i < members.len() && (#[trigger] members[i]).0 == key && differs(
                    members[i].1,
                    key,
                    defaults,
                )
            &&& forall|i: int|
                0 <= i < members.len() && (#[trigger] members[i]).0 == key && differs(
                    members[i].1,
                    key,
                    defaults,
                ) ==> told[key] == members[i].1
            &&& (forall|i: int|
                0 <= i < members.len() && (#[trigger] members[i]).0 == key ==> !differs(
                    members[i].1,
                    key,
                    defaults,
                )) && known.contains_key(key) ==> told[key] == known[key]
        }),
    decreases members.len(),
{
    if members.len() > 0 {
        let name = members[0].0;
        let value = members[0].1;
        differing_is_not_finding(value, name, defaults);
        let found = if differs(value, name, defaults) {
            known.insert(name, value)
        } else {
            known
        };
        let rest = members.skip(1);
        assert(dotted(Seq::empty(), name) == name);
        assert(!(members[0].1 is Object));
        if let Some(i) = member_position(defaults, name, 0) {
            assert(overrides_in(value, defaults[i].1, name, known) == found);
        }
        assert(overrides_among(members, defaults, Seq::empty(), known) == overrides_among(
            rest,
            defaults,
            Seq::empty(),
            found,
        ));
        assert forall|i: int| 0 <= i < rest.len() implies !((#[trigger] rest[i]).1 is Object) by {
            assert(rest[i] == members[i + 1]);
        }
        assert forall|i: int, j: int| 0 <= i < j < rest.len() implies (#[trigger] rest[i]).0 != (
        #[trigger] rest[j]).0 by {
            assert(rest[i] == members[i + 1]);
            assert(rest[j] == members[j + 1]);
        }
        flat_settings_are_told(rest, defaults, found, key);
        assert forall|i: int| 0 <= i < rest.len() implies (#[trigger] rest[i]).0 != name by {
            assert(rest[i] == members[i + 1]);
            assert(members[0].0 != members[i + 1].0);
        }
        assert forall|i: int| 0 < i < members.len() implies #[trigger] members[i] == rest[i - 1] by {}
        if exists|i: int|
            0 <= i < members.len() && (#[trigger] members[i]).0 == key && differs(
                members[i].1,
                key,
                defaults,
            ) {
            let i = choose|i: int|
                0 <= i < members.len() && (#[trigger] members[i]).0 == key && differs(
                    members[i].1,
                    key,
                    defaults,
                );
            if i > 0 {
                assert(rest[i - 1].0 == key);
            }
        }
        if exists|i: int|
            0 <= i < rest.len() && (#[trigger] rest[i]).0 == key && differs(
                rest[i].1,
                key,
                defaults,
            ) {
            let i = choose|i: int|
                0 <= i < rest.len() && (#[trigger] rest[i]).0 == key && differs(
                    rest[i].1,
                    key,
                    defaults,
                );
            assert(members[i + 1].0 == key);
        }
    }
}

/// Of settings that hold no others, those are told that differ from their defaults, each under its key
/// with its own value, and no others are.
pub proof fn a_setting_is_told_where_it_differs(
    members: Seq<(Seq<char>, JsonModel)>,
    defaults: Seq<(Seq<char>, JsonModel)>,
    key: Seq<char>,
)
    requires
        forall|i: int| 0 <= i < members.len() ==> !((#[trigger] members[i]).1 is Object),
        forall|i: int, j: int|
            0 <= i < j < members.len() ==> (#[trigger] members[i]).0 != (#[trigger] members[j]).0,
    ensures
        ({
            let told = overrides_in(
                JsonModel::Object(members),
                JsonModel::Object(defaults),
                Seq::empty(),
                Map::empty(),
            );
            &&& told.contains_key(key) <==> exists|i: int|
                0 <= i < members.len() && (#[trigger] members[i]).0 == key && differs(
                    members[i].1,
                    key,
                    defaults,
                )
            &&& forall|i: int|
                0 <= i < members.len() && (#[trigger] members[i]).0 == key && differs(
                    members[i].1,
                    key,
                    defaults,
                ) ==> told[key] == members[i].1
        }),
{
    flat_settings_are_told(members, defaults, Map::empty(), key);
}

/// A setting below another is told under both keys, with a dot between them.
pub proof fn a_setting_below_another_has_a_dotted_key(
    outer: Seq<char>,
    inner: Seq<char>,
    value: JsonModel,
    default: JsonModel,
)
    requires
        outer.len() > 0,
        !(value is Object),
    ensures
        overrides_in(
            JsonModel::Object(seq![(outer, JsonModel::Object(seq![(inner, value)]))]),
            JsonModel::Object(seq![(outer, JsonModel::Object(seq![(inner, default)]))]),
            Seq::empty(),
            Map::empty(),
        ) == if same_json(value, default) {
            Map::empty()
        } else {
            Map::<Seq<char>, JsonModel>::empty().insert(outer.push('.') + inner, value)
        },
{
    reveal_strlit(".");
    reveal_with_fuel(overrides_in, 3);
    reveal_with_fuel(overrides_among, 3);
    let members = seq![(inner, value)];
    let below = seq![(inner, default)];
    let tops = seq![(outer, JsonModel::Object(members))];
    let bottoms = seq![(outer, JsonModel::Object(below))];
    member_position_is_first(bottoms, outer, 0);
    member_position_is_first(below, inner, 0);
    assert(bottoms[0].0 == outer);
    assert(below[0].0 == inner);
    assert(member_position(bottoms, outer, 0) == Some(0int));
    assert(member_position(below, inner, 0) == Some(0int));
    assert(outer + "."@ + inner =~= outer.push('.') + inner);
    assert(members.skip(1) =~= Seq::<(Seq<char>, JsonModel)>::empty());
    assert(tops.skip(1) =~= Seq::<(Seq<char>, JsonModel)>::empty());
    assert(dotted(Seq::empty(), outer) == outer);
    let inside = overrides_in(JsonModel::Object(members), JsonModel::Object(below), outer, Map::empty());
    assert(overrides_among(tops.skip(1), bottoms, Seq::empty(), inside) == inside);
    let leaf = overrides_in(value, default, outer + "."@ + inner, Map::empty());
    assert(overrides_among(members.skip(1), below, outer, leaf) == leaf);
    assert(inside == leaf);
}

} // verus!
