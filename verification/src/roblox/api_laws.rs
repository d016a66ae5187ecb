//! What holds of every answer about the Roblox API.
use vstd::prelude::*;
use super::api::{
    ancestry_of, ancestry_on, api_answer, capped, class_members, doc_at, doc_of, enum_items,
    inherited_from, inherited_members, link, matched_members, member_asked, member_group,
    member_model, parent_class, passes, passing_items, passing_members, prose, ranked, shadowed,
    summary, AnswerModel, ApiModel, ItemModel, MemberAnswerModel, QueryModel, RawDoc, SummaryModel,
};
use super::api_definitions::{
    declaring, looking_leaves_fewer, member_position, type_named, type_position, unseen,
    MemberKind, MemberModel, TypeModel,
};
use crate::picking::picks;
use crate::text::{ends_with, trimmed, without_prefix};

verus! {

// ---------------------------------------------------------------------------
// Classes

/// Whether a position is that of the class of a name: the first that has it.
pub open spec fn is_class(types: Seq<TypeModel>, name: Seq<char>, c: int) -> bool {
    &&& 0 <= c < types.len()
    &&& types[c].name == name
    &&& forall|j: int| 0 <= j < c ==> (#[trigger] types[j]).name != name
}

/// Whether a class has a member of a name.
pub open spec fn has_member(found: TypeModel, name: Seq<char>) -> bool {
    exists|j: int| 0 <= j < found.members.len() && (#[trigger] found.members[j]).name == name
}

/// Whether the class of one name extends another.
pub open spec fn extends_class(types: Seq<TypeModel>, name: Seq<char>, parent: Seq<char>) -> bool {
    exists|c: int| #[trigger] is_class(types, name, c) && types[c].extends == Some(parent)
}

/// Whether the class of a name has a member of another name.
pub open spec fn class_has(types: Seq<TypeModel>, class: Seq<char>, name: Seq<char>) -> bool {
    exists|c: int| #[trigger] is_class(types, class, c) && has_member(types[c], name)
}

proof fn the_first_of_a_name(types: Seq<TypeModel>, name: Seq<char>, from: int)
    requires
        0 <= from <= types.len(),
        forall|j: int| 0 <= j < from ==> (#[trigger] types[j]).name != name,
    ensures
        match type_position(types, name, from) {
            Some(c) => is_class(types, name, c),
            None => forall|j: int| 0 <= j < types.len() ==> (#[trigger] types[j]).name != name,
        },
    decreases types.len() - from,
{
    if from < types.len() && types[from].name != name {
        the_first_of_a_name(types, name, from + 1);
    }
}

/// A class is found by its name: the first that has it, and none where none has it.
pub proof fn a_class_is_found_by_its_name(types: Seq<TypeModel>, name: Seq<char>)
    ensures
        match type_named(types, name) {
            Some(found) => exists|c: int| #[trigger] is_class(types, name, c) && types[c] == found,
            None => forall|j: int| 0 <= j < types.len() ==> (#[trigger] types[j]).name != name,
        },
        forall|c: int| #[trigger] is_class(types, name, c) ==> type_named(types, name) == Some(types[c]),
{
    the_first_of_a_name(types, name, 0);
    assert forall|c: int| #[trigger] is_class(types, name, c) implies type_named(types, name) == Some(
        types[c],
    ) by {
        if let Some(d) = type_position(types, name, 0) {
            if c < d {
                assert(types[c].name != name);
            } else if d < c {
                assert(types[d].name != name);
            }
        } else {
            assert(types[c].name != name);
        }
    }
}

proof fn a_member_is_found(members: Seq<MemberModel>, name: Seq<char>, from: int)
    requires
        0 <= from <= members.len(),
    ensures
        match member_position(members, name, from) {
            Some(j) => from <= j < members.len() && members[j].name == name,
            None => forall|j: int|
                from <= j < members.len() ==> (#[trigger] members[j]).name != name,
        },
    decreases members.len() - from,
{
    if from < members.len() && members[from].name != name {
        a_member_is_found(members, name, from + 1);
    }
}

proof fn having_is_declaring(found: TypeModel, name: Seq<char>)
    ensures
        has_member(found, name) <==> member_position(found.members, name, 0) is Some,
{
    a_member_is_found(found.members, name, 0);
    if let Some(j) = member_position(found.members, name, 0) {
        assert(found.members[j].name == name);
    }
}

proof fn a_class_that_has_is_named(types: Seq<TypeModel>, class: Seq<char>, name: Seq<char>)
    ensures
        class_has(types, class, name) <==> (type_named(types, class) matches Some(found)
            && member_position(found.members, name, 0) is Some),
        forall|parent: Seq<char>|
            #[trigger] extends_class(types, class, parent) <==> parent_class(types, class) == Some(
                parent,
            ),
{
    a_class_is_found_by_its_name(types, class);
    if let Some(found) = type_named(types, class) {
        having_is_declaring(found, name);
        let c = choose|c: int| #[trigger] is_class(types, class, c) && types[c] == found;
        assert(is_class(types, class, c));
    }
}

// ---------------------------------------------------------------------------
// Ancestors

/// The name before position `k` of a chain that goes up from a class.
pub open spec fn below(name: Seq<char>, chain: Seq<Seq<char>>, k: int) -> Seq<char> {
    if k <= 0 {
        name
    } else {
        chain[k - 1]
    }
}

/// Whether a chain is that of the classes above a class: each extends the next, none comes twice, and it
/// goes on until a class extends none that is not in it.
pub open spec fn is_chain_above(types: Seq<TypeModel>, name: Seq<char>, chain: Seq<Seq<char>>) -> bool {
    &&& chain.no_duplicates()
    &&& forall|k: int|
        0 <= k < chain.len() ==> extends_class(types, below(name, chain, k), #[trigger] chain[k])
    &&& forall|parent: Seq<char>|
        #[trigger] extends_class(types, below(name, chain, chain.len() as int), parent)
            ==> chain.contains(parent)
}

/// Whether each class of a chain is the one that the class before it extends.
spec fn climbs(types: Seq<TypeModel>, name: Seq<char>, chain: Seq<Seq<char>>) -> bool {
    forall|k: int|
        0 <= k < chain.len() ==> extends_class(types, below(name, chain, k), #[trigger] chain[k])
}

proof fn one_more_above(
    types: Seq<TypeModel>,
    name: Seq<char>,
    chain: Seq<Seq<char>>,
    parent: Seq<char>,
)
    requires
        climbs(types, name, chain),
        chain.no_duplicates(),
        !chain.contains(parent),
        extends_class(types, below(name, chain, chain.len() as int), parent),
    ensures
        climbs(types, name, chain.push(parent)),
        chain.push(parent).no_duplicates(),
        below(name, chain.push(parent), chain.len() as int + 1) == parent,
{
    let longer = chain.push(parent);
    assert forall|k: int| 0 <= k < longer.len() implies extends_class(
        types,
        below(name, longer, k),
        #[trigger] longer[k],
    ) by {
        if k < chain.len() {
            assert(longer[k] == chain[k]);
            assert(below(name, longer, k) == below(name, chain, k));
        } else {
            assert(below(name, longer, k) == below(name, chain, chain.len() as int));
        }
    }
}

proof fn the_chain_goes_on(
    types: Seq<TypeModel>,
    name: Seq<char>,
    current: Option<Seq<char>>,
    chain: Seq<Seq<char>>,
)
    requires
        chain.no_duplicates(),
        climbs(types, name, chain),
        current == parent_class(types, below(name, chain, chain.len() as int)),
    ensures
        ancestry_on(types, current, chain).no_duplicates(),
        climbs(types, name, ancestry_on(types, current, chain)),
        match parent_class(
            types,
            below(
                name,
                ancestry_on(types, current, chain),
                ancestry_on(types, current, chain).len() as int,
            ),
        ) {
            Some(parent) => ancestry_on(types, current, chain).contains(parent),
            None => true,
        },
    decreases
            unseen(types, chain, types.len() as int),
            if current is Some {
                1int
            } else {
                0int
            },
{
    if let Some(parent) = current {
        if !chain.contains(parent) {
            let top = below(name, chain, chain.len() as int);
            assert(extends_class(types, top, parent)) by {
                a_class_that_has_is_named(types, top, name);
            }
            one_more_above(types, name, chain, parent);
            looking_leaves_fewer(types, chain, parent);
            the_chain_goes_on(types, name, parent_class(types, parent), chain.push(parent));
        }
    }
}

/// What a class inherits from is the chain of classes above it.
pub proof fn ancestors_are_the_classes_above(types: Seq<TypeModel>, name: Seq<char>)
    ensures
        is_chain_above(types, name, ancestry_of(types, name)),
{
    let chain = ancestry_of(types, name);
    the_chain_goes_on(types, name, parent_class(types, name), Seq::empty());
    a_class_that_has_is_named(types, below(name, chain, chain.len() as int), name);
}

// ---------------------------------------------------------------------------
// Members of a class

/// Whether a class itself, or the ancestor before position `level` of the chain above it, has a member of
/// a name.
pub open spec fn has_at(
    types: Seq<TypeModel>,
    found: TypeModel,
    chain: Seq<Seq<char>>,
    level: int,
    name: Seq<char>,
) -> bool {
    if level <= 0 {
        has_member(found, name)
    } else {
        class_has(types, chain[level - 1], name)
    }
}

/// Whether a listed member is told from a member of a class.
pub open spec fn tells_member(
    told: SummaryModel,
    docs: Map<Seq<char>, RawDoc>,
    owner: Seq<char>,
    member: MemberModel,
    with_docs: bool,
) -> bool {
    &&& told.name == member.name
    &&& told.kind == member.kind
    &&& told.declaration == member.declaration
    &&& told.deprecated == member.deprecated
    &&& told.deprecated_use == member.deprecated_use
    &&& told.documentation == prose(doc_of(docs, owner + "."@ + member.name), with_docs)
}

/// Whether a listed member is told from the class itself, or from an ancestor, which it then names.
pub open spec fn is_told_at(
    told: SummaryModel,
    docs: Map<Seq<char>, RawDoc>,
    types: Seq<TypeModel>,
    found: TypeModel,
    chain: Seq<Seq<char>>,
    level: int,
    with_docs: bool,
) -> bool {
    if level <= 0 {
        &&& told.inherited_from is None
        &&& exists|j: int|
            0 <= j < found.members.len() && tells_member(
                told,
                docs,
                found.name,
                #[trigger] found.members[j],
                with_docs,
            )
    } else {
        &&& told.inherited_from == Some(chain[level - 1])
        &&& exists|c: int, j: int|
            {
                &&& #[trigger] is_class(types, chain[level - 1], c)
                &&& 0 <= j < types[c].members.len()
                &&& tells_member(
                    told,
                    docs,
                    chain[level - 1],
                    #[trigger] types[c].members[j],
                    with_docs,
                )
            }
    }
}

/// Whether a listed member is told from the nearest class that has a member of its name.
pub open spec fn is_told_from_the_nearest(
    told: SummaryModel,
    docs: Map<Seq<char>, RawDoc>,
    types: Seq<TypeModel>,
    found: TypeModel,
    chain: Seq<Seq<char>>,
    levels: int,
    with_docs: bool,
) -> bool {
    exists|level: int|
        {
            &&& 0 <= level <= levels
            &&& #[trigger] is_told_at(told, docs, types, found, chain, level, with_docs)
            &&& forall|nearer: int|
                0 <= nearer < level ==> !#[trigger] has_at(types, found, chain, nearer, told.name)
        }
}

/// Whether a list holds a member of a name.
pub open spec fn lists(members: Seq<SummaryModel>, name: Seq<char>) -> bool {
    exists|k: int| 0 <= k < members.len() && (#[trigger] members[k]).name == name
}

/// Whether members are those of a class and of the first `levels` classes above it: each told from the
/// nearest class that has one of its name, and every name that one of them has.
pub open spec fn list_members(
    members: Seq<SummaryModel>,
    docs: Map<Seq<char>, RawDoc>,
    types: Seq<TypeModel>,
    found: TypeModel,
    chain: Seq<Seq<char>>,
    levels: int,
    with_docs: bool,
) -> bool {
    &&& forall|k: int|
        0 <= k < members.len() ==> is_told_from_the_nearest(
            #[trigger] members[k],
            docs,
            types,
            found,
            chain,
            levels,
            with_docs,
        )
    &&& forall|level: int, name: Seq<char>|
        0 <= level <= levels && #[trigger] has_at(types, found, chain, level, name) ==> lists(
            members,
            name,
        )
}

proof fn shadows_are_nearer(
    types: Seq<TypeModel>,
    found: TypeModel,
    chain: Seq<Seq<char>>,
    k: int,
    name: Seq<char>,
)
    requires
        0 <= k <= chain.len(),
    ensures
        shadowed(types, found, chain, k, name) <==> exists|level: int|
            0 <= level <= k && #[trigger] has_at(types, found, chain, level, name),
    decreases k,
{
    having_is_declaring(found, name);
    if k > 0 {
        shadows_are_nearer(types, found, chain, k - 1, name);
        a_class_that_has_is_named(types, chain[k - 1], name);
        if shadowed(types, found, chain, k - 1, name) {
            let level = choose|level: int|
                0 <= level <= k - 1 && #[trigger] has_at(types, found, chain, level, name);
            assert(0 <= level <= k && has_at(types, found, chain, level, name));
        } else if shadowed(types, found, chain, k, name) {
            assert(has_at(types, found, chain, k, name));
        }
        if exists|level: int| 0 <= level <= k && #[trigger] has_at(types, found, chain, level, name) {
            let level = choose|level: int|
                0 <= level <= k && #[trigger] has_at(types, found, chain, level, name);
            if level < k {
                assert(0 <= level <= k - 1 && has_at(types, found, chain, level, name));
            }
        }
    } else {
        if has_member(found, name) {
            assert(has_at(types, found, chain, 0, name));
        }
    }
}

proof fn one_ancestor_more(
    docs: Map<Seq<char>, RawDoc>,
    types: Seq<TypeModel>,
    found: TypeModel,
    chain: Seq<Seq<char>>,
    k: int,
    c: int,
    with_docs: bool,
    n: int,
)
    requires
        0 <= k < chain.len(),
        is_class(types, chain[k], c),
        0 <= n <= types[c].members.len(),
    ensures
        ({
            let added = inherited_from(
                docs,
                types,
                found,
                chain,
                k,
                types[c].members,
                with_docs,
                n,
            );
            &&& forall|i: int|
                0 <= i < added.len() ==> {
                    &&& is_told_at(
                        #[trigger] added[i],
                        docs,
                        types,
                        found,
                        chain,
                        k + 1,
                        with_docs,
                    )
                    &&& !shadowed(types, found, chain, k, added[i].name)
                }
            &&& forall|j: int|
                0 <= j < n && !shadowed(types, found, chain, k, types[c].members[j].name) ==> lists(
                    added,
                    (#[trigger] types[c].members[j]).name,
                )
        }),
    decreases n,
{
    if n > 0 {
        one_ancestor_more(docs, types, found, chain, k, c, with_docs, n - 1);
        let before = inherited_from(
            docs,
            types,
            found,
            chain,
            k,
            types[c].members,
            with_docs,
            n - 1,
        );
        let added = inherited_from(docs, types, found, chain, k, types[c].members, with_docs, n);
        let member = types[c].members[n - 1];
        assert forall|i: int| 0 <= i < added.len() implies is_told_at(
            #[trigger] added[i],
            docs,
            types,
            found,
            chain,
            k + 1,
            with_docs,
        ) && !shadowed(types, found, chain, k, added[i].name) by {
            if i < before.len() {
                assert(added[i] == before[i]);
            } else {
                assert(added[i] == summary(docs, member, Some(chain[k]), with_docs, chain[k]));
                assert(chain[k + 1 - 1] == chain[k]);
                assert(is_class(types, chain[k + 1 - 1], c) && tells_member(
                    added[i],
                    docs,
                    chain[k + 1 - 1],
                    types[c].members[n - 1],
                    with_docs,
                ));
            }
        }
        assert forall|j: int|
            0 <= j < n && !shadowed(types, found, chain, k, types[c].members[j].name) implies lists(
            added,
            (#[trigger] types[c].members[j]).name,
        ) by {
            if j < n - 1 {
                let i = choose|i: int|
                    0 <= i < before.len() && (#[trigger] before[i]).name == types[c].members[j].name;
                assert(added[i].name == types[c].members[j].name);
            } else {
                assert(added[before.len() as int].name == member.name);
            }
        }
    }
}

proof fn longer_lists_hold_more(a: Seq<SummaryModel>, b: Seq<SummaryModel>, name: Seq<char>)
    ensures
        lists(a, name) ==> lists(a + b, name),
        lists(b, name) ==> lists(a + b, name),
{
    if lists(a, name) {
        let k = choose|k: int| 0 <= k < a.len() && (#[trigger] a[k]).name == name;
        assert((a + b)[k].name == name);
    }
    if lists(b, name) {
        let k = choose|k: int| 0 <= k < b.len() && (#[trigger] b[k]).name == name;
        assert((a + b)[a.len() + k].name == name);
    }
}

proof fn own_and_inherited_are_listed(
    docs: Map<Seq<char>, RawDoc>,
    types: Seq<TypeModel>,
    found: TypeModel,
    chain: Seq<Seq<char>>,
    with_docs: bool,
    k: int,
)
    requires
        0 <= k <= chain.len(),
    ensures
        ({
            let own = found.members.map_values(
                |member: MemberModel| summary(docs, member, None, with_docs, found.name),
            );
            list_members(
                own + inherited_members(docs, types, found, chain, with_docs, k),
                docs,
                types,
                found,
                chain,
                k,
                with_docs,
            )
        }),
    decreases k,
{
    let own = found.members.map_values(
        |member: MemberModel| summary(docs, member, None, with_docs, found.name),
    );
    let all = own + inherited_members(docs, types, found, chain, with_docs, k);
    if k == 0 {
        assert forall|i: int| 0 <= i < all.len() implies is_told_from_the_nearest(
            #[trigger] all[i],
            docs,
            types,
            found,
            chain,
            0,
            with_docs,
        ) by {
            assert(tells_member(all[i], docs, found.name, found.members[i], with_docs));
            assert(is_told_at(all[i], docs, types, found, chain, 0, with_docs));
        }
        assert forall|level: int, name: Seq<char>|
            0 <= level <= 0 && #[trigger] has_at(types, found, chain, level, name) implies lists(
            all,
            name,
        ) by {
            let j = choose|j: int|
                0 <= j < found.members.len() && (#[trigger] found.members[j]).name == name;
            assert(all[j].name == name);
        }
    } else {
        own_and_inherited_are_listed(docs, types, found, chain, with_docs, k - 1);
        let before = own + inherited_members(docs, types, found, chain, with_docs, k - 1);
        a_class_is_found_by_its_name(types, chain[k - 1]);
        let added = match type_named(types, chain[k - 1]) {
            Some(parent) => inherited_from(
                docs,
                types,
                found,
                chain,
                k - 1,
                parent.members,
                with_docs,
                parent.members.len() as int,
            ),
            None => Seq::empty(),
        };
        assert(all =~= before + added);
        if let Some(parent) = type_named(types, chain[k - 1]) {
            let c = choose|c: int| #[trigger] is_class(types, chain[k - 1], c) && types[c] == parent;
            one_ancestor_more(
                docs,
                types,
                found,
                chain,
                k - 1,
                c,
                with_docs,
                parent.members.len() as int,
            );
        }
        assert forall|i: int| 0 <= i < all.len() implies is_told_from_the_nearest(
            #[trigger] all[i],
            docs,
            types,
            found,
            chain,
            k,
            with_docs,
        ) by {
            if i < before.len() {
                assert(all[i] == before[i]);
                let level = choose|level: int|
                    {
                        &&& 0 <= level <= k - 1
                        &&& #[trigger] is_told_at(
                            before[i],
                            docs,
                            types,
                            found,
                            chain,
                            level,
                            with_docs,
                        )
                        &&& forall|nearer: int|
                            0 <= nearer < level ==> !#[trigger] has_at(
                                types,
                                found,
                                chain,
                                nearer,
                                before[i].name,
                            )
                    };
                assert(is_told_at(all[i], docs, types, found, chain, level, with_docs));
            } else {
                assert(all[i] == added[i - before.len()]);
                shadows_are_nearer(types, found, chain, k - 1, all[i].name);
                assert(is_told_at(all[i], docs, types, found, chain, k, with_docs));
            }
        }
        assert forall|level: int, name: Seq<char>|
            0 <= level <= k && #[trigger] has_at(types, found, chain, level, name) implies lists(
            all,
            name,
        ) by {
            longer_lists_hold_more(before, added, name);
            if level < k {
                assert(lists(before, name));
            } else if exists|nearer: int|
                0 <= nearer <= k - 1 && #[trigger] has_at(types, found, chain, nearer, name) {
                let nearer = choose|nearer: int|
                    0 <= nearer <= k - 1 && #[trigger] has_at(types, found, chain, nearer, name);
                assert(lists(before, name));
            } else {
                shadows_are_nearer(types, found, chain, k - 1, name);
                let c = choose|c: int|
                    #[trigger] is_class(types, chain[k - 1], c) && has_member(types[c], name);
                let j = choose|j: int|
                    0 <= j < types[c].members.len() && (#[trigger] types[c].members[j]).name == name;
                assert(types[c].members[j].name == name);
                assert(lists(added, name));
            }
        }
    }
}

/// The members of a class: where inherited ones are asked for, every name that the class or any class
/// above it has, told from the nearest that has it and named as coming from there; where they are not, the
/// class's own alone. Its own come first, in the order they are declared in.
pub proof fn members_come_from_the_nearest_class(
    docs: Map<Seq<char>, RawDoc>,
    types: Seq<TypeModel>,
    found: TypeModel,
    with_docs: bool,
)
    ensures
        is_chain_above(types, found.name, ancestry_of(types, found.name)),
        list_members(
            class_members(docs, types, found, true, with_docs),
            docs,
            types,
            found,
            ancestry_of(types, found.name),
            ancestry_of(types, found.name).len() as int,
            with_docs,
        ),
        list_members(
            class_members(docs, types, found, false, with_docs),
            docs,
            types,
            found,
            ancestry_of(types, found.name),
            0,
            with_docs,
        ),
        class_members(docs, types, found, false, with_docs).len() == found.members.len(),
        forall|inherited: bool, j: int|
            0 <= j < found.members.len() ==> {
                let told = #[trigger] class_members(docs, types, found, inherited, with_docs)[j];
                &&& j < class_members(docs, types, found, inherited, with_docs).len()
                &&& told.inherited_from is None
                &&& tells_member(told, docs, found.name, found.members[j], with_docs)
            },
{
    let chain = ancestry_of(types, found.name);
    ancestors_are_the_classes_above(types, found.name);
    own_and_inherited_are_listed(docs, types, found, chain, with_docs, chain.len() as int);
    own_and_inherited_are_listed(docs, types, found, chain, with_docs, 0);
    let own = found.members.map_values(
        |member: MemberModel| summary(docs, member, None, with_docs, found.name),
    );
    assert(class_members(docs, types, found, false, with_docs) =~= own + inherited_members(
        docs,
        types,
        found,
        chain,
        with_docs,
        0,
    ));
}

// ---------------------------------------------------------------------------
// Filters and caps

/// A filter keeps exactly the members whose names hold it, whatever the case of either, in their order.
pub proof fn a_filter_keeps_what_passes(members: Seq<SummaryModel>, filter: Seq<char>, n: int) -> (at:
    Seq<int>)
    requires
        0 <= n <= members.len(),
    ensures
        picks(at, members, passing_members(members, filter, n)),
        forall|i: int|
            #[trigger] at.contains(i) <==> 0 <= i < n && passes(members[i].name, filter),
    decreases n,
{
    if n == 0 {
        Seq::empty()
    } else {
        let had = a_filter_keeps_what_passes(members, filter, n - 1);
        if passes(members[n - 1].name, filter) {
            let at = had.push(n - 1);
            assert forall|i: int| #[trigger] at.contains(i) <==> 0 <= i < n && passes(
                members[i].name,
                filter,
            ) by {
                if 0 <= i < n - 1 && passes(members[i].name, filter) {
                    assert(had.contains(i));
                    let k = choose|k: int| 0 <= k < had.len() && had[k] == i;
                    assert(at[k] == i);
                }
                if i == n - 1 {
                    assert(at[had.len() as int] == i);
                }
                if at.contains(i) && i != n - 1 {
                    let k = choose|k: int| 0 <= k < at.len() && at[k] == i;
                    assert(had[k] == i);
                    assert(had.contains(i));
                }
            }
            assert forall|j: int, k: int| 0 <= j < k < at.len() implies at[j] < at[k] by {
                if k == had.len() {
                    assert(had.contains(had[j]));
                }
            }
            at
        } else {
            had
        }
    }
}

proof fn a_group_picks(
    members: Seq<SummaryModel>,
    inherited: bool,
    deprecated: bool,
    n: int,
) -> (at: Seq<int>)
    requires
        0 <= n <= members.len(),
    ensures
        picks(at, members, member_group(members, inherited, deprecated, n)),
        forall|i: int|
            #[trigger] at.contains(i) <==> 0 <= i < n && (members[i].inherited_from is Some)
                == inherited && members[i].deprecated == deprecated,
    decreases n,
{
    if n == 0 {
        Seq::empty()
    } else {
        let had = a_group_picks(members, inherited, deprecated, n - 1);
        let last = members[n - 1];
        if (last.inherited_from is Some) == inherited && last.deprecated == deprecated {
            let at = had.push(n - 1);
            assert forall|i: int| #[trigger] at.contains(i) <==> 0 <= i < n && (
            members[i].inherited_from is Some) == inherited && members[i].deprecated
                == deprecated by {
                if 0 <= i < n - 1 && (members[i].inherited_from is Some) == inherited
                    && members[i].deprecated == deprecated {
                    assert(had.contains(i));
                    let k = choose|k: int| 0 <= k < had.len() && had[k] == i;
                    assert(at[k] == i);
                }
                if i == n - 1 {
                    assert(at[had.len() as int] == i);
                }
                if at.contains(i) && i != n - 1 {
                    let k = choose|k: int| 0 <= k < at.len() && at[k] == i;
                    assert(had[k] == i);
                    assert(had.contains(i));
                }
            }
            assert forall|j: int, k: int| 0 <= j < k < at.len() implies at[j] < at[k] by {
                if k == had.len() {
                    assert(had.contains(had[j]));
                }
            }
            at
        } else {
            had
        }
    }
}

/// What is ranked is what there was, each member once.
pub proof fn ranking_loses_nothing(members: Seq<SummaryModel>) -> (at: Seq<int>)
    ensures
        at.len() == ranked(members).len() == members.len(),
        at.no_duplicates(),
        forall|k: int|
            0 <= k < at.len() ==> 0 <= #[trigger] at[k] < members.len() && ranked(members)[k]
                == members[at[k]],
{
    let n = members.len() as int;
    let a = a_group_picks(members, false, false, n);
    let b = a_group_picks(members, false, true, n);
    let c = a_group_picks(members, true, false, n);
    let d = a_group_picks(members, true, true, n);
    let at = a + b + c + d;
    super::api::group_sizes(members, n);
    assert forall|k: int| 0 <= k < at.len() implies 0 <= #[trigger] at[k] < members.len() && ranked(
        members,
    )[k] == members[at[k]] by {
        if k < a.len() {
            assert(at[k] == a[k]);
        } else if k < a.len() + b.len() {
            assert(at[k] == b[k - a.len()]);
        } else if k < a.len() + b.len() + c.len() {
            assert(at[k] == c[k - a.len() - b.len()]);
        } else {
            assert(at[k] == d[k - a.len() - b.len() - c.len()]);
        }
    }
    assert forall|j: int, k: int| 0 <= j < at.len() && 0 <= k < at.len() && j != k implies at[j]
        != at[k] by {
        which_group(a, b, c, d, j);
        which_group(a, b, c, d, k);
    }
    at
}

proof fn which_group(a: Seq<int>, b: Seq<int>, c: Seq<int>, d: Seq<int>, k: int)
    requires
        0 <= k < (a + b + c + d).len(),
    ensures
        ({
            let x = (a + b + c + d)[k];
            if k < a.len() {
                a.contains(x) && x == a[k]
            } else if k < a.len() + b.len() {
                b.contains(x) && x == b[k - a.len()]
            } else if k < a.len() + b.len() + c.len() {
                c.contains(x) && x == c[k - a.len() - b.len()]
            } else {
                d.contains(x) && x == d[k - a.len() - b.len() - c.len()]
            }
        }),
{
    if k < a.len() {
        assert((a + b + c + d)[k] == a[k]);
    } else if k < a.len() + b.len() {
        assert((a + b + c + d)[k] == b[k - a.len()]);
    } else if k < a.len() + b.len() + c.len() {
        assert((a + b + c + d)[k] == c[k - a.len() - b.len()]);
    } else {
        assert((a + b + c + d)[k] == d[k - a.len() - b.len() - c.len()]);
    }
}

/// Whether members are what a question asks for of those of a class and of the first `levels` classes
/// above it.
pub open spec fn are_members_asked(
    members: Seq<SummaryModel>,
    api: ApiModel,
    found: TypeModel,
    chain: Seq<Seq<char>>,
    levels: int,
    query: QueryModel,
) -> bool {
    exists|all: Seq<SummaryModel>|
        {
            &&& #[trigger] list_members(
                all,
                api.docs,
                api.types,
                found,
                chain,
                levels,
                query.include_documentation,
            )
            &&& query.member_filter is None && all.len() <= query.max_members ==> members == all
            &&& is_kept_of(members, all, query.member_filter, query.max_members)
        }
}

/// A question that is the name of a class, and does not start with `Enum.`, is answered with that class:
/// its name, what it extends and inherits from, whether it is a service and can be created, and its
/// members. Without a filter, and with room for all, these are the members of the class, inherited ones
/// where they are asked for; with a filter those that pass; and with less room as many as there is room
/// for, out of these.
pub proof fn a_class_is_answered_with_its_members(api: ApiModel, query: QueryModel, c: int)
    requires
        is_class(api.types, trimmed(query.query), c),
        trimmed(query.query).len() > 0,
        without_prefix(trimmed(query.query), "Enum."@) is None,
        0 <= query.max_members,
    ensures
        api_answer(api, query) matches Ok(AnswerModel::Class(answer)) && {
            let found = api.types[c];
            let chain = answer.inherits;
            &&& answer.name == found.name
            &&& answer.extends == found.extends
            &&& is_chain_above(api.types, found.name, chain)
            &&& answer.is_service <==> api.services.contains(found.name)
            &&& answer.creatable <==> api.creatable.contains(found.name)
            &&& answer.documentation == prose(
                doc_of(api.docs, found.name),
                query.include_documentation,
            )
            &&& answer.learn_more_link == link(doc_of(api.docs, found.name))
            &&& answer.returned_count == answer.members.len()
            &&& are_members_asked(
                answer.members,
                api,
                found,
                chain,
                if query.include_inherited {
                    chain.len() as int
                } else {
                    0
                },
                query,
            )
        },
{
    let found = api.types[c];
    a_class_is_found_by_its_name(api.types, trimmed(query.query));
    members_come_from_the_nearest_class(
        api.docs,
        api.types,
        found,
        query.include_documentation,
    );
    let all = class_members(
        api.docs,
        api.types,
        found,
        query.include_inherited,
        query.include_documentation,
    );
    let chain = ancestry_of(api.types, found.name);
    let levels = if query.include_inherited {
        chain.len() as int
    } else {
        0
    };
    assert(list_members(
        all,
        api.docs,
        api.types,
        found,
        chain,
        levels,
        query.include_documentation,
    ));
    what_is_kept_passes(all, query.member_filter, query.max_members);
}

/// Whether members are what a filter and a cap keep of all: each is one of them that passes, no two are
/// the same one, and unless the cap is reached none that passes is missing.
pub open spec fn is_kept_of(
    kept: Seq<SummaryModel>,
    all: Seq<SummaryModel>,
    filter: Option<Seq<char>>,
    cap: int,
) -> bool {
    &&& kept.len() <= cap
    &&& exists|at: Seq<int>| #[trigger] is_kept_at(kept, all, filter, cap, at)
}

pub open spec fn is_kept_at(
    kept: Seq<SummaryModel>,
    all: Seq<SummaryModel>,
    filter: Option<Seq<char>>,
    cap: int,
    at: Seq<int>,
) -> bool {
    &&& at.len() == kept.len()
    &&& at.no_duplicates()
    &&& forall|k: int|
        0 <= k < at.len() ==> {
            &&& 0 <= #[trigger] at[k] < all.len()
            &&& kept[k] == all[at[k]]
            &&& filter matches Some(needle) ==> passes(all[at[k]].name, needle)
        }
    &&& kept.len() < cap ==> forall|i: int|
        0 <= i < all.len() && (filter matches Some(needle) ==> passes(all[i].name, needle))
            ==> #[trigger] at.contains(i)
}

proof fn what_is_kept_passes(all: Seq<SummaryModel>, filter: Option<Seq<char>>, cap: int)
    requires
        0 <= cap,
    ensures
        is_kept_of(capped(matched_members(all, filter), cap), all, filter, cap),
{
    let matched = matched_members(all, filter);
    let first: Seq<int> = match filter {
        Some(needle) => a_filter_keeps_what_passes(all, needle, all.len() as int),
        None => Seq::new(all.len(), |i: int| i),
    };
    assert forall|i: int|
        #[trigger] first.contains(i) <==> 0 <= i < all.len() && (filter matches Some(needle) ==> passes(
            all[i].name,
            needle,
        )) by {
        if filter is None && 0 <= i < all.len() {
            assert(first[i] == i);
        }
    }
    let kept = capped(matched, cap);
    if matched.len() > cap {
        let order = ranking_loses_nothing(matched);
        let at = Seq::new(cap as nat, |k: int| first[order[k]]);
        assert forall|k: int| 0 <= k < at.len() implies {
            &&& 0 <= #[trigger] at[k] < all.len()
            &&& kept[k] == all[at[k]]
            &&& filter matches Some(needle) ==> passes(all[at[k]].name, needle)
        } by {
            assert(0 <= order[k] < matched.len());
            assert(first.contains(first[order[k]]));
        }
        assert forall|j: int, k: int| 0 <= j < at.len() && 0 <= k < at.len() && j != k implies at[j]
            != at[k] by {
            assert(order[j] != order[k]);
            assert(0 <= order[j] < matched.len() && 0 <= order[k] < matched.len());
        }
        assert(is_kept_at(kept, all, filter, cap, at));
    } else {
        assert forall|k: int| 0 <= k < first.len() implies {
            &&& 0 <= #[trigger] first[k] < all.len()
            &&& kept[k] == all[first[k]]
            &&& filter matches Some(needle) ==> passes(all[first[k]].name, needle)
        } by {
            assert(first.contains(first[k]));
        }
        assert(is_kept_at(kept, all, filter, cap, first));
    }
}

// ---------------------------------------------------------------------------
// One member

/// Whether names lead up from a class: each class extends the next.
pub open spec fn is_way_up(types: Seq<TypeModel>, way: Seq<Seq<char>>) -> bool {
    &&& way.len() > 0
    &&& forall|k: int|
        0 <= k < way.len() - 1 ==> extends_class(types, #[trigger] way[k], way[k + 1])
}

proof fn a_holder_is_up_the_way(
    types: Seq<TypeModel>,
    class: Seq<char>,
    name: Seq<char>,
    seen: Seq<Seq<char>>,
) -> (way: Seq<Seq<char>>)
    requires
        declaring(types, class, name, seen) is Some,
    ensures
        is_way_up(types, way),
        way[0] == class,
        Some(way.last()) == declaring(types, class, name, seen),
        class_has(types, way.last(), name),
        forall|k: int| 0 <= k < way.len() - 1 ==> !class_has(types, #[trigger] way[k], name),
    decreases unseen(types, seen, types.len() as int),
{
    a_class_that_has_is_named(types, class, name);
    let found = type_named(types, class)->0;
    if member_position(found.members, name, 0) is Some {
        seq![class]
    } else {
        let parent = found.extends->0;
        looking_leaves_fewer(types, seen, class);
        let rest = a_holder_is_up_the_way(types, parent, name, seen.push(class));
        let way = seq![class] + rest;
        assert(extends_class(types, class, parent));
        assert forall|k: int| 0 <= k < way.len() - 1 implies extends_class(
            types,
            #[trigger] way[k],
            way[k + 1],
        ) && !class_has(types, way[k], name) by {
            if k > 0 {
                assert(way[k] == rest[k - 1]);
                assert(way[k + 1] == rest[k]);
            } else {
                assert(way[1] == rest[0]);
            }
        }
        assert(way.last() == rest.last());
        way
    }
}

/// Whether none of the classes seen has a member, and each extends only classes seen or the next one.
spec fn searched(
    types: Seq<TypeModel>,
    seen: Seq<Seq<char>>,
    name: Seq<char>,
    next: Option<Seq<char>>,
) -> bool {
    forall|class: Seq<char>|
        #[trigger] seen.contains(class) ==> !class_has(types, class, name) && forall|
            parent: Seq<char>,
        | #[trigger]
            extends_class(types, class, parent) ==> seen.contains(parent) || Some(parent) == next
}

proof fn a_vain_search_has_seen_all(
    types: Seq<TypeModel>,
    class: Seq<char>,
    name: Seq<char>,
    seen: Seq<Seq<char>>,
) -> (all: Seq<Seq<char>>)
    requires
        declaring(types, class, name, seen) is None,
        searched(types, seen, name, Some(class)),
    ensures
        all.contains(class),
        forall|x: Seq<char>| #[trigger] seen.contains(x) ==> all.contains(x),
        searched(types, all, name, None),
    decreases unseen(types, seen, types.len() as int),
{
    if seen.contains(class) {
        seen
    } else {
        a_class_that_has_is_named(types, class, name);
        let longer = seen.push(class);
        let up = parent_class(types, class);
        assert forall|x: Seq<char>| #[trigger] longer.contains(x) <==> seen.contains(x) || x
            == class by {
            pushed_is_held(seen, class, x);
        }
        assert forall|x: Seq<char>| #[trigger] longer.contains(x) implies !class_has(types, x, name)
            && forall|parent: Seq<char>| #[trigger]
            extends_class(types, x, parent) ==> longer.contains(parent) || Some(parent) == up by {
            if x == class {
            } else {
                assert(seen.contains(x));
                assert forall|parent: Seq<char>| #[trigger]
                    extends_class(types, x, parent) implies longer.contains(parent) || Some(parent)
                    == up by {
                    assert(seen.contains(parent) || parent == class);
                }
            }
        }
        match up {
            None => {
                assert forall|x: Seq<char>| #[trigger] seen.contains(x) implies longer.contains(x) by {
                    pushed_is_held(seen, class, x);
                }
                longer
            },
            Some(parent) => {
                looking_leaves_fewer(types, seen, class);
                let all = a_vain_search_has_seen_all(types, parent, name, longer);
                assert(longer.contains(class));
                assert forall|x: Seq<char>| #[trigger] seen.contains(x) implies all.contains(x) by {
                    assert(longer.contains(x));
                }
                all
            },
        }
    }
}

proof fn pushed_is_held(seen: Seq<Seq<char>>, class: Seq<char>, x: Seq<char>)
    ensures
        seen.push(class).contains(x) <==> seen.contains(x) || x == class,
{
    let longer = seen.push(class);
    if seen.contains(x) {
        let k = choose|k: int| 0 <= k < seen.len() && seen[k] == x;
        assert(longer[k] == x);
    }
    if x == class {
        assert(longer[seen.len() as int] == x);
    }
    if longer.contains(x) && x != class {
        let k = choose|k: int| 0 <= k < longer.len() && longer[k] == x;
        assert(seen[k] == x);
    }
}

proof fn a_way_stays_in_what_was_seen(
    types: Seq<TypeModel>,
    all: Seq<Seq<char>>,
    name: Seq<char>,
    way: Seq<Seq<char>>,
    k: int,
)
    requires
        searched(types, all, name, None),
        is_way_up(types, way),
        all.contains(way[0]),
        0 <= k < way.len(),
    ensures
        all.contains(way[k]),
        !class_has(types, way[k], name),
    decreases k,
{
    if k > 0 {
        a_way_stays_in_what_was_seen(types, all, name, way, k - 1);
        assert(extends_class(types, way[k - 1], way[k - 1 + 1]));
    }
}

/// The last of the partings before `to`, where there is none at `at` or behind it but that at `at`.
proof fn the_last_parting_is_found(s: Seq<char>, at: int, to: int)
    requires
        0 <= at < to <= s.len(),
        s[at] == ':' || s[at] == '.',
        forall|k: int| at < k < s.len() ==> #[trigger] s[k] != ':' && s[k] != '.',
    ensures
        super::api_definitions::last_parting(s, to) == Some(at),
    decreases to,
{
    if to - 1 > at {
        assert(s[to - 1] != ':' && s[to - 1] != '.');
        the_last_parting_is_found(s, at, to - 1);
    }
}

/// Whether an answer tells a member of a class: the first of its name, with what is documented of it.
pub open spec fn tells_the_member(
    answer: MemberAnswerModel,
    api: ApiModel,
    holder: Seq<char>,
    name: Seq<char>,
) -> bool {
    exists|c: int, j: int|
        {
            &&& #[trigger] is_class(api.types, holder, c)
            &&& 0 <= j < api.types[c].members.len()
            &&& (#[trigger] api.types[c].members[j]).name == name
            &&& answer.name == name
            &&& answer.member_kind == api.types[c].members[j].kind
            &&& answer.declaration == api.types[c].members[j].declaration
            &&& answer.deprecated == api.types[c].members[j].deprecated
            &&& answer.deprecated_use == api.types[c].members[j].deprecated_use
            &&& answer.documentation == prose(doc_of(api.docs, holder + "."@ + name), true)
            &&& answer.learn_more_link == link(doc_of(api.docs, holder + "."@ + name))
        }
}

/// Whether an answer tells the member that a class has from the nearest class up from it.
pub open spec fn tells_the_nearest(
    answer: MemberAnswerModel,
    api: ApiModel,
    class: Seq<char>,
    name: Seq<char>,
) -> bool {
    exists|way: Seq<Seq<char>>|
        {
            &&& #[trigger] is_way_up(api.types, way)
            &&& way[0] == class
            &&& tells_the_member(answer, api, way.last(), name)
            &&& forall|k: int|
                0 <= k < way.len() - 1 ==> !class_has(api.types, #[trigger] way[k], name)
            &&& answer.class == class
            &&& answer.declared_by == (if way.len() > 1 {
                Some(way.last())
            } else {
                None
            })
        }
}

/// Whether no class up from a class has a member.
pub open spec fn none_up_has(types: Seq<TypeModel>, class: Seq<char>, name: Seq<char>) -> bool {
    forall|way: Seq<Seq<char>>| #[trigger]
        is_way_up(types, way) && way[0] == class ==> !class_has(types, way.last(), name)
}

/// A question that names a class and a member, parted by a colon or a dot, is answered with the member as
/// the nearest class up from it declares it, that class named where it is another; where none declares it,
/// the question is refused.
pub proof fn a_member_is_told_from_the_nearest_class(
    api: ApiModel,
    query: QueryModel,
    class: Seq<char>,
    parting: char,
    name: Seq<char>,
    c: int,
)
    requires
        is_class(api.types, class, c),
        class.len() > 0,
        name.len() > 0,
        parting == ':' || parting == '.',
        forall|k: int| 0 <= k < name.len() ==> #[trigger] name[k] != ':' && name[k] != '.',
        trimmed(query.query) == class.push(parting) + name,
        without_prefix(trimmed(query.query), "Enum."@) is None,
        forall|j: int|
            0 <= j < api.types.len() ==> (#[trigger] api.types[j]).name != trimmed(query.query),
    ensures
        match api_answer(api, query) {
            Ok(AnswerModel::Member(answer)) => tells_the_nearest(answer, api, class, name),
            Ok(_) => false,
            Err(_) => none_up_has(api.types, class, name),
        },
{
    let asked = trimmed(query.query);
    let at = class.len() as int;
    assert forall|k: int| at < k < asked.len() implies #[trigger] asked[k] != ':' && asked[k] != '.' by {
        assert(asked[k] == name[k - at - 1]);
    }
    assert(asked[at] == parting);
    the_last_parting_is_found(asked, at, asked.len() as int);
    assert(asked.take(at) =~= class);
    assert(asked.skip(at + 1) =~= name);
    a_class_is_found_by_its_name(api.types, asked);
    a_class_is_found_by_its_name(api.types, class);
    let owner = api.types[c];
    assert(member_asked(api, asked) == member_model(api, owner, name));
    match declaring(api.types, class, name, Seq::empty()) {
        Some(holder) => {
            let way = a_holder_is_up_the_way(api.types, class, name, Seq::empty());
            let answer = member_model(api, owner, name)->0;
            a_class_that_has_is_named(api.types, holder, name);
            a_class_is_found_by_its_name(api.types, holder);
            let found = type_named(api.types, holder)->0;
            let h = choose|h: int| #[trigger] is_class(api.types, holder, h) && api.types[h] == found;
            a_member_is_found(found.members, name, 0);
            let j = member_position(found.members, name, 0)->0;
            assert(is_class(api.types, holder, h) && api.types[h].members[j].name == name);
            assert(tells_the_member(answer, api, holder, name));
            if way.len() > 1 {
                assert(!class_has(api.types, way[0], name));
            }
            assert(tells_the_nearest(answer, api, class, name));
        },
        None => {
            let all = a_vain_search_has_seen_all(api.types, class, name, Seq::empty());
            assert forall|way: Seq<Seq<char>>| #[trigger]
                is_way_up(api.types, way) && way[0] == class implies !class_has(
                api.types,
                way.last(),
                name,
            ) by {
                a_way_stays_in_what_was_seen(api.types, all, name, way, way.len() - 1);
            }
        },
    }
}

// ---------------------------------------------------------------------------
// Enums

/// Whether a member of the class that holds an enum's items is an item of it.
pub open spec fn is_item(member: MemberModel, name: Seq<char>) -> bool {
    member.kind == MemberKind::Property && ends_with(member.declaration, "Enum"@ + name)
}

/// Whether an item is told from a member.
pub open spec fn tells_item(
    item: ItemModel,
    docs: Map<Seq<char>, RawDoc>,
    name: Seq<char>,
    member: MemberModel,
    with_docs: bool,
) -> bool {
    let doc = doc_at(docs, "@roblox/enum/"@ + name + "."@ + member.name);
    &&& item.name == member.name
    &&& item.documentation == prose(doc, with_docs)
    &&& item.learn_more_link == link(doc)
}

/// Whether positions pick the items of an enum that pass a filter out of the members of a class.
pub open spec fn picks_items(
    at: Seq<int>,
    items: Seq<ItemModel>,
    docs: Map<Seq<char>, RawDoc>,
    name: Seq<char>,
    members: Seq<MemberModel>,
    with_docs: bool,
    filter: Option<Seq<char>>,
) -> bool {
    &&& at.len() == items.len()
    &&& forall|k: int|
        0 <= k < at.len() ==> {
            &&& 0 <= #[trigger] at[k] < members.len()
            &&& is_item(members[at[k]], name)
            &&& filter matches Some(needle) ==> passes(members[at[k]].name, needle)
            &&& tells_item(items[k], docs, name, members[at[k]], with_docs)
        }
    &&& forall|j: int, k: int| 0 <= j < k < at.len() ==> at[j] < at[k]
}

/// Whether items are those of an enum that pass a filter, in their order, as many as there is room for.
pub open spec fn are_items_of(
    items: Seq<ItemModel>,
    docs: Map<Seq<char>, RawDoc>,
    name: Seq<char>,
    members: Seq<MemberModel>,
    with_docs: bool,
    filter: Option<Seq<char>>,
    room: int,
) -> bool {
    &&& items.len() <= room
    &&& exists|at: Seq<int>|
        {
            &&& #[trigger] picks_items(at, items, docs, name, members, with_docs, filter)
            &&& items.len() < room ==> forall|i: int|
                0 <= i < members.len() && is_item(members[i], name) && (filter matches Some(needle)
                    ==> passes(members[i].name, needle)) ==> #[trigger] at.contains(i)
        }
}

proof fn items_are_picked(
    docs: Map<Seq<char>, RawDoc>,
    name: Seq<char>,
    members: Seq<MemberModel>,
    with_docs: bool,
    n: int,
) -> (at: Seq<int>)
    requires
        0 <= n <= members.len(),
    ensures
        picks_items(
            at,
            enum_items(docs, name, members, with_docs, n),
            docs,
            name,
            members,
            with_docs,
            None,
        ),
        forall|i: int| #[trigger] at.contains(i) <==> 0 <= i < n && is_item(members[i], name),
    decreases n,
{
    if n == 0 {
        Seq::empty()
    } else {
        let had = items_are_picked(docs, name, members, with_docs, n - 1);
        if is_item(members[n - 1], name) {
            let at = had.push(n - 1);
            assert forall|i: int| #[trigger] at.contains(i) <==> 0 <= i < n && is_item(
                members[i],
                name,
            ) by {
                if 0 <= i < n - 1 && is_item(members[i], name) {
                    assert(had.contains(i));
                    let k = choose|k: int| 0 <= k < had.len() && had[k] == i;
                    assert(at[k] == i);
                }
                if i == n - 1 {
                    assert(at[had.len() as int] == i);
                }
                if at.contains(i) && i != n - 1 {
                    let k = choose|k: int| 0 <= k < at.len() && at[k] == i;
                    assert(had[k] == i);
                    assert(had.contains(i));
                }
            }
            assert forall|j: int, k: int| 0 <= j < k < at.len() implies at[j] < at[k] by {
                if k == had.len() {
                    assert(had.contains(had[j]));
                }
            }
            at
        } else {
            had
        }
    }
}

proof fn an_item_filter_keeps_what_passes(items: Seq<ItemModel>, filter: Seq<char>, n: int) -> (at: Seq<
    int,
>)
    requires
        0 <= n <= items.len(),
    ensures
        picks(at, items, passing_items(items, filter, n)),
        forall|i: int| #[trigger] at.contains(i) <==> 0 <= i < n && passes(items[i].name, filter),
    decreases n,
{
    if n == 0 {
        Seq::empty()
    } else {
        let had = an_item_filter_keeps_what_passes(items, filter, n - 1);
        if passes(items[n - 1].name, filter) {
            let at = had.push(n - 1);
            assert forall|i: int| #[trigger] at.contains(i) <==> 0 <= i < n && passes(
                items[i].name,
                filter,
            ) by {
                if 0 <= i < n - 1 && passes(items[i].name, filter) {
                    assert(had.contains(i));
                    let k = choose|k: int| 0 <= k < had.len() && had[k] == i;
                    assert(at[k] == i);
                }
                if i == n - 1 {
                    assert(at[had.len() as int] == i);
                }
                if at.contains(i) && i != n - 1 {
                    let k = choose|k: int| 0 <= k < at.len() && at[k] == i;
                    assert(had[k] == i);
                    assert(had.contains(i));
                }
            }
            assert forall|j: int, k: int| 0 <= j < k < at.len() implies at[j] < at[k] by {
                if k == had.len() {
                    assert(had.contains(had[j]));
                }
            }
            at
        } else {
            had
        }
    }
}

/// A question about an enum, or an item of one, is answered with the items its class holds: the
/// properties whose type is the enum, in their order, those that pass the item's name or else the filter,
/// as many as there is room for. Where no class holds the enum, the question is refused.
pub proof fn an_enum_is_answered_with_its_items(
    api: ApiModel,
    query: QueryModel,
    name: Seq<char>,
    item: Option<Seq<char>>,
)
    requires
        forall|k: int| 0 <= k < name.len() ==> #[trigger] name[k] != '.',
        trimmed(query.query) == "Enum."@ + name + (match item {
            Some(one) => "."@ + one,
            None => Seq::empty(),
        }),
        0 <= query.max_members,
    ensures
        match api_answer(api, query) {
            Ok(AnswerModel::Enum(answer)) => {
                &&& answer.name == "Enum."@ + name
                &&& answer.item_count == answer.items.len()
                &&& exists|c: int|
                    #[trigger] is_class(api.types, "Enum"@ + name + "_INTERNAL"@, c) && are_items_of(
                        answer.items,
                        api.docs,
                        name,
                        api.types[c].members,
                        query.include_documentation,
                        match item {
                            Some(one) => Some(one),
                            None => query.member_filter,
                        },
                        query.max_members,
                    )
            },
            Ok(_) => false,
            Err(_) => forall|j: int|
                0 <= j < api.types.len() ==> (#[trigger] api.types[j]).name != "Enum"@ + name
                    + "_INTERNAL"@,
        },
{
    reveal_strlit("Enum.");
    reveal_strlit(".");
    let asked = trimmed(query.query);
    let rest = name + (match item {
        Some(one) => "."@ + one,
        None => Seq::empty(),
    });
    assert(asked =~= "Enum."@ + rest);
    assert(asked.subrange(0, 5) =~= "Enum."@);
    assert(asked.subrange(5, asked.len() as int) =~= rest);
    crate::text_laws::a_prefix_comes_off("Enum."@, rest);
    match item {
        Some(one) => {
            crate::text_laws::a_text_is_split_at_the_first(name, '.', one);
            assert(rest =~= name.push('.') + one);
        },
        None => {
            assert(rest =~= name);
            crate::text_laws::a_text_without_it_is_not_split(name, '.');
        },
    }
    let container = "Enum"@ + name + "_INTERNAL"@;
    a_class_is_found_by_its_name(api.types, container);
    let filter = match item {
        Some(one) => Some(one),
        None => query.member_filter,
    };
    if let Some(found) = type_named(api.types, container) {
        let c = choose|c: int| #[trigger] is_class(api.types, container, c) && api.types[c] == found;
        items_that_pass_are_listed(
            api.docs,
            name,
            found.members,
            query.include_documentation,
            filter,
            query.max_members,
        );
        assert(is_class(api.types, container, c));
    }
}

proof fn items_that_pass_are_listed(
    docs: Map<Seq<char>, RawDoc>,
    name: Seq<char>,
    members: Seq<MemberModel>,
    with_docs: bool,
    filter: Option<Seq<char>>,
    room: int,
)
    requires
        0 <= room,
    ensures
        ({
            let all = enum_items(docs, name, members, with_docs, members.len() as int);
            let matched = match filter {
                Some(needle) => passing_items(all, needle, all.len() as int),
                None => all,
            };
            are_items_of(
                if matched.len() > room {
                    matched.take(room)
                } else {
                    matched
                },
                docs,
                name,
                members,
                with_docs,
                filter,
                room,
            )
        }),
{
    let all = enum_items(docs, name, members, with_docs, members.len() as int);
    let whole = items_are_picked(docs, name, members, with_docs, members.len() as int);
    let matched = match filter {
        Some(needle) => passing_items(all, needle, all.len() as int),
        None => all,
    };
    let first: Seq<int> = match filter {
        Some(needle) => an_item_filter_keeps_what_passes(all, needle, all.len() as int),
        None => Seq::new(all.len(), |i: int| i),
    };
    let items = if matched.len() > room {
        matched.take(room)
    } else {
        matched
    };
    let at = Seq::new(items.len(), |k: int| whole[first[k]]);
    assert forall|k: int| 0 <= k < at.len() implies {
        &&& 0 <= #[trigger] at[k] < members.len()
        &&& is_item(members[at[k]], name)
        &&& filter matches Some(needle) ==> passes(members[at[k]].name, needle)
        &&& tells_item(items[k], docs, name, members[at[k]], with_docs)
    } by {
        assert(first.contains(first[k]));
        assert(0 <= whole[first[k]] < members.len());
        assert(items[k] == all[first[k]]);
        assert(tells_item(all[first[k]], docs, name, members[whole[first[k]]], with_docs));
    }
    assert forall|j: int, k: int| 0 <= j < k < at.len() implies at[j] < at[k] by {
        assert(first[j] < first[k]);
        assert(first.contains(first[k]));
    }
    if items.len() < room {
        assert forall|i: int|
            0 <= i < members.len() && is_item(members[i], name) && (filter matches Some(needle)
                ==> passes(members[i].name, needle)) implies #[trigger] at.contains(i) by {
            assert(whole.contains(i));
            let w = choose|w: int| 0 <= w < whole.len() && whole[w] == i;
            assert(all[w].name == members[whole[w]].name);
            assert(first.contains(w)) by {
                if filter is None {
                    assert(first[w] == w);
                }
            }
            let k = choose|k: int| 0 <= k < first.len() && first[k] == w;
            assert(at[k] == i);
        }
    }
    assert(picks_items(at, items, docs, name, members, with_docs, filter));
}

} // verus!
