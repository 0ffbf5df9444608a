//! JSON values as trees: what a JSON text says, and what stands at its places.

use vstd::prelude::*;

use crate::json::{self, Json, NodeView, Number};
use crate::text;

verus! {

/// A JSON value without fractions: what its text says.
pub enum JsonTree {
    Null,
    Bool(bool),
    Unsigned(u64),
    /// The number below 0 with this absolute value.
    Negative(u64),
    Str(Seq<char>),
    Array(Seq<JsonTree>),
    /// The members of an object, in the order they stand in: name and value.
    Object(Seq<(Seq<char>, JsonTree)>),
}

/// The text of a value, without white space, with the members of objects in the order they stand in.
pub open spec fn written(tree: JsonTree) -> Seq<char>
    decreases tree,
{
    match tree {
        JsonTree::Null => "null"@,
        JsonTree::Bool(b) => json::bool_text(b),
        JsonTree::Unsigned(n) => text::decimal_text(n as nat),
        JsonTree::Negative(n) => seq!['-'] + text::decimal_text(n as nat),
        JsonTree::Str(s) => json::string_text(s),
        JsonTree::Array(items) => json::array_text(written_items(items)),
        JsonTree::Object(members) => json::object_text(written_members(members)),
    }
}

/// The texts of values.
pub open spec fn written_items(items: Seq<JsonTree>) -> Seq<Seq<char>>
    decreases items,
{
    if items.len() == 0 {
        Seq::empty()
    } else {
        written_items(items.drop_last()).push(written(items.last()))
    }
}

/// The members with the texts of their values.
pub open spec fn written_members(members: Seq<(Seq<char>, JsonTree)>) -> Seq<(Seq<char>, Seq<char>)>
    decreases members,
{
    if members.len() == 0 {
        Seq::empty()
    } else {
        written_members(members.drop_last()).push((members.last().0, written(members.last().1)))
    }
}

/// Whether no two members have the same name.
pub open spec fn names_differ(members: Seq<(Seq<char>, JsonTree)>) -> bool {
    forall|i: int, j: int| 0 <= i < j < members.len() ==> members[i].0 != members[j].0
}

/// Whether a value is nested at most this deep, and has no name twice in an object.
pub open spec fn fits(tree: JsonTree, depth: nat) -> bool
    decreases tree,
{
    match tree {
        JsonTree::Array(items) => depth > 0 && items_fit(items, (depth - 1) as nat),
        JsonTree::Object(members) => depth > 0 && names_differ(members) && members_fit(
            members,
            (depth - 1) as nat,
        ),
        _ => true,
    }
}

/// Whether values are nested at most this deep, and have no name twice in an object.
pub open spec fn items_fit(items: Seq<JsonTree>, depth: nat) -> bool
    decreases items,
{
    items.len() == 0 || (items_fit(items.drop_last(), depth) && fits(items.last(), depth))
}

/// Whether the values of members are nested at most this deep, and have no name twice in an object.
pub open spec fn members_fit(members: Seq<(Seq<char>, JsonTree)>, depth: nat) -> bool
    decreases members,
{
    members.len() == 0 || (members_fit(members.drop_last(), depth) && fits(members.last().1, depth))
}

/// The value of the member with a name, if there is one.
pub open spec fn member(members: Seq<(Seq<char>, JsonTree)>, name: Seq<char>) -> Option<JsonTree>
    decreases members.len(),
{
    if members.len() == 0 {
        None
    } else if members[0].0 == name {
        Some(members[0].1)
    } else {
        member(members.skip(1), name)
    }
}

/// What a value has at the end of a way through the members of objects, if anything.
pub open spec fn at(tree: JsonTree, path: Seq<Seq<char>>) -> Option<JsonTree>
    decreases path.len(),
{
    if path.len() == 0 {
        Some(tree)
    } else {
        match tree {
            JsonTree::Object(members) => match member(members, path[0]) {
                Some(value) => at(value, path.skip(1)),
                None => None,
            },
            _ => None,
        }
    }
}

/// Whether the way meets no array before its end.
pub open spec fn leads_through_objects(tree: JsonTree, path: Seq<Seq<char>>) -> bool
    decreases path.len(),
{
    path.len() == 0 || match tree {
        JsonTree::Object(members) => match member(members, path[0]) {
            Some(value) => leads_through_objects(value, path.skip(1)),
            None => true,
        },
        JsonTree::Array(_) => false,
        _ => true,
    }
}

/// The JSON Pointer of a way through the members of objects.
pub open spec fn pointer_text(path: Seq<Seq<char>>) -> Seq<char>
    decreases path.len(),
{
    if path.len() == 0 {
        Seq::empty()
    } else {
        "/"@ + json::pointer_token(path[0]) + pointer_text(path.skip(1))
    }
}

/// Whether what was found at a place is this.
pub open spec fn shows(node: Option<NodeView>, found: Option<JsonTree>) -> bool {
    match found {
        None => node is None,
        Some(JsonTree::Str(s)) => node == Some(NodeView::Text(s)),
        Some(JsonTree::Unsigned(n)) => node == Some(NodeView::Unsigned(n)),
        Some(JsonTree::Object(_)) => node matches Some(NodeView::Object(_)),
        Some(_) => node == Some(NodeView::Other),
    }
}

/// The string that a value has at the end of a way, where one stands there.
pub open spec fn text_in(tree: JsonTree, path: Seq<Seq<char>>) -> Option<Seq<char>> {
    match at(tree, path) {
        Some(JsonTree::Str(s)) => Some(s),
        _ => None,
    }
}

// ---------------------------------------------------------------------------
// Members
// ---------------------------------------------------------------------------

/// The value of a member is what stands at the end of the way of its name.
pub proof fn member_is_found(members: Seq<(Seq<char>, JsonTree)>, i: int)
    requires
        names_differ(members),
        0 <= i < members.len(),
    ensures
        member(members, members[i].0) == Some(members[i].1),
    decreases members.len(),
{
    if i > 0 {
        assert(members[0].0 != members[i].0);
        assert(members.skip(1)[i - 1] == members[i]);
        member_is_found(members.skip(1), i - 1);
    }
}

/// A member of an object stands at the end of the way of its name.
pub proof fn member_is_at_its_name(members: Seq<(Seq<char>, JsonTree)>, i: int)
    requires
        names_differ(members),
        0 <= i < members.len(),
    ensures
        at(JsonTree::Object(members), seq![members[i].0]) == Some(members[i].1),
        leads_through_objects(JsonTree::Object(members), seq![members[i].0]),
{
    member_is_found(members, i);
    assert(seq![members[i].0].skip(1) =~= Seq::empty());
    assert(at(members[i].1, Seq::empty()) == Some(members[i].1));
    assert(leads_through_objects(members[i].1, Seq::empty()));
}

/// A way through an object goes on in the value of the member of its first name.
pub proof fn way_goes_on(
    members: Seq<(Seq<char>, JsonTree)>,
    name: Seq<char>,
    rest: Seq<Seq<char>>,
)
    requires
        member(members, name) is Some,
    ensures
        at(JsonTree::Object(members), seq![name] + rest) == at(member(members, name)->0, rest),
        leads_through_objects(JsonTree::Object(members), seq![name] + rest)
            == leads_through_objects(member(members, name)->0, rest),
        at(member(members, name)->0, Seq::empty()) == member(members, name),
        leads_through_objects(member(members, name)->0, Seq::empty()),
{
    assert((seq![name] + rest).skip(1) =~= rest);
}

proof fn absent_member_is_not_found(members: Seq<(Seq<char>, JsonTree)>, name: Seq<char>)
    requires
        forall|i: int| 0 <= i < members.len() ==> (#[trigger] members[i]).0 != name,
    ensures
        member(members, name) is None,
    decreases members.len(),
{
    if members.len() > 0 {
        assert(members[0].0 != name);
        absent_member_is_not_found(members.skip(1), name);
    }
}

proof fn written_member_at(members: Seq<(Seq<char>, JsonTree)>, i: int)
    ensures
        written_members(members).len() == members.len(),
        0 <= i < members.len() ==> written_members(members)[i] == (
            members[i].0,
            written(members[i].1),
        ),
    decreases members.len(),
{
    if members.len() > 0 {
        written_member_at(members.drop_last(), i);
    }
}

/// The text of an object is that of its members with the texts of their values.
pub proof fn written_members_are(
    members: Seq<(Seq<char>, JsonTree)>,
    texts: Seq<(Seq<char>, Seq<char>)>,
)
    requires
        members.len() == texts.len(),
        forall|i: int|
            0 <= i < members.len() ==> (#[trigger] members[i]).0 == texts[i].0 && written(
                members[i].1,
            ) == texts[i].1,
    ensures
        written_members(members) == texts,
    decreases members.len(),
{
    if members.len() > 0 {
        assert forall|i: int| 0 <= i < members.drop_last().len() implies (
        #[trigger] members.drop_last()[i]).0 == texts.drop_last()[i].0 && written(
            members.drop_last()[i].1,
        ) == texts.drop_last()[i].1 by {
            assert(members[i].0 == texts[i].0);
        }
        written_members_are(members.drop_last(), texts.drop_last());
        assert(members[members.len() - 1].0 == texts.last().0);
    }
    assert(written_members(members) =~= texts);
}

proof fn member_fits(members: Seq<(Seq<char>, JsonTree)>, depth: nat, i: int)
    requires
        members_fit(members, depth),
        0 <= i < members.len(),
    ensures
        fits(members[i].1, depth),
    decreases members.len(),
{
    if i < members.len() - 1 {
        member_fits(members.drop_last(), depth, i);
    }
}

/// Members fit where each of them does.
pub proof fn members_all_fit(members: Seq<(Seq<char>, JsonTree)>, depth: nat)
    requires
        forall|i: int| 0 <= i < members.len() ==> fits((#[trigger] members[i]).1, depth),
    ensures
        members_fit(members, depth),
    decreases members.len(),
{
    if members.len() > 0 {
        assert forall|i: int| 0 <= i < members.drop_last().len() implies fits(
            (#[trigger] members.drop_last()[i]).1,
            depth,
        ) by {
            assert(members.drop_last()[i] == members[i]);
        }
        members_all_fit(members.drop_last(), depth);
        assert(fits(members[members.len() - 1].1, depth));
    }
}

/// Members fit in any order.
pub proof fn reordered_members_fit(
    sorted: Seq<(Seq<char>, JsonTree)>,
    members: Seq<(Seq<char>, JsonTree)>,
    depth: nat,
)
    requires
        forall|x: (Seq<char>, JsonTree)| sorted.contains(x) ==> members.contains(x),
        forall|i: int| 0 <= i < members.len() ==> fits((#[trigger] members[i]).1, depth),
    ensures
        members_fit(sorted, depth),
{
    assert forall|i: int| 0 <= i < sorted.len() implies fits((#[trigger] sorted[i]).1, depth) by {
        assert(sorted.contains(sorted[i]));
        let j = choose|j: int| 0 <= j < members.len() && members[j] == sorted[i];
        assert(fits(members[j].1, depth));
    }
    members_all_fit(sorted, depth);
}

/// What fits a depth fits a greater one.
pub proof fn shallow_fits(tree: JsonTree, depth: nat, deeper: nat)
    requires
        fits(tree, depth),
        depth <= deeper,
    ensures
        fits(tree, deeper),
    decreases tree,
{
    match tree {
        JsonTree::Array(items) => shallow_items_fit(
            items,
            (depth - 1) as nat,
            (deeper - 1) as nat,
        ),
        JsonTree::Object(members) => shallow_members_fit(
            members,
            (depth - 1) as nat,
            (deeper - 1) as nat,
        ),
        _ => {},
    }
}

proof fn shallow_items_fit(items: Seq<JsonTree>, depth: nat, deeper: nat)
    requires
        items_fit(items, depth),
        depth <= deeper,
    ensures
        items_fit(items, deeper),
    decreases items,
{
    if items.len() > 0 {
        shallow_items_fit(items.drop_last(), depth, deeper);
        shallow_fits(items.last(), depth, deeper);
    }
}

proof fn shallow_members_fit(members: Seq<(Seq<char>, JsonTree)>, depth: nat, deeper: nat)
    requires
        members_fit(members, depth),
        depth <= deeper,
    ensures
        members_fit(members, deeper),
    decreases members,
{
    if members.len() > 0 {
        shallow_members_fit(members.drop_last(), depth, deeper);
        shallow_fits(members.last().1, depth, deeper);
    }
}

/// A name without `~` and `/` is its own token.
pub proof fn plain_token(name: Seq<char>)
    requires
        forall|i: int| 0 <= i < name.len() ==> name[i] != '~' && name[i] != '/',
    ensures
        json::pointer_token(name) == name,
    decreases name.len(),
{
    if name.len() > 0 {
        plain_token(name.drop_last());
        assert(name.last() == name[name.len() - 1]);
        assert(name =~= name.drop_last().push(name.last()));
    }
}

/// Whether the names ascend strictly.
pub open spec fn names_ascend(members: Seq<(Seq<char>, JsonTree)>) -> bool {
    forall|i: int, j: int|
        0 <= i < j < members.len() ==> json::text_leq(members[i].0, members[j].0) && members[i].0
            != members[j].0
}

/// The text of an object whose members are sorted by name is the text of the same members in
/// ascending order.
pub proof fn sorted_object_is_written(members: Seq<(Seq<char>, JsonTree)>) -> (sorted: Seq<
    (Seq<char>, JsonTree),
>)
    requires
        names_differ(members),
    ensures
        written(JsonTree::Object(sorted)) == json::sorted_object_text(written_members(members)),
        sorted.len() == members.len(),
        names_ascend(sorted),
        names_differ(sorted),
        forall|x: (Seq<char>, JsonTree)| sorted.contains(x) <==> members.contains(x),
        forall|name: Seq<char>| #[trigger] member(sorted, name) == member(members, name),
{
    broadcast use vstd::seq_lib::group_to_multiset_ensures;

    let texts = written_members(members);
    let r = |a: (Seq<char>, Seq<char>), b: (Seq<char>, Seq<char>)| json::member_leq(a, b);
    json::member_order_is_total();
    texts.lemma_sort_by_ensures(r);
    let order = json::sorted_members(texts);
    assert forall|i: int| 0 <= i < members.len() implies texts.len() == members.len()
        && #[trigger] texts[i] == (members[i].0, written(members[i].1)) by {
        written_member_at(members, i);
    }
    written_member_at(members, 0);
    assert(order == texts.sort_by(r));
    assert(order.to_multiset() == texts.to_multiset());
    assert(order.to_multiset().len() == texts.to_multiset().len());
    assert forall|i: int, j: int| 0 <= i < texts.len() && 0 <= j < texts.len() && i != j implies
        texts[i] != texts[j] by {
        if i < j {
            assert(members[i].0 != members[j].0);
        } else {
            assert(members[j].0 != members[i].0);
        }
    }
    assert(texts.no_duplicates());
    texts.lemma_multiset_has_no_duplicates();
    order.lemma_multiset_has_no_duplicates_conv();
    let sorted = Seq::new(
        members.len(),
        |k: int| members[choose|i: int| 0 <= i < members.len() && texts[i] == order[k]],
    );
    assert forall|k: int| #![trigger order[k]] 0 <= k < order.len() implies exists|i: int|
        0 <= i < members.len() && #[trigger] texts[i] == order[k] && sorted[k] == members[i] by {
        assert(order.contains(order[k]));
        assert(order.to_multiset().count(order[k]) > 0);
        assert(texts.contains(order[k]));
        let at = choose|i: int| 0 <= i < members.len() && texts[i] == order[k];
        assert(texts[at] == order[k] && sorted[k] == members[at]);
    }
    assert forall|k: int| 0 <= k < sorted.len() implies (#[trigger] sorted[k]).0 == order[k].0
        && written(sorted[k].1) == order[k].1 by {
        let i = choose|i: int|
            0 <= i < members.len() && #[trigger] texts[i] == order[k] && sorted[k] == members[i];
        assert(texts[i] == (members[i].0, written(members[i].1)));
    }
    written_members_are(sorted, order);
    assert forall|j: int, k: int| 0 <= j < k < sorted.len() implies json::text_leq(
        sorted[j].0,
        sorted[k].0,
    ) && sorted[j].0 != sorted[k].0 by {
        let a = choose|i: int|
            0 <= i < members.len() && #[trigger] texts[i] == order[j] && sorted[j] == members[i];
        let b = choose|i: int|
            0 <= i < members.len() && #[trigger] texts[i] == order[k] && sorted[k] == members[i];
        assert(order[j] != order[k]);
        assert(a != b);
        if a < b {
            assert(members[a].0 != members[b].0);
        } else {
            assert(members[b].0 != members[a].0);
        }
        assert(r(order[j], order[k]));
    }
    assert forall|i: int| 0 <= i < members.len() implies sorted.contains(#[trigger] members[i]) by {
        assert(texts.contains(texts[i]));
        assert(texts.to_multiset().count(texts[i]) > 0);
        assert(order.contains(texts[i]));
        let k = choose|k: int| 0 <= k < order.len() && order[k] == texts[i];
        let a = choose|a: int|
            0 <= a < members.len() && #[trigger] texts[a] == order[k] && sorted[k] == members[a];
        assert(texts[a] == texts[i]);
        assert(sorted[k] == members[i]);
    }
    assert forall|x: (Seq<char>, JsonTree)| sorted.contains(x) <==> members.contains(x) by {
        if sorted.contains(x) {
            let k = choose|k: int| 0 <= k < sorted.len() && sorted[k] == x;
            let a = choose|a: int|
                0 <= a < members.len() && #[trigger] texts[a] == order[k] && sorted[k]
                    == members[a];
            assert(members[a] == x);
        }
        if members.contains(x) {
            let i = choose|i: int| 0 <= i < members.len() && members[i] == x;
            assert(sorted.contains(members[i]));
        }
    }
    assert forall|name: Seq<char>| #[trigger] member(sorted, name) == member(members, name) by {
        same_members_are_found(sorted, members, name);
    }
    sorted
}

proof fn same_members_are_found(
    a: Seq<(Seq<char>, JsonTree)>,
    b: Seq<(Seq<char>, JsonTree)>,
    name: Seq<char>,
)
    requires
        names_differ(a),
        names_differ(b),
        forall|x: (Seq<char>, JsonTree)| a.contains(x) <==> b.contains(x),
    ensures
        member(a, name) == member(b, name),
{
    if exists|i: int| 0 <= i < a.len() && (#[trigger] a[i]).0 == name {
        let i = choose|i: int| 0 <= i < a.len() && (#[trigger] a[i]).0 == name;
        member_is_found(a, i);
        assert(a.contains(a[i]));
        let j = choose|j: int| 0 <= j < b.len() && b[j] == a[i];
        member_is_found(b, j);
    } else {
        absent_member_is_not_found(a, name);
        assert forall|j: int| 0 <= j < b.len() implies (#[trigger] b[j]).0 != name by {
            assert(b.contains(b[j]));
            let i = choose|i: int| 0 <= i < a.len() && a[i] == b[j];
            assert(a[i].0 != name);
        }
        absent_member_is_not_found(b, name);
    }
}

// ---------------------------------------------------------------------------
// Canonical texts
// ---------------------------------------------------------------------------

/// Whether no two members have the same name.
pub open spec fn json_names_differ(members: Seq<(String, Json)>) -> bool {
    forall|i: int, j: int| 0 <= i < j < members.len() ==> members[i].0@ != members[j].0@
}

/// Whether a value has no name twice in an object, at any depth.
pub open spec fn is_unambiguous(value: Json) -> bool
    decreases value,
{
    match value {
        Json::Array(items) => items_are_unambiguous(items@),
        Json::Object(members) => json_names_differ(members@) && members_are_unambiguous(members@),
        _ => true,
    }
}

/// Whether values have no name twice in an object, at any depth.
pub open spec fn items_are_unambiguous(items: Seq<Json>) -> bool
    decreases items,
{
    items.len() == 0 || (items_are_unambiguous(items.drop_last()) && is_unambiguous(items.last()))
}

/// Whether the values of members have no name twice in an object, at any depth.
pub open spec fn members_are_unambiguous(members: Seq<(String, Json)>) -> bool
    decreases members,
{
    members.len() == 0 || (members_are_unambiguous(members.drop_last()) && is_unambiguous(
        members.last().1,
    ))
}

/// Whether two values are the same up to the order of the members of objects, at any depth.
pub open spec fn same_up_to_order(value: Json, other: Json) -> bool
    decreases value,
{
    match (value, other) {
        (Json::Null, Json::Null) => true,
        (Json::Bool(a), Json::Bool(b)) => a == b,
        (Json::Number(a), Json::Number(b)) => json::number_text(a) == json::number_text(b),
        (Json::Str(a), Json::Str(b)) => a@ == b@,
        (Json::Array(a), Json::Array(b)) => items_are_same(a@, b@),
        (Json::Object(a), Json::Object(b)) => a.len() == b.len() && members_are_among(a@, b@),
        _ => false,
    }
}

/// Whether the values are the same one by one, up to the order of members.
pub open spec fn items_are_same(items: Seq<Json>, others: Seq<Json>) -> bool
    decreases items,
{
    items.len() == others.len() && (items.len() == 0 || (items_are_same(
        items.drop_last(),
        others.drop_last(),
    ) && same_up_to_order(items.last(), others.last())))
}

/// Whether each of the members is among the others, up to the order of members.
pub open spec fn members_are_among(
    members: Seq<(String, Json)>,
    others: Seq<(String, Json)>,
) -> bool
    decreases members,
{
    members.len() == 0 || (members_are_among(members.drop_last(), others) && exists|j: int|
        0 <= j < others.len() && (#[trigger] others[j]).0@ == members.last().0@ && same_up_to_order(
            members.last().1,
            others[j].1,
        ))
}

proof fn canonical_member_at(members: Seq<(String, Json)>, i: int)
    ensures
        json::canonical_members(members).len() == members.len(),
        0 <= i < members.len() ==> json::canonical_members(members)[i] == (
            members[i].0@,
            json::canonical_text(members[i].1),
        ),
    decreases members.len(),
{
    if members.len() > 0 {
        canonical_member_at(members.drop_last(), i);
    }
}

proof fn member_is_unambiguous(members: Seq<(String, Json)>, i: int)
    requires
        members_are_unambiguous(members),
        0 <= i < members.len(),
    ensures
        is_unambiguous(members[i].1),
    decreases members.len(),
{
    if i < members.len() - 1 {
        member_is_unambiguous(members.drop_last(), i);
    }
}

proof fn same_items_have_same_texts(items: Seq<Json>, others: Seq<Json>)
    requires
        items_are_same(items, others),
        items_are_unambiguous(items),
        items_are_unambiguous(others),
    ensures
        json::canonical_items(items) == json::canonical_items(others),
    decreases items,
{
    if items.len() > 0 {
        same_items_have_same_texts(items.drop_last(), others.drop_last());
        order_does_not_matter_at_any_depth(items.last(), others.last());
    }
}

proof fn members_among_others_have_their_texts(
    members: Seq<(String, Json)>,
    others: Seq<(String, Json)>,
)
    requires
        members_are_among(members, others),
        members_are_unambiguous(members),
        members_are_unambiguous(others),
    ensures
        forall|i: int|
            0 <= i < members.len() ==> json::canonical_members(others).contains(
                #[trigger] json::canonical_members(members)[i],
            ),
    decreases members,
{
    if members.len() > 0 {
        let rest = members.drop_last();
        members_among_others_have_their_texts(rest, others);
        let j = choose|j: int|
            0 <= j < others.len() && (#[trigger] others[j]).0@ == members.last().0@
                && same_up_to_order(members.last().1, others[j].1);
        member_is_unambiguous(others, j);
        order_does_not_matter_at_any_depth(members.last().1, others[j].1);
        canonical_member_at(others, j);
        canonical_member_at(members, members.len() - 1);
        assert(json::canonical_members(others)[j] == json::canonical_members(members)[members.len()
            - 1]);
        assert forall|i: int| 0 <= i < members.len() implies json::canonical_members(
            others,
        ).contains(#[trigger] json::canonical_members(members)[i]) by {
            if i < members.len() - 1 {
                canonical_member_at(members, i);
                canonical_member_at(rest, i);
                assert(json::canonical_members(others).contains(json::canonical_members(rest)[i]));
            }
        }
    }
}

proof fn canonical_names_differ(members: Seq<(String, Json)>)
    requires
        json_names_differ(members),
    ensures
        json::canonical_members(members).no_duplicates(),
        json::canonical_members(members).len() == members.len(),
{
    let texts = json::canonical_members(members);
    canonical_member_at(members, 0);
    assert forall|i: int, j: int| 0 <= i < texts.len() && 0 <= j < texts.len() && i != j implies
        texts[i] != texts[j] by {
        canonical_member_at(members, i);
        canonical_member_at(members, j);
        if i < j {
            assert(members[i].0@ != members[j].0@);
        } else {
            assert(members[j].0@ != members[i].0@);
        }
    }
}

/// Two values that are the same up to the order of the members of objects, at any depth, have the
/// same canonical text.
pub proof fn order_does_not_matter_at_any_depth(value: Json, other: Json)
    requires
        same_up_to_order(value, other),
        is_unambiguous(value),
        is_unambiguous(other),
    ensures
        json::canonical_text(value) == json::canonical_text(other),
    decreases value,
{
    match (value, other) {
        (Json::Array(a), Json::Array(b)) => {
            assert(decreases_to!(value => value->Array_0));
            assert(decreases_to!(a => a@));
            same_items_have_same_texts(a@, b@);
        },
        (Json::Object(a), Json::Object(b)) => {
            assert(decreases_to!(value => value->Object_0));
            assert(decreases_to!(a => a@));
            members_among_others_have_their_texts(a@, b@);
            let s = json::canonical_members(a@);
            let t = json::canonical_members(b@);
            canonical_names_differ(a@);
            canonical_names_differ(b@);
            s.unique_seq_to_set();
            t.unique_seq_to_set();
            assert forall|x: (Seq<char>, Seq<char>)| s.to_set().contains(x) implies t.to_set().contains(
                x,
            ) by {
                let i = choose|i: int| 0 <= i < s.len() && s[i] == x;
                assert(t.contains(s[i]));
            }
            vstd::seq_lib::seq_to_set_is_finite(s);
            vstd::seq_lib::seq_to_set_is_finite(t);
            vstd::set_lib::lemma_subset_equality(s.to_set(), t.to_set());
            s.lemma_multiset_has_no_duplicates();
            t.lemma_multiset_has_no_duplicates();
            assert(s.to_multiset() =~= t.to_multiset()) by {
                broadcast use vstd::seq_lib::group_to_multiset_ensures;

                assert forall|x: (Seq<char>, Seq<char>)|
                    s.to_multiset().count(x) == t.to_multiset().count(x) by {
                    assert(s.contains(x) == s.to_set().contains(x));
                    assert(t.contains(x) == t.to_set().contains(x));
                    assert(s.to_multiset().contains(x) == s.contains(x));
                    assert(t.to_multiset().contains(x) == t.contains(x));
                }
            }
            json::canonical_order_does_not_matter(a, b);
        },
        _ => {},
    }
}

/// Whether a value is nested at most this deep, has no name twice in an object, and no number with
/// a fraction or an exponent.
pub open spec fn is_plain(value: Json, depth: nat) -> bool
    decreases value,
{
    match value {
        Json::Number(n) => !(n is Decimal),
        Json::Array(items) => depth > 0 && items_are_plain(items@, (depth - 1) as nat),
        Json::Object(members) => depth > 0 && json_names_differ(members@) && members_are_plain(
            members@,
            (depth - 1) as nat,
        ),
        _ => true,
    }
}

/// Whether values are plain.
pub open spec fn items_are_plain(items: Seq<Json>, depth: nat) -> bool
    decreases items,
{
    items.len() == 0 || (items_are_plain(items.drop_last(), depth) && is_plain(items.last(), depth))
}

/// Whether the values of members are plain.
pub open spec fn members_are_plain(members: Seq<(String, Json)>, depth: nat) -> bool
    decreases members,
{
    members.len() == 0 || (members_are_plain(members.drop_last(), depth) && is_plain(
        members.last().1,
        depth,
    ))
}

/// Whether a tree is that of a value, up to the order of the members of objects.
pub open spec fn stands_for(tree: JsonTree, value: Json) -> bool
    decreases value,
{
    match (value, tree) {
        (Json::Null, JsonTree::Null) => true,
        (Json::Bool(a), JsonTree::Bool(b)) => a == b,
        (Json::Number(Number::Unsigned(u)), JsonTree::Unsigned(n)) => u == n,
        (Json::Number(Number::Signed(i)), JsonTree::Unsigned(n)) => i == n,
        (Json::Number(Number::Signed(i)), JsonTree::Negative(n)) => i < 0 && -i == n,
        (Json::Str(s), JsonTree::Str(t)) => s@ == t,
        (Json::Array(items), JsonTree::Array(trees)) => items_stand_for(trees, items@),
        (Json::Object(members), JsonTree::Object(trees)) => trees.len() == members.len()
            && members_stand_for(trees, members@),
        _ => false,
    }
}

/// Whether trees are those of values, one by one.
pub open spec fn items_stand_for(trees: Seq<JsonTree>, items: Seq<Json>) -> bool
    decreases items,
{
    trees.len() == items.len() && (items.len() == 0 || (items_stand_for(
        trees.drop_last(),
        items.drop_last(),
    ) && stands_for(trees.last(), items.last())))
}

/// Whether the member of the name of each member is the tree of its value.
pub open spec fn members_stand_for(
    trees: Seq<(Seq<char>, JsonTree)>,
    members: Seq<(String, Json)>,
) -> bool
    decreases members,
{
    members.len() == 0 || (members_stand_for(trees, members.drop_last()) && match member(
        trees,
        members.last().0@,
    ) {
        Some(tree) => stands_for(tree, members.last().1),
        None => false,
    })
}

/// Whether the names of the members ascend strictly in every object, at any depth.
pub open spec fn ascends(tree: JsonTree) -> bool
    decreases tree,
{
    match tree {
        JsonTree::Array(items) => items_ascend(items),
        JsonTree::Object(members) => names_ascend(members) && members_ascend(members),
        _ => true,
    }
}

/// Whether the names ascend in each of the values.
pub open spec fn items_ascend(items: Seq<JsonTree>) -> bool
    decreases items,
{
    items.len() == 0 || (items_ascend(items.drop_last()) && ascends(items.last()))
}

/// Whether the names ascend in the value of each of the members.
pub open spec fn members_ascend(members: Seq<(Seq<char>, JsonTree)>) -> bool
    decreases members,
{
    members.len() == 0 || (members_ascend(members.drop_last()) && ascends(members.last().1))
}

proof fn member_ascends(members: Seq<(Seq<char>, JsonTree)>, i: int)
    requires
        members_ascend(members),
        0 <= i < members.len(),
    ensures
        ascends(members[i].1),
    decreases members.len(),
{
    if i < members.len() - 1 {
        member_ascends(members.drop_last(), i);
    }
}

proof fn members_all_ascend(members: Seq<(Seq<char>, JsonTree)>)
    requires
        forall|i: int| 0 <= i < members.len() ==> ascends((#[trigger] members[i]).1),
    ensures
        members_ascend(members),
    decreases members.len(),
{
    if members.len() > 0 {
        assert forall|i: int| 0 <= i < members.drop_last().len() implies ascends(
            (#[trigger] members.drop_last()[i]).1,
        ) by {
            assert(members.drop_last()[i] == members[i]);
        }
        members_all_ascend(members.drop_last());
        assert(ascends(members[members.len() - 1].1));
    }
}

proof fn members_stand_by_name(
    trees: Seq<(Seq<char>, JsonTree)>,
    others: Seq<(Seq<char>, JsonTree)>,
    members: Seq<(String, Json)>,
)
    requires
        members_stand_for(trees, members),
        forall|i: int|
            0 <= i < members.len() ==> member(others, (#[trigger] members[i]).0@) == member(
                trees,
                members[i].0@,
            ),
    ensures
        members_stand_for(others, members),
    decreases members.len(),
{
    if members.len() > 0 {
        assert forall|i: int| 0 <= i < members.drop_last().len() implies member(
            others,
            (#[trigger] members.drop_last()[i]).0@,
        ) == member(trees, members.drop_last()[i].0@) by {
            assert(members.drop_last()[i] == members[i]);
        }
        members_stand_by_name(trees, others, members.drop_last());
        assert(member(others, members[members.len() - 1].0@) == member(
            trees,
            members[members.len() - 1].0@,
        ));
    }
}

proof fn trees_of_items(items: Seq<Json>, depth: nat) -> (trees: Seq<JsonTree>)
    requires
        items_are_plain(items, depth),
    ensures
        written_items(trees) == json::canonical_items(items),
        items_ascend(trees),
        items_stand_for(trees, items),
        items_fit(trees, depth),
    decreases items,
{
    if items.len() == 0 {
        Seq::empty()
    } else {
        let rest = trees_of_items(items.drop_last(), depth);
        let last = canonical_text_is_a_tree(items.last(), depth);
        let trees = rest.push(last);
        assert(trees.drop_last() =~= rest);
        trees
    }
}

proof fn trees_of_members(members: Seq<(String, Json)>, depth: nat) -> (trees: Seq<
    (Seq<char>, JsonTree),
>)
    requires
        json_names_differ(members),
        members_are_plain(members, depth),
    ensures
        written_members(trees) == json::canonical_members(members),
        trees.len() == members.len(),
        forall|i: int| 0 <= i < members.len() ==> (#[trigger] trees[i]).0 == members[i].0@,
        names_differ(trees),
        members_ascend(trees),
        members_stand_for(trees, members),
        members_fit(trees, depth),
    decreases members,
{
    if members.len() == 0 {
        Seq::empty()
    } else {
        let rest = trees_of_members(members.drop_last(), depth);
        assert(decreases_to!(members => members.last()));
        assert(decreases_to!(members.last() => members.last().1));
        let last = canonical_text_is_a_tree(members.last().1, depth);
        let trees = rest.push((members.last().0@, last));
        assert(trees.drop_last() =~= rest);
        assert forall|i: int| 0 <= i < members.len() implies (#[trigger] trees[i]).0
            == members[i].0@ by {
            if i < members.len() - 1 {
                assert(trees[i] == rest[i]);
                assert(members.drop_last()[i] == members[i]);
            }
        }
        assert forall|i: int, j: int| 0 <= i < j < trees.len() implies trees[i].0 != trees[j].0 by {
            assert(members[i].0@ != members[j].0@);
        }
        assert forall|i: int| 0 <= i < members.drop_last().len() implies member(
            trees,
            (#[trigger] members.drop_last()[i]).0@,
        ) == member(rest, members.drop_last()[i].0@) by {
            assert(trees[i] == rest[i]);
            member_is_found(trees, i);
            member_is_found(rest, i);
        }
        members_stand_by_name(rest, trees, members.drop_last());
        member_is_found(trees, members.len() - 1);
        trees
    }
}

/// The canonical text of a value is the text of the same value with the names of the members in
/// strictly ascending order in every object, at any depth, with its arrays in their order and
/// nothing between the parts.
pub proof fn canonical_text_is_a_tree(value: Json, depth: nat) -> (tree: JsonTree)
    requires
        is_plain(value, depth),
    ensures
        json::canonical_text(value) == written(tree),
        ascends(tree),
        stands_for(tree, value),
        fits(tree, depth),
    decreases value,
{
    match value {
        Json::Null => JsonTree::Null,
        Json::Bool(b) => JsonTree::Bool(b),
        Json::Number(Number::Unsigned(u)) => JsonTree::Unsigned(u),
        Json::Number(Number::Signed(i)) => if i < 0 {
            JsonTree::Negative((-i) as u64)
        } else {
            JsonTree::Unsigned(i as u64)
        },
        Json::Number(Number::Decimal(_)) => JsonTree::Null,
        Json::Str(s) => JsonTree::Str(s@),
        Json::Array(items) => {
            assert(decreases_to!(value => value->Array_0));
            assert(decreases_to!(items => items@));
            JsonTree::Array(trees_of_items(items@, (depth - 1) as nat))
        },
        Json::Object(members) => {
            assert(decreases_to!(value => value->Object_0));
            assert(decreases_to!(members => members@));
            let trees = trees_of_members(members@, (depth - 1) as nat);
            let sorted = sorted_object_is_written(trees);
            members_stand_by_name(trees, sorted, members@);
            assert forall|i: int| 0 <= i < sorted.len() implies ascends((#[trigger] sorted[i]).1)
                && fits(sorted[i].1, (depth - 1) as nat) by {
                assert(sorted.contains(sorted[i]));
                let j = choose|j: int| 0 <= j < trees.len() && trees[j] == sorted[i];
                member_ascends(trees, j);
                member_fits(trees, (depth - 1) as nat, j);
            }
            members_all_ascend(sorted);
            members_all_fit(sorted, (depth - 1) as nat);
            JsonTree::Object(sorted)
        },
    }
}

/// The text of an array is that of the texts of its values.
pub proof fn written_items_are(items: Seq<JsonTree>, texts: Seq<Seq<char>>)
    requires
        items.len() == texts.len(),
        forall|i: int| 0 <= i < items.len() ==> written(#[trigger] items[i]) == texts[i],
    ensures
        written_items(items) == texts,
    decreases items.len(),
{
    if items.len() > 0 {
        assert forall|i: int| 0 <= i < items.drop_last().len() implies written(
            #[trigger] items.drop_last()[i],
        ) == texts.drop_last()[i] by {
            assert(items.drop_last()[i] == items[i]);
        }
        written_items_are(items.drop_last(), texts.drop_last());
        assert(written(items[items.len() - 1]) == texts[texts.len() - 1]);
        assert(texts =~= texts.drop_last().push(texts.last()));
    } else {
        assert(texts =~= Seq::empty());
    }
}

/// Values fit where each of them does.
pub proof fn items_all_fit(items: Seq<JsonTree>, depth: nat)
    requires
        forall|i: int| 0 <= i < items.len() ==> fits(#[trigger] items[i], depth),
    ensures
        items_fit(items, depth),
    decreases items.len(),
{
    if items.len() > 0 {
        assert forall|i: int| 0 <= i < items.drop_last().len() implies fits(
            #[trigger] items.drop_last()[i],
            depth,
        ) by {
            assert(items.drop_last()[i] == items[i]);
        }
        items_all_fit(items.drop_last(), depth);
        assert(fits(items[items.len() - 1], depth));
    }
}

/// A way through an object goes on in the value of each of its members, where no two have the same name.
pub proof fn ways_go_on(members: Seq<(Seq<char>, JsonTree)>, i: int, path: Seq<Seq<char>>)
    requires
        names_differ(members),
        0 <= i < members.len(),
        path.len() > 0,
        path[0] == members[i].0,
    ensures
        at(JsonTree::Object(members), path) == at(members[i].1, path.skip(1)),
{
    member_is_found(members, i);
}

/// A way through an object whose members are sorted goes on in the value of each, where no two of them have
/// the same name.
pub proof fn sorted_ways_go_on(
    sorted: Seq<(Seq<char>, JsonTree)>,
    members: Seq<(Seq<char>, JsonTree)>,
    i: int,
    path: Seq<Seq<char>>,
)
    requires
        names_differ(members),
        forall|name: Seq<char>| #[trigger] member(sorted, name) == member(members, name),
        0 <= i < members.len(),
        path.len() > 0,
        path[0] == members[i].0,
    ensures
        at(JsonTree::Object(sorted), path) == at(members[i].1, path.skip(1)),
{
    member_is_found(members, i);
    assert(member(sorted, path[0]) == member(members, path[0]));
}

/// A list of texts as JSON is the array of these strings.
pub proof fn string_array_is_written(items: Seq<Seq<char>>) -> (tree: JsonTree)
    ensures
        tree == JsonTree::Array(items.map_values(|s: Seq<char>| JsonTree::Str(s))),
        json::string_array_text(items) == written(tree),
        fits(tree, 1),
{
    let values = items.map_values(|s: Seq<char>| JsonTree::Str(s));
    written_items_are(values, items.map_values(|s: Seq<char>| json::string_text(s)));
    items_all_fit(values, 0);
    JsonTree::Array(values)
}

} // verus!
