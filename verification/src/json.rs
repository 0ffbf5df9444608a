//! JSON: values that the channel builds, their canonical text, and what is read of a text.

use vstd::prelude::*;
use vstd::relations::*;
use vstd::string::*;
use vstd::utf8::*;

use crate::json_tree::{self, JsonTree};
use crate::text::{self, chars_of, decimal};

verus! {

/// A JSON value.
pub enum Json {
    Null,
    Bool(bool),
    Number(Number),
    Str(String),
    Array(Vec<Json>),
    /// The members of an object: name and value.
    Object(Vec<(String, Json)>),
}

/// A JSON number.
pub enum Number {
    Unsigned(u64),
    Signed(i64),
    /// A number with a fraction or an exponent, as it is written.
    Decimal(String),
}

// ---------------------------------------------------------------------------
// Text of a value
// ---------------------------------------------------------------------------

/// A hexadecimal digit, in lower case.
pub open spec fn hex_lower(d: nat) -> char {
    if d < 10 {
        (48 + d) as char
    } else {
        (87 + d) as char
    }
}

/// A character as it stands inside a JSON string.
pub open spec fn escaped_char(c: char) -> Seq<char> {
    if c == '"' || c == '\\' {
        seq!['\\', c]
    } else if c == '\u{8}' {
        seq!['\\', 'b']
    } else if c == '\t' {
        seq!['\\', 't']
    } else if c == '\n' {
        seq!['\\', 'n']
    } else if c == '\u{c}' {
        seq!['\\', 'f']
    } else if c == '\r' {
        seq!['\\', 'r']
    } else if c <= '\u{1f}' {
        seq!['\\', 'u', '0', '0', hex_lower(c as nat / 16), hex_lower(c as nat % 16)]
    } else {
        seq![c]
    }
}

/// A text as it stands inside a JSON string.
pub open spec fn escaped(s: Seq<char>) -> Seq<char>
    decreases s.len(),
{
    if s.len() == 0 {
        s
    } else {
        escaped(s.drop_last()) + escaped_char(s.last())
    }
}

/// A text as a JSON string.
pub open spec fn string_text(s: Seq<char>) -> Seq<char> {
    seq!['"'] + escaped(s) + seq!['"']
}

/// `serde_json::to_string` on a string: quotes around it, with a backslash before quotes and
/// backslashes, the short escapes for backspace, tab, newline, form feed and carriage return, a
/// `\u00..` escape for the other control characters below the space, and all else as it is.
#[verifier::external_body]
fn quoted(s: &str) -> (r: String)
    ensures
        r@ == string_text(s@),
{
    serde_json::to_string(s).unwrap_or_default()
}

/// The parts with a comma between each two.
pub open spec fn comma_joined(parts: Seq<Seq<char>>) -> Seq<char>
    decreases parts.len(),
{
    if parts.len() == 0 {
        Seq::empty()
    } else if parts.len() == 1 {
        parts[0]
    } else {
        comma_joined(parts.drop_last()) + seq![','] + parts.last()
    }
}

/// A member of an object: its name and the text of its value.
pub open spec fn member_text(member: (Seq<char>, Seq<char>)) -> Seq<char> {
    string_text(member.0) + seq![':'] + member.1
}

/// The members, each as its text.
pub open spec fn members_text(members: Seq<(Seq<char>, Seq<char>)>) -> Seq<Seq<char>> {
    members.map_values(|m: (Seq<char>, Seq<char>)| member_text(m))
}

/// An object with these members in this order.
pub open spec fn object_text(members: Seq<(Seq<char>, Seq<char>)>) -> Seq<char> {
    seq!['{'] + comma_joined(members_text(members)) + seq!['}']
}

/// An array of values, given by their texts.
pub open spec fn array_text(items: Seq<Seq<char>>) -> Seq<char> {
    seq!['['] + comma_joined(items) + seq![']']
}

/// A truth value as JSON.
pub open spec fn bool_text(b: bool) -> Seq<char> {
    if b {
        "true"@
    } else {
        "false"@
    }
}

/// A list of texts as an array of strings.
pub open spec fn string_array_text(items: Seq<Seq<char>>) -> Seq<char> {
    array_text(items.map_values(|s: Seq<char>| string_text(s)))
}

/// Whether `a` comes no later than `b` in the order of their characters' code points.
pub open spec fn text_leq(a: Seq<char>, b: Seq<char>) -> bool
    decreases a.len(),
{
    if a.len() == 0 {
        true
    } else if b.len() == 0 {
        false
    } else if a[0] != b[0] {
        a[0] < b[0]
    } else {
        text_leq(a.skip(1), b.skip(1))
    }
}

/// The order of members: by name, and by value where the names are the same.
pub open spec fn member_leq(a: (Seq<char>, Seq<char>), b: (Seq<char>, Seq<char>)) -> bool {
    if a.0 != b.0 {
        text_leq(a.0, b.0)
    } else {
        text_leq(a.1, b.1)
    }
}

/// The members in order.
pub open spec fn sorted_members(members: Seq<(Seq<char>, Seq<char>)>) -> Seq<
    (Seq<char>, Seq<char>),
> {
    members.sort_by(|a: (Seq<char>, Seq<char>), b: (Seq<char>, Seq<char>)| member_leq(a, b))
}

/// An object with these members, sorted by name.
pub open spec fn sorted_object_text(members: Seq<(Seq<char>, Seq<char>)>) -> Seq<char> {
    object_text(sorted_members(members))
}

/// The text of a number.
pub open spec fn number_text(n: Number) -> Seq<char> {
    match n {
        Number::Unsigned(u) => text::decimal_text(u as nat),
        Number::Signed(i) => if i < 0 {
            seq!['-'] + text::decimal_text((-i) as nat)
        } else {
            text::decimal_text(i as nat)
        },
        Number::Decimal(s) => s@,
    }
}

/// The canonical text of a value: members sorted by name, no white space.
pub open spec fn canonical_text(value: Json) -> Seq<char>
    decreases value,
{
    match value {
        Json::Null => "null"@,
        Json::Bool(b) => bool_text(b),
        Json::Number(n) => number_text(n),
        Json::Str(s) => string_text(s@),
        Json::Array(items) => array_text(canonical_items(items@)),
        Json::Object(members) => sorted_object_text(canonical_members(members@)),
    }
}

/// The canonical texts of values.
pub open spec fn canonical_items(items: Seq<Json>) -> Seq<Seq<char>>
    decreases items,
{
    if items.len() == 0 {
        Seq::empty()
    } else {
        canonical_items(items.drop_last()).push(canonical_text(items.last()))
    }
}

/// The members with the canonical texts of their values, in the order they stand in.
pub open spec fn canonical_members(members: Seq<(String, Json)>) -> Seq<(Seq<char>, Seq<char>)>
    decreases members,
{
    if members.len() == 0 {
        Seq::empty()
    } else {
        canonical_members(members.drop_last()).push(
            (members.last().0@, canonical_text(members.last().1)),
        )
    }
}

/// The names and texts that a vector of strings holds.
pub open spec fn member_views(members: Seq<(String, String)>) -> Seq<(Seq<char>, Seq<char>)> {
    members.map_values(|m: (String, String)| (m.0@, m.1@))
}

// ---------------------------------------------------------------------------
// The order of members is total
// ---------------------------------------------------------------------------

pub(crate) proof fn text_leq_is_total(a: Seq<char>, b: Seq<char>)
    ensures
        text_leq(a, a),
        text_leq(a, b) || text_leq(b, a),
        text_leq(a, b) && text_leq(b, a) ==> a == b,
    decreases a.len(),
{
    if a.len() > 0 {
        text_leq_is_total(a.skip(1), a.skip(1));
        if b.len() > 0 && a[0] == b[0] {
            text_leq_is_total(a.skip(1), b.skip(1));
            if a.skip(1) == b.skip(1) {
                assert(a =~= seq![a[0]] + a.skip(1));
                assert(b =~= seq![b[0]] + b.skip(1));
            }
        }
    } else if b.len() == 0 {
        assert(a =~= b);
    }
}

proof fn text_leq_is_transitive(a: Seq<char>, b: Seq<char>, c: Seq<char>)
    requires
        text_leq(a, b),
        text_leq(b, c),
    ensures
        text_leq(a, c),
    decreases a.len(),
{
    if a.len() > 0 && b.len() > 0 && c.len() > 0 && a[0] == b[0] && b[0] == c[0] {
        text_leq_is_transitive(a.skip(1), b.skip(1), c.skip(1));
    }
}

pub(crate) proof fn member_order_is_total()
    ensures
        total_ordering(|a: (Seq<char>, Seq<char>), b: (Seq<char>, Seq<char>)| member_leq(a, b)),
{
    let r = |a: (Seq<char>, Seq<char>), b: (Seq<char>, Seq<char>)| member_leq(a, b);
    assert forall|x: (Seq<char>, Seq<char>)| #[trigger] r(x, x) by {
        text_leq_is_total(x.1, x.1);
    }
    assert forall|x: (Seq<char>, Seq<char>), y: (Seq<char>, Seq<char>)| #[trigger]
        r(x, y) && #[trigger] r(y, x) implies x == y by {
        text_leq_is_total(x.0, y.0);
        text_leq_is_total(x.1, y.1);
    }
    assert forall|x: (Seq<char>, Seq<char>), y: (Seq<char>, Seq<char>)| #[trigger]
        r(x, y) || #[trigger] r(y, x) by {
        text_leq_is_total(x.0, y.0);
        text_leq_is_total(x.1, y.1);
    }
    assert forall|
        x: (Seq<char>, Seq<char>),
        y: (Seq<char>, Seq<char>),
        z: (Seq<char>, Seq<char>),
    | #[trigger]
        r(x, y) && #[trigger] r(y, z) implies r(x, z) by {
        text_leq_is_total(x.0, y.0);
        text_leq_is_total(y.0, z.0);
        if x.0 == y.0 && y.0 == z.0 {
            text_leq_is_transitive(x.1, y.1, z.1);
        } else {
            text_leq_is_transitive(x.0, y.0, z.0);
        }
    }
}

// ---------------------------------------------------------------------------
// Writing
// ---------------------------------------------------------------------------

/// A text as a JSON string.
pub fn string_json(s: &str) -> (r: String)
    ensures
        r@ == string_text(s@),
{
    quoted(s)
}

/// A truth value as JSON.
pub fn bool_json(b: bool) -> (r: String)
    ensures
        r@ == bool_text(b),
{
    if b {
        "true".to_owned()
    } else {
        "false".to_owned()
    }
}

/// The parts with a comma between each two.
fn join_commas(parts: &Vec<String>) -> (r: String)
    ensures
        r@ == comma_joined(text::texts(parts@)),
{
    let ghost views = text::texts(parts@);
    let mut r = String::new();
    let mut i: usize = 0;
    while i < parts.len()
        invariant
            i <= parts.len(),
            views == text::texts(parts@),
            r@ == comma_joined(views.take(i as int)),
        decreases parts.len() - i,
    {
        proof {
            assert(views.take(i + 1).drop_last() =~= views.take(i as int));
            assert(views.take(i + 1).last() == parts[i as int]@);
        }
        if i > 0 {
            r.push(',');
        }
        r.append(parts[i].as_str());
        i += 1;
        assert(r@ =~= comma_joined(views.take(i as int)));
    }
    assert(views.take(i as int) =~= views);
    r
}

/// An array of values, given by their texts.
pub fn array_json(items: &Vec<String>) -> (r: String)
    ensures
        r@ == array_text(text::texts(items@)),
{
    let mut r = String::new();
    r.push('[');
    r.append(join_commas(items).as_str());
    r.push(']');
    assert(r@ =~= array_text(text::texts(items@)));
    r
}

/// A list of texts as an array of strings.
pub fn string_array_json(items: &Vec<String>) -> (r: String)
    ensures
        r@ == string_array_text(text::texts(items@)),
{
    let mut parts: Vec<String> = Vec::new();
    let mut i: usize = 0;
    while i < items.len()
        invariant
            i == parts.len() <= items.len(),
            forall|k: int| 0 <= k < i ==> parts[k]@ == string_text(items[k]@),
        decreases items.len() - i,
    {
        parts.push(quoted(items[i].as_str()));
        i += 1;
    }
    assert(text::texts(parts@) =~= text::texts(items@).map_values(
        |s: Seq<char>| string_text(s),
    ));
    array_json(&parts)
}

/// An object with these members in this order, each given by its name and the text of its value.
pub fn object_json(members: &Vec<(String, String)>) -> (r: String)
    ensures
        r@ == object_text(member_views(members@)),
{
    let mut parts: Vec<String> = Vec::new();
    let mut i: usize = 0;
    while i < members.len()
        invariant
            i == parts.len() <= members.len(),
            forall|k: int|
                0 <= k < i ==> parts[k]@ == member_text((members[k].0@, members[k].1@)),
        decreases members.len() - i,
    {
        let mut part = quoted(members[i].0.as_str());
        part.push(':');
        part.append(members[i].1.as_str());
        assert(part@ =~= member_text((members[i as int].0@, members[i as int].1@)));
        parts.push(part);
        i += 1;
    }
    assert(text::texts(parts@) =~= members_text(member_views(members@)));
    let mut r = String::new();
    r.push('{');
    r.append(join_commas(&parts).as_str());
    r.push('}');
    assert(r@ =~= object_text(member_views(members@)));
    r
}

fn leq_text(a: &Vec<char>, b: &Vec<char>) -> (leq: bool)
    ensures
        leq == text_leq(a@, b@),
{
    let mut i: usize = 0;
    assert(a@.skip(0) =~= a@);
    assert(b@.skip(0) =~= b@);
    while i < a.len()
        invariant
            i <= a.len(),
            i <= b.len(),
            text_leq(a@, b@) == text_leq(a@.skip(i as int), b@.skip(i as int)),
        decreases a.len() - i,
    {
        if i == b.len() {
            return false;
        }
        if a[i] != b[i] {
            return a[i] < b[i];
        }
        assert(a@.skip(i as int).skip(1) =~= a@.skip(i + 1));
        assert(b@.skip(i as int).skip(1) =~= b@.skip(i + 1));
        i += 1;
    }
    true
}

fn leq_member(a: &(String, String), b: &(String, String)) -> (leq: bool)
    ensures
        leq == member_leq((a.0@, a.1@), (b.0@, b.1@)),
{
    if a.0 == b.0 {
        leq_text(&chars_of(a.1.as_str()), &chars_of(b.1.as_str()))
    } else {
        leq_text(&chars_of(a.0.as_str()), &chars_of(b.0.as_str()))
    }
}

/// Puts a member into its place among sorted ones.
fn insert_sorted(members: &mut Vec<(String, String)>, member: (String, String))
    requires
        sorted_by(
            member_views(old(members)@),
            |a: (Seq<char>, Seq<char>), b: (Seq<char>, Seq<char>)| member_leq(a, b),
        ),
    ensures
        sorted_by(
            member_views(final(members)@),
            |a: (Seq<char>, Seq<char>), b: (Seq<char>, Seq<char>)| member_leq(a, b),
        ),
        member_views(final(members)@).to_multiset() == member_views(
            old(members)@,
        ).to_multiset().insert((member.0@, member.1@)),
{
    let ghost r = |a: (Seq<char>, Seq<char>), b: (Seq<char>, Seq<char>)| member_leq(a, b);
    let ghost views = member_views(members@);
    let ghost new = (member.0@, member.1@);
    let mut at: usize = 0;
    while at < members.len() && leq_member(&members[at], &member)
        invariant
            at <= members.len(),
            views == member_views(members@),
            new == (member.0@, member.1@),
            forall|k: int| 0 <= k < at ==> member_leq(views[k], new),
        decreases members.len() - at,
    {
        at += 1;
    }
    proof {
        member_order_is_total();
        if at < members.len() {
            assert(r(views[at as int], new) || r(new, views[at as int]));
            assert forall|k: int| at <= k < members.len() implies member_leq(new, views[k]) by {
                if k > at {
                    assert(r(views[at as int], views[k]));
                    assert(r(new, views[at as int]));
                }
            }
        }
    }
    members.insert(at, member);
    proof {
        let after = member_views(members@);
        assert(after =~= views.insert(at as int, new));
        assert forall|i: int, j: int| 0 <= i < j < after.len() implies #[trigger] r(
            after[i],
            after[j],
        ) by {
            if i < at && j > at {
                assert(r(views[i], views[j - 1]));
            } else if j < at {
                assert(r(views[i], views[j]));
            } else if i > at {
                assert(r(views[i - 1], views[j - 1]));
            }
        }
        assert(after.remove(at as int) =~= views);
        broadcast use vstd::seq_lib::group_to_multiset_ensures;

        assert(views.to_multiset() =~= after.to_multiset().remove(new));
        assert(after.to_multiset().count(new) > 0) by {
            assert(after[at as int] == new);
            assert(after.contains(new));
        }
        assert(after.to_multiset() =~= views.to_multiset().insert(new));
    }
}

/// An object with these members, sorted by name, each given by its name and the text of its value.
pub fn sorted_object_json(members: Vec<(String, String)>) -> (r: String)
    ensures
        r@ == sorted_object_text(member_views(members@)),
{
    let ghost all = member_views(members@);
    let ghost r = |a: (Seq<char>, Seq<char>), b: (Seq<char>, Seq<char>)| member_leq(a, b);
    let mut left = members;
    let mut sorted: Vec<(String, String)> = Vec::new();
    proof {
        broadcast use vstd::seq_lib::group_to_multiset_ensures;

        assert(member_views(sorted@) =~= Seq::empty());
        assert(member_views(sorted@).to_multiset().add(member_views(left@).to_multiset())
            =~= all.to_multiset());
    }
    while left.len() > 0
        invariant
            sorted_by(
                member_views(sorted@),
                |a: (Seq<char>, Seq<char>), b: (Seq<char>, Seq<char>)| member_leq(a, b),
            ),
            member_views(sorted@).to_multiset().add(member_views(left@).to_multiset())
                == all.to_multiset(),
        decreases left.len(),
    {
        let ghost before = member_views(left@);
        let ghost done = member_views(sorted@);
        if let Some(member) = left.pop() {
            let ghost view = (member.0@, member.1@);
            insert_sorted(&mut sorted, member);
            proof {
                broadcast use vstd::seq_lib::group_to_multiset_ensures;

                assert(before =~= member_views(left@).push(view));
                assert(member_views(sorted@).to_multiset().add(member_views(left@).to_multiset())
                    =~= done.to_multiset().add(before.to_multiset()));
            }
        }
    }
    proof {
        broadcast use vstd::seq_lib::group_to_multiset_ensures;

        assert(member_views(left@) =~= Seq::empty());
        assert(member_views(sorted@).to_multiset() =~= all.to_multiset());
        member_order_is_total();
        all.lemma_sort_by_ensures(r);
        vstd::seq_lib::lemma_sorted_unique(member_views(sorted@), all.sort_by(r), r);
    }
    object_json(&sorted)
}

/// Produce canonical JSON (sorted keys, no white space), the form that Matrix signs.
pub fn canonicalize_json(value: &Json) -> (r: String)
    ensures
        r@ == canonical_text(*value),
    decreases value,
{
    match value {
        Json::Null => "null".to_owned(),
        Json::Bool(b) => bool_json(*b),
        Json::Number(n) => number_json(n),
        Json::Str(s) => quoted(s.as_str()),
        Json::Array(items) => {
            let mut parts: Vec<String> = Vec::new();
            let mut i: usize = 0;
            while i < items.len()
                invariant
                    i == parts.len() <= items.len(),
                    *value == Json::Array(*items),
                    text::texts(parts@) == canonical_items(items@.take(i as int)),
                decreases items.len() - i,
            {
                assert(decreases_to!(*value => value->Array_0));
                assert(decreases_to!(*items => items@));
                assert(decreases_to!(items@ => items@[i as int]));
                parts.push(canonicalize_json(&items[i]));
                proof {
                    assert(items@.take(i + 1).drop_last() =~= items@.take(i as int));
                }
                i += 1;
                assert(text::texts(parts@) =~= canonical_items(
                    items@.take(i as int),
                ));
            }
            assert(items@.take(i as int) =~= items@);
            array_json(&parts)
        },
        Json::Object(members) => {
            let mut parts: Vec<(String, String)> = Vec::new();
            let mut i: usize = 0;
            while i < members.len()
                invariant
                    i <= members.len(),
                    *value == Json::Object(*members),
                    member_views(parts@) == canonical_members(members@.take(i as int)),
                decreases members.len() - i,
            {
                assert(decreases_to!(*value => value->Object_0));
                assert(decreases_to!(*members => members@));
                assert(decreases_to!(members@ => members@[i as int]));
                assert(decreases_to!(members@[i as int] => members@[i as int].1));
                parts.push((members[i].0.clone(), canonicalize_json(&members[i].1)));
                assert(members@.take(i + 1).drop_last() =~= members@.take(i as int));
                i += 1;
                assert(member_views(parts@) =~= canonical_members(members@.take(i as int)));
            }
            assert(members@.take(i as int) =~= members@);
            sorted_object_json(parts)
        },
    }
}

fn number_json(n: &Number) -> (r: String)
    ensures
        r@ == number_text(*n),
{
    match n {
        Number::Unsigned(u) => decimal(*u),
        Number::Signed(i) => if *i < 0 {
            let m: u64 = (-(*i + 1)) as u64 + 1;
            let mut r = "-".to_owned();
            r.append(decimal(m).as_str());
            proof {
                reveal_strlit("-");
                assert(r@ =~= number_text(*n));
            }
            r
        } else {
            decimal(*i as u64)
        },
        Number::Decimal(s) => s.clone(),
    }
}

// ---------------------------------------------------------------------------
// Reading
// ---------------------------------------------------------------------------

/// What stands at one place of a JSON text.
pub enum JsonNode {
    /// A string.
    Text(String),
    /// A whole number from 0 up to the largest of 64 bits.
    Unsigned(u64),
    /// An object, with the names of its members.
    Object(Vec<String>),
    /// Anything else.
    Other,
}

/// What stands at one place of a JSON text, with texts as sequences.
pub enum NodeView {
    Text(Seq<char>),
    Unsigned(u64),
    Object(Seq<Seq<char>>),
    Other,
}

impl View for JsonNode {
    type V = NodeView;

    open spec fn view(&self) -> NodeView {
        match *self {
            JsonNode::Text(s) => NodeView::Text(s@),
            JsonNode::Unsigned(n) => NodeView::Unsigned(n),
            JsonNode::Object(names) => NodeView::Object(text::texts(names@)),
            JsonNode::Other => NodeView::Other,
        }
    }
}

/// A name as a token of a JSON Pointer.
pub open spec fn pointer_token(name: Seq<char>) -> Seq<char>
    decreases name.len(),
{
    if name.len() == 0 {
        name
    } else if name.last() == '~' {
        pointer_token(name.drop_last()) + seq!['~', '0']
    } else if name.last() == '/' {
        pointer_token(name.drop_last()) + seq!['~', '1']
    } else {
        pointer_token(name.drop_last()).push(name.last())
    }
}

/// Writes a name as a token of a JSON Pointer.
pub fn token_of(name: &str) -> (token: String)
    ensures
        token@ == pointer_token(name@),
{
    let chars = chars_of(name);
    let mut token = String::new();
    let mut i: usize = 0;
    assert(chars@.take(0) =~= Seq::empty());
    while i < chars.len()
        invariant
            i <= chars.len(),
            chars@ == name@,
            token@ == pointer_token(chars@.take(i as int)),
        decreases chars.len() - i,
    {
        let c: char = chars[i];
        assert(chars@.take(i + 1).drop_last() =~= chars@.take(i as int));
        if c == '~' {
            token.push('~');
            token.push('0');
        } else if c == '/' {
            token.push('~');
            token.push('1');
        } else {
            token.push(c);
        }
        i += 1;
        assert(token@ =~= pointer_token(chars@.take(i as int)));
    }
    assert(chars@.take(i as int) =~= chars@);
    token
}

/// What `serde_json` finds in a JSON text at the place that a JSON Pointer names, or the message
/// of its error where the bytes are no JSON text.
pub uninterp spec fn json_node(bytes: Seq<u8>, pointer: Seq<char>) -> Result<
    Option<NodeView>,
    Seq<char>,
>;

/// What stands at one place of a JSON text, if anything does, with texts as sequences.
pub open spec fn node_view(node: Option<JsonNode>) -> Option<NodeView> {
    match node {
        Some(n) => Some(n@),
        None => None,
    }
}

/// `serde_json::from_slice` to a `serde_json::Value`, and `Value::pointer` on it: what stands at
/// the place that the pointer names, if anything does. In the text of a value that is nested at most
/// 127 deep and has no name twice in an object, it is what the value has there, as long as the way
/// leads through no array.
#[verifier::external_body]
fn node_at(bytes: &[u8], pointer: &str) -> (r: Result<Option<JsonNode>, String>)
    ensures
        match r {
            Ok(None) => json_node(bytes@, pointer@) == Ok::<Option<NodeView>, Seq<char>>(None),
            Ok(Some(n)) => json_node(bytes@, pointer@) == Ok::<Option<NodeView>, Seq<char>>(
                Some(n@),
            ),
            Err(e) => json_node(bytes@, pointer@) == Err::<Option<NodeView>, Seq<char>>(e@),
        },
        forall|tree: JsonTree, path: Seq<Seq<char>>|
            #![trigger json_tree::written(tree), json_tree::pointer_text(path)]
            bytes@ == encode_utf8(json_tree::written(tree)) && pointer@ == json_tree::pointer_text(
                path,
            ) && json_tree::fits(tree, 127) && json_tree::leads_through_objects(tree, path)
                ==> r is Ok && json_tree::shows(node_view(r->Ok_0), json_tree::at(tree, path)),
{
    let value: serde_json::Value = match serde_json::from_slice(bytes) {
        Ok(value) => value,
        Err(e) => return Err(e.to_string()),
    };
    Ok(match value.pointer(pointer) {
        None => None,
        Some(serde_json::Value::String(s)) => Some(JsonNode::Text(s.clone())),
        Some(serde_json::Value::Object(m)) => Some(JsonNode::Object(m.keys().cloned().collect())),
        Some(other) => match other.as_u64() {
            Some(n) => Some(JsonNode::Unsigned(n)),
            None => Some(JsonNode::Other),
        },
    })
}

/// The string at a place of a JSON text, where one stands there.
pub open spec fn string_at(bytes: Seq<u8>, pointer: Seq<char>) -> Option<Seq<char>> {
    match json_node(bytes, pointer) {
        Ok(Some(NodeView::Text(s))) => Some(s),
        _ => None,
    }
}

/// The whole number at a place of a JSON text, where one stands there.
pub open spec fn number_at(bytes: Seq<u8>, pointer: Seq<char>) -> Option<u64> {
    match json_node(bytes, pointer) {
        Ok(Some(NodeView::Unsigned(n))) => Some(n),
        _ => None,
    }
}

/// The names of the members of the object at a place of a JSON text, where one stands there.
pub open spec fn names_at(bytes: Seq<u8>, pointer: Seq<char>) -> Option<Seq<Seq<char>>> {
    match json_node(bytes, pointer) {
        Ok(Some(NodeView::Object(names))) => Some(names),
        _ => None,
    }
}

/// Why the bytes are no JSON text, if they are none.
pub open spec fn json_error(bytes: Seq<u8>) -> Option<Seq<char>> {
    match json_node(bytes, ""@) {
        Ok(_) => None,
        Err(e) => Some(e),
    }
}

/// Whether anything stands at a place of a JSON text.
pub open spec fn stands_in_json(bytes: Seq<u8>, pointer: Seq<char>) -> bool {
    json_node(bytes, pointer) matches Ok(Some(_))
}

/// A text that may be missing, as a sequence that may be missing.
pub open spec fn opt_text(s: Option<String>) -> Option<Seq<char>> {
    match s {
        Some(s) => Some(s@),
        None => None,
    }
}

/// The string at a place of a JSON text, where one stands there.
pub fn read_string(bytes: &[u8], pointer: &str) -> (r: Option<String>)
    ensures
        opt_text(r) == string_at(bytes@, pointer@),
        forall|tree: JsonTree, path: Seq<Seq<char>>|
            #![trigger json_tree::written(tree), json_tree::pointer_text(path)]
            bytes@ == encode_utf8(json_tree::written(tree)) && pointer@ == json_tree::pointer_text(
                path,
            ) && json_tree::fits(tree, 127) && json_tree::leads_through_objects(tree, path)
                ==> opt_text(r) == json_tree::text_in(tree, path),
{
    match node_at(bytes, pointer) {
        Ok(Some(JsonNode::Text(s))) => Some(s),
        _ => None,
    }
}

/// The whole number at a place of a JSON text, where one stands there.
pub fn read_number(bytes: &[u8], pointer: &str) -> (r: Option<u64>)
    ensures
        r == number_at(bytes@, pointer@),
{
    match node_at(bytes, pointer) {
        Ok(Some(JsonNode::Unsigned(n))) => Some(n),
        _ => None,
    }
}

/// The names of the members of the object at a place of a JSON text, where one stands there.
pub fn read_names(bytes: &[u8], pointer: &str) -> (r: Option<Vec<String>>)
    ensures
        match r {
            Some(names) => names_at(bytes@, pointer@) == Some(
                text::texts(names@),
            ),
            None => names_at(bytes@, pointer@) is None,
        },
{
    match node_at(bytes, pointer) {
        Ok(Some(JsonNode::Object(names))) => Some(names),
        _ => None,
    }
}

/// Why the bytes are no JSON text, if they are none.
pub fn read_error(bytes: &[u8]) -> (r: Option<String>)
    ensures
        opt_text(r) == json_error(bytes@),
        forall|tree: JsonTree|
            bytes@ == encode_utf8(#[trigger] json_tree::written(tree)) && json_tree::fits(tree, 127)
                ==> r is None,
{
    proof {
        reveal_strlit("");
        assert(json_tree::pointer_text(Seq::empty()) =~= ""@);
    }
    match node_at(bytes, "") {
        Ok(_) => None,
        Err(e) => Some(e),
    }
}

/// Whether anything stands at a place of a JSON text.
pub fn read_presence(bytes: &[u8], pointer: &str) -> (there: bool)
    ensures
        there == stands_in_json(bytes@, pointer@),
{
    match node_at(bytes, pointer) {
        Ok(Some(_)) => true,
        _ => false,
    }
}

/// What `serde_json` reads out of a JSON text as a list of strings, where it is one.
pub uninterp spec fn string_list(json: Seq<char>) -> Option<Seq<Seq<char>>>;

/// `serde_json::from_str` to a `Vec<String>`; a list written as an array of strings reads back as
/// itself.
#[verifier::external_body]
fn list_from_json(json: &str) -> (r: Option<Vec<String>>)
    ensures
        match r {
            Some(items) => string_list(json@) == Some(text::texts(items@)),
            None => string_list(json@) is None,
        },
        forall|items: Seq<Seq<char>>|
            json@ == #[trigger] string_array_text(items) ==> r is Some
                && text::texts(r->0@) == items,
{
    serde_json::from_str(json).ok()
}

/// The list of strings that a stored JSON text holds: an empty one where nothing is stored, or
/// something else.
pub open spec fn stored_list(json: Option<Seq<char>>) -> Seq<Seq<char>> {
    match json {
        Some(json) => match string_list(json) {
            Some(items) => items,
            None => Seq::empty(),
        },
        None => Seq::empty(),
    }
}

/// Reads a stored list of strings.
pub fn read_stored_list(json: &Option<String>) -> (items: Vec<String>)
    ensures
        text::texts(items@) == stored_list(opt_text(*json)),
        forall|list: Seq<Seq<char>>|
            opt_text(*json) == Some(#[trigger] string_array_text(list)) ==> text::texts(items@) == list,
{
    match json {
        Some(json) => match list_from_json(json.as_str()) {
            Some(items) => items,
            None => {
                let items: Vec<String> = Vec::new();
                assert(text::texts(items@) =~= Seq::empty());
                items
            },
        },
        None => {
            let items: Vec<String> = Vec::new();
            assert(text::texts(items@) =~= Seq::empty());
            items
        },
    }
}

// ---------------------------------------------------------------------------
// Signing
// ---------------------------------------------------------------------------

/// Whether a member is signed along with its object: all are but `signatures` and `unsigned`.
pub open spec fn is_signed(member: (Seq<char>, Seq<char>)) -> bool {
    member.0 != "signatures"@ && member.0 != "unsigned"@
}

/// The text of a value that is signed: the canonical text, without the members of an object that
/// hold its signatures and unsigned data.
pub open spec fn signable_text(value: Json) -> Seq<char> {
    match value {
        Json::Object(members) => sorted_object_text(
            canonical_members(members@).filter(|m: (Seq<char>, Seq<char>)| is_signed(m)),
        ),
        _ => canonical_text(value),
    }
}

/// The text of a value that is signed.
pub fn signable_json(value: &Json) -> (r: String)
    ensures
        r@ == signable_text(*value),
{
    let members = match value {
        Json::Object(members) => members,
        _ => {
            return canonicalize_json(value);
        },
    };
    let ghost signed = |m: (Seq<char>, Seq<char>)| is_signed(m);
    let mut parts: Vec<(String, String)> = Vec::new();
    let mut i: usize = 0;
    proof {
        reveal(Seq::filter);
        assert(members@.take(0) =~= Seq::empty());
        assert(canonical_members(members@.take(0)).filter(signed) =~= Seq::empty());
        assert(member_views(parts@) =~= Seq::empty());
    }
    while i < members.len()
        invariant
            i <= members.len(),
            signed == (|m: (Seq<char>, Seq<char>)| is_signed(m)),
            member_views(parts@) == canonical_members(members@.take(i as int)).filter(signed),
        decreases members.len() - i,
    {
        let name = members[i].0.clone();
        proof {
            assert(members@.take(i + 1).drop_last() =~= members@.take(i as int));
            let all = canonical_members(members@.take(i + 1));
            let member = (name@, canonical_text(members@[i as int].1));
            assert(all == canonical_members(members@.take(i as int)).push(member));
            reveal(Seq::filter);
            assert(all.drop_last() =~= canonical_members(members@.take(i as int)));
            assert(all.last() == member);
        }
        if !text::same_text(name.as_str(), "signatures") && !text::same_text(
            name.as_str(),
            "unsigned",
        ) {
            parts.push((name, canonicalize_json(&members[i].1)));
        }
        i += 1;
        assert(member_views(parts@) =~= canonical_members(members@.take(i as int)).filter(signed));
    }
    assert(members@.take(i as int) =~= members@);
    sorted_object_json(parts)
}

/// Members that are all signed stay as they are.
pub proof fn all_signed_is_unfiltered(members: Seq<(Seq<char>, Seq<char>)>)
    requires
        forall|i: int| 0 <= i < members.len() ==> is_signed(#[trigger] members[i]),
    ensures
        members.filter(|m: (Seq<char>, Seq<char>)| is_signed(m)) == members,
    decreases members.len(),
{
    reveal(Seq::filter);
    if members.len() > 0 {
        all_signed_is_unfiltered(members.drop_last());
        assert(members =~= members.drop_last().push(members.last()));
    }
}

// ---------------------------------------------------------------------------
// Laws
// ---------------------------------------------------------------------------

/// What is signed of an object does not depend on its signatures and unsigned data: two objects
/// with the same other members are signed alike.
pub proof fn signing_ignores_signatures(
    members: Vec<(String, Json)>,
    others: Vec<(String, Json)>,
)
    requires
        canonical_members(members@).filter(|m: (Seq<char>, Seq<char>)| is_signed(m))
            == canonical_members(others@).filter(|m: (Seq<char>, Seq<char>)| is_signed(m)),
    ensures
        signable_text(Json::Object(members)) == signable_text(Json::Object(others)),
{
}

/// The canonical text of an object does not depend on the order in which its members stand.
pub proof fn canonical_order_does_not_matter(
    members: Vec<(String, Json)>,
    others: Vec<(String, Json)>,
)
    requires
        canonical_members(members@).to_multiset() == canonical_members(others@).to_multiset(),
    ensures
        canonical_text(Json::Object(members)) == canonical_text(Json::Object(others)),
{
    let r = |a: (Seq<char>, Seq<char>), b: (Seq<char>, Seq<char>)| member_leq(a, b);
    member_order_is_total();
    canonical_members(members@).lemma_sort_by_ensures(r);
    canonical_members(others@).lemma_sort_by_ensures(r);
    vstd::seq_lib::lemma_sorted_unique(
        canonical_members(members@).sort_by(r),
        canonical_members(others@).sort_by(r),
        r,
    );
}

/// Values that are joined are all there, in order, with a comma between any two.
pub proof fn joined_values_are_all_there(items: Seq<Seq<char>>, item: Seq<char>)
    ensures
        comma_joined(Seq::empty()) == Seq::<char>::empty(),
        comma_joined(seq![item]) == item,
        items.len() > 0 ==> comma_joined(items.push(item)) == comma_joined(items) + seq![',']
            + item,
{
    let more = items.push(item);
    let one = seq![item];
    assert(one.drop_last() =~= Seq::empty());
    assert(comma_joined(one) =~= item);
    assert(more.drop_last() =~= items);
    assert(more.last() == item);
    if items.len() > 0 {
        assert(comma_joined(more) =~= comma_joined(items) + seq![','] + item);
    }
}

/// Whether one text comes before another, or is the same: where they first differ, it has the smaller
/// character, or it has ended.
pub open spec fn comes_first(a: Seq<char>, b: Seq<char>) -> bool {
    exists|k: int|
        #![trigger a.take(k), b.take(k)]
        0 <= k <= a.len() && k <= b.len() && a.take(k) == b.take(k) && (k == a.len() || (k < b.len()
            && a[k] < b[k]))
}

proof fn leq_comes_first(a: Seq<char>, b: Seq<char>) -> (k: int)
    requires
        text_leq(a, b),
    ensures
        0 <= k <= a.len(),
        k <= b.len(),
        a.take(k) == b.take(k),
        k == a.len() || (k < b.len() && a[k] < b[k]),
    decreases a.len(),
{
    if a.len() == 0 || a[0] != b[0] {
        assert(a.take(0) =~= b.take(0));
        0
    } else {
        let k = leq_comes_first(a.skip(1), b.skip(1));
        assert forall|i: int| 0 <= i < k + 1 implies a[i] == b[i] by {
            if i > 0 {
                assert(a.skip(1).take(k)[i - 1] == b.skip(1).take(k)[i - 1]);
            }
        }
        assert(a.take(k + 1) =~= b.take(k + 1));
        k + 1
    }
}

/// In a sorted object all the members are there, as often as they were, by ascending name.
pub proof fn sorted_members_ascend(members: Seq<(Seq<char>, Seq<char>)>) -> (sorted: Seq<
    (Seq<char>, Seq<char>),
>)
    ensures
        sorted_object_text(members) == object_text(sorted),
        sorted.to_multiset() == members.to_multiset(),
        forall|i: int, j: int|
            #![trigger sorted[i], sorted[j]]
            0 <= i < j < sorted.len() ==> comes_first(sorted[i].0, sorted[j].0),
{
    let r = |a: (Seq<char>, Seq<char>), b: (Seq<char>, Seq<char>)| member_leq(a, b);
    member_order_is_total();
    members.lemma_sort_by_ensures(r);
    let sorted = members.sort_by(r);
    assert forall|i: int, j: int|
        #![trigger sorted[i], sorted[j]]
        0 <= i < j < sorted.len() implies comes_first(sorted[i].0, sorted[j].0) by {
        assert(r(sorted[i], sorted[j]));
        let a = sorted[i].0;
        let b = sorted[j].0;
        text_leq_is_total(a, b);
        let k = leq_comes_first(a, b);
        assert(a.take(k) == b.take(k));
    }
    sorted
}

/// What is signed of an object is every member but `signatures` and `unsigned`, and neither of these.
pub proof fn all_but_signatures_is_signed(members: Vec<(String, Json)>) -> (signed: Seq<
    (Seq<char>, Seq<char>),
>)
    ensures
        signable_text(Json::Object(members)) == sorted_object_text(signed),
        forall|i: int|
            0 <= i < members@.len() && (#[trigger] members@[i]).0@ != "signatures"@
                && members@[i].0@ != "unsigned"@ ==> signed.contains(
                (members@[i].0@, canonical_text(members@[i].1)),
            ),
        forall|k: int|
            0 <= k < signed.len() ==> (#[trigger] signed[k]).0 != "signatures"@ && signed[k].0
                != "unsigned"@ && exists|i: int|
                0 <= i < members@.len() && (#[trigger] members@[i]).0@ == signed[k].0
                    && canonical_text(members@[i].1) == signed[k].1,
{
    let keep = |m: (Seq<char>, Seq<char>)| is_signed(m);
    let all = canonical_members(members@);
    let signed = all.filter(keep);
    canonical_members_are(members@);
    assert forall|i: int|
        0 <= i < members@.len() && (#[trigger] members@[i]).0@ != "signatures"@ && members@[i].0@
            != "unsigned"@ implies signed.contains(
        (members@[i].0@, canonical_text(members@[i].1)),
    ) by {
        assert(keep(all[i]));
        all.lemma_filter_contains(keep, i);
    }
    assert forall|k: int| 0 <= k < signed.len() implies (#[trigger] signed[k]).0 != "signatures"@
        && signed[k].0 != "unsigned"@ && exists|i: int|
        0 <= i < members@.len() && (#[trigger] members@[i]).0@ == signed[k].0 && canonical_text(
            members@[i].1,
        ) == signed[k].1 by {
        all.lemma_filter_pred(keep, k);
        assert(signed.contains(signed[k]));
        all.lemma_filter_contains_rev(keep, signed[k]);
        let i = choose|i: int| 0 <= i < all.len() && all[i] == signed[k];
        assert(members@[i].0@ == signed[k].0);
    }
    signed
}

proof fn canonical_members_are(members: Seq<(String, Json)>)
    ensures
        canonical_members(members).len() == members.len(),
        forall|i: int|
            0 <= i < members.len() ==> #[trigger] canonical_members(members)[i] == (
                members[i].0@,
                canonical_text(members[i].1),
            ),
    decreases members.len(),
{
    if members.len() > 0 {
        canonical_members_are(members.drop_last());
    }
}

} // verus!
