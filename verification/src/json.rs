//! JSON values, and reading them.

use crate::name_map::{ascending, lookup, named_at};
use crate::text::{precedes, precedes_irreflexive, same_text};
use vstd::prelude::*;

verus! {

/// A JSON value.
#[derive(Debug, PartialEq)]
pub enum Json {
    Null,
    Bool(bool),
    Number(JsonNumber),
    Text(String),
    List(Vec<Json>),
    Object(Vec<(String, Json)>),
}

/// A JSON number: a natural number, a negative integer, or the bits of an IEEE 754 double.
#[derive(Clone, Copy, Debug, PartialEq, Eq, Structural)]
pub enum JsonNumber {
    Unsigned(u64),
    Negative(i64),
    Float(u64),
}

/// A JSON value as mathematics has it; an object is the sequence of its members.
pub enum JsonTree {
    Null,
    Bool(bool),
    Number(JsonNumber),
    Text(Seq<char>),
    List(Seq<JsonTree>),
    Object(Seq<(Seq<char>, JsonTree)>),
}

/// The member at `i` has the given name, and none before it has.
pub open spec fn first_member(members: Seq<(Seq<char>, JsonTree)>, name: Seq<char>, i: int) -> bool {
    &&& 0 <= i < members.len()
    &&& members[i].0 == name
    &&& forall|j: int| 0 <= j < i ==> (#[trigger] members[j]).0 != name
}

/// The first member of an object under a name.
pub open spec fn member(tree: JsonTree, name: Seq<char>) -> Option<JsonTree> {
    match tree {
        JsonTree::Object(members) => if exists|i: int| first_member(members, name, i) {
            Some(members[choose|i: int| first_member(members, name, i)].1)
        } else {
            None
        },
        _ => None,
    }
}

proof fn lemma_member_at(members: Seq<(Seq<char>, JsonTree)>, name: Seq<char>, i: int)
    requires
        first_member(members, name, i),
    ensures
        member(JsonTree::Object(members), name) == Some(members[i].1),
{
    let k = choose|k: int| first_member(members, name, k);
    assert(first_member(members, name, k));
    if k < i {
        assert(members[k].0 != name);
    }
    if i < k {
        assert(members[i].0 != name);
    }
}

/// The text of a value that is one.
pub open spec fn text_in(tree: Option<JsonTree>) -> Option<Seq<char>> {
    match tree {
        Some(JsonTree::Text(text)) => Some(text),
        _ => None,
    }
}

/// The number in a value that is one.
pub open spec fn number_in(tree: Option<JsonTree>) -> Option<JsonNumber> {
    match tree {
        Some(JsonTree::Number(number)) => Some(number),
        _ => None,
    }
}

/// The integer in a value that is one and fits 64 bits with a sign.
pub open spec fn integer_in(tree: Option<JsonTree>) -> Option<i64> {
    match tree {
        Some(JsonTree::Number(JsonNumber::Unsigned(n))) => if n <= i64::MAX {
            Some(n as i64)
        } else {
            None
        },
        Some(JsonTree::Number(JsonNumber::Negative(n))) => Some(n),
        _ => None,
    }
}

/// The natural number in a value that is one.
pub open spec fn natural_in(tree: Option<JsonTree>) -> Option<u64> {
    match tree {
        Some(JsonTree::Number(JsonNumber::Unsigned(n))) => Some(n),
        _ => None,
    }
}

/// The values of items.
pub open spec fn item_trees(items: Seq<Json>) -> Seq<JsonTree> {
    items.map_values(|item: Json| item.tree())
}

/// The names and values of members.
pub open spec fn member_trees(members: Seq<(String, Json)>) -> Seq<(Seq<char>, JsonTree)> {
    members.map_values(|member: (String, Json)| (member.0@, member.1.tree()))
}

/// The value of an optional JSON value.
pub open spec fn tree_of(value: Option<&Json>) -> Option<JsonTree> {
    match value {
        Some(json) => Some(json.tree()),
        None => None,
    }
}

impl Json {
    /// The value as mathematics has it.
    pub open spec fn tree(self) -> JsonTree
        decreases self,
    {
        match self {
            Json::Null => JsonTree::Null,
            Json::Bool(value) => JsonTree::Bool(value),
            Json::Number(number) => JsonTree::Number(number),
            Json::Text(text) => JsonTree::Text(text@),
            Json::List(items) => JsonTree::List(
                Seq::new(
                    items@.len(),
                    |i: int|
                        if 0 <= i < items@.len() {
                            items@[i].tree()
                        } else {
                            JsonTree::Null
                        },
                ),
            ),
            Json::Object(members) => JsonTree::Object(
                Seq::new(
                    members@.len(),
                    |i: int|
                        if 0 <= i < members@.len() {
                            (members@[i].0@, members@[i].1.tree())
                        } else {
                            (Seq::empty(), JsonTree::Null)
                        },
                ),
            ),
        }
    }

    /// The first member under a name.
    pub fn get(&self, name: &str) -> (found: Option<&Json>)
        ensures
            tree_of(found) == member(self.tree(), name@),
    {
        match self {
            Json::Object(members) => {
                let ghost trees = self.tree()->Object_0;
                for i in 0..members.len()
                    invariant
                        trees.len() == members@.len(),
                        self.tree() == JsonTree::Object(trees),
                        forall|j: int|
                            0 <= j < members@.len() ==> #[trigger] trees[j] == (
                                members@[j].0@,
                                members@[j].1.tree(),
                            ),
                        forall|j: int| 0 <= j < i ==> (#[trigger] trees[j]).0 != name@,
                {
                    assert(trees[i as int].0 == members@[i as int].0@);
                    if same_text(members[i].0.as_str(), name) {
                        proof {
                            lemma_member_at(trees, name@, i as int);
                        }
                        return Some(&members[i].1);
                    }
                }
                None
            },
            _ => None,
        }
    }

    /// The text, if this is one.
    pub fn as_text(&self) -> (text: Option<&String>)
        ensures
            match text {
                Some(text) => text_in(Some(self.tree())) == Some(text@),
                None => text_in(Some(self.tree())) is None,
            },
    {
        match self {
            Json::Text(text) => Some(text),
            _ => None,
        }
    }

    /// The truth value, if this is one.
    pub fn as_bool(&self) -> (value: Option<bool>)
        ensures
            match value {
                Some(value) => self.tree() == JsonTree::Bool(value),
                None => !(self.tree() is Bool),
            },
    {
        match self {
            Json::Bool(value) => Some(*value),
            _ => None,
        }
    }

    /// The items, if this is a list.
    pub fn as_list(&self) -> (items: Option<&Vec<Json>>)
        ensures
            match items {
                Some(items) => self.tree() == JsonTree::List(item_trees(items@)),
                None => !(self.tree() is List),
            },
    {
        match self {
            Json::List(items) => {
                assert(self.tree()->List_0 == item_trees(items@));
                Some(items)
            },
            _ => None,
        }
    }

    /// The members, if this is an object.
    pub fn as_members(&self) -> (members: Option<&Vec<(String, Json)>>)
        ensures
            match members {
                Some(members) => self.tree() == JsonTree::Object(member_trees(members@)),
                None => !(self.tree() is Object),
            },
    {
        match self {
            Json::Object(members) => {
                assert(self.tree()->Object_0 == member_trees(members@));
                Some(members)
            },
            _ => None,
        }
    }

    /// The number, if this is one.
    pub fn as_number(&self) -> (number: Option<JsonNumber>)
        ensures
            number == number_in(Some(self.tree())),
    {
        match self {
            Json::Number(number) => Some(*number),
            _ => None,
        }
    }

    /// The integer, if this is one and fits.
    pub fn as_i64(&self) -> (value: Option<i64>)
        ensures
            value == integer_in(Some(self.tree())),
    {
        match self {
            Json::Number(JsonNumber::Unsigned(n)) => if *n <= i64::MAX as u64 {
                Some(*n as i64)
            } else {
                None
            },
            Json::Number(JsonNumber::Negative(n)) => Some(*n),
            _ => None,
        }
    }

    /// The natural number, if this is one.
    pub fn as_u64(&self) -> (value: Option<u64>)
        ensures
            value == natural_in(Some(self.tree())),
    {
        match self {
            Json::Number(JsonNumber::Unsigned(n)) => Some(*n),
            _ => None,
        }
    }
}

/// A value of `serde_json`.
#[verifier::external_type_specification]
#[verifier::external_body]
pub struct ExValue(serde_json::Value);

/// Why `serde_json` could not read a text.
#[verifier::external_type_specification]
#[verifier::external_body]
pub struct ExError(serde_json::Error);

/// What a value of `serde_json` holds; the members of an object stand in the order in which its
/// map is walked.
pub uninterp spec fn value_tree(value: serde_json::Value) -> JsonTree;

/// The value that `serde_json::from_slice` reads from bytes, if it reads one.
pub uninterp spec fn json_of_bytes(bytes: Seq<u8>) -> Option<JsonTree>;

/// The value that `serde_json::from_str` reads from a text, if it reads one.
pub uninterp spec fn json_of_text(text: Seq<char>) -> Option<JsonTree>;

/// The text that the `Display` of `serde_json::Value` writes for a value.
pub uninterp spec fn json_written(tree: JsonTree) -> Seq<char>;

/// One level of a value.
pub enum Node {
    Null,
    Bool(bool),
    Number(JsonNumber),
    Text(String),
    List(Vec<serde_json::Value>),
    Object(Vec<(String, serde_json::Value)>),
}

/// The value that one level shows.
pub open spec fn node_tree(node: Node) -> JsonTree {
    match node {
        Node::Null => JsonTree::Null,
        Node::Bool(value) => JsonTree::Bool(value),
        Node::Number(number) => JsonTree::Number(number),
        Node::Text(text) => JsonTree::Text(text@),
        Node::List(items) => JsonTree::List(items@.map_values(|item| value_tree(item))),
        Node::Object(members) => JsonTree::Object(value_members(members@)),
    }
}

/// Takes a `serde_json::Value` apart, one arm for each of its variants; a number by
/// `Number::as_u64`, `Number::as_i64` and `Number::as_f64`, which between them tell the three
/// forms of a number apart.
#[verifier::external_body]
pub(crate) fn open_value(value: serde_json::Value) -> (node: Node)
    ensures
        node_tree(node) == value_tree(value),
{
    match value {
        serde_json::Value::Null => Node::Null,
        serde_json::Value::Bool(value) => Node::Bool(value),
        serde_json::Value::Number(number) => Node::Number(
            match (number.as_u64(), number.as_i64(), number.as_f64()) {
                (Some(n), _, _) => JsonNumber::Unsigned(n),
                (None, Some(n), _) => JsonNumber::Negative(n),
                (None, None, float) => JsonNumber::Float(float.unwrap_or_default().to_bits()),
            },
        ),
        serde_json::Value::String(text) => Node::Text(text),
        serde_json::Value::Array(items) => Node::List(items),
        serde_json::Value::Object(members) => Node::Object(members.into_iter().collect()),
    }
}

/// Calls `serde_json::from_slice`; what it reads depends on the bytes alone.
#[verifier::external_body]
pub(crate) fn read_bytes(bytes: &Vec<u8>) -> (result: Result<serde_json::Value, serde_json::Error>)
    ensures
        match result {
            Ok(value) => json_of_bytes(bytes@) == Some(value_tree(value)),
            Err(_) => json_of_bytes(bytes@) is None,
        },
{
    serde_json::from_slice(bytes)
}

/// Calls `serde_json::from_str`; what it reads depends on the text alone.
#[verifier::external_body]
fn read_text(text: &str) -> (result: Result<serde_json::Value, serde_json::Error>)
    ensures
        match result {
            Ok(value) => json_of_text(text@) == Some(value_tree(value)),
            Err(_) => json_of_text(text@) is None,
        },
{
    serde_json::from_str(text)
}

/// Calls the `Display` of `serde_json::Value`, which writes compact JSON; what it writes depends
/// on the value alone.
#[verifier::external_body]
pub(crate) fn write_value(value: &serde_json::Value) -> (text: String)
    ensures
        text@ == json_written(value_tree(*value)),
{
    value.to_string()
}

/// The text that `serde_json::to_string_pretty` writes for a value, if it writes one.
pub uninterp spec fn json_pretty(tree: JsonTree) -> Option<Seq<char>>;

/// Calls `serde_json::to_string_pretty`; what it writes depends on the value alone.
#[verifier::external_body]
pub(crate) fn write_pretty(value: &serde_json::Value) -> (result: Result<
    String,
    serde_json::Error,
>)
    ensures
        match result {
            Ok(text) => json_pretty(value_tree(*value)) == Some(text@),
            Err(_) => json_pretty(value_tree(*value)) is None,
        },
{
    serde_json::to_string_pretty(value)
}

/// The variant `serde_json::Value::String`.
#[verifier::external_body]
pub(crate) fn text_value(text: String) -> (value: serde_json::Value)
    ensures
        value_tree(value) == JsonTree::Text(text@),
{
    serde_json::Value::String(text)
}

/// The number that an integer is.
pub open spec fn integer_number(value: i64) -> JsonNumber {
    if value >= 0 {
        JsonNumber::Unsigned(value as u64)
    } else {
        JsonNumber::Negative(value)
    }
}

/// Calls `serde_json::Value::from` on an integer, which keeps a natural number as one.
#[verifier::external_body]
pub(crate) fn integer_value(n: i64) -> (value: serde_json::Value)
    ensures
        value_tree(value) == JsonTree::Number(integer_number(n)),
{
    serde_json::Value::from(n)
}

/// The names and values of members that `serde_json` holds.
pub open spec fn value_members(members: Seq<(String, serde_json::Value)>) -> Seq<
    (Seq<char>, JsonTree),
> {
    members.map_values(|member: (String, serde_json::Value)| (member.0@, value_tree(member.1)))
}

/// Collects members into a `serde_json::Map` and makes an object of it. The map is walked in the
/// order of its names, which is the order that the members are in.
#[verifier::external_body]
pub(crate) fn object_value(members: Vec<(String, serde_json::Value)>) -> (value: serde_json::Value)
    requires
        ascending(value_members(members@)),
    ensures
        value_tree(value) == JsonTree::Object(value_members(members@)),
{
    serde_json::Value::Object(members.into_iter().collect())
}

/// Takes a value apart on all its levels.
fn from_value(input: serde_json::Value) -> (json: Json)
    ensures
        json.tree() == value_tree(input),
    decreases value_tree(input),
{
    let ghost tree = value_tree(input);
    match open_value(input) {
        Node::Null => Json::Null,
        Node::Bool(value) => Json::Bool(value),
        Node::Number(number) => Json::Number(number),
        Node::Text(text) => Json::Text(text),
        Node::List(values) => {
            let ghost trees = tree->List_0;
            let mut items: Vec<Json> = Vec::new();
            for value in it: values.into_iter()
                invariant
                    tree == value_tree(input),
                    tree == JsonTree::List(trees),
                    trees.len() == it.seq().len(),
                    forall|i: int|
                        0 <= i < trees.len() ==> #[trigger] trees[i] == value_tree(it.seq()[i]),
                    items@.len() == it.index(),
                    forall|i: int| 0 <= i < items@.len() ==> (#[trigger] items@[i]).tree() == trees[i],
            {
                assert(trees[it.index() as int] == value_tree(value));
                assert(decreases_to!(tree => tree->List_0));
                assert(decreases_to!(trees => trees[it.index() as int]));
                items.push(from_value(value));
            }
            let json: Json = Json::List(items);
            assert(json.tree()->List_0 == trees);
            json
        },
        Node::Object(values) => {
            let ghost trees = tree->Object_0;
            let mut members: Vec<(String, Json)> = Vec::new();
            for value in it: values.into_iter()
                invariant
                    tree == value_tree(input),
                    tree == JsonTree::Object(trees),
                    trees.len() == it.seq().len(),
                    forall|i: int|
                        0 <= i < trees.len() ==> #[trigger] trees[i] == (
                            it.seq()[i].0@,
                            value_tree(it.seq()[i].1),
                        ),
                    members@.len() == it.index(),
                    forall|i: int|
                        0 <= i < members@.len() ==> ((#[trigger] members@[i]).0@, members@[i].1.tree())
                            == trees[i],
            {
                assert(trees[it.index() as int] == (value.0@, value_tree(value.1)));
                assert(decreases_to!(tree => tree->Object_0));
                assert(decreases_to!(trees => trees[it.index() as int]));
                assert(decreases_to!(trees[it.index() as int] => trees[it.index() as int].1));
                members.push((value.0, from_value(value.1)));
            }
            let json: Json = Json::Object(members);
            assert(json.tree()->Object_0 == trees);
            json
        },
    }
}

/// Reads JSON from bytes.
pub fn json_from_bytes(bytes: &Vec<u8>) -> (json: Option<Json>)
    ensures
        match json {
            Some(json) => json_of_bytes(bytes@) == Some(json.tree()),
            None => json_of_bytes(bytes@) is None,
        },
{
    match read_bytes(bytes) {
        Ok(value) => Some(from_value(value)),
        Err(_) => None,
    }
}

/// Reads JSON from a text.
pub fn json_from_text(text: &str) -> (json: Option<Json>)
    ensures
        match json {
            Some(json) => json_of_text(text@) == Some(json.tree()),
            None => json_of_text(text@) is None,
        },
{
    match read_text(text) {
        Ok(value) => Some(from_value(value)),
        Err(_) => None,
    }
}

/// The text of a member of the JSON that a text holds.
pub open spec fn member_written(json: Option<JsonTree>, name: Seq<char>) -> Option<Seq<char>> {
    match json {
        Some(tree) => match member(tree, name) {
            Some(value) => Some(json_written(value)),
            None => None,
        },
        None => None,
    }
}

/// Writes out a member of the JSON that a text holds.
pub fn write_member(text: &str, name: &str) -> (written: Option<String>)
    ensures
        match written {
            Some(written) => member_written(json_of_text(text@), name@) == Some(written@),
            None => member_written(json_of_text(text@), name@) is None,
        },
{
    let value: serde_json::Value = match read_text(text) {
        Ok(value) => value,
        Err(_) => {
            return None;
        },
    };
    match open_value(value) {
        Node::Object(members) => {
            let ghost trees = json_of_text(text@)->0->Object_0;
            for i in 0..members.len()
                invariant
                    json_of_text(text@) == Some(JsonTree::Object(trees)),
                    trees.len() == members@.len(),
                    forall|j: int|
                        0 <= j < members@.len() ==> #[trigger] trees[j] == (
                            members@[j].0@,
                            value_tree(members@[j].1),
                        ),
                    forall|j: int| 0 <= j < i ==> (#[trigger] trees[j]).0 != name@,
            {
                assert(trees[i as int].0 == members@[i as int].0@);
                if same_text(members[i].0.as_str(), name) {
                    proof {
                        lemma_member_at(trees, name@, i as int);
                    }
                    return Some(write_value(&members[i].1));
                }
            }
            None
        },
        _ => None,
    }
}

/// In ascending members, what is looked up under a name is the member of that name.
pub proof fn lemma_ascending_member(members: Seq<(Seq<char>, JsonTree)>, name: Seq<char>)
    requires
        ascending(members),
    ensures
        member(JsonTree::Object(members), name) == lookup(members, name),
{
    precedes_irreflexive(name);
    if exists|i: int| named_at(members, name, i) {
        let i = choose|i: int| named_at(members, name, i);
        assert(named_at(members, name, i));
        assert forall|j: int| 0 <= j < i implies (#[trigger] members[j]).0 != name by {
            assert(precedes(members[j].0, members[i].0));
        }
        assert(first_member(members, name, i));
        lemma_member_at(members, name, i);
    } else {
        assert forall|i: int| !first_member(members, name, i) by {
            assert(!named_at(members, name, i));
        }
    }
}

/// A member in front of others is the one that is found under its name.
pub proof fn lemma_member_front(
    front: (Seq<char>, JsonTree),
    rest: Seq<(Seq<char>, JsonTree)>,
    name: Seq<char>,
)
    ensures
        member(JsonTree::Object(seq![front] + rest), name) == (if name == front.0 {
            Some(front.1)
        } else {
            member(JsonTree::Object(rest), name)
        }),
{
    let all = seq![front] + rest;
    if name == front.0 {
        assert(first_member(all, name, 0));
        lemma_member_at(all, name, 0);
    } else if exists|i: int| first_member(rest, name, i) {
        let i = choose|i: int| first_member(rest, name, i);
        assert(first_member(rest, name, i));
        assert forall|j: int| 0 <= j < i + 1 implies (#[trigger] all[j]).0 != name by {
            if j > 0 {
                assert(all[j] == rest[j - 1]);
            }
        }
        assert(first_member(all, name, i + 1));
        lemma_member_at(rest, name, i);
        lemma_member_at(all, name, i + 1);
    } else {
        assert forall|i: int| !first_member(all, name, i) by {
            if first_member(all, name, i) {
                assert(i > 0);
                assert forall|j: int| 0 <= j < i - 1 implies (#[trigger] rest[j]).0 != name by {
                    assert(all[j + 1] == rest[j]);
                }
                assert(first_member(rest, name, i - 1));
            }
        }
    }
}

} // verus!
