//! Structured documents, read from JSON, YAML or TOML text.

use crate::text::{decimal, decimal_string, owned, same};
use vstd::prelude::*;

verus! {

/// One value of a document.
#[derive(Debug, PartialEq, Eq)]
pub enum Node {
    Null,
    Bool(bool),
    /// A whole number that is not negative.
    Number(u64),
    /// A number that is negative, or no whole number, as it is described where it does not belong.
    OtherNumber(String),
    Text(String),
    /// A point in time.
    Date,
    List(Vec<Node>),
    Table(Vec<(Node, Node)>),
    /// A value, or a key of a table, that carries a tag.
    Tagged(Box<Node>),
}

/// The node is the given text.
pub open spec fn is_the_text(n: Node, s: Seq<char>) -> bool {
    n matches Node::Text(t) && t@ == s
}

/// The first entry from `i` on whose key is the given text, without a tag.
pub open spec fn entry_from(entries: Seq<(Node, Node)>, key: Seq<char>, i: int) -> Option<Node>
    decreases entries.len() - i,
{
    if i < 0 || i >= entries.len() {
        None
    } else if is_the_text(entries[i].0, key) {
        Some(entries[i].1)
    } else {
        entry_from(entries, key, i + 1)
    }
}

impl Node {
    /// The node without its tags.
    pub open spec fn untagged(self) -> Node
        decreases self,
    {
        match self {
            Node::Tagged(inner) => inner.untagged(),
            _ => self,
        }
    }

    /// The value of a table under the given key; a key that carries a tag is another one.
    pub open spec fn field(self, key: Seq<char>) -> Option<Node> {
        match self.untagged() {
            Node::Table(entries) => entry_from(entries@, key, 0),
            _ => None,
        }
    }

    /// The items of a list.
    pub open spec fn items(self) -> Option<Seq<Node>> {
        match self.untagged() {
            Node::List(v) => Some(v@),
            _ => None,
        }
    }

    pub open spec fn text(self) -> Option<Seq<char>> {
        match self.untagged() {
            Node::Text(s) => Some(s@),
            _ => None,
        }
    }

    pub open spec fn number(self) -> Option<u64> {
        match self.untagged() {
            Node::Number(n) => Some(n),
            _ => None,
        }
    }

    /// The text under the given key.
    pub open spec fn field_text(self, key: Seq<char>) -> Option<Seq<char>> {
        match self.field(key) {
            Some(n) => n.text(),
            None => None,
        }
    }

    /// The list under the given key.
    pub open spec fn field_items(self, key: Seq<char>) -> Option<Seq<Node>> {
        match self.field(key) {
            Some(n) => n.items(),
            None => None,
        }
    }

    /// The node without its tags.
    pub fn untag(&self) -> (r: &Node)
        ensures
            *r == self.untagged(),
            !(*r is Tagged),
        decreases self,
    {
        match self {
            Node::Tagged(inner) => inner.untag(),
            _ => self,
        }
    }

    /// The value of a table under the given key; a key that carries a tag is another one.
    pub fn get(&self, key: &str) -> (r: Option<&Node>)
        ensures
            match r {
                Some(n) => self.field(key@) == Some(*n),
                None => self.field(key@) is None,
            },
    {
        match self.untag() {
            Node::Table(entries) => {
                let mut i: usize = 0;
                while i < entries.len()
                    invariant
                        i <= entries@.len(),
                        self.field(key@) == entry_from(entries@, key@, i as int),
                    decreases entries@.len() - i,
                {
                    let hit = match &entries[i].0 {
                        Node::Text(t) => same(t.as_str(), key),
                        _ => false,
                    };
                    if hit {
                        return Some(&entries[i].1);
                    }
                    i = i + 1;
                }
                None
            },
            _ => None,
        }
    }

    /// The text of the node.
    pub fn as_str(&self) -> (r: Option<&str>)
        ensures
            match r {
                Some(s) => self.text() == Some(s@),
                None => self.text() is None,
            },
    {
        match self.untag() {
            Node::Text(s) => Some(s.as_str()),
            _ => None,
        }
    }

    /// The items of the node.
    pub fn as_list(&self) -> (r: Option<&Vec<Node>>)
        ensures
            match r {
                Some(v) => self.items() == Some(v@),
                None => self.items() is None,
            },
    {
        match self.untag() {
            Node::List(v) => Some(v),
            _ => None,
        }
    }

    /// The whole number of the node.
    pub fn as_u64(&self) -> (r: Option<u64>)
        ensures
            r == self.number(),
    {
        match self.untag() {
            Node::Number(n) => Some(*n),
            _ => None,
        }
    }

    /// The text under the given key.
    pub fn get_str(&self, key: &str) -> (r: Option<&str>)
        ensures
            match r {
                Some(s) => self.field_text(key@) == Some(s@),
                None => self.field_text(key@) is None,
            },
    {
        match self.get(key) {
            Some(n) => n.as_str(),
            None => None,
        }
    }

    /// The list under the given key.
    pub fn get_list(&self, key: &str) -> (r: Option<&Vec<Node>>)
        ensures
            match r {
                Some(v) => self.field_items(key@) == Some(v@),
                None => self.field_items(key@) is None,
            },
    {
        match self.get(key) {
            Some(n) => n.as_list(),
            None => None,
        }
    }
}

// ---------------------------------------------------------------------------
// Reading
// ---------------------------------------------------------------------------

/// A value of `serde_json`, which nothing here looks into.
#[verifier::external_type_specification]
#[verifier::external_body]
pub struct ExJsonValue(serde_json::Value);

/// A value of `serde_yaml_ng`, which nothing here looks into.
#[verifier::external_type_specification]
#[verifier::external_body]
pub struct ExYamlValue(serde_yaml_ng::Value);

/// A value of `toml`, which nothing here looks into.
#[verifier::external_type_specification]
#[verifier::external_body]
pub struct ExTomlValue(toml::Value);

/// The value of `serde_json` as a node, variant for variant.
#[verifier::external_body]
fn json_node(value: serde_json::Value) -> Node {
    match value {
        serde_json::Value::Null => Node::Null,
        serde_json::Value::Bool(b) => Node::Bool(b),
        serde_json::Value::Number(n) => match n.as_u64() {
            Some(whole) => Node::Number(whole),
            None => Node::OtherNumber(n.to_string()),
        },
        serde_json::Value::String(s) => Node::Text(s),
        serde_json::Value::Array(items) => Node::List(items.into_iter().map(json_node).collect()),
        serde_json::Value::Object(entries) => Node::Table(
            entries.into_iter().map(|(k, v)| (Node::Text(k), json_node(v))).collect(),
        ),
    }
}

/// A number of `serde_yaml_ng`, which nothing here looks into.
#[verifier::external_type_specification]
#[verifier::external_body]
pub struct ExYamlNumber(serde_yaml_ng::Number);

/// The number of `serde_yaml_ng` as a node: a whole one that is not negative by its value, any other
/// in the words of `serde::de::Unexpected`.
#[verifier::external_body]
fn yaml_number(n: serde_yaml_ng::Number) -> Node {
    match (n.as_u64(), n.as_i64(), n.as_f64()) {
        (Some(whole), _, _) => Node::Number(whole),
        (None, Some(i), _) => Node::OtherNumber(serde::de::Unexpected::Signed(i).to_string()),
        (None, None, f) => Node::OtherNumber(
            serde::de::Unexpected::Float(f.unwrap_or_default()).to_string(),
        ),
    }
}

/// The value of `serde_yaml_ng` as a node, variant for variant; of a tag only that there is one is
/// kept.
#[verifier::external_body]
fn yaml_node(value: serde_yaml_ng::Value) -> Node {
    match value {
        serde_yaml_ng::Value::Null => Node::Null,
        serde_yaml_ng::Value::Bool(b) => Node::Bool(b),
        serde_yaml_ng::Value::Number(n) => yaml_number(n),
        serde_yaml_ng::Value::String(s) => Node::Text(s),
        serde_yaml_ng::Value::Sequence(items) => Node::List(
            items.into_iter().map(yaml_node).collect(),
        ),
        serde_yaml_ng::Value::Mapping(entries) => Node::Table(
            entries.into_iter().map(|(k, v)| (yaml_node(k), yaml_node(v))).collect(),
        ),
        serde_yaml_ng::Value::Tagged(tagged) => Node::Tagged(Box::new(yaml_node(tagged.value))),
    }
}

/// The value of `toml` as a node, variant for variant.
#[verifier::external_body]
fn toml_node(value: toml::Value) -> Node {
    match value {
        toml::Value::Boolean(b) => Node::Bool(b),
        toml::Value::Integer(n) => match u64::try_from(n) {
            Ok(whole) => Node::Number(whole),
            Err(_) => Node::OtherNumber(n.to_string()),
        },
        toml::Value::Float(f) => Node::OtherNumber(f.to_string()),
        toml::Value::String(s) => Node::Text(s),
        toml::Value::Datetime(_) => Node::Date,
        toml::Value::Array(items) => Node::List(items.into_iter().map(toml_node).collect()),
        toml::Value::Table(entries) => Node::Table(
            entries.into_iter().map(|(k, v)| (Node::Text(k), toml_node(v))).collect(),
        ),
    }
}

/// The document that `serde_json::from_str` reads from a text, or why it reads none.
pub uninterp spec fn json_document(text: Seq<char>) -> Result<Node, String>;

/// Reads a JSON document with `serde_json::from_str`. What the document holds is left to that
/// library: only that it is a function of the text is claimed.
#[verifier::external_body]
pub(crate) fn parse_json(text: &str) -> (r: Result<Node, String>)
    ensures
        r == json_document(text@),
{
    match serde_json::from_str::<serde_json::Value>(text) {
        Ok(value) => Ok(json_node(value)),
        Err(error) => Err(error.to_string()),
    }
}

/// The document that `serde_yaml_ng::from_str` reads from a text, or why it reads none.
pub uninterp spec fn yaml_document(text: Seq<char>) -> Result<Node, String>;

/// Reads a YAML document with `serde_yaml_ng::from_str`. Only that the result is a function of the
/// text is claimed.
#[verifier::external_body]
pub(crate) fn parse_yaml(text: &str) -> (r: Result<Node, String>)
    ensures
        r == yaml_document(text@),
{
    match serde_yaml_ng::from_str::<serde_yaml_ng::Value>(text) {
        Ok(value) => Ok(yaml_node(value)),
        Err(error) => Err(error.to_string()),
    }
}

/// The document that `toml::from_str` reads from a text, or why it reads none.
pub uninterp spec fn toml_document(text: Seq<char>) -> Result<Node, String>;

/// Reads a TOML document with `toml::from_str`. Only that the result is a function of the text is
/// claimed.
#[verifier::external_body]
pub(crate) fn parse_toml(text: &str) -> (r: Result<Node, String>)
    ensures
        r == toml_document(text@),
{
    match toml::from_str::<toml::Value>(text) {
        Ok(value) => Ok(toml_node(value)),
        Err(error) => Err(error.to_string()),
    }
}

// ---------------------------------------------------------------------------
// Values that do not belong
// ---------------------------------------------------------------------------

/// How `serde::de::Unexpected` describes a text.
pub uninterp spec fn unexpected_text(text: Seq<char>) -> Seq<char>;

/// Describes a text with `serde::de::Unexpected::Str`, which quotes and escapes it. Only that the
/// description is a function of the text is claimed.
#[verifier::external_body]
fn describe_text(text: &str) -> (r: String)
    ensures
        r@ == unexpected_text(text@),
{
    serde::de::Unexpected::Str(text).to_string()
}

/// How a node is described where it does not belong.
pub open spec fn described(node: Node) -> Seq<char> {
    match node {
        Node::Null => "unit value"@,
        Node::Bool(b) => if b {
            "boolean `true`"@
        } else {
            "boolean `false`"@
        },
        Node::Number(n) => "integer `"@ + decimal(n as nat) + "`"@,
        Node::OtherNumber(words) => words@,
        Node::Text(t) => unexpected_text(t@),
        Node::Date => "point in time"@,
        Node::List(_) => "sequence"@,
        Node::Table(_) => "map"@,
        Node::Tagged(_) => "enum"@,
    }
}

/// What is said of a node where something else is expected.
pub open spec fn invalid_type(node: Node, expected: Seq<char>) -> Seq<char> {
    "invalid type: "@ + described(node) + ", expected "@ + expected
}

/// How a node is described where it does not belong.
pub fn describe(node: &Node) -> (r: String)
    ensures
        r@ == described(*node),
{
    match node {
        Node::Null => owned("unit value"),
        Node::Bool(b) => if *b {
            owned("boolean `true`")
        } else {
            owned("boolean `false`")
        },
        Node::Number(n) => {
            let mut s: String = owned("integer `");
            let digits = decimal_string(*n);
            s.append(digits.as_str());
            s.append("`");
            s
        },
        Node::OtherNumber(words) => words.clone(),
        Node::Text(t) => describe_text(t.as_str()),
        Node::Date => owned("point in time"),
        Node::List(_) => owned("sequence"),
        Node::Table(_) => owned("map"),
        Node::Tagged(_) => owned("enum"),
    }
}

/// What is said of a node where something else is expected.
pub fn wrong_type(node: &Node, expected: &str) -> (r: String)
    ensures
        r@ == invalid_type(*node, expected@),
{
    let what = describe(node);
    let mut s: String = owned("invalid type: ");
    s.append(what.as_str());
    s.append(", expected ");
    s.append(expected);
    s
}

/// The node or something in it carries a tag.
pub open spec fn has_tag(node: Node) -> bool
    decreases node,
{
    match node {
        Node::Tagged(_) => true,
        Node::List(v) => exists|i: int| 0 <= i < v@.len() && has_tag(#[trigger] v@[i]),
        Node::Table(entries) => exists|i: int|
            0 <= i < entries@.len() && (has_tag((#[trigger] entries@[i]).0) || has_tag(
                entries@[i].1,
            )),
        _ => false,
    }
}

/// Whether the node or something in it carries a tag.
pub fn carries_tag(node: &Node) -> (r: bool)
    ensures
        r == has_tag(*node),
    decreases node,
{
    match node {
        Node::Tagged(_) => true,
        Node::List(v) => {
            let mut i: usize = 0;
            while i < v.len()
                invariant
                    i <= v@.len(),
                    *node == Node::List(*v),
                    forall|k: int| 0 <= k < i ==> !has_tag(#[trigger] v@[k]),
                decreases v@.len() - i,
            {
                proof {
                    assert(decreases_to!(*v => v[i as int]));
                    assert(decreases_to!(*node => node->List_0));
                }
                if carries_tag(&v[i]) {
                    assert(has_tag(v@[i as int]));
                    proof {
                        reveal_with_fuel(has_tag, 2);
                    }
                    return true;
                }
                i = i + 1;
            }
            false
        },
        Node::Table(entries) => {
            let mut i: usize = 0;
            while i < entries.len()
                invariant
                    i <= entries@.len(),
                    *node == Node::Table(*entries),
                    forall|k: int|
                        0 <= k < i ==> !has_tag((#[trigger] entries@[k]).0) && !has_tag(
                            entries@[k].1,
                        ),
                decreases entries@.len() - i,
            {
                proof {
                    assert(decreases_to!(*entries => entries[i as int]));
                    assert(decreases_to!(*node => node->Table_0));
                }
                if carries_tag(&entries[i].0) || carries_tag(&entries[i].1) {
                    assert(has_tag(entries@[i as int].0) || has_tag(entries@[i as int].1));
                    proof {
                        reveal_with_fuel(has_tag, 2);
                    }
                    return true;
                }
                i = i + 1;
            }
            false
        },
        _ => false,
    }
}

// ---------------------------------------------------------------------------
// Laws
// ---------------------------------------------------------------------------

proof fn lemma_entry_from(entries: Seq<(Node, Node)>, key: Seq<char>, i: int, from: int)
    requires
        0 <= from <= i <= entries.len(),
        forall|j: int| from <= j < i ==> !is_the_text((#[trigger] entries[j]).0, key),
        i < entries.len() ==> is_the_text(entries[i].0, key),
    ensures
        i < entries.len() ==> entry_from(entries, key, from) == Some(entries[i].1),
        i == entries.len() ==> entry_from(entries, key, from) is None,
    decreases i - from,
{
    if from < i {
        assert(!is_the_text(entries[from].0, key));
        lemma_entry_from(entries, key, i, from + 1);
    }
}

/// The value under a key is that of the first entry whose key is the text itself; without such an
/// entry there is none. Only a table has values under keys.
pub proof fn fields_are_those_of_the_first_key(entries: Vec<(Node, Node)>, key: Seq<char>, i: int)
    requires
        0 <= i <= entries@.len(),
        forall|j: int|
            0 <= j < i ==> !((#[trigger] entries@[j]).0 matches Node::Text(t) && t@ == key),
        i < entries@.len() ==> (entries@[i].0 matches Node::Text(t) && t@ == key),
    ensures
        i < entries@.len() ==> Node::Table(entries).field(key) == Some(entries@[i].1),
        i == entries@.len() ==> Node::Table(entries).field(key) is None,
{
    assert forall|j: int| 0 <= j < i implies !is_the_text((#[trigger] entries@[j]).0, key) by {
        assert(!(entries@[j].0 matches Node::Text(t) && t@ == key));
    }
    lemma_entry_from(entries@, key, i, 0);
}

/// What a node is does not change with the tags it carries, and it is one thing only.
pub proof fn tags_do_not_change_what_a_node_is(node: Node, inner: Box<Node>, key: Seq<char>)
    ensures
        Node::Tagged(inner).text() == inner.text(),
        Node::Tagged(inner).items() == inner.items(),
        Node::Tagged(inner).number() == inner.number(),
        Node::Tagged(inner).field(key) == inner.field(key),
        node matches Node::Text(t) ==> node.text() == Some(t@) && node.items() is None
            && node.number() is None && node.field(key) is None,
        node matches Node::List(v) ==> node.items() == Some(v@) && node.text() is None
            && node.number() is None && node.field(key) is None,
        node matches Node::Number(n) ==> node.number() == Some(n) && node.text() is None
            && node.items() is None && node.field(key) is None,
        node is Table ==> node.text() is None && node.items() is None && node.number() is None,
        node is Null || node is Bool || node is OtherNumber || node is Date ==> node.text() is None
            && node.items() is None && node.number() is None && node.field(key) is None,
        node.field_text(key) == match node.field(key) {
            Some(x) => x.text(),
            None => None,
        },
        node.field_items(key) == match node.field(key) {
            Some(x) => x.items(),
            None => None,
        },
{
}

} // verus!
