//! JSON documents, read and written with `serde_json`.
use vstd::prelude::*;

use crate::labels::{lemma_last_entry_decides, lemma_to_map_dom, listed, sorted, to_map};
use crate::text::{chars_of, decimal, equals};

verus! {

/// A JSON document.
pub enum Json {
    /// `null`.
    Null,
    /// `true` or `false`.
    Bool(bool),
    /// A number, under the two readings that are made of it.
    Number {
        /// The bit pattern of the IEEE 754 double that stands for it.
        double: Option<u64>,
        /// Its value, where it is a whole number that fits.
        integer: Option<i64>,
    },
    /// A string.
    Text(String),
    /// An array.
    List(Vec<Json>),
    /// An object: its members in the order in which they are listed.
    Object(Vec<(String, Json)>),
}

/// What a JSON document says.
pub enum JsonTree {
    /// `null`.
    Null,
    /// `true` or `false`.
    Bool(bool),
    /// A number, under the two readings that are made of it.
    Number {
        /// The bit pattern of the IEEE 754 double that stands for it.
        double: Option<u64>,
        /// Its value, where it is a whole number that fits.
        integer: Option<i64>,
    },
    /// A string.
    Text(Seq<char>),
    /// An array.
    List(Seq<JsonTree>),
    /// An object.
    Object(Seq<(Seq<char>, JsonTree)>),
}

impl Json {
    /// What the document says.
    pub open spec fn tree(self) -> JsonTree
        decreases self,
    {
        match self {
            Json::Null => JsonTree::Null,
            Json::Bool(b) => JsonTree::Bool(b),
            Json::Number { double, integer } => JsonTree::Number { double, integer },
            Json::Text(t) => JsonTree::Text(t@),
            Json::List(v) => JsonTree::List(
                Seq::new(
                    v@.len(),
                    |i: int|
                        if 0 <= i < v@.len() {
                            v@[i].tree()
                        } else {
                            JsonTree::Null
                        },
                ),
            ),
            Json::Object(v) => JsonTree::Object(
                Seq::new(
                    v@.len(),
                    |i: int|
                        if 0 <= i < v@.len() {
                            (v@[i].0@, v@[i].1.tree())
                        } else {
                            (Seq::empty(), JsonTree::Null)
                        },
                ),
            ),
        }
    }
}

impl JsonTree {
    /// The whole number that the document is, if it is one.
    pub open spec fn whole(self) -> Option<i64> {
        match self {
            JsonTree::Number { double: _, integer } => integer,
            _ => None,
        }
    }

    /// The bit pattern of the number that the document is, if it is one.
    pub open spec fn double_bits(self) -> Option<u64> {
        match self {
            JsonTree::Number { double, integer: _ } => double,
            _ => None,
        }
    }

    /// The members of the object that the document is, if it is one.
    pub open spec fn members(self) -> Option<Seq<(Seq<char>, JsonTree)>> {
        match self {
            JsonTree::Object(es) => Some(es),
            _ => None,
        }
    }

    /// The member of the object under this name, if there is one.
    pub open spec fn member(self, name: Seq<char>) -> Option<JsonTree> {
        match self {
            JsonTree::Object(es) => if to_map(es).contains_key(name) {
                Some(to_map(es)[name])
            } else {
                None
            },
            _ => None,
        }
    }
}

/// The documents of `serde_json`.
#[verifier::external_type_specification]
#[verifier::external_body]
pub struct ExValue(serde_json::Value);

/// The errors of `serde_json`.
#[verifier::external_type_specification]
#[verifier::external_body]
pub struct ExError(serde_json::Error);

/// What a `serde_json::Value` holds.
pub uninterp spec fn value_tree(v: serde_json::Value) -> JsonTree;

/// What `serde_json::from_str` reads out of a text as a document.
pub uninterp spec fn document(text: Seq<char>) -> Option<JsonTree>;

/// What `serde_json::from_slice` reads out of bytes as a document.
pub uninterp spec fn document_of_bytes(bytes: Seq<u8>) -> Option<JsonTree>;

/// What `serde_json::from_str` reads out of a text as a map from strings to
/// truth values, in the order of its keys.
pub uninterp spec fn flags(text: Seq<char>) -> Option<Seq<(Seq<char>, bool)>>;

/// What `serde_json::to_string_pretty` writes for a map from strings to truth
/// values.
pub uninterp spec fn flags_text(entries: Seq<(Seq<char>, bool)>) -> Seq<char>;

/// `serde_json::from_str` reads a document: the text alone decides whether it
/// is one, and which.
#[verifier::external_body]
fn value_from_str(text: &str) -> (r: Result<serde_json::Value, serde_json::Error>)
    ensures
        match r {
            Ok(v) => document(text@) == Some(value_tree(v)),
            Err(_) => document(text@) is None,
        },
{
    serde_json::from_str(text)
}

/// `serde_json::from_slice` reads a document: the bytes alone decide whether
/// they are one, and which.
#[verifier::external_body]
fn value_from_slice(bytes: &[u8]) -> (r: Result<serde_json::Value, serde_json::Error>)
    ensures
        match r {
            Ok(v) => document_of_bytes(bytes@) == Some(value_tree(v)),
            Err(_) => document_of_bytes(bytes@) is None,
        },
{
    serde_json::from_slice(bytes)
}

/// The contents of a `serde_json::Value`, kind by kind. A number is taken as
/// `Number::as_f64` and `Number::as_i64` give it, and the members of an object in
/// the order of `serde_json::Map`.
#[verifier::external_body]
fn json_of(v: &serde_json::Value) -> (r: Json)
    ensures
        r.tree() == value_tree(*v),
{
    match v {
        serde_json::Value::Null => Json::Null,
        serde_json::Value::Bool(b) => Json::Bool(*b),
        serde_json::Value::Number(n) => Json::Number {
            double: n.as_f64().map(|x| x.to_bits()),
            integer: n.as_i64(),
        },
        serde_json::Value::String(s) => Json::Text(s.clone()),
        serde_json::Value::Array(a) => Json::List(a.iter().map(json_of).collect()),
        serde_json::Value::Object(m) => Json::Object(
            m.iter().map(|(k, x)| (k.clone(), json_of(x))).collect()),
    }
}

/// `serde_json::from_str` reads a map from strings to truth values: the text
/// alone decides whether it is one, and which.
#[verifier::external_body]
pub(crate) fn flags_from_str(text: &str) -> (r: Option<Vec<(String, bool)>>)
    ensures
        match r {
            Some(v) => flags(text@) == Some(listed(v@)),
            None => flags(text@) is None,
        },
{
    let map: Result<std::collections::BTreeMap<String, bool>, serde_json::Error> =
        serde_json::from_str(text);
    map.ok().map(|m| m.into_iter().collect())
}

/// `serde_json::to_string_pretty` writes a map from strings to truth values. It
/// does not fail on one, and `serde_json::from_str` reads the same entries back.
#[verifier::external_body]
pub(crate) fn flags_to_string(entries: &Vec<(String, bool)>) -> (r: Option<String>)
    requires
        sorted(listed(entries@)),
    ensures
        r is Some,
        r->0@ == flags_text(listed(entries@)),
        flags(r->0@) == Some(listed(entries@)),
{
    let map: std::collections::BTreeMap<&String, bool> =
        entries.iter().map(|e| (&e.0, e.1)).collect();
    serde_json::to_string_pretty(&map).ok()
}

/// What a read of an object with whole numbers as its members finds: each member
/// under its name, with its value.
pub open spec fn holds_numbers(t: JsonTree, members: Seq<(Seq<char>, i64)>) -> bool {
    t matches JsonTree::Object(es) && es.len() == members.len() && forall|i: int|
        0 <= i < es.len() ==> (#[trigger] es[i]).0 == members[i].0
            && es[i].1.whole() == Some(members[i].1)
}

/// A whole number in decimal digits, with a minus sign where it is negative.
pub open spec fn whole_text(n: i64) -> Seq<char> {
    if n < 0 {
        "-"@ + decimal((-n) as nat)
    } else {
        decimal(n as nat)
    }
}

/// A member with a whole number: its name in quotes, a colon, the number.
pub open spec fn member_text(member: (Seq<char>, i64)) -> Seq<char> {
    "\""@ + member.0 + "\":"@ + whole_text(member.1)
}

/// Members with whole numbers, with a comma between any two.
pub open spec fn members_text(members: Seq<(Seq<char>, i64)>) -> Seq<char>
    decreases members.len(),
{
    if members.len() == 0 {
        seq![]
    } else if members.len() == 1 {
        member_text(members[0])
    } else {
        members_text(members.drop_last()) + ","@ + member_text(members.last())
    }
}

/// An object with whole numbers as its members, in braces and without white space.
pub open spec fn numbers_text(members: Seq<(Seq<char>, i64)>) -> Seq<char> {
    "{"@ + members_text(members) + "}"@
}

/// Whether a name is made of small letters alone, of which none is escaped in a
/// document.
pub open spec fn is_plain(name: Seq<char>) -> bool {
    forall|i: int| 0 <= i < name.len() ==> 'a' <= #[trigger] name[i] && name[i] <= 'z'
}

/// `serde_json::Value::to_string` writes an object with whole numbers as its
/// members: in the order of their names, without white space, and names of small
/// letters as they are. `serde_json::from_str` reads the same members back.
#[verifier::external_body]
pub(crate) fn numbers_to_string(members: &Vec<(String, i64)>) -> (r: String)
    requires
        sorted(listed(members@)),
        forall|i: int| 0 <= i < members@.len() ==> is_plain((#[trigger] members@[i]).0@),
    ensures
        r@ == numbers_text(listed(members@)),
        document(r@) is Some,
        holds_numbers(document(r@)->0, listed(members@)),
{
    let map: serde_json::Map<String, serde_json::Value> =
        members.iter().map(|e| (e.0.clone(), serde_json::Value::from(e.1))).collect();
    serde_json::Value::Object(map).to_string()
}

/// The document that a text is, if it is one.
pub fn parse_text(text: &str) -> (r: Option<Json>)
    ensures
        match r {
            Some(j) => document(text@) == Some(j.tree()),
            None => document(text@) is None,
        },
{
    match value_from_str(text) {
        Ok(v) => Some(json_of(&v)),
        Err(_) => None,
    }
}

/// The document that bytes are, if they are one.
pub fn parse_bytes(bytes: &[u8]) -> (r: Option<Json>)
    ensures
        match r {
            Some(j) => document_of_bytes(bytes@) == Some(j.tree()),
            None => document_of_bytes(bytes@) is None,
        },
{
    match value_from_slice(bytes) {
        Ok(v) => Some(json_of(&v)),
        Err(_) => None,
    }
}

proof fn lemma_last_wins<V>(s: Seq<(Seq<char>, V)>, i: int)
    requires
        0 <= i < s.len(),
        forall|j: int| i < j < s.len() ==> (#[trigger] s[j]).0 != s[i].0,
    ensures
        to_map(s).contains_key(s[i].0),
        to_map(s)[s[i].0] == s[i].1,
    decreases s.len(),
{
    if i < s.len() - 1 {
        assert(s[s.len() - 1].0 != s[i].0);
        let p = s.drop_last();
        assert forall|j: int| i < j < p.len() implies (#[trigger] p[j]).0 != p[i].0 by {
            assert(s[j].0 != s[i].0);
        }
        lemma_last_wins(p, i);
    }
}

impl Json {
    /// The whole number that the document is, if it is one.
    pub fn as_i64(&self) -> (r: Option<i64>)
        ensures
            r == self.tree().whole(),
    {
        match self {
            Json::Number { double: _, integer } => *integer,
            _ => None,
        }
    }

    /// The bit pattern of the number that the document is, if it is one.
    pub fn as_double_bits(&self) -> (r: Option<u64>)
        ensures
            r == self.tree().double_bits(),
    {
        match self {
            Json::Number { double, integer: _ } => *double,
            _ => None,
        }
    }

    /// The members of the object that the document is, if it is one.
    pub fn as_object(&self) -> (r: Option<&Vec<(String, Json)>>)
        ensures
            match r {
                Some(v) => {
                    &&& self.tree().members() is Some
                    &&& self.tree().members()->0.len() == v@.len()
                    &&& forall|i: int|
                        0 <= i < v@.len() ==> #[trigger] self.tree().members()->0[i] == (
                            v@[i].0@,
                            v@[i].1.tree(),
                        )
                },
                None => self.tree().members() is None,
            },
    {
        match self {
            Json::Object(v) => Some(v),
            _ => None,
        }
    }

    /// The member of the object under this name, if there is one.
    pub fn get(&self, name: &str) -> (r: Option<&Json>)
        ensures
            match r {
                Some(j) => self.tree().member(name@) == Some(j.tree()),
                None => self.tree().member(name@) is None,
            },
    {
        let v = match self.as_object() {
            Some(v) => v,
            None => {
                return None;
            },
        };
        let ghost es = self.tree().members()->0;
        let mut i: usize = v.len();
        while i > 0
            invariant
                i <= v@.len() == es.len(),
                self.tree() == JsonTree::Object(es),
                forall|k: int|
                    0 <= k < es.len() ==> #[trigger] es[k] == (v@[k].0@, v@[k].1.tree()),
                forall|k: int| i <= k < es.len() ==> (#[trigger] es[k]).0 != name@,
            decreases i,
        {
            i -= 1;
            assert(es[i as int] == (v@[i as int].0@, v@[i as int].1.tree()));
            if equals(&chars_of(v[i].0.as_str()), name) {
                proof {
                    lemma_last_wins(es, i as int);
                }
                return Some(&v[i].1);
            }
        }
        proof {
            lemma_to_map_dom(es, name@);
        }
        None
    }
}

/// An object has a member under a name if it lists one, and the last that it lists
/// decides. Nothing else has members.
pub proof fn lemma_member_is_the_last_listed(
    members: Seq<(Seq<char>, JsonTree)>,
    i: int,
    name: Seq<char>,
)
    ensures
        0 <= i < members.len() && members[i].0 == name && (forall|j: int|
            i < j < members.len() ==> (#[trigger] members[j]).0 != name) ==> JsonTree::Object(
            members,
        ).member(name) == Some(members[i].1),
        (forall|j: int| 0 <= j < members.len() ==> (#[trigger] members[j]).0 != name)
            ==> JsonTree::Object(members).member(name) is None,
        forall|t: JsonTree| #[trigger] t.member(name) is Some ==> t is Object,
{
    if 0 <= i < members.len() && members[i].0 == name && (forall|j: int|
        i < j < members.len() ==> (#[trigger] members[j]).0 != name) {
        lemma_last_entry_decides(members, i);
    }
    if forall|j: int| 0 <= j < members.len() ==> (#[trigger] members[j]).0 != name {
        lemma_to_map_dom(members, name);
    }
}

/// A document says what it holds: an object lists all its members in order, a list all
/// its items, and a number is read as it is.
pub proof fn lemma_tree_holds_everything(
    object: Vec<(String, Json)>,
    list: Vec<Json>,
    double: Option<u64>,
    integer: Option<i64>,
)
    ensures
        Json::Object(object).tree() matches JsonTree::Object(es) && es.len() == object@.len()
            && forall|i: int|
            0 <= i < es.len() ==> (#[trigger] es[i]).0 == object@[i].0@ && es[i].1
                == object@[i].1.tree(),
        Json::List(list).tree() matches JsonTree::List(es) && es.len() == list@.len() && forall|
            i: int,
        |
            0 <= i < es.len() ==> #[trigger] es[i] == list@[i].tree(),
        (Json::Number { double, integer }).tree().double_bits() == double,
        (Json::Number { double, integer }).tree().whole() == integer,
        forall|t: JsonTree| #[trigger] t.double_bits() is Some ==> t is Number,
        forall|t: JsonTree| #[trigger] t.whole() is Some ==> t is Number,
        forall|es: Seq<(Seq<char>, JsonTree)>| #[trigger] JsonTree::Object(es).members() == Some(es),
        forall|t: JsonTree| #[trigger] t.members() is Some ==> t is Object,
{
    reveal_with_fuel(Json::tree, 2);
}

} // verus!
