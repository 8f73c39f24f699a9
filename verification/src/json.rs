//! JSON documents: the tree that a document holds and how the library reads it.
//!
//! The parsing is `serde_json`'s. A parsed value is turned into `Json`, a tree of
//! plain values, and every rule of the library is stated over `JsonTree`, what
//! such a tree means: the members of an object have no order, and a number is
//! kept as the three readings that `serde_json` gives of it.

use vstd::arithmetic::power2::pow2;
use vstd::prelude::*;
use vstd::string::*;

use crate::float_bits::{double_clamped, double_to_i64};
use crate::text::{push_signed, same_text, signed_decimal};

verus! {

/// A number: as a signed and as an unsigned integer, where it is one that fits,
/// and as the bits of a double-precision number.
#[derive(Clone, Copy, Debug, PartialEq, Eq)]
pub struct JsonNumber {
    pub signed: Option<i64>,
    pub unsigned: Option<u64>,
    pub float: Option<u64>,
}

/// What a JSON value means.
pub enum JsonTree {
    Null,
    Bool(bool),
    Number(JsonNumber),
    Text(Seq<char>),
    Array(Seq<JsonTree>),
    Object(Map<Seq<char>, JsonTree>),
}

/// A JSON value.
#[derive(Debug, PartialEq)]
pub enum Json {
    Null,
    Bool(bool),
    Number(JsonNumber),
    Text(String),
    Array(Vec<Json>),
    Object(Vec<(String, Json)>),
}

/// What the members `s` of an object mean: of two with one name the later.
pub open spec fn members_tree(s: Seq<(String, Json)>) -> Map<Seq<char>, JsonTree>
    decreases s,
{
    if s.len() == 0 {
        Map::empty()
    } else {
        members_tree(s.drop_last()).insert(s.last().0@, s.last().1.tree())
    }
}

impl Json {
    /// What the value means.
    pub open spec fn tree(self) -> JsonTree
        decreases self,
    {
        match self {
            Json::Null => JsonTree::Null,
            Json::Bool(b) => JsonTree::Bool(b),
            Json::Number(n) => JsonTree::Number(n),
            Json::Text(s) => JsonTree::Text(s@),
            Json::Array(v) => JsonTree::Array(
                Seq::new(
                    v@.len(),
                    |i: int|
                        if 0 <= i < v@.len() {
                            v@[i].tree()
                        } else {
                            JsonTree::Null
                        },
                ),
            ),
            Json::Object(m) => JsonTree::Object(members_tree(m@)),
        }
    }
}

#[verifier::external_type_specification]
#[verifier::external_body]
pub struct ExValue(serde_json::Value);

#[verifier::external_type_specification]
#[verifier::external_body]
pub struct ExError(serde_json::Error);

/// What a `serde_json` value holds.
pub uninterp spec fn json_tree(v: serde_json::Value) -> JsonTree;

/// What `serde_json::from_str` reads in a text, where it accepts it.
pub uninterp spec fn json_document(text: Seq<char>) -> Option<JsonTree>;

/// One level of a `serde_json` value.
pub enum JsonNode<'a> {
    Null,
    Bool(bool),
    Number(JsonNumber),
    Text(&'a String),
    Array(&'a Vec<serde_json::Value>),
    Object(Vec<(&'a String, &'a serde_json::Value)>),
}

/// What the members `s` of a parsed object mean.
pub open spec fn parsed_members(s: Seq<(&String, &serde_json::Value)>) -> Map<
    Seq<char>,
    JsonTree,
>
    decreases s.len(),
{
    if s.len() == 0 {
        Map::empty()
    } else {
        parsed_members(s.drop_last()).insert(s.last().0@, json_tree(*s.last().1))
    }
}

/// Whether no two of the members `s` have one name.
pub open spec fn distinct_members(s: Seq<(&String, &serde_json::Value)>) -> bool {
    forall|a: int, b: int|
        0 <= a < b < s.len() ==> (#[trigger] s[a]).0@ != (#[trigger] s[b]).0@
}

impl<'a> JsonNode<'a> {
    /// What the value means of which this is one level.
    pub open spec fn tree(self) -> JsonTree {
        match self {
            JsonNode::Null => JsonTree::Null,
            JsonNode::Bool(b) => JsonTree::Bool(b),
            JsonNode::Number(n) => JsonTree::Number(n),
            JsonNode::Text(s) => JsonTree::Text(s@),
            JsonNode::Array(v) => JsonTree::Array(
                v@.map_values(|x: serde_json::Value| json_tree(x)),
            ),
            JsonNode::Object(m) => JsonTree::Object(parsed_members(m@)),
        }
    }
}

/// Whether the double-precision bits `b` store exactly the whole number `n`.
pub open spec fn double_is(b: u64, n: int) -> bool {
    let exponent = ((b / 0x10_0000_0000_0000) % 2048) as nat;
    let mantissa = (0x10_0000_0000_0000 + b % 0x10_0000_0000_0000) as nat;
    if n == 0 {
        b == 0
    } else {
        &&& 0 < exponent < 2047
        &&& (b >= 0x8000_0000_0000_0000) == (n < 0)
        &&& mantissa * pow2(exponent) == (if n < 0 {
            -n
        } else {
            n
        }) * pow2(1075)
    }
}

/// The readings of the whole number `n`, which lies within 64 bits; below two to
/// the power of 53 in absolute value a double stores it exactly.
pub open spec fn whole_number(k: JsonNumber, n: int) -> bool {
    &&& k.signed == (if i64::MIN <= n <= i64::MAX {
        Some(n as i64)
    } else {
        None
    })
    &&& k.unsigned == (if 0 <= n <= u64::MAX {
        Some(n as u64)
    } else {
        None
    })
    &&& k.float is Some
    &&& -0x20_0000_0000_0000 < n < 0x20_0000_0000_0000 ==> double_is(k.float.unwrap(), n)
}

/// A JSON text without white space that holds whole numbers, arrays and objects.
pub enum JsonSyntax {
    Whole(int),
    Array(Seq<JsonSyntax>),
    Object(Seq<(Seq<char>, JsonSyntax)>),
}

/// The items of an array, with commas between them.
pub open spec fn items_text(s: Seq<JsonSyntax>) -> Seq<char>
    decreases s,
{
    if s.len() == 0 {
        Seq::empty()
    } else if s.len() == 1 {
        syntax_text(s[0])
    } else {
        items_text(s.drop_last()) + seq![','] + syntax_text(s.last())
    }
}

/// A member of an object: its name in quotes, a colon, its value.
pub open spec fn member_text(name: Seq<char>, value: Seq<char>) -> Seq<char> {
    seq!['"'] + name + seq!['"', ':'] + value
}

/// The members of an object, with commas between them.
pub open spec fn members_text(s: Seq<(Seq<char>, JsonSyntax)>) -> Seq<char>
    decreases s,
{
    if s.len() == 0 {
        Seq::empty()
    } else if s.len() == 1 {
        member_text(s[0].0, syntax_text(s[0].1))
    } else {
        members_text(s.drop_last()) + seq![','] + member_text(s.last().0, syntax_text(s.last().1))
    }
}

/// The text itself.
pub open spec fn syntax_text(s: JsonSyntax) -> Seq<char>
    decreases s,
{
    match s {
        JsonSyntax::Whole(n) => signed_decimal(n),
        JsonSyntax::Array(items) => seq!['['] + items_text(items) + seq![']'],
        JsonSyntax::Object(members) => seq!['{'] + members_text(members) + seq!['}'],
    }
}

/// A name that needs no escaping: lower-case ASCII letters.
pub open spec fn simple_name(name: Seq<char>) -> bool {
    forall|i: int| 0 <= i < name.len() ==> 'a' <= #[trigger] name[i] <= 'z'
}

/// Whole numbers of 64 bits with a sign, simple names, none of them twice in an
/// object, and at most `depth` levels below the outermost.
pub open spec fn plain_syntax(s: JsonSyntax, depth: nat) -> bool
    decreases depth,
{
    match s {
        JsonSyntax::Whole(n) => i64::MIN <= n <= i64::MAX,
        JsonSyntax::Array(items) => {
            &&& depth > 0
            &&& forall|i: int|
                0 <= i < items.len() ==> plain_syntax(#[trigger] items[i], (depth - 1) as nat)
        },
        JsonSyntax::Object(members) => {
            &&& depth > 0
            &&& forall|i: int|
                0 <= i < members.len() ==> simple_name((#[trigger] members[i]).0) && plain_syntax(
                    members[i].1,
                    (depth - 1) as nat,
                )
            &&& forall|i: int, j: int|
                0 <= i < j < members.len() ==> (#[trigger] members[i]).0 != (
                #[trigger] members[j]).0
        },
    }
}

/// Whether the tree `t` is what the text of `s` means.
pub open spec fn syntax_means(s: JsonSyntax, t: JsonTree, depth: nat) -> bool
    decreases depth,
{
    match s {
        JsonSyntax::Whole(n) => t matches JsonTree::Number(k) && whole_number(k, n),
        JsonSyntax::Array(items) => {
            &&& depth > 0
            &&& t matches JsonTree::Array(parts)
            &&& parts.len() == items.len()
            &&& forall|i: int|
                0 <= i < items.len() ==> syntax_means(
                    #[trigger] items[i],
                    parts[i],
                    (depth - 1) as nat,
                )
        },
        JsonSyntax::Object(members) => {
            &&& depth > 0
            &&& t matches JsonTree::Object(parts)
            &&& forall|i: int|
                0 <= i < members.len() ==> parts.dom().contains((#[trigger] members[i]).0)
                    && syntax_means(members[i].1, parts[members[i].0], (depth - 1) as nat)
            &&& forall|name: Seq<char>| #[trigger]
                parts.dom().contains(name) ==> exists|i: int|
                    0 <= i < members.len() && (#[trigger] members[i]).0 == name
        },
    }
}

/// Whether `read` is right about `text` where `text` is a plain JSON text.
pub open spec fn conforms(text: Seq<char>, read: Option<JsonTree>) -> bool {
    forall|s: JsonSyntax|
        plain_syntax(s, 100) && #[trigger] syntax_text(s) == text ==> (read matches Some(t)
            && syntax_means(s, t, 100))
}

/// `serde_json::from_str` into a `serde_json::Value`: what comes out, and whether
/// the text is accepted, depends on the text alone. A text of whole numbers,
/// arrays and objects, nested less deep than the limit of 128 levels, is accepted
/// and read as JSON defines it.
#[verifier::external_body]
fn read_value(text: &str) -> (r: Result<serde_json::Value, serde_json::Error>)
    ensures
        match r {
            Ok(v) => json_document(text@) == Some(json_tree(v)) && conforms(
                text@,
                Some(json_tree(v)),
            ),
            Err(_) => json_document(text@) is None && conforms(text@, None),
        },
{
    serde_json::from_str(text)
}

/// One level of a `serde_json::Value`: its variant with the fields in it, a
/// number by `Number::as_i64`, `as_u64` and the bits of `as_f64`, an object by its
/// members, each name once.
#[verifier::external_body]
fn open_value(v: &serde_json::Value) -> (r: JsonNode<'_>)
    ensures
        r.tree() == json_tree(*v),
        r matches JsonNode::Object(m) ==> distinct_members(m@),
{
    match v {
        serde_json::Value::Null => JsonNode::Null,
        serde_json::Value::Bool(b) => JsonNode::Bool(*b),
        serde_json::Value::Number(n) => JsonNode::Number(
            JsonNumber {
                signed: n.as_i64(),
                unsigned: n.as_u64(),
                float: n.as_f64().map(|x| x.to_bits()),
            },
        ),
        serde_json::Value::String(s) => JsonNode::Text(s),
        serde_json::Value::Array(a) => JsonNode::Array(a),
        serde_json::Value::Object(m) => JsonNode::Object(m.iter().collect()),
    }
}

/// What the object's mapping gives for the name of one of its members.
proof fn lemma_member_value(s: Seq<(&String, &serde_json::Value)>, i: int)
    requires
        0 <= i < s.len(),
        distinct_members(s),
    ensures
        parsed_members(s).dom().contains(s[i].0@),
        parsed_members(s)[s[i].0@] == json_tree(*s[i].1),
    decreases s.len(),
{
    if i < s.len() - 1 {
        lemma_member_value(s.drop_last(), i);
        assert(s.drop_last()[i] == s[i]);
        assert(s[i].0@ != s[s.len() - 1].0@);
    }
}

/// The tree of plain values of a parsed value.
fn lift(v: &serde_json::Value) -> (r: Json)
    ensures
        r.tree() == json_tree(*v),
    decreases json_tree(*v),
{
    match open_value(v) {
        JsonNode::Null => Json::Null,
        JsonNode::Bool(b) => Json::Bool(b),
        JsonNode::Number(n) => Json::Number(n),
        JsonNode::Text(s) => Json::Text(s.clone()),
        JsonNode::Array(a) => {
            let mut out: Vec<Json> = Vec::new();
            let ghost whole = json_tree(*v);
            for i in 0..a.len()
                invariant
                    whole == json_tree(*v),
                    whole == JsonTree::Array(a@.map_values(|x: serde_json::Value| json_tree(x))),
                    out@.len() == i,
                    forall|j: int| 0 <= j < i ==> (#[trigger] out@[j]).tree() == json_tree(a@[j]),
            {
                assert(whole->Array_0[i as int] == json_tree(a@[i as int]));
                assert(decreases_to!(whole => whole->Array_0[i as int]));
                out.push(lift(&a[i]));
            }
            let r = Json::Array(out);
            assert(r.tree()->Array_0 =~= whole->Array_0);
            r
        },
        JsonNode::Object(m) => {
            let mut out: Vec<(String, Json)> = Vec::new();
            let ghost whole = json_tree(*v);
            for i in 0..m.len()
                invariant
                    whole == json_tree(*v),
                    whole == JsonTree::Object(parsed_members(m@)),
                    distinct_members(m@),
                    members_tree(out@) == parsed_members(m@.take(i as int)),
            {
                let ghost before = out@;
                proof {
                    assert(m@.take(i + 1).drop_last() =~= m@.take(i as int));
                    lemma_member_value(m@, i as int);
                    let name = m@[i as int].0@;
                    assert(decreases_to!(whole => whole->Object_0[name]));
                }
                let member = lift(m[i].1);
                out.push((m[i].0.clone(), member));
                proof {
                    assert(out@.drop_last() =~= before);
                }
            }
            assert(m@.take(m@.len() as int) =~= m@);
            Json::Object(out)
        },
    }
}

/// Parses a JSON text.
pub fn parse_json(text: &str) -> (r: Option<Json>)
    ensures
        match r {
            Some(j) => json_document(text@) == Some(j.tree()),
            None => json_document(text@) is None,
        },
        conforms(text@, json_document(text@)),
{
    match read_value(text) {
        Ok(v) => Some(lift(&v)),
        Err(_) => None,
    }
}

/// The member `name`, where `t` is an object that has it.
pub open spec fn tree_get(t: JsonTree, name: Seq<char>) -> Option<JsonTree> {
    match t {
        JsonTree::Object(m) => if m.dom().contains(name) {
            Some(m[name])
        } else {
            None
        },
        _ => None,
    }
}

/// The items, where `t` is an array.
pub open spec fn tree_items(t: JsonTree) -> Option<Seq<JsonTree>> {
    match t {
        JsonTree::Array(items) => Some(items),
        _ => None,
    }
}

/// The items of the member `name`, where `t` has one that is an array.
pub open spec fn tree_list(t: JsonTree, name: Seq<char>) -> Option<Seq<JsonTree>> {
    match tree_get(t, name) {
        Some(part) => tree_items(part),
        None => None,
    }
}

/// A whole number: an integer as it is, another number without its fraction,
/// anything else as zero.
pub open spec fn tree_i64(t: JsonTree) -> int {
    match t {
        JsonTree::Number(n) => match (n.signed, n.float) {
            (Some(i), _) => i as int,
            (None, Some(b)) => double_clamped(b, i64::MIN as int, i64::MAX as int),
            _ => 0,
        },
        _ => 0,
    }
}

/// The whole number of the member `name`; zero where there is none.
pub open spec fn member_i64(t: JsonTree, name: Seq<char>) -> int {
    match tree_get(t, name) {
        Some(part) => tree_i64(part),
        None => 0,
    }
}

/// The bits of a number; those of zero for anything else.
pub open spec fn tree_f64(t: JsonTree) -> u64 {
    match t {
        JsonTree::Number(n) => match n.float {
            Some(b) => b,
            None => 0,
        },
        _ => 0,
    }
}

/// A colour channel: the whole number, held within a byte.
pub open spec fn tree_u8(t: JsonTree) -> u8 {
    if tree_i64(t) < 0 {
        0
    } else if tree_i64(t) > 255 {
        255
    } else {
        tree_i64(t) as u8
    }
}

/// The items of an array, each as what it means.
pub open spec fn trees(v: Seq<Json>) -> Seq<JsonTree> {
    v.map_values(|j: Json| j.tree())
}

/// What a member that stands last among those of its name means for the whole.
proof fn lemma_members_tree(s: Seq<(String, Json)>, name: Seq<char>, k: int)
    requires
        -1 <= k < s.len(),
        k >= 0 ==> s[k].0@ == name,
        forall|j: int| k < j < s.len() ==> (#[trigger] s[j]).0@ != name,
    ensures
        k >= 0 ==> members_tree(s).dom().contains(name) && members_tree(s)[name] == s[k].1.tree(),
        k < 0 ==> !members_tree(s).dom().contains(name),
    decreases s.len(),
{
    if s.len() > 0 && k < s.len() - 1 {
        assert(s[s.len() - 1].0@ != name);
        assert forall|j: int| k < j < s.drop_last().len() implies (
        #[trigger] s.drop_last()[j]).0@ != name by {
            assert(s.drop_last()[j] == s[j]);
        }
        lemma_members_tree(s.drop_last(), name, k);
    }
}

impl Json {
    /// The member `name`: `Value::get`.
    pub fn get(&self, name: &str) -> (r: Option<&Json>)
        ensures
            match r {
                Some(j) => tree_get(self.tree(), name@) == Some(j.tree()),
                None => tree_get(self.tree(), name@) is None,
            },
    {
        match self {
            Json::Object(m) => {
                let mut i: usize = m.len();
                while i > 0
                    invariant
                        i <= m.len(),
                        self.tree() == JsonTree::Object(members_tree(m@)),
                        forall|j: int| i <= j < m.len() ==> (#[trigger] m@[j]).0@ != name@,
                    decreases i,
                {
                    i = i - 1;
                    if same_text(m[i].0.as_str(), name) {
                        proof {
                            lemma_members_tree(m@, name@, i as int);
                        }
                        return Some(&m[i].1);
                    }
                }
                proof {
                    lemma_members_tree(m@, name@, -1);
                }
                None
            },
            _ => None,
        }
    }

    /// The items of an array: `Value::as_array`.
    pub fn as_array(&self) -> (r: Option<&Vec<Json>>)
        ensures
            match r {
                Some(v) => tree_items(self.tree()) == Some(trees(v@)),
                None => tree_items(self.tree()) is None,
            },
    {
        match self {
            Json::Array(v) => {
                assert(self.tree()->Array_0 =~= trees(v@));
                Some(v)
            },
            _ => None,
        }
    }

    /// The items of the member `name`.
    pub fn list(&self, name: &str) -> (r: Option<&Vec<Json>>)
        ensures
            match r {
                Some(v) => tree_list(self.tree(), name@) == Some(trees(v@)),
                None => tree_list(self.tree(), name@) is None,
            },
    {
        match self.get(name) {
            Some(j) => j.as_array(),
            None => None,
        }
    }

    /// The value as a whole number.
    pub fn as_i64(&self) -> (r: i64)
        ensures
            r == tree_i64(self.tree()),
    {
        match self {
            Json::Number(n) => match (n.signed, n.float) {
                (Some(i), _) => i,
                (None, Some(b)) => double_to_i64(b),
                _ => 0,
            },
            _ => 0,
        }
    }

    /// The whole number of the member `name`.
    pub fn member_as_i64(&self, name: &str) -> (r: i64)
        ensures
            r == member_i64(self.tree(), name@),
    {
        match self.get(name) {
            Some(j) => j.as_i64(),
            None => 0,
        }
    }

    /// The value as the bits of a double-precision number.
    pub fn as_f64(&self) -> (r: u64)
        ensures
            r == tree_f64(self.tree()),
    {
        match self {
            Json::Number(n) => match n.float {
                Some(b) => b,
                None => 0,
            },
            _ => 0,
        }
    }

    /// The value as a colour channel.
    pub fn as_u8(&self) -> (r: u8)
        ensures
            r == tree_u8(self.tree()),
    {
        let n = self.as_i64();
        if n < 0 {
            0
        } else if n > 255 {
            255
        } else {
            n as u8
        }
    }
}

/// What `serde_json::to_string_pretty` writes for a value that holds the tree.
pub uninterp spec fn json_pretty(t: JsonTree) -> Seq<char>;

/// Whether a tree is the whole number `n`.
pub open spec fn is_whole(t: JsonTree, n: int) -> bool {
    t matches JsonTree::Number(k) && whole_number(k, n)
}

/// A whole number or a text.
pub open spec fn scalar(t: JsonTree) -> bool {
    match t {
        JsonTree::Number(k) => (k.signed matches Some(n) && whole_number(k, n as int)) || (
        k.unsigned matches Some(n) && whole_number(k, n as int)),
        JsonTree::Text(s) => true,
        _ => false,
    }
}

/// An object of whole numbers and texts.
pub open spec fn flat_object(t: JsonTree) -> bool {
    t matches JsonTree::Object(m) && forall|name: Seq<char>| #[trigger]
        m.dom().contains(name) ==> scalar(m[name])
}

/// `serde_json::Value::from` of an unsigned integer: the number with its readings.
#[verifier::external_body]
fn unsigned_value(n: u64) -> (r: serde_json::Value)
    ensures
        is_whole(json_tree(r), n as int),
{
    serde_json::Value::from(n)
}

/// `serde_json::Value::from` of a signed integer: the number with its readings.
#[verifier::external_body]
fn signed_value(n: i64) -> (r: serde_json::Value)
    ensures
        is_whole(json_tree(r), n as int),
{
    serde_json::Value::from(n)
}

/// `serde_json::Value::from` of a text: that text.
#[verifier::external_body]
fn text_value(s: String) -> (r: serde_json::Value)
    ensures
        json_tree(r) == JsonTree::Text(s@),
{
    serde_json::Value::from(s)
}

/// Whether no two of the members `s` have one name.
pub open spec fn distinct_values(s: Seq<(String, serde_json::Value)>) -> bool {
    forall|a: int, b: int|
        0 <= a < b < s.len() ==> (#[trigger] s[a]).0@ != (#[trigger] s[b]).0@
}

/// What members mean, no two of which have one name.
pub open spec fn value_members(s: Seq<(String, serde_json::Value)>) -> Map<Seq<char>, JsonTree>
    decreases s.len(),
{
    if s.len() == 0 {
        Map::empty()
    } else {
        value_members(s.drop_last()).insert(s.last().0@, json_tree(s.last().1))
    }
}

/// `serde_json::Value` collected from members, no two of which have one name: the
/// object with these members.
#[verifier::external_body]
fn object_value(members: Vec<(String, serde_json::Value)>) -> (r: serde_json::Value)
    requires
        distinct_values(members@),
    ensures
        json_tree(r) == JsonTree::Object(value_members(members@)),
{
    members.into_iter().collect()
}

/// `serde_json::to_string_pretty` of a value: the text depends on the value alone,
/// an object of whole numbers and texts is written, and what is written is read
/// back as the same.
#[verifier::external_body]
fn pretty_text(v: &serde_json::Value) -> (r: Result<String, serde_json::Error>)
    ensures
        flat_object(json_tree(*v)) ==> r is Ok,
        r matches Ok(s) ==> s@ == json_pretty(json_tree(*v)) && (flat_object(json_tree(*v))
            ==> json_document(s@) == Some(json_tree(*v))),
{
    serde_json::to_string_pretty(v)
}

/// A member of an object that is written.
pub enum Scalar {
    Unsigned(u64),
    Signed(i64),
    Text(String),
}

/// Whether a tree means what a member does.
pub open spec fn scalar_means(s: Scalar, t: JsonTree) -> bool {
    match s {
        Scalar::Unsigned(n) => is_whole(t, n as int),
        Scalar::Signed(n) => is_whole(t, n as int),
        Scalar::Text(x) => t == JsonTree::Text(x@),
    }
}

/// Whether no two members have one name.
pub open spec fn distinct_names(s: Seq<(String, Scalar)>) -> bool {
    forall|a: int, b: int|
        0 <= a < b < s.len() ==> (#[trigger] s[a]).0@ != (#[trigger] s[b]).0@
}

/// Whether a tree is the object with these members and no others.
pub open spec fn object_means(s: Seq<(String, Scalar)>, t: JsonTree) -> bool {
    &&& t matches JsonTree::Object(m)
    &&& forall|i: int|
        0 <= i < s.len() ==> m.dom().contains((#[trigger] s[i]).0@) && scalar_means(
            s[i].1,
            m[s[i].0@],
        )
    &&& forall|name: Seq<char>| #[trigger]
        m.dom().contains(name) ==> exists|i: int| 0 <= i < s.len() && (#[trigger] s[i]).0@ == name
}

/// The member with a name of an object.
proof fn lemma_named(s: Seq<(String, Scalar)>, t: JsonTree, name: Seq<char>) -> (k: int)
    requires
        object_means(s, t),
        t->Object_0.dom().contains(name),
    ensures
        0 <= k < s.len(),
        s[k].0@ == name,
{
    choose|k: int| 0 <= k < s.len() && (#[trigger] s[k]).0@ == name
}

/// Writes an object with these members, each name once.
pub fn write_object(members: Vec<(String, Scalar)>) -> (r: String)
    requires
        distinct_names(members@),
    ensures
        exists|t: JsonTree| #[trigger]
            object_means(members@, t) && r@ == json_pretty(t) && json_document(r@) == Some(t),
{
    let ghost all = members@;
    let mut members = members;
    let mut out: Vec<(String, serde_json::Value)> = Vec::new();
    let total: usize = members.len();
    let mut done: usize = 0;
    assert(all.take(0) =~= Seq::<(String, Scalar)>::empty());
    while done < total
        invariant
            done <= total,
            total == all.len(),
            distinct_names(all),
            members@ == all.skip(done as int),
            object_means(all.take(done as int), JsonTree::Object(value_members(out@))),
            out@.len() == done,
            forall|i: int| 0 <= i < done ==> (#[trigger] out@[i]).0@ == all[i].0@,
        decreases total - done,
    {
        let (name, member) = members.remove(0);
        assert(name == all[done as int].0);
        assert(member == all[done as int].1);
        assert(members@ =~= all.skip(done + 1));
        let v = match member {
            Scalar::Unsigned(n) => unsigned_value(n),
            Scalar::Signed(n) => signed_value(n),
            Scalar::Text(x) => text_value(x),
        };
        let ghost before = out@;
        out.push((name, v));
        proof {
            assert(out@.drop_last() =~= before);
            let now = all.take(done + 1);
            let m = value_members(before);
            let n = value_members(out@);
            assert(n == m.insert(name@, json_tree(v)));
            assert forall|i: int| 0 <= i < now.len() implies n.dom().contains(
                (#[trigger] now[i]).0@,
            ) && scalar_means(now[i].1, n[now[i].0@]) by {
                if i < done {
                    assert(now[i] == all.take(done as int)[i]);
                    assert(all[i].0@ != all[done as int].0@);
                }
            }
            assert forall|x: Seq<char>| #[trigger] n.dom().contains(x) implies exists|i: int|
                0 <= i < now.len() && (#[trigger] now[i]).0@ == x by {
                if x == name@ {
                    assert(now[done as int].0@ == x);
                } else {
                    let earlier = all.take(done as int);
                    assert(object_means(earlier, JsonTree::Object(m)));
                    assert(m.dom().contains(x));
                    let k = lemma_named(earlier, JsonTree::Object(m), x);
                    assert(now[k] == earlier[k]);
                }
            }
        }
        done = done + 1;
    }
    assert(all.take(total as int) =~= all);
    assert forall|a: int, b: int| 0 <= a < b < out@.len() implies (#[trigger] out@[a]).0@ != (
    #[trigger] out@[b]).0@ by {
        assert(all[a].0@ != all[b].0@);
    }
    let v = object_value(out);
    let ghost t = json_tree(v);
    assert(flat_object(t)) by {
        let m = t->Object_0;
        assert forall|name: Seq<char>| #[trigger] m.dom().contains(name) implies scalar(
            m[name],
        ) by {
            let k = choose|k: int| 0 <= k < all.len() && (#[trigger] all[k]).0@ == name;
            assert(scalar_means(all[k].1, m[all[k].0@]));
        }
    }
    match pretty_text(&v) {
        Ok(s) => {
            assert(object_means(all, t));
            s
        },
        Err(_) => String::new(),
    }
}

/// An unsigned integer, where the value is one.
pub open spec fn tree_unsigned(t: JsonTree) -> Option<u64> {
    match t {
        JsonTree::Number(n) => n.unsigned,
        _ => None,
    }
}

/// A signed integer, where the value is one.
pub open spec fn tree_signed(t: JsonTree) -> Option<i64> {
    match t {
        JsonTree::Number(n) => n.signed,
        _ => None,
    }
}

/// The unsigned integer of the member `name`, where it is one.
pub open spec fn member_unsigned(t: JsonTree, name: Seq<char>) -> Option<u64> {
    match tree_get(t, name) {
        Some(part) => tree_unsigned(part),
        None => None,
    }
}

/// The signed integer of the member `name`, where it is one.
pub open spec fn member_signed(t: JsonTree, name: Seq<char>) -> Option<i64> {
    match tree_get(t, name) {
        Some(part) => tree_signed(part),
        None => None,
    }
}

impl Json {
    /// The unsigned integer of the member `name`, where it is one.
    pub fn member_as_unsigned(&self, name: &str) -> (r: Option<u64>)
        ensures
            r == member_unsigned(self.tree(), name@),
    {
        match self.get(name) {
            Some(Json::Number(n)) => n.unsigned,
            _ => None,
        }
    }

    /// The signed integer of the member `name`, where it is one.
    pub fn member_as_signed(&self, name: &str) -> (r: Option<i64>)
        ensures
            r == member_signed(self.tree(), name@),
    {
        match self.get(name) {
            Some(Json::Number(n)) => n.signed,
            _ => None,
        }
    }
}

/// A JSON text that is to be written: whole numbers, arrays and objects.
#[derive(Debug)]
pub enum JsonOut {
    Whole(i64),
    Array(Vec<JsonOut>),
    Object(Vec<(&'static str, JsonOut)>),
}

/// The members that are to be written.
pub open spec fn members_syntax(s: Seq<(&'static str, JsonOut)>) -> Seq<(Seq<char>, JsonSyntax)>
    decreases s,
{
    Seq::new(
        s.len(),
        |i: int|
            if 0 <= i < s.len() {
                (s[i].0@, s[i].1.syntax())
            } else {
                (Seq::empty(), JsonSyntax::Whole(0))
            },
    )
}

impl JsonOut {
    /// The text that is to be written.
    pub open spec fn syntax(self) -> JsonSyntax
        decreases self,
    {
        match self {
            JsonOut::Whole(n) => JsonSyntax::Whole(n as int),
            JsonOut::Array(v) => JsonSyntax::Array(
                Seq::new(
                    v@.len(),
                    |i: int|
                        if 0 <= i < v@.len() {
                            v@[i].syntax()
                        } else {
                            JsonSyntax::Whole(0)
                        },
                ),
            ),
            JsonOut::Object(m) => JsonSyntax::Object(members_syntax(m@)),
        }
    }
}

/// Writes a JSON text.
pub fn write_json(s: &mut String, v: &JsonOut)
    ensures
        final(s)@ == old(s)@ + syntax_text(v.syntax()),
    decreases v,
{
    match v {
        JsonOut::Whole(n) => {
            push_signed(s, *n);
        },
        JsonOut::Array(items) => {
            let ghost all = v.syntax()->Array_0;
            s.push('[');
            let ghost start = s@;
            assert(all.take(0) =~= Seq::<JsonSyntax>::empty());
            assert(s@ =~= start + items_text(all.take(0)));
            for i in 0..items.len()
                invariant
                    v == JsonOut::Array(*items),
                    v.syntax() == JsonSyntax::Array(all),
                    all.len() == items@.len(),
                    s@ == start + items_text(all.take(i as int)),
            {
                if i > 0 {
                    s.push(',');
                }
                assert(all[i as int] == items@[i as int].syntax());
                assert(decreases_to!(v => items@[i as int]));
                write_json(s, &items[i]);
                assert(all.take(i + 1).drop_last() =~= all.take(i as int));
                assert(s@ =~= start + items_text(all.take(i + 1)));
            }
            assert(all.take(items@.len() as int) =~= all);
            s.push(']');
            assert(s@ =~= old(s)@ + syntax_text(v.syntax()));
        },
        JsonOut::Object(members) => {
            proof {
                reveal_with_fuel(members_syntax, 2);
            }
            let ghost all = v.syntax()->Object_0;
            assert(all == members_syntax(members@));
            s.push('{');
            let ghost start = s@;
            assert(all.take(0) =~= Seq::<(Seq<char>, JsonSyntax)>::empty());
            assert(s@ =~= start + members_text(all.take(0)));
            for i in 0..members.len()
                invariant
                    v == JsonOut::Object(*members),
                    v.syntax() == JsonSyntax::Object(all),
                    all == members_syntax(members@),
                    all.len() == members@.len(),
                    s@ == start + members_text(all.take(i as int)),
            {
                if i > 0 {
                    s.push(',');
                }
                proof {
                    reveal_with_fuel(members_syntax, 2);
                }
                assert(all[i as int] == (members@[i as int].0@, members@[i as int].1.syntax()));
                assert(decreases_to!(v => members@[i as int].1));
                s.push('"');
                s.append(members[i].0);
                s.push('"');
                s.push(':');
                write_json(s, &members[i].1);
                assert(all.take(i + 1).drop_last() =~= all.take(i as int));
                assert(s@ =~= start + members_text(all.take(i + 1)));
            }
            assert(all.take(members@.len() as int) =~= all);
            s.push('}');
            assert(s@ =~= old(s)@ + syntax_text(v.syntax()));
        },
    }
}

} // verus!
