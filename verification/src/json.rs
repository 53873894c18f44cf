//! JSON values as plain data, and YAML nodes as JSON.

use serde_json::Value as Parsed;
use vstd::prelude::*;

use crate::float;
use crate::float::{read_float, Float, FloatV};
use crate::model::{Val, Value};
use crate::strmap;
use crate::strmap::put_entry;
use crate::text;
use crate::text::{cat2, copy, hex};
use crate::views;
use crate::yaml;
use crate::yaml::{Node, NodeV};

verus! {

/// A JSON value; an object's entries stand in the order of their keys.
#[derive(Debug)]
pub enum Json {
    Null,
    Bool(bool),
    Int(i64),
    UInt(u64),
    Float(Float),
    String(String),
    Array(Vec<Json>),
    Object(Vec<(String, Json)>),
}

/// What a [`Json`] holds.
#[verifier::ext_equal]
pub enum JsonV {
    Null,
    Bool(bool),
    Int(i64),
    UInt(u64),
    Float(FloatV),
    String(Seq<char>),
    Array(Seq<JsonV>),
    Object(Seq<(Seq<char>, JsonV)>),
}

/// What a value holds, level by level.
pub open spec fn content(j: Json) -> JsonV
    decreases j,
{
    match j {
        Json::Null => JsonV::Null,
        Json::Bool(b) => JsonV::Bool(b),
        Json::Int(i) => JsonV::Int(i),
        Json::UInt(u) => JsonV::UInt(u),
        Json::Float(f) => JsonV::Float(f@),
        Json::String(s) => JsonV::String(s@),
        Json::Array(v) => JsonV::Array(
            Seq::new(
                v@.len(),
                |i: int|
                    if 0 <= i < v@.len() {
                        content(v@[i])
                    } else {
                        JsonV::Null
                    },
            ),
        ),
        Json::Object(v) => JsonV::Object(
            Seq::new(
                v@.len(),
                |i: int|
                    if 0 <= i < v@.len() {
                        (v@[i].0@, content(v@[i].1))
                    } else {
                        (Seq::empty(), JsonV::Null)
                    },
            ),
        ),
    }
}

impl View for Json {
    type V = JsonV;

    open spec fn view(&self) -> JsonV {
        content(*self)
    }
}

proof fn lemma_array_view(v: Vec<Json>)
    ensures
        Json::Array(v)@ == JsonV::Array(views::list(v@)),
{
    assert(Json::Array(v)@->Array_0 =~= views::list(v@));
}

proof fn lemma_object_view(v: Vec<(String, Json)>)
    ensures
        Json::Object(v)@ == JsonV::Object(strmap::entries_view(v@)),
{
    assert(Json::Object(v)@->Object_0 =~= strmap::entries_view(v@));
}

// ---------------------------------------------------------------------------
// YAML as JSON
// ---------------------------------------------------------------------------

/// A double as a JSON number: null unless it is finite.
pub open spec fn number(f: FloatV) -> JsonV {
    if float::finite(f.bits) {
        JsonV::Float(f)
    } else {
        JsonV::Null
    }
}

/// A mapping's key as an object's key: empty unless it is text.
pub open spec fn key_text(k: NodeV) -> Seq<char> {
    match k.text() {
        Some(s) => s,
        None => ""@,
    }
}

/// A node as JSON; nothing for a real that is no numeral, an alias and a bad
/// value. Items and entries without a JSON form are left out.
pub open spec fn from_yaml(n: NodeV) -> Option<JsonV>
    decreases n,
{
    match n {
        NodeV::Real(s) => match float::reading(s) {
            Some(f) => Some(number(f)),
            None => None,
        },
        NodeV::Integer(i) => Some(JsonV::Int(i)),
        NodeV::String(s) => Some(JsonV::String(s)),
        NodeV::Boolean(b) => Some(JsonV::Bool(b)),
        NodeV::Array(v) => Some(JsonV::Array(items_from_yaml(v))),
        NodeV::Hash(h) => Some(JsonV::Object(entries_from_yaml(h))),
        NodeV::Null => Some(JsonV::Null),
        NodeV::Alias(_) => None,
        NodeV::BadValue => None,
    }
}

pub open spec fn items_from_yaml(v: Seq<NodeV>) -> Seq<JsonV>
    decreases v,
{
    if v.len() == 0 {
        Seq::empty()
    } else {
        match from_yaml(v.last()) {
            Some(j) => items_from_yaml(v.drop_last()).push(j),
            None => items_from_yaml(v.drop_last()),
        }
    }
}

pub open spec fn entries_from_yaml(v: Seq<(NodeV, NodeV)>) -> Seq<(Seq<char>, JsonV)>
    decreases v,
{
    if v.len() == 0 {
        Seq::empty()
    } else {
        match from_yaml(v.last().1) {
            Some(j) => strmap::put(entries_from_yaml(v.drop_last()), key_text(v.last().0), j),
            None => entries_from_yaml(v.drop_last()),
        }
    }
}

fn array_to_json(v: &Vec<Node>) -> (out: Vec<Json>)
    ensures
        views::list(out@) == items_from_yaml(views::list(v@)),
    decreases *v,
{
    let ghost all = views::list(v@);
    let mut out: Vec<Json> = Vec::new();
    let mut i: usize = 0;
    assert(views::list(out@) =~= items_from_yaml(all.take(0)));
    while i < v.len()
        invariant
            i <= v.len(),
            all == views::list(v@),
            views::list(out@) == items_from_yaml(all.take(i as int)),
        decreases v.len() - i,
    {
        assert(decreases_to!(*v => v@[i as int]));
        assert(all.take(i + 1).drop_last() =~= all.take(i as int));
        assert(all.take(i + 1).last() == v@[i as int]@);
        if let Some(j) = yaml_to_json(&v[i]) {
            proof {
                views::lemma_list_push(out@, j);
            }
            out.push(j);
        }
        i += 1;
    }
    assert(all.take(i as int) =~= all);
    out
}

fn hash_to_json(v: &Vec<(Node, Node)>) -> (out: Vec<(String, Json)>)
    ensures
        strmap::entries_view(out@) == entries_from_yaml(yaml::entries_view(v@)),
    decreases *v,
{
    let ghost all = yaml::entries_view(v@);
    let mut out: Vec<(String, Json)> = Vec::new();
    let mut i: usize = 0;
    assert(strmap::entries_view(out@) =~= entries_from_yaml(all.take(0)));
    while i < v.len()
        invariant
            i <= v.len(),
            all == yaml::entries_view(v@),
            strmap::entries_view(out@) == entries_from_yaml(all.take(i as int)),
            strmap::ordered(strmap::entries_view(out@)),
        decreases v.len() - i,
    {
        assert(decreases_to!(*v => v@[i as int]));
        assert(all.take(i + 1).drop_last() =~= all.take(i as int));
        assert(all.take(i + 1).last() == (v@[i as int].0@, v@[i as int].1@));
        if let Some(j) = yaml_to_json(&v[i].1) {
            let key = match v[i].0.as_str() {
                Some(k) => copy(k),
                None => copy(""),
            };
            put_entry(&mut out, key, j);
        }
        i += 1;
    }
    assert(all.take(i as int) =~= all);
    out
}

/// Best-effort conversion of a YAML node to JSON.
pub fn yaml_to_json(y: &Node) -> (out: Option<Json>)
    ensures
        views::opt(out) == from_yaml(y@),
    decreases *y,
{
    match y {
        Node::Real(s) => match read_float(s.as_str()) {
            Some(f) => if float::is_finite(f.bits) {
                Some(Json::Float(f))
            } else {
                Some(Json::Null)
            },
            None => None,
        },
        Node::Integer(i) => Some(Json::Int(*i)),
        Node::String(s) => Some(Json::String(s.clone())),
        Node::Boolean(b) => Some(Json::Bool(*b)),
        Node::Array(v) => {
            let items = array_to_json(v);
            proof {
                yaml::lemma_array_view(*v);
                lemma_array_view(items);
            }
            Some(Json::Array(items))
        },
        Node::Hash(v) => {
            let entries = hash_to_json(v);
            proof {
                yaml::lemma_hash_view(*v);
                lemma_object_view(entries);
            }
            Some(Json::Object(entries))
        },
        Node::Null => Some(Json::Null),
        Node::Alias(_) => None,
        Node::BadValue => None,
    }
}

// ---------------------------------------------------------------------------
// Flat objects
// ---------------------------------------------------------------------------

/// A value of a flat JSON object.
#[derive(Debug)]
pub enum Cell {
    Null,
    Bool(bool),
    Int(i64),
    /// A whole number above the range of `i64`.
    UInt(u64),
    /// Any other number, by its numeral.
    Float(String),
    String(String),
    /// An array or an object, by its compact text.
    Nested(String),
}

/// What a [`Cell`] holds.
#[verifier::ext_equal]
pub enum CellV {
    Null,
    Bool(bool),
    Int(i64),
    UInt(u64),
    Float(Seq<char>),
    String(Seq<char>),
    Nested(Seq<char>),
}

impl View for Cell {
    type V = CellV;

    open spec fn view(&self) -> CellV {
        match self {
            Cell::Null => CellV::Null,
            Cell::Bool(b) => CellV::Bool(*b),
            Cell::Int(i) => CellV::Int(*i),
            Cell::UInt(u) => CellV::UInt(*u),
            Cell::Float(s) => CellV::Float(s@),
            Cell::String(s) => CellV::String(s@),
            Cell::Nested(s) => CellV::Nested(s@),
        }
    }
}

/// The cells that come back from JSON text as they were written.
pub open spec fn exact(c: CellV) -> bool {
    match c {
        CellV::Null => true,
        CellV::Bool(_) => true,
        CellV::Int(_) => true,
        CellV::UInt(u) => u > i64::MAX,
        CellV::Float(_) => false,
        CellV::String(_) => true,
        CellV::Nested(_) => false,
    }
}

/// Entries with ascending keys whose cells come back as they were written.
pub open spec fn all_exact(cells: Seq<(Seq<char>, CellV)>) -> bool {
    strmap::ordered(cells) && forall|i: int| 0 <= i < cells.len() ==> exact((#[trigger] cells[i]).1)
}

/// The reading that gives these entries.
pub open spec fn reads_as(cells: Seq<(Seq<char>, CellV)>) -> Result<Seq<(Seq<char>, CellV)>, Seq<char>> {
    Ok(cells)
}

/// What [`read_object`] returns for a text.
pub uninterp spec fn object_reading(s: Seq<char>) -> Result<Seq<(Seq<char>, CellV)>, Seq<char>>;

/// What [`write_object`] returns for the entries of an object.
pub uninterp spec fn object_writing(cells: Seq<(Seq<char>, CellV)>) -> Result<Seq<char>, Seq<char>>;

/// `serde_json::from_str` into a map from text to JSON values: the entries in
/// the order of their keys, or the words of the error. Both depend on the text
/// alone.
#[verifier::external_body]
pub(crate) fn read_object(s: &str) -> (out: Result<Vec<(String, Cell)>, String>)
    ensures
        (match out {
            Ok(v) => Ok(strmap::entries_view(v@)),
            Err(e) => Err(e@),
        }) == object_reading(s@),
        out matches Ok(v) ==> strmap::ordered(strmap::entries_view(v@)),
{
    match serde_json::from_str::<std::collections::BTreeMap<String, Parsed>>(s) {
        Ok(m) => Ok(m.into_iter().map(|(k, v)| (k, match v {
            Parsed::Null => Cell::Null,
            Parsed::Bool(b) => Cell::Bool(b),
            Parsed::Number(n) => match (n.as_i64(), n.as_u64()) {
                (Some(i), _) => Cell::Int(i),
                (None, Some(u)) => Cell::UInt(u),
                (None, None) => Cell::Float(n.to_string()),
            },
            Parsed::String(t) => Cell::String(t),
            nested => Cell::Nested(nested.to_string()),
        })).collect()),
        Err(e) => Err(e.to_string()),
    }
}

/// `serde_json::to_string_pretty` on an object with the given entries: its text.
/// An object of JSON values is always written, so there are no words of an error.
/// Entries with ascending keys that hold nulls, booleans, whole numbers and texts
/// read back as they were.
#[verifier::external_body]
pub(crate) fn write_object(cells: Vec<(String, Cell)>) -> (out: Result<String, String>)
    ensures
        views::res(out) == object_writing(strmap::entries_view(cells@)),
        out is Ok,
        all_exact(strmap::entries_view(cells@)) ==> object_reading(out->Ok_0@) == reads_as(strmap::entries_view(cells@)),
{
    let map = cells.into_iter().map(|(k, c)| (k, match c {
        Cell::Null => Parsed::Null,
        Cell::Bool(b) => Parsed::from(b),
        Cell::Int(i) => Parsed::from(i),
        Cell::UInt(u) => Parsed::from(u),
        Cell::Float(t) => Parsed::from(t.parse().ok().and_then(serde_json::Number::from_f64)),
        Cell::String(t) => Parsed::from(t),
        Cell::Nested(t) => Parsed::from(t),
    })).collect();
    match serde_json::to_string_pretty(&Parsed::Object(map)) {
        Ok(t) => Ok(t),
        Err(e) => Err(e.to_string()),
    }
}

/// What [`read_names`] returns for a text.
pub uninterp spec fn names_reading(s: Seq<char>) -> Result<Seq<Seq<char>>, Seq<char>>;

/// `serde_json::from_str` into a list of texts: the texts in order, or the words
/// of the error. Both depend on the text alone.
#[verifier::external_body]
pub(crate) fn read_names(s: &str) -> (out: Result<Vec<String>, String>)
    ensures
        (match out {
            Ok(v) => Ok(views::list(v@)),
            Err(e) => Err(e@),
        }) == names_reading(s@),
{
    match serde_json::from_str::<Vec<String>>(s) {
        Ok(v) => Ok(v),
        Err(e) => Err(e.to_string()),
    }
}

/// The reading of a list that holds just these texts.
pub open spec fn all_read(v: Seq<Seq<char>>) -> Result<Seq<Seq<char>>, Seq<char>> {
    Ok(v)
}

/// What [`write_names`] returns for a list of texts.
pub uninterp spec fn names_writing(v: Seq<Seq<char>>) -> Result<Seq<char>, Seq<char>>;

/// `serde_json::to_string` on a list of texts: its text, or the words of the
/// error. A list of texts is always written, starts with its bracket and reads
/// back as it was.
#[verifier::external_body]
pub(crate) fn write_names(v: &Vec<String>) -> (out: Result<String, String>)
    ensures
        views::res(out) == names_writing(views::list(v@)),
        out is Ok,
        out->Ok_0@.len() > 0 && out->Ok_0@[0] == '[',
        names_reading(out->Ok_0@) == all_read(views::list(v@)),
{
    match serde_json::to_string(v) {
        Ok(t) => Ok(t),
        Err(e) => Err(e.to_string()),
    }
}

/// The double that a numeral stands for; zero where it is none.
pub open spec fn double(s: Seq<char>) -> FloatV {
    match float::reading(s) {
        Some(f) => f,
        None => FloatV { bits: 0, text: "0"@ },
    }
}

/// A cell as a value: arrays and objects by their text.
pub open spec fn cell_value(c: CellV) -> Val {
    match c {
        CellV::Null => Val::Null,
        CellV::Bool(b) => Val::Bool(b),
        CellV::Int(i) => Val::Int(i),
        CellV::UInt(u) => Val::UInt(u),
        CellV::Float(s) => Val::Float(double(s)),
        CellV::String(s) => Val::String(s),
        CellV::Nested(s) => Val::String(s),
    }
}

pub fn json_to_value(c: Cell) -> (out: Value)
    ensures
        out@ == cell_value(c@),
{
    match c {
        Cell::Null => Value::Null,
        Cell::Bool(b) => Value::Bool(b),
        Cell::Int(i) => Value::Int(i),
        Cell::UInt(u) => Value::UInt(u),
        Cell::Float(s) => match read_float(s.as_str()) {
            Some(f) => Value::Float(f),
            None => Value::Float(Float { bits: 0, text: copy("0") }),
        },
        Cell::String(s) => Value::String(s),
        Cell::Nested(s) => Value::String(s),
    }
}

/// A value as a cell: decimals, dates and bytes as text, whole numbers by their
/// range.
pub open spec fn value_cell(v: Val) -> CellV {
    match v {
        Val::Null => CellV::Null,
        Val::Bool(b) => CellV::Bool(b),
        Val::Int(i) => CellV::Int(i),
        Val::UInt(u) => if u <= i64::MAX {
            CellV::Int(u as i64)
        } else {
            CellV::UInt(u)
        },
        Val::Float(f) => CellV::Float(f.text),
        Val::Decimal(s) => CellV::String(s),
        Val::String(s) => CellV::String(s),
        Val::Date(s) => CellV::String(s),
        Val::Bytes(b) => CellV::String(text::hex_of(b)),
    }
}

pub fn value_to_json(v: &Value) -> (out: Cell)
    ensures
        out@ == value_cell(v@),
{
    match v {
        Value::Null => Cell::Null,
        Value::Bool(b) => Cell::Bool(*b),
        Value::Int(i) => Cell::Int(*i),
        Value::UInt(u) => if *u <= i64::MAX as u64 {
            Cell::Int(*u as i64)
        } else {
            Cell::UInt(*u)
        },
        Value::Float(f) => Cell::Float(f.text.clone()),
        Value::Decimal(s) => Cell::String(s.clone()),
        Value::String(s) => Cell::String(s.clone()),
        Value::Date(s) => Cell::String(s.clone()),
        Value::Bytes(b) => Cell::String(hex(b)),
    }
}

/// What is left of a value once it was written as JSON and read back: the kind
/// of text is lost, and bytes are their hexadecimal text.
pub open spec fn flattened(v: Val) -> Val {
    cell_value(value_cell(v))
}

/// Law: nulls, booleans, signed numbers and texts survive JSON unchanged, and
/// what came back once survives unchanged from then on.
pub proof fn law_flattening_is_stable(v: Val)
    requires
        !(v is Float),
    ensures
        v is Null || v is Bool || v is Int || v is String ==> flattened(v) == v,
        exact(value_cell(v)),
        flattened(flattened(v)) == flattened(v),
{
}

/// A plain JSON literal as a value, for configuration files; an array or an
/// object is refused.
pub fn plain_value(c: Cell) -> (out: Result<Value, String>)
    ensures
        (match out {
            Ok(v) => Ok(v@),
            Err(e) => Err(e@),
        }) == (match c@ {
            CellV::Nested(s) => Err("cannot convert JSON value to Value: "@ + s),
            _ => Ok(cell_value(c@)),
        }),
{
    match c {
        Cell::Nested(s) => Err(cat2("cannot convert JSON value to Value: ", s.as_str())),
        _ => Ok(json_to_value(c)),
    }
}

// ---------------------------------------------------------------------------
// What is kept
// ---------------------------------------------------------------------------

/// Law: texts, whole numbers, truth values and nothing come over as they are; what
/// is no value of its own does not come over.
pub proof fn law_plain_nodes_come_over(n: NodeV)
    ensures
        n matches NodeV::String(s) ==> from_yaml(n) == Some(JsonV::String(s)),
        n matches NodeV::Integer(i) ==> from_yaml(n) == Some(JsonV::Int(i)),
        n matches NodeV::Boolean(b) ==> from_yaml(n) == Some(JsonV::Bool(b)),
        n is Null ==> from_yaml(n) == Some(JsonV::Null),
        n is Alias || n is BadValue ==> from_yaml(n) is None,
{
}

/// Law: the items of a list come over in their order.
pub proof fn law_items_come_over_in_order(v: Seq<NodeV>, i: int)
    requires
        forall|k: int| 0 <= k < v.len() ==> from_yaml(#[trigger] v[k]) is Some,
        0 <= i < v.len(),
    ensures
        from_yaml(NodeV::Array(v)) == Some(JsonV::Array(items_from_yaml(v))),
        items_from_yaml(v).len() == v.len(),
        items_from_yaml(v)[i] == from_yaml(v[i])->Some_0,
    decreases v.len(),
{
    let head = v.drop_last();
    assert(from_yaml(v[v.len() - 1]) is Some);
    assert forall|k: int| 0 <= k < head.len() implies from_yaml(#[trigger] head[k]) is Some by {
        assert(head[k] == v[k]);
    }
    if i < head.len() {
        law_items_come_over_in_order(head, i);
    } else if head.len() > 0 {
        law_items_come_over_in_order(head, 0);
    } else {
        assert(items_from_yaml(head) =~= Seq::empty());
    }
}

/// Law: an entry of a mapping comes over under its key; of two under one key the
/// last one counts.
pub proof fn law_entries_come_over_by_key(h: Seq<(NodeV, NodeV)>, k: Seq<char>, n: NodeV, c: Seq<char>)
    requires
        from_yaml(n) is Some,
    ensures
        strmap::ordered(entries_from_yaml(h)),
        strmap::at(entries_from_yaml(h.push((NodeV::String(k), n))), c) == (if c == k {
            from_yaml(n)
        } else {
            strmap::at(entries_from_yaml(h), c)
        }),
{
    lemma_entries_ordered(h);
    assert(h.push((NodeV::String(k), n)).drop_last() =~= h);
    let j = from_yaml(n)->Some_0;
    strmap::lemma_put(entries_from_yaml(h), k, j);
    strmap::lemma_dict(entries_from_yaml(h), c);
    strmap::lemma_dict(strmap::put(entries_from_yaml(h), k, j), c);
}

proof fn lemma_entries_ordered(h: Seq<(NodeV, NodeV)>)
    ensures
        strmap::ordered(entries_from_yaml(h)),
    decreases h.len(),
{
    if h.len() > 0 {
        lemma_entries_ordered(h.drop_last());
        if let Some(j) = from_yaml(h.last().1) {
            strmap::lemma_put(entries_from_yaml(h.drop_last()), key_text(h.last().0), j);
        }
    }
}

/// Law: values are saved by what they hold: a number by its number, a text,
/// decimal or date by its text, bytes in hexadecimal; and what is read back is
/// that.
pub proof fn law_cells_hold_the_values(v: Val)
    ensures
        v matches Val::UInt(u) ==> (u <= i64::MAX ==> flattened(v) == Val::Int(u as i64)) && (u > i64::MAX ==> flattened(v)
            == v),
        v.text() matches Some(s) ==> flattened(v) == Val::String(s),
        v matches Val::Bytes(b) ==> flattened(v) == Val::String(text::hex_of(b)),
        v matches Val::Bool(b) ==> flattened(v) == v,
        v is Null <==> flattened(v) is Null,
        v is Float <==> flattened(v) is Float,
{
}

/// Law: a double comes over as it is where it is finite, and as nothing where it is
/// not; a key that is no text comes over as the empty one.
pub proof fn law_finite_numbers_come_over(f: FloatV, k: NodeV)
    ensures
        float::finite(f.bits) ==> number(f) == JsonV::Float(f),
        !float::finite(f.bits) ==> number(f) is Null,
        k.text() matches Some(s) ==> key_text(k) == s,
        k.text() is None ==> key_text(k).len() == 0,
{
    reveal_strlit("");
}

/// Law: what is read of a file is the value it holds: a whole number with or without
/// a sign, a text, a truth value, nothing; a double as its text reads; a list or
/// mapping as its text.
pub proof fn law_cells_are_read_as_they_are(c: CellV)
    ensures
        c matches CellV::Int(i) ==> cell_value(c) == Val::Int(i),
        c matches CellV::UInt(u) ==> cell_value(c) == Val::UInt(u),
        c matches CellV::Bool(b) ==> cell_value(c) == Val::Bool(b),
        c matches CellV::String(s) ==> cell_value(c) == Val::String(s),
        c matches CellV::Nested(s) ==> cell_value(c) == Val::String(s),
        c matches CellV::Float(s) ==> (cell_value(c) matches Val::Float(f) && (float::reading(s) matches Some(g) ==> f == g)
            && (float::reading(s) is None ==> float::value(f.bits) == 0)),
        c is Null <==> cell_value(c) is Null,
{
    if let CellV::Float(s) = c {
        if float::reading(s) is None {
            assert(float::significand(0) == 0);
            assert(float::size(0) == 0) by (nonlinear_arith)
                requires
                    float::size(0) == float::significand(0) * float::p2(float::scale(0)),
                    float::significand(0) == 0,
            ;
        }
    }
}

} // verus!
