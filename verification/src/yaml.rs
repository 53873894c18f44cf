//! YAML documents as plain data.

use vstd::prelude::*;
use yaml_rust2::Yaml;

use crate::text;
use crate::text::{cat3, copy, debug_text, dec_text, int_text, joined, same};
use crate::views;

verus! {

/// A node of a YAML document.
#[derive(Debug)]
pub enum Node {
    /// A floating-point scalar, by its source text.
    Real(String),
    Integer(i64),
    String(String),
    Boolean(bool),
    Array(Vec<Node>),
    Hash(Vec<(Node, Node)>),
    Alias(usize),
    Null,
    BadValue,
}

/// What a [`Node`] holds.
#[verifier::ext_equal]
pub enum NodeV {
    Real(Seq<char>),
    Integer(i64),
    String(Seq<char>),
    Boolean(bool),
    Array(Seq<NodeV>),
    Hash(Seq<(NodeV, NodeV)>),
    Alias(usize),
    Null,
    BadValue,
}

/// What a node holds, level by level.
pub open spec fn content(n: Node) -> NodeV
    decreases n,
{
    match n {
        Node::Real(s) => NodeV::Real(s@),
        Node::Integer(i) => NodeV::Integer(i),
        Node::String(s) => NodeV::String(s@),
        Node::Boolean(b) => NodeV::Boolean(b),
        Node::Array(v) => NodeV::Array(
            Seq::new(
                v@.len(),
                |i: int|
                    if 0 <= i < v@.len() {
                        content(v@[i])
                    } else {
                        NodeV::Null
                    },
            ),
        ),
        Node::Hash(v) => NodeV::Hash(
            Seq::new(
                v@.len(),
                |i: int|
                    if 0 <= i < v@.len() {
                        (content(v@[i].0), content(v@[i].1))
                    } else {
                        (NodeV::Null, NodeV::Null)
                    },
            ),
        ),
        Node::Alias(n) => NodeV::Alias(n),
        Node::Null => NodeV::Null,
        Node::BadValue => NodeV::BadValue,
    }
}

impl View for Node {
    type V = NodeV;

    open spec fn view(&self) -> NodeV {
        content(*self)
    }
}

/// What a list of entries stands for.
pub open spec fn entries_view(v: Seq<(Node, Node)>) -> Seq<(NodeV, NodeV)> {
    v.map_values(|e: (Node, Node)| (e.0@, e.1@))
}

pub proof fn lemma_array_view(v: Vec<Node>)
    ensures
        Node::Array(v)@ == NodeV::Array(views::list(v@)),
{
    assert(Node::Array(v)@->Array_0 =~= views::list(v@));
}

pub proof fn lemma_hash_view(v: Vec<(Node, Node)>)
    ensures
        Node::Hash(v)@ == NodeV::Hash(entries_view(v@)),
{
    assert(Node::Hash(v)@->Hash_0 =~= entries_view(v@));
}

// ---------------------------------------------------------------------------
// Reading documents
// ---------------------------------------------------------------------------

/// A node of the parser.
#[verifier::external_type_specification]
#[verifier::external_body]
pub struct ExYaml(yaml_rust2::Yaml);

/// What [`load_documents`] returns for a text.
pub uninterp spec fn yaml_documents(s: Seq<char>) -> Result<Seq<NodeV>, Seq<char>>;

/// A node of `yaml_rust2` as a [`Node`]: variant by variant, a mapping's entries
/// in their order.
#[verifier::external_body]
fn node_of(y: Yaml) -> (out: Node) {
    match y {
        Yaml::Real(s) => Node::Real(s),
        Yaml::Integer(i) => Node::Integer(i),
        Yaml::String(s) => Node::String(s),
        Yaml::Boolean(b) => Node::Boolean(b),
        Yaml::Array(v) => Node::Array(v.into_iter().map(node_of).collect()),
        Yaml::Hash(h) => Node::Hash(h.into_iter().map(|e| (node_of(e.0), node_of(e.1))).collect()),
        Yaml::Alias(n) => Node::Alias(n),
        Yaml::Null => Node::Null,
        Yaml::BadValue => Node::BadValue,
    }
}

/// `yaml_rust2::YamlLoader::load_from_str`: the documents of a text, or the words
/// of the error. Both depend on the text alone.
#[verifier::external_body]
pub(crate) fn load_documents(s: &str) -> (out: Result<Vec<Node>, String>)
    ensures
        (match out {
            Ok(v) => Ok(views::list(v@)),
            Err(e) => Err(e@),
        }) == yaml_documents(s@),
{
    match yaml_rust2::YamlLoader::load_from_str(s) {
        Ok(docs) => Ok(docs.into_iter().map(node_of).collect()),
        Err(e) => Err(e.to_string()),
    }
}

// ---------------------------------------------------------------------------
// Looking into nodes
// ---------------------------------------------------------------------------

impl NodeV {
    pub open spec fn text(self) -> Option<Seq<char>> {
        match self {
            NodeV::String(s) => Some(s),
            _ => None,
        }
    }

    pub open spec fn number(self) -> Option<i64> {
        match self {
            NodeV::Integer(i) => Some(i),
            _ => None,
        }
    }

    pub open spec fn truth(self) -> Option<bool> {
        match self {
            NodeV::Boolean(b) => Some(b),
            _ => None,
        }
    }

    pub open spec fn items(self) -> Option<Seq<NodeV>> {
        match self {
            NodeV::Array(v) => Some(v),
            _ => None,
        }
    }

    pub open spec fn entries(self) -> Option<Seq<(NodeV, NodeV)>> {
        match self {
            NodeV::Hash(h) => Some(h),
            _ => None,
        }
    }

    /// The value under a text key; a bad value where there is none.
    pub open spec fn field(self, key: Seq<char>) -> NodeV {
        match self {
            NodeV::Hash(h) => match under(h, key) {
                Some(v) => v,
                None => NodeV::BadValue,
            },
            _ => NodeV::BadValue,
        }
    }
}

/// The value of the first entry under a text key.
pub open spec fn under(h: Seq<(NodeV, NodeV)>, key: Seq<char>) -> Option<NodeV>
    decreases h.len(),
{
    if h.len() == 0 {
        None
    } else if h[0].0 == NodeV::String(key) {
        Some(h[0].1)
    } else {
        under(h.skip(1), key)
    }
}

/// The node where a mapping has no entry.
const BAD_VALUE: Node = Node::BadValue;

impl Node {
    pub fn as_str(&self) -> (out: Option<&str>)
        ensures
            views::opt(out) == self@.text(),
    {
        match self {
            Node::String(s) => Some(s.as_str()),
            _ => None,
        }
    }

    pub fn as_i64(&self) -> (out: Option<i64>)
        ensures
            out == self@.number(),
    {
        match self {
            Node::Integer(i) => Some(*i),
            _ => None,
        }
    }

    pub fn as_bool(&self) -> (out: Option<bool>)
        ensures
            out == self@.truth(),
    {
        match self {
            Node::Boolean(b) => Some(*b),
            _ => None,
        }
    }

    pub fn as_vec(&self) -> (out: Option<&Vec<Node>>)
        ensures
            (match out {
                Some(v) => Some(views::list(v@)),
                None => None,
            }) == self@.items(),
    {
        match self {
            Node::Array(v) => {
                proof {
                    lemma_array_view(*v);
                }
                Some(v)
            },
            _ => None,
        }
    }

    pub fn as_hash(&self) -> (out: Option<&Vec<(Node, Node)>>)
        ensures
            (match out {
                Some(v) => Some(entries_view(v@)),
                None => None,
            }) == self@.entries(),
    {
        match self {
            Node::Hash(v) => {
                proof {
                    lemma_hash_view(*v);
                }
                Some(v)
            },
            _ => None,
        }
    }

    /// The value under a text key.
    pub fn get(&self, key: &str) -> (out: Option<&Node>)
        ensures
            views::opt(out) == (match self@.entries() {
                Some(h) => under(h, key@),
                None => None,
            }),
    {
        match self.as_hash() {
            Some(h) => {
                let ghost all = entries_view(h@);
                let mut i: usize = 0;
                assert(all.skip(0) =~= all);
                while i < h.len()
                    invariant
                        i <= h.len(),
                        all == entries_view(h@),
                        self@.entries() == Some(all),
                        under(all, key@) == under(all.skip(i as int), key@),
                    decreases h.len() - i,
                {
                    assert(all.skip(i as int)[0] == (h@[i as int].0@, h@[i as int].1@));
                    if let Some(k) = h[i].0.as_str() {
                        if same(k, key) {
                            return Some(&h[i].1);
                        }
                    }
                    assert(all.skip(i as int).skip(1) =~= all.skip(i + 1));
                    i += 1;
                }
                None
            },
            None => None,
        }
    }

    /// The value under a text key; a bad value where there is none.
    pub fn index(&self, key: &str) -> (out: &Node)
        ensures
            out@ == self@.field(key@),
    {
        match self.get(key) {
            Some(n) => n,
            None => &BAD_VALUE,
        }
    }
}

// ---------------------------------------------------------------------------
// Copies
// ---------------------------------------------------------------------------

fn copy_items(v: &Vec<Node>) -> (out: Vec<Node>)
    ensures
        views::list(out@) == views::list(v@),
    decreases *v,
{
    let ghost all = views::list(v@);
    let mut out: Vec<Node> = Vec::new();
    let mut i: usize = 0;
    while i < v.len()
        invariant
            i <= v.len(),
            all == views::list(v@),
            views::list(out@) == all.take(i as int),
        decreases v.len() - i,
    {
        assert(decreases_to!(*v => v@[i as int]));
        let n = v[i].copied();
        proof {
            views::lemma_list_push(out@, n);
        }
        out.push(n);
        assert(all.take(i + 1) =~= all.take(i as int).push(all[i as int]));
        i += 1;
    }
    assert(all.take(i as int) =~= all);
    out
}

fn copy_entries(v: &Vec<(Node, Node)>) -> (out: Vec<(Node, Node)>)
    ensures
        entries_view(out@) == entries_view(v@),
    decreases *v,
{
    let ghost all = entries_view(v@);
    let mut out: Vec<(Node, Node)> = Vec::new();
    let mut i: usize = 0;
    while i < v.len()
        invariant
            i <= v.len(),
            all == entries_view(v@),
            entries_view(out@) == all.take(i as int),
        decreases v.len() - i,
    {
        assert(decreases_to!(*v => v@[i as int]));
        let e = (v[i].0.copied(), v[i].1.copied());
        let ghost before = entries_view(out@);
        out.push(e);
        assert(entries_view(out@) =~= before.push((e.0@, e.1@)));
        assert(all.take(i + 1) =~= all.take(i as int).push(all[i as int]));
        i += 1;
    }
    assert(all.take(i as int) =~= all);
    out
}

impl Node {
    fn copied(&self) -> (out: Node)
        ensures
            out@ == self@,
        decreases *self,
    {
        match self {
            Node::Real(s) => Node::Real(s.clone()),
            Node::Integer(i) => Node::Integer(*i),
            Node::String(s) => Node::String(s.clone()),
            Node::Boolean(b) => Node::Boolean(*b),
            Node::Array(v) => {
                let w = copy_items(v);
                proof {
                    lemma_array_view(*v);
                    lemma_array_view(w);
                }
                Node::Array(w)
            },
            Node::Hash(v) => {
                let w = copy_entries(v);
                proof {
                    lemma_hash_view(*v);
                    lemma_hash_view(w);
                }
                Node::Hash(w)
            },
            Node::Alias(n) => Node::Alias(*n),
            Node::Null => Node::Null,
            Node::BadValue => Node::BadValue,
        }
    }
}

impl Clone for Node {
    fn clone(&self) -> (out: Node)
        ensures
            out@ == self@,
    {
        self.copied()
    }
}

// ---------------------------------------------------------------------------
// Nodes in messages
// ---------------------------------------------------------------------------

/// A node as messages show it.
pub open spec fn shown(n: NodeV) -> Seq<char>
    decreases n,
{
    match n {
        NodeV::Real(s) => "Real("@ + text::debug_form(s) + ")"@,
        NodeV::Integer(i) => "Integer("@ + text::dec_int(i as int) + ")"@,
        NodeV::String(s) => "String("@ + text::debug_form(s) + ")"@,
        NodeV::Boolean(b) => "Boolean("@ + (if b {
            "true"@
        } else {
            "false"@
        }) + ")"@,
        NodeV::Array(v) => "Array(["@ + text::join(items_shown(v), ", "@) + "])"@,
        NodeV::Hash(v) => "Hash({"@ + text::join(entries_shown(v), ", "@) + "})"@,
        NodeV::Alias(n) => "Alias("@ + text::dec(n as nat) + ")"@,
        NodeV::Null => "Null"@,
        NodeV::BadValue => "BadValue"@,
    }
}

pub open spec fn items_shown(v: Seq<NodeV>) -> Seq<Seq<char>>
    decreases v,
{
    if v.len() == 0 {
        Seq::empty()
    } else {
        items_shown(v.drop_last()).push(shown(v.last()))
    }
}

pub open spec fn entries_shown(v: Seq<(NodeV, NodeV)>) -> Seq<Seq<char>>
    decreases v,
{
    if v.len() == 0 {
        Seq::empty()
    } else {
        entries_shown(v.drop_last()).push(shown(v.last().0) + ": "@ + shown(v.last().1))
    }
}

fn show_items(v: &Vec<Node>) -> (out: Vec<String>)
    ensures
        text::views(out@) == items_shown(views::list(v@)),
    decreases *v,
{
    let ghost all = views::list(v@);
    let mut parts: Vec<String> = Vec::new();
    let mut i: usize = 0;
    assert(text::views(parts@) =~= items_shown(all.take(0)));
    while i < v.len()
        invariant
            i <= v.len(),
            all == views::list(v@),
            text::views(parts@) == items_shown(all.take(i as int)),
        decreases v.len() - i,
    {
        assert(decreases_to!(*v => v@[i as int]));
        assert(all.take(i + 1).drop_last() =~= all.take(i as int));
        assert(all.take(i + 1).last() == v@[i as int]@);
        let t = v[i].show();
        proof {
            views::lemma_list_push(parts@, t);
        }
        parts.push(t);
        i += 1;
    }
    assert(all.take(i as int) =~= all);
    parts
}

fn show_entries(v: &Vec<(Node, Node)>) -> (out: Vec<String>)
    ensures
        text::views(out@) == entries_shown(entries_view(v@)),
    decreases *v,
{
    let ghost all = entries_view(v@);
    let mut parts: Vec<String> = Vec::new();
    let mut i: usize = 0;
    assert(text::views(parts@) =~= entries_shown(all.take(0)));
    while i < v.len()
        invariant
            i <= v.len(),
            all == entries_view(v@),
            text::views(parts@) == entries_shown(all.take(i as int)),
        decreases v.len() - i,
    {
        assert(decreases_to!(*v => v@[i as int]));
        assert(all.take(i + 1).drop_last() =~= all.take(i as int));
        assert(all.take(i + 1).last() == (v@[i as int].0@, v@[i as int].1@));
        let k = v[i].0.show();
        let x = v[i].1.show();
        let t = cat3(k.as_str(), ": ", x.as_str());
        proof {
            views::lemma_list_push(parts@, t);
        }
        parts.push(t);
        i += 1;
    }
    assert(all.take(i as int) =~= all);
    parts
}

impl Node {
    /// The node as messages show it.
    pub fn show(&self) -> (out: String)
        ensures
            out@ == shown(self@),
        decreases *self,
    {
        match self {
            Node::Real(s) => {
                let d = debug_text(s.as_str());
                cat3("Real(", d.as_str(), ")")
            },
            Node::Integer(i) => {
                let d = int_text(*i);
                cat3("Integer(", d.as_str(), ")")
            },
            Node::String(s) => {
                let d = debug_text(s.as_str());
                cat3("String(", d.as_str(), ")")
            },
            Node::Boolean(b) => cat3(
                "Boolean(",
                if *b {
                    "true"
                } else {
                    "false"
                },
                ")",
            ),
            Node::Array(v) => {
                proof {
                    lemma_array_view(*v);
                }
                let parts = show_items(v);
                let inner = joined(&parts, ", ");
                cat3("Array([", inner.as_str(), "])")
            },
            Node::Hash(v) => {
                proof {
                    lemma_hash_view(*v);
                }
                let parts = show_entries(v);
                let inner = joined(&parts, ", ");
                cat3("Hash({", inner.as_str(), "})")
            },
            Node::Alias(n) => {
                let d = dec_text(*n as u64);
                cat3("Alias(", d.as_str(), ")")
            },
            Node::Null => copy("Null"),
            Node::BadValue => copy("BadValue"),
        }
    }
}

/// Law: a field of a mapping is the value of its first entry under that name; a
/// name that no entry has, and any other node, gives nothing that could be read.
pub proof fn law_field_is_the_first_entry(h: Seq<(NodeV, NodeV)>, key: Seq<char>, i: int)
    requires
        0 <= i < h.len(),
        h[i].0 == NodeV::String(key),
        forall|j: int| 0 <= j < i ==> (#[trigger] h[j]).0 != NodeV::String(key),
    ensures
        NodeV::Hash(h).field(key) == h[i].1,
        under(h, key) == Some(h[i].1),
    decreases h.len(),
{
    if i > 0 {
        assert(h[0].0 != NodeV::String(key));
        let t = h.skip(1);
        assert(t[i - 1] == h[i]);
        assert forall|j: int| 0 <= j < i - 1 implies (#[trigger] t[j]).0 != NodeV::String(key) by {
            assert(t[j] == h[j + 1]);
        }
        law_field_is_the_first_entry(t, key, i - 1);
    }
}

/// Law: a field that no entry of a mapping has is no text, number, truth value,
/// list or mapping.
pub proof fn law_missing_field_reads_as_nothing(n: NodeV, key: Seq<char>)
    requires
        n matches NodeV::Hash(h) ==> forall|j: int| 0 <= j < h.len() ==> (#[trigger] h[j]).0 != NodeV::String(key),
    ensures
        n.field(key).text() is None,
        n.field(key).number() is None,
        n.field(key).truth() is None,
        n.field(key).items() is None,
        n.field(key).entries() is None,
        n matches NodeV::Hash(h) ==> under(h, key) is None,
{
    if let NodeV::Hash(h) = n {
        lemma_not_under(h, key);
    }
}

proof fn lemma_not_under(h: Seq<(NodeV, NodeV)>, key: Seq<char>)
    requires
        forall|j: int| 0 <= j < h.len() ==> (#[trigger] h[j]).0 != NodeV::String(key),
    ensures
        under(h, key) is None,
    decreases h.len(),
{
    if h.len() > 0 {
        assert(h[0].0 != NodeV::String(key));
        assert forall|j: int| 0 <= j < h.skip(1).len() implies (#[trigger] h.skip(1)[j]).0 != NodeV::String(key) by {
            assert(h.skip(1)[j] == h[j + 1]);
        }
        lemma_not_under(h.skip(1), key);
    }
}

/// Law: each reading of a node gives what the node holds, and nothing for a node
/// of another kind.
pub proof fn law_nodes_read_as_what_they_hold(n: NodeV)
    ensures
        forall|s: Seq<char>| #[trigger] n.text() == Some(s) <==> n == NodeV::String(s),
        forall|i: i64| #[trigger] n.number() == Some(i) <==> n == NodeV::Integer(i),
        forall|b: bool| #[trigger] n.truth() == Some(b) <==> n == NodeV::Boolean(b),
        forall|v: Seq<NodeV>| #[trigger] n.items() == Some(v) <==> n == NodeV::Array(v),
        forall|h: Seq<(NodeV, NodeV)>| #[trigger] n.entries() == Some(h) <==> n == NodeV::Hash(h),
{
}

/// Law: lists and mappings are shown item by item, in their order.
pub proof fn law_items_are_shown_in_order(v: Seq<NodeV>, h: Seq<(NodeV, NodeV)>, i: int)
    ensures
        items_shown(v).len() == v.len(),
        entries_shown(h).len() == h.len(),
        0 <= i < v.len() ==> items_shown(v)[i] == shown(v[i]),
        0 <= i < h.len() ==> text::starts_with(entries_shown(h)[i], shown(h[i].0)) && text::ends_with(
            entries_shown(h)[i],
            shown(h[i].1),
        ),
    decreases v.len() + h.len(),
{
    if v.len() > 0 {
        law_items_are_shown_in_order(v.drop_last(), h, i);
    }
    if h.len() > 0 {
        law_items_are_shown_in_order(v, h.drop_last(), i);
        let (a, b) = (shown(h.last().0), shown(h.last().1));
        assert(a + ": "@ + b =~= a + (": "@ + b));
        text::law_parts_are_found(Seq::empty(), a, ": "@ + b);
        text::law_parts_are_found(a + ": "@, b, Seq::empty());
    }
}

} // verus!
