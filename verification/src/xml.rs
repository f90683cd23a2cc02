//! A parsed XML document held as plain values: the tree that the resource
//! formatter walks.

use roxmltree::Document;
use vstd::prelude::*;

use crate::error::HookError;

verus! {

/// A namespace declaration in scope on an element: its prefix (none for the
/// default namespace) and its URI.
pub struct XmlNamespace {
    pub name: Option<String>,
    pub uri: String,
}

/// An attribute: local name, namespace URI (if any) and value.
pub struct XmlAttribute {
    pub name: String,
    pub namespace: Option<String>,
    pub value: String,
}

/// An element: local name, namespace URI (if any), the namespaces in scope
/// on it (inherited ones included), its attributes and its children.
pub struct XmlElement {
    pub name: String,
    pub namespace: Option<String>,
    pub namespaces: Vec<XmlNamespace>,
    pub attributes: Vec<XmlAttribute>,
    pub children: Vec<XmlNode>,
}

/// A node of the document.
pub enum XmlNode {
    Element(XmlElement),
    Comment(String),
    Text(String),
    /// Processing instructions and anything else the formatter skips.
    Other,
}

/// A document: the nodes below its root, in order.
pub struct XmlDocument {
    pub children: Vec<XmlNode>,
}

/// Depth of the tree below `n` (a leaf has depth 0).
pub open spec fn node_depth(n: XmlNode) -> nat
    decreases n, 0nat,
{
    match n {
        XmlNode::Element(e) => 1 + children_depth(e, e.children@.len()),
        _ => 0,
    }
}

/// Greatest depth among the first `k` children of `e`.
pub open spec fn children_depth(e: XmlElement, k: nat) -> nat
    decreases e, k,
{
    if k == 0 || k > e.children@.len() {
        0
    } else {
        let a = children_depth(e, (k - 1) as nat);
        let b = node_depth(e.children@[k - 1]);
        if a >= b {
            a
        } else {
            b
        }
    }
}

pub proof fn lemma_children_depth(e: XmlElement, k: nat, i: int)
    requires
        0 <= i < k <= e.children@.len(),
    ensures
        node_depth(e.children@[i]) <= children_depth(e, k),
    decreases k,
{
    if i < k - 1 {
        lemma_children_depth(e, (k - 1) as nat, i);
    }
}


// ---------------------------------------------------------------------------
// Parsing

/// The error that roxmltree's parser reports.
#[verifier::external_type_specification]
#[verifier::external_body]
pub struct ExXmlParseError(roxmltree::Error);

/// One node as the parser reports it. A parsed text gives one record per
/// node in document order: the document's root first, and each node followed
/// by the records of its subtree.
pub struct XmlRecord {
    /// The node type's place in roxmltree's `NodeType`: 0 root, 1 element,
    /// 2 processing instruction, 3 comment, 4 text.
    pub kind: u8,
    /// An element's local name (empty for other nodes).
    pub name: String,
    /// An element's namespace URI.
    pub namespace: Option<String>,
    /// An element's namespaces in scope: prefix (none for the default
    /// namespace) and URI.
    pub namespaces: Vec<(Option<String>, String)>,
    /// An element's attributes: local name, namespace URI and value.
    pub attributes: Vec<(String, Option<String>, String)>,
    /// The text of a comment or text node (for an element, the text of its
    /// first child, which the tree does not take from here).
    pub text: Option<String>,
    /// The number of the node's children.
    pub children: usize,
}

/// What roxmltree's `Document::parse` reports of `text`: `None` where it
/// refuses the text, else the records of its nodes.
pub uninterp spec fn parsed_xml(text: Seq<char>) -> Option<Seq<XmlRecord>>;

/// Parses `text` with roxmltree's `Document::parse` and lists its nodes,
/// each converted field by field. Claimed: the result is `parsed_xml` of the
/// text. Which texts the parser accepts and what it reads from them is not
/// stated.
#[verifier::external_body]
fn parse_records(text: &str) -> (r: Result<Vec<XmlRecord>, roxmltree::Error>)
    ensures
        match r {
            Ok(v) => parsed_xml(text@) == Some(v@),
            Err(_) => parsed_xml(text@) is None,
        },
{
    Document::parse(text).map(|d| {
        let s = String::from;
        d.descendants().map(|n| XmlRecord {
            kind: n.node_type() as u8,
            name: s(n.tag_name().name()),
            namespace: n.tag_name().namespace().map(s),
            namespaces: n.namespaces().map(|m| (m.name().map(s), s(m.uri()))).collect(),
            attributes: n.attributes().map(|a| (s(a.name()), a.namespace().map(s), s(a.value()))).collect(),
            text: n.text().map(s),
            children: n.children().count(),
        }).collect()
    })
}

/// Where the subtrees of `count` siblings whose first record is at `pos`
/// end: `None` where the records do not describe such nodes (a record
/// missing, a child count that overruns, a leaf with children, a comment or
/// text without its text, a second root).
pub open spec fn siblings_end(rs: Seq<XmlRecord>, pos: int, count: int) -> Option<int>
    decreases rs.len() - pos,
{
    if count <= 0 {
        Some(pos)
    } else if pos < 0 || pos >= rs.len() {
        None
    } else {
        let r = rs[pos];
        let after = if r.kind == 1 {
            siblings_end(rs, pos + 1, r.children as int)
        } else if r.children == 0 && (r.kind == 2 || ((r.kind == 3 || r.kind == 4)
            && r.text is Some)) {
            Some(pos + 1)
        } else {
            None
        };
        match after {
            Some(e) => if pos < e <= rs.len() {
                siblings_end(rs, e, count - 1)
            } else {
                None
            },
            None => None,
        }
    }
}

/// The records form one tree: the root first, then its subtrees, and
/// nothing after them.
pub open spec fn records_well_formed(rs: Seq<XmlRecord>) -> bool {
    &&& rs.len() > 0
    &&& rs[0].kind == 0
    &&& siblings_end(rs, 1, rs[0].children as int) == Some(rs.len() as int)
}

/// Number of nodes in the tree at `n`, `n` included.
pub open spec fn tree_size(n: XmlNode) -> nat
    decreases n, 0nat,
{
    match n {
        XmlNode::Element(e) => 1 + seq_size(e.children@, e.children@.len()),
        _ => 1,
    }
}

/// Number of nodes in the trees of the first `k` nodes of `s`.
pub open spec fn seq_size(s: Seq<XmlNode>, k: nat) -> nat
    decreases s, k,
{
    if k == 0 || k > s.len() {
        0
    } else {
        seq_size(s, (k - 1) as nat) + tree_size(s[k - 1])
    }
}

/// The record `r` holds what the node `n` holds (children aside).
pub open spec fn record_matches(r: XmlRecord, n: XmlNode) -> bool {
    match n {
        XmlNode::Element(e) => {
            &&& r.kind == 1
            &&& r.name == e.name
            &&& r.namespace == e.namespace
            &&& r.namespaces@.len() == e.namespaces@.len()
            &&& forall|i: int| 0 <= i < e.namespaces@.len() ==> #[trigger] r.namespaces@[i] == (
                e.namespaces@[i].name, e.namespaces@[i].uri)
            &&& r.attributes@.len() == e.attributes@.len()
            &&& forall|i: int| 0 <= i < e.attributes@.len() ==> #[trigger] r.attributes@[i] == (
                e.attributes@[i].name, e.attributes@[i].namespace, e.attributes@[i].value)
        },
        XmlNode::Comment(t) => r.kind == 3 && r.text == Some(t),
        XmlNode::Text(t) => r.kind == 4 && r.text == Some(t),
        XmlNode::Other => r.kind == 2,
    }
}

/// The records from `pos` on describe the tree at `n`: its own record at
/// `pos`, then those of its children's trees one after the other.
pub open spec fn node_described(rs: Seq<XmlRecord>, pos: int, n: XmlNode) -> bool
    decreases n, 0nat,
{
    &&& 0 <= pos < rs.len()
    &&& record_matches(rs[pos], n)
    &&& match n {
        XmlNode::Element(e) => rs[pos].children == e.children@.len() && seq_described(
            rs,
            pos + 1,
            e.children@,
            e.children@.len(),
        ),
        _ => rs[pos].children == 0,
    }
}

/// The records from `start` on describe the trees of the first `k` nodes of
/// `s`, one after the other.
pub open spec fn seq_described(rs: Seq<XmlRecord>, start: int, s: Seq<XmlNode>, k: nat) -> bool
    decreases s, k,
{
    if k == 0 {
        true
    } else if k > s.len() {
        false
    } else {
        seq_described(rs, start, s, (k - 1) as nat) && node_described(
            rs,
            start + seq_size(s, (k - 1) as nat),
            s[k - 1],
        )
    }
}

/// The records describe `doc`: the root's record first, then the trees of
/// its nodes, and nothing else.
pub open spec fn doc_described(rs: Seq<XmlRecord>, doc: XmlDocument) -> bool {
    &&& rs.len() > 0
    &&& rs[0].kind == 0
    &&& rs[0].children == doc.children@.len()
    &&& seq_described(rs, 1, doc.children@, doc.children@.len())
    &&& 1 + seq_size(doc.children@, doc.children@.len()) == rs.len()
}


pub proof fn lemma_seq_size_prefix(s: Seq<XmlNode>, t: Seq<XmlNode>, k: nat)
    requires
        k <= s.len(),
        k <= t.len(),
        forall|i: int| 0 <= i < k ==> s[i] == t[i],
    ensures
        seq_size(s, k) == seq_size(t, k),
    decreases k,
{
    if k > 0 {
        lemma_seq_size_prefix(s, t, (k - 1) as nat);
    }
}

proof fn lemma_seq_described_prefix(
    rs: Seq<XmlRecord>,
    start: int,
    s: Seq<XmlNode>,
    t: Seq<XmlNode>,
    k: nat,
)
    requires
        k <= s.len(),
        k <= t.len(),
        forall|i: int| 0 <= i < k ==> s[i] == t[i],
    ensures
        seq_described(rs, start, s, k) == seq_described(rs, start, t, k),
    decreases k,
{
    if k > 0 {
        lemma_seq_described_prefix(rs, start, s, t, (k - 1) as nat);
        lemma_seq_size_prefix(s, t, (k - 1) as nat);
    }
}

/// A tree is no deeper than it has nodes.
pub proof fn lemma_node_depth_size(n: XmlNode)
    ensures
        node_depth(n) <= tree_size(n),
    decreases n, 0nat,
{
    match n {
        XmlNode::Element(e) => lemma_children_depth_size(e, e.children@.len()),
        _ => {},
    }
}

proof fn lemma_children_depth_size(e: XmlElement, k: nat)
    requires
        k <= e.children@.len(),
    ensures
        children_depth(e, k) <= seq_size(e.children@, k),
    decreases e, k,
{
    if k > 0 {
        lemma_children_depth_size(e, (k - 1) as nat);
        lemma_node_depth_size(e.children@[k - 1]);
    }
}

fn clone_opt(o: &Option<String>) -> (r: Option<String>)
    ensures
        r == *o,
{
    match o {
        Some(x) => Some(x.clone()),
        None => None,
    }
}

/// The element that the record `r` holds, with `children`.
fn element_of(r: &XmlRecord, children: Vec<XmlNode>) -> (e: XmlElement)
    requires
        r.kind == 1,
    ensures
        record_matches(*r, XmlNode::Element(e)),
        e.children == children,
{
    let mut namespaces: Vec<XmlNamespace> = Vec::new();
    let mut i: usize = 0;
    while i < r.namespaces.len()
        invariant
            i <= r.namespaces@.len(),
            namespaces@.len() == i,
            forall|j: int| 0 <= j < i ==> #[trigger] r.namespaces@[j] == (
                namespaces@[j].name, namespaces@[j].uri),
        decreases r.namespaces@.len() - i,
    {
        let (prefix, uri) = &r.namespaces[i];
        namespaces.push(XmlNamespace { name: clone_opt(prefix), uri: uri.clone() });
        i = i + 1;
    }
    let mut attributes: Vec<XmlAttribute> = Vec::new();
    let mut i: usize = 0;
    while i < r.attributes.len()
        invariant
            i <= r.attributes@.len(),
            attributes@.len() == i,
            forall|j: int| 0 <= j < i ==> #[trigger] r.attributes@[j] == (
                attributes@[j].name, attributes@[j].namespace, attributes@[j].value),
        decreases r.attributes@.len() - i,
    {
        let (name, namespace, value) = &r.attributes[i];
        attributes.push(
            XmlAttribute { name: name.clone(), namespace: clone_opt(namespace), value: value.clone() },
        );
        i = i + 1;
    }
    XmlElement {
        name: r.name.clone(),
        namespace: clone_opt(&r.namespace),
        namespaces,
        attributes,
        children,
    }
}

/// Builds the `count` sibling nodes whose records start at `first`, with
/// where their records end.
fn build_siblings(rs: &Vec<XmlRecord>, first: usize, count: usize) -> (r: Option<(Vec<XmlNode>, usize)>)
    requires
        first <= rs@.len(),
    ensures
        match r {
            Some((v, e)) => {
                &&& siblings_end(rs@, first as int, count as int) == Some(e as int)
                &&& v@.len() == count
                &&& seq_described(rs@, first as int, v@, count as nat)
                &&& e == first + seq_size(v@, count as nat)
            },
            None => siblings_end(rs@, first as int, count as int) is None,
        },
    decreases rs@.len() - first,
{
    let mut v: Vec<XmlNode> = Vec::new();
    let mut p: usize = first;
    let mut k: usize = 0;
    while k < count
        invariant
            first <= p <= rs@.len(),
            k <= count,
            v@.len() == k,
            siblings_end(rs@, first as int, count as int) == siblings_end(
                rs@,
                p as int,
                (count - k) as int,
            ),
            seq_described(rs@, first as int, v@, k as nat),
            p == first + seq_size(v@, k as nat),
        decreases count - k,
    {
        if p >= rs.len() {
            return None;
        }
        let rec = &rs[p];
        let n: XmlNode;
        let e: usize;
        if rec.kind == 1 {
            match build_siblings(rs, p + 1, rec.children) {
                Some((kids, end)) => {
                    if end <= p || end > rs.len() {
                        return None;
                    }
                    n = XmlNode::Element(element_of(rec, kids));
                    e = end;
                },
                None => {
                    return None;
                },
            }
        } else if rec.children == 0 && rec.kind == 2 {
            n = XmlNode::Other;
            e = p + 1;
        } else if rec.children == 0 && (rec.kind == 3 || rec.kind == 4) {
            match &rec.text {
                Some(t) => {
                    n = if rec.kind == 3 {
                        XmlNode::Comment(t.clone())
                    } else {
                        XmlNode::Text(t.clone())
                    };
                    e = p + 1;
                },
                None => {
                    return None;
                },
            }
        } else {
            return None;
        }
        assert(node_described(rs@, p as int, n));
        assert(e == p + tree_size(n));
        let ghost old_v = v@;
        v.push(n);
        proof {
            lemma_seq_described_prefix(rs@, first as int, old_v, v@, k as nat);
            lemma_seq_size_prefix(old_v, v@, k as nat);
        }
        p = e;
        k = k + 1;
    }
    Some((v, p))
}

/// Parses `text` into a document, with the number of its nodes (the
/// document's root included).
pub(crate) fn parse_counted(text: &str) -> (r: Result<(XmlDocument, usize), HookError>)
    ensures
        r is Ok <==> (parsed_xml(text@) matches Some(rs) && records_well_formed(rs)),
        r matches Ok((doc, n)) ==> doc_described(parsed_xml(text@)->0, doc) && n
            == parsed_xml(text@)->0.len(),
        r matches Err(e) ==> e == HookError::InvalidXml,
{
    let rs = match parse_records(text) {
        Ok(v) => v,
        Err(_) => {
            return Err(HookError::InvalidXml);
        },
    };
    if rs.len() == 0 || rs[0].kind != 0 {
        return Err(HookError::InvalidXml);
    }
    match build_siblings(&rs, 1, rs[0].children) {
        Some((v, e)) => {
            if e == rs.len() {
                Ok((XmlDocument { children: v }, e))
            } else {
                Err(HookError::InvalidXml)
            }
        },
        None => Err(HookError::InvalidXml),
    }
}

/// Parses `text` into a document: `Err(InvalidXml)` where the parser
/// refuses the text or reports nodes that do not form one tree.
pub fn parse_xml(text: &str) -> (r: Result<XmlDocument, HookError>)
    ensures
        r is Ok <==> (parsed_xml(text@) matches Some(rs) && records_well_formed(rs)),
        r matches Ok(doc) ==> doc_described(parsed_xml(text@)->0, doc),
        r matches Err(e) ==> e == HookError::InvalidXml,
{
    match parse_counted(text) {
        Ok((doc, _)) => Ok(doc),
        Err(e) => Err(e),
    }
}

} // verus!
