//! The node-tree model: elements, text runs and comments, together with the
//! mathematical views that the contracts of this crate are stated over.

use vstd::prelude::*;

verus! {

/// A node of a parsed HTML document: an element, a run of text, or a comment.
pub enum Node {
    Element(Element),
    Text(String),
    Comment(String),
}

/// An element node: a tag name, an optional id, the element's class names,
/// its attributes (an ordered mapping from name to optional value), and its
/// child nodes in document order.
pub struct Element {
    pub tag: String,
    pub id: Option<String>,
    pub classes: Vec<String>,
    pub attributes: Vec<(String, Option<String>)>,
    pub children: Vec<Node>,
}

/// The mathematical value of a node.
#[verifier::ext_equal]
pub ghost enum NodeView {
    Element(ElementView),
    Text(Seq<char>),
    Comment(Seq<char>),
}

/// The mathematical value of an element.
#[verifier::ext_equal]
pub ghost struct ElementView {
    pub tag: Seq<char>,
    pub id: Option<Seq<char>>,
    pub classes: Seq<Seq<char>>,
    pub attributes: Seq<(Seq<char>, Option<Seq<char>>)>,
    pub children: Seq<NodeView>,
}

pub open spec fn opt_string_view(o: Option<String>) -> Option<Seq<char>> {
    match o {
        Some(s) => Some(s@),
        None => None,
    }
}

pub open spec fn strings_view(s: Seq<String>) -> Seq<Seq<char>> {
    Seq::new(s.len(), |i: int| s[i]@)
}

pub open spec fn attrs_view(s: Seq<(String, Option<String>)>) -> Seq<
    (Seq<char>, Option<Seq<char>>),
> {
    Seq::new(s.len(), |i: int| (s[i].0@, opt_string_view(s[i].1)))
}

pub open spec fn node_view(n: Node) -> NodeView
    decreases n,
{
    match n {
        Node::Element(e) => NodeView::Element(element_view(e)),
        Node::Text(t) => NodeView::Text(t@),
        Node::Comment(t) => NodeView::Comment(t@),
    }
}

pub open spec fn element_view(e: Element) -> ElementView
    decreases e,
{
    ElementView {
        tag: e.tag@,
        id: opt_string_view(e.id),
        classes: strings_view(e.classes@),
        attributes: attrs_view(e.attributes@),
        children: views_of(e.children@),
    }
}

/// The views of a sequence of sibling nodes, kept in order.
pub open spec fn views_of(s: Seq<Node>) -> Seq<NodeView>
    decreases s,
{
    if s.len() == 0 {
        Seq::empty()
    } else {
        seq![node_view(s[0])] + views_of(s.drop_first())
    }
}

pub proof fn lemma_views_of(s: Seq<Node>)
    ensures
        views_of(s).len() == s.len(),
        forall|i: int| 0 <= i < s.len() ==> views_of(s)[i] == node_view(s[i]),
    decreases s.len(),
{
    if s.len() > 0 {
        lemma_views_of(s.drop_first());
    }
}

pub proof fn lemma_views_of_push(s: Seq<Node>, n: Node)
    ensures
        views_of(s.push(n)) == views_of(s).push(node_view(n)),
{
    lemma_views_of(s.push(n));
    lemma_views_of(s);
    assert(views_of(s.push(n)) =~= views_of(s).push(node_view(n)));
}

pub proof fn lemma_views_of_concat(a: Seq<Node>, b: Seq<Node>)
    ensures
        views_of(a + b) == views_of(a) + views_of(b),
{
    lemma_views_of(a + b);
    lemma_views_of(a);
    lemma_views_of(b);
    assert(views_of(a + b) =~= views_of(a) + views_of(b));
}

/// Whether the element's class set contains `class`.
pub open spec fn has_class(e: ElementView, class: Seq<char>) -> bool {
    exists|i: int| 0 <= i < e.classes.len() && e.classes[i] == class
}

/// Relies on `str`'s `PartialEq`: two string slices are equal exactly when
/// their character sequences are equal.
#[verifier::external_body]
pub(crate) fn str_eq(a: &str, b: &str) -> (r: bool)
    ensures
        r == (a@ == b@),
{
    a == b
}

/// Membership test on an element's class set.
pub fn element_has_class(e: &Element, class: &str) -> (r: bool)
    ensures
        r == has_class(element_view(*e), class@),
{
    let mut i: usize = 0;
    while i < e.classes.len()
        invariant
            i <= e.classes.len(),
            forall|j: int| 0 <= j < i ==> element_view(*e).classes[j] != class@,
        decreases e.classes.len() - i,
    {
        if str_eq(e.classes[i].as_str(), class) {
            assert(element_view(*e).classes[i as int] == class@);
            return true;
        }
        i += 1;
    }
    false
}

fn clone_opt_string(o: &Option<String>) -> (r: Option<String>)
    ensures
        r == *o,
{
    match o {
        Some(s) => Some(s.clone()),
        None => None,
    }
}

fn clone_strings(v: &Vec<String>) -> (r: Vec<String>)
    ensures
        r@ == v@,
{
    let mut r: Vec<String> = Vec::new();
    let mut i: usize = 0;
    while i < v.len()
        invariant
            i <= v.len(),
            r@ == v@.take(i as int),
        decreases v.len() - i,
    {
        r.push(v[i].clone());
        assert(r@ =~= v@.take(i + 1 as int));
        i += 1;
    }
    assert(v@.take(v.len() as int) =~= v@);
    r
}

fn clone_attrs(v: &Vec<(String, Option<String>)>) -> (r: Vec<(String, Option<String>)>)
    ensures
        r@ == v@,
{
    let mut r: Vec<(String, Option<String>)> = Vec::new();
    let mut i: usize = 0;
    while i < v.len()
        invariant
            i <= v.len(),
            r@ == v@.take(i as int),
        decreases v.len() - i,
    {
        let pair = &v[i];
        r.push((pair.0.clone(), clone_opt_string(&pair.1)));
        assert(r@ =~= v@.take(i + 1 as int));
        i += 1;
    }
    assert(v@.take(v.len() as int) =~= v@);
    r
}

/// A copy of a node whose mathematical value is that of the original.
pub fn clone_node(n: &Node) -> (r: Node)
    ensures
        node_view(r) == node_view(*n),
    decreases *n,
{
    match n {
        Node::Element(e) => Node::Element(clone_element(e)),
        Node::Text(t) => Node::Text(t.clone()),
        Node::Comment(t) => Node::Comment(t.clone()),
    }
}

/// A copy of an element whose mathematical value is that of the original.
pub fn clone_element(e: &Element) -> (r: Element)
    ensures
        element_view(r) == element_view(*e),
    decreases *e,
{
    let mut children: Vec<Node> = Vec::new();
    let mut i: usize = 0;
    while i < e.children.len()
        invariant
            i <= e.children.len(),
            views_of(children@) == views_of(e.children@.take(i as int)),
        decreases e.children.len() - i,
    {
        let c = clone_node(&e.children[i]);
        proof {
            lemma_views_of_push(children@, c);
            lemma_views_of(e.children@.take(i as int));
            lemma_views_of(e.children@.take(i + 1 as int));
            assert(views_of(e.children@.take(i + 1 as int)) =~= views_of(
                e.children@.take(i as int),
            ).push(node_view(e.children@[i as int])));
        }
        children.push(c);
        i += 1;
    }
    proof {
        assert(e.children@.take(e.children.len() as int) =~= e.children@);
    }
    Element {
        tag: e.tag.clone(),
        id: clone_opt_string(&e.id),
        classes: clone_strings(&e.classes),
        attributes: clone_attrs(&e.attributes),
        children,
    }
}

} // verus!
