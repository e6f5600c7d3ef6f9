//! Class-filtered subtree search: every element anywhere below a sequence of
//! sibling nodes whose class set contains a given name, in document order.

use crate::dom::{
    clone_node, element_has_class, element_view, has_class, lemma_views_of, lemma_views_of_concat,
    lemma_views_of_push, node_view, views_of, Node, NodeView,
};
use vstd::prelude::*;

verus! {

/// Whether a node is an element whose class set contains `class`.
pub open spec fn node_has_class(n: NodeView, class: Seq<char>) -> bool {
    match n {
        NodeView::Element(e) => has_class(e, class),
        _ => false,
    }
}

/// The matching elements of the subtree rooted at one node, in document order:
/// the node itself first, if it matches, then the matches below its children.
pub open spec fn search_node(n: NodeView, class: Seq<char>) -> Seq<NodeView>
    decreases n,
{
    match n {
        NodeView::Element(e) => (if has_class(e, class) {
            seq![n]
        } else {
            Seq::empty()
        }) + search_nodes(e.children, class),
        _ => Seq::empty(),
    }
}

/// The matching elements of a sequence of sibling subtrees, in document order.
pub open spec fn search_nodes(nodes: Seq<NodeView>, class: Seq<char>) -> Seq<NodeView>
    decreases nodes,
{
    if nodes.len() == 0 {
        Seq::empty()
    } else {
        search_node(nodes[0], class) + search_nodes(nodes.drop_first(), class)
    }
}

pub proof fn lemma_search_nodes_concat(a: Seq<NodeView>, b: Seq<NodeView>, class: Seq<char>)
    ensures
        search_nodes(a + b, class) == search_nodes(a, class) + search_nodes(b, class),
    decreases a.len(),
{
    if a.len() == 0 {
        assert(a + b =~= b);
        assert(search_nodes(a, class) + search_nodes(b, class) =~= search_nodes(b, class));
    } else {
        lemma_search_nodes_concat(a.drop_first(), b, class);
        assert((a + b).drop_first() =~= a.drop_first() + b);
        assert((a + b)[0] == a[0]);
        assert(search_node(a[0], class) + (search_nodes(a.drop_first(), class) + search_nodes(
            b,
            class,
        )) =~= (search_node(a[0], class) + search_nodes(a.drop_first(), class)) + search_nodes(
            b,
            class,
        ));
    }
}

/// All nodes of the subtree rooted at one node, depth first, the node itself
/// before its descendants.
pub open spec fn preorder_node(n: NodeView) -> Seq<NodeView>
    decreases n,
{
    seq![n] + (match n {
        NodeView::Element(e) => preorder_nodes(e.children),
        _ => Seq::empty(),
    })
}

/// All nodes of a sequence of sibling subtrees, in document order.
pub open spec fn preorder_nodes(nodes: Seq<NodeView>) -> Seq<NodeView>
    decreases nodes,
{
    if nodes.len() == 0 {
        Seq::empty()
    } else {
        preorder_node(nodes[0]) + preorder_nodes(nodes.drop_first())
    }
}

pub open spec fn class_pred(class: Seq<char>) -> spec_fn(NodeView) -> bool {
    |n: NodeView| node_has_class(n, class)
}

/// Law: the subtree search returns exactly the nodes of the tree, taken in
/// document (pre-)order, that are elements carrying the class — no match is
/// missed, none is added, and the order is the document order.
pub proof fn lemma_search_is_preorder_filter(nodes: Seq<NodeView>, class: Seq<char>)
    ensures
        search_nodes(nodes, class) == preorder_nodes(nodes).filter(class_pred(class)),
    decreases nodes,
{
    let p = class_pred(class);
    if nodes.len() == 0 {
        assert(preorder_nodes(nodes).filter(p) =~= Seq::<NodeView>::empty()) by {
            reveal_with_fuel(Seq::filter, 2);
        }
    } else {
        lemma_search_node_is_preorder_filter(nodes[0], class);
        lemma_search_is_preorder_filter(nodes.drop_first(), class);
        Seq::filter_distributes_over_add(
            preorder_node(nodes[0]),
            preorder_nodes(nodes.drop_first()),
            p,
        );
    }
}

/// Law: the matches of one node's subtree are the pre-order nodes of that
/// subtree that carry the class.
pub proof fn lemma_search_node_is_preorder_filter(n: NodeView, class: Seq<char>)
    ensures
        search_node(n, class) == preorder_node(n).filter(class_pred(class)),
    decreases n,
{
    let p = class_pred(class);
    assert(seq![n].filter(p) =~= (if p(n) {
        seq![n]
    } else {
        Seq::<NodeView>::empty()
    })) by {
        reveal_with_fuel(Seq::filter, 2);
        assert(seq![n].drop_last() =~= Seq::<NodeView>::empty());
        assert(seq![n].last() == n);
    }
    match n {
        NodeView::Element(e) => {
            lemma_search_is_preorder_filter(e.children, class);
            Seq::filter_distributes_over_add(seq![n], preorder_nodes(e.children), p);
        },
        _ => {
            assert(preorder_node(n) =~= seq![n]);
        },
    }
}

/// Law: a search of an empty sequence of nodes returns an empty sequence.
pub proof fn lemma_search_empty_input(class: Seq<char>)
    ensures
        search_nodes(Seq::<NodeView>::empty(), class) == Seq::<NodeView>::empty(),
{
}

/// Law: where no node of the tree is an element carrying the class, the
/// search returns an empty sequence.
pub proof fn lemma_search_absent_class(nodes: Seq<NodeView>, class: Seq<char>)
    requires
        forall|n: NodeView| #[trigger]
            preorder_nodes(nodes).contains(n) ==> !node_has_class(n, class),
    ensures
        search_nodes(nodes, class) == Seq::<NodeView>::empty(),
{
    lemma_search_is_preorder_filter(nodes, class);
    let p = class_pred(class);
    let t = preorder_nodes(nodes);
    let f = t.filter(p);
    if f.len() > 0 {
        Seq::lemma_filter_pred(t, p, 0);
        lemma_filter_is_subset(t, p, 0);
        assert(t.contains(f[0]));
        assert(false);
    }
    assert(search_nodes(nodes, class) =~= Seq::<NodeView>::empty());
}

/// Every member of a filtered sequence is a member of the sequence it was
/// filtered from.
proof fn lemma_filter_is_subset<A>(s: Seq<A>, p: spec_fn(A) -> bool, i: int)
    requires
        0 <= i < s.filter(p).len(),
    ensures
        s.contains(s.filter(p)[i]),
    decreases s.len(),
{
    reveal(Seq::filter);
    if s.len() > 0 {
        let sub = s.drop_last().filter(p);
        if i < sub.len() {
            lemma_filter_is_subset(s.drop_last(), p, i);
            let j = choose|j: int| 0 <= j < s.drop_last().len() && s.drop_last()[j] == sub[i];
            assert(s[j] == s.filter(p)[i]);
        } else {
            assert(s.filter(p)[i] == s.last());
            assert(s[s.len() - 1] == s.last());
        }
    }
}

/// Subtree search: every element anywhere below the given sibling nodes whose
/// class set contains `class`, as copies, in document order.
pub fn extract_by_class(nodes: &Vec<Node>, class: &str) -> (result: Vec<Node>)
    ensures
        views_of(result@) == search_nodes(views_of(nodes@), class@),
    decreases nodes@,
{
    let mut result: Vec<Node> = Vec::new();
    let mut i: usize = 0;
    while i < nodes.len()
        invariant
            i <= nodes.len(),
            views_of(result@) == search_nodes(views_of(nodes@.take(i as int)), class@),
        decreases nodes.len() - i,
    {
        proof {
            lemma_views_of(nodes@);
            lemma_views_of(nodes@.take(i as int));
            lemma_views_of(nodes@.take(i + 1 as int));
            assert(views_of(nodes@.take(i + 1 as int)) =~= views_of(nodes@.take(i as int)).push(
                node_view(nodes@[i as int]),
            ));
        }
        let ghost prefix = views_of(nodes@.take(i as int));
        let ghost v = node_view(nodes@[i as int]);
        proof {
            assert(prefix.push(v) =~= prefix + seq![v]);
            lemma_search_nodes_concat(prefix, seq![v], class@);
            assert(seq![v].drop_first() =~= Seq::<NodeView>::empty());
            assert(seq![v].len() == 1 && seq![v][0] == v);
            assert(search_nodes(seq![v], class@) == search_node(v, class@) + search_nodes(
                Seq::<NodeView>::empty(),
                class@,
            ));
            assert(search_nodes(Seq::<NodeView>::empty(), class@) =~= Seq::<NodeView>::empty());
            assert(search_nodes(seq![v], class@) =~= search_node(v, class@));
        }
        let n = &nodes[i];
        match n {
            Node::Element(elem) => {
                if element_has_class(elem, class) {
                    let c = clone_node(n);
                    proof {
                        lemma_views_of_push(result@, c);
                    }
                    result.push(c);
                }
                let mut sub = extract_by_class(&elem.children, class);
                proof {
                    lemma_views_of_concat(result@, sub@);
                    assert(search_node(v, class@) =~= (if has_class(element_view(*elem), class@) {
                        seq![v]
                    } else {
                        Seq::<NodeView>::empty()
                    }) + search_nodes(views_of(elem.children@), class@));
                }
                result.append(&mut sub);
            },
            _ => {
                proof {
                    assert(search_node(v, class@) =~= Seq::<NodeView>::empty());
                }
            },
        }
        i += 1;
    }
    proof {
        assert(nodes@.take(nodes@.len() as int) =~= nodes@);
    }
    result
}

} // verus!
