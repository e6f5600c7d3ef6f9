//! Post records: the title/link extractor, the assembler that turns a node
//! tree into a sequence of posts, and the entry list handed to presentation.

use crate::dom::{
    attrs_view, element_view, lemma_views_of, str_eq, views_of, Element, ElementView, Node,
    NodeView,
};
use crate::search::{extract_by_class, search_nodes};
use vstd::prelude::*;

verus! {

/// One extracted front-page entry. A field the tree did not provide is an
/// empty string.
pub struct HNPost {
    pub title: String,
    pub link: String,
    pub id: String,
}

/// The mathematical value of a post.
#[verifier::ext_equal]
pub ghost struct PostView {
    pub title: Seq<char>,
    pub link: Seq<char>,
    pub id: Seq<char>,
}

impl View for HNPost {
    type V = PostView;

    open spec fn view(&self) -> PostView {
        PostView { title: self.title@, link: self.link@, id: self.id@ }
    }
}

pub open spec fn post_views(s: Seq<HNPost>) -> Seq<PostView> {
    Seq::new(s.len(), |i: int| s[i]@)
}

impl HNPost {
    /// An empty post: all three fields are empty strings.
    pub fn default() -> (p: HNPost)
        ensures
            p@.title == Seq::<char>::empty(),
            p@.link == Seq::<char>::empty(),
            p@.id == Seq::<char>::empty(),
    {
        HNPost { title: String::new(), link: String::new(), id: String::new() }
    }
}

/// The value mapped to `name` by an ordered attribute list: the value of the
/// first pair whose name matches, taken as the empty string where the
/// attribute is absent or carries no value.
pub open spec fn attr_value(
    attrs: Seq<(Seq<char>, Option<Seq<char>>)>,
    name: Seq<char>,
) -> Seq<char>
    decreases attrs.len(),
{
    if attrs.len() == 0 {
        Seq::empty()
    } else if attrs[0].0 == name {
        match attrs[0].1 {
            Some(v) => v,
            None => Seq::empty(),
        }
    } else {
        attr_value(attrs.drop_first(), name)
    }
}

/// The text of the first text-type child, scanning in order; empty where no
/// text child exists. Nested elements are not entered.
pub open spec fn first_text(children: Seq<NodeView>) -> Seq<char>
    decreases children.len(),
{
    if children.len() == 0 {
        Seq::empty()
    } else {
        match children[0] {
            NodeView::Text(t) => t,
            _ => first_text(children.drop_first()),
        }
    }
}

pub open spec fn title_of(e: ElementView) -> Seq<char> {
    first_text(e.children)
}

pub open spec fn link_of(e: ElementView) -> Seq<char> {
    attr_value(e.attributes, "href"@)
}

/// Law: an element whose attribute list holds no `href` pair with a value —
/// the attribute is absent, or present but valueless — has an empty link.
pub proof fn lemma_absent_href_empty_link(e: ElementView)
    requires
        forall|i: int|
            0 <= i < e.attributes.len() && (#[trigger] e.attributes[i]).0 == "href"@
                ==> e.attributes[i].1 is None,
    ensures
        link_of(e) == Seq::<char>::empty(),
{
    lemma_attr_value_all_valueless(e.attributes, "href"@);
}

proof fn lemma_attr_value_all_valueless(attrs: Seq<(Seq<char>, Option<Seq<char>>)>, name: Seq<char>)
    requires
        forall|i: int|
            0 <= i < attrs.len() && (#[trigger] attrs[i]).0 == name ==> attrs[i].1 is None,
    ensures
        attr_value(attrs, name) == Seq::<char>::empty(),
    decreases attrs.len(),
{
    if attrs.len() > 0 && attrs[0].0 != name {
        lemma_attr_value_all_valueless(attrs.drop_first(), name);
    }
}

/// Law: a leading child that is not a text node is skipped, not taken as the
/// title: the first text child decides, whatever stands before it.
pub proof fn lemma_first_text_skips_non_text(children: Seq<NodeView>)
    requires
        children.len() > 0,
        !(children[0] is Text),
    ensures
        first_text(children) == first_text(children.drop_first()),
{
}

/// The attribute value under `name`, as a fresh string; empty where the
/// attribute is absent or valueless.
fn attr_string(attrs: &Vec<(String, Option<String>)>, name: &str) -> (r: String)
    ensures
        r@ == attr_value(attrs_view(attrs@), name@),
{
    let ghost av = attrs_view(attrs@);
    proof {
        assert(av.skip(0) =~= av);
    }
    let mut i: usize = 0;
    while i < attrs.len()
        invariant
            i <= attrs.len(),
            av == attrs_view(attrs@),
            attr_value(av, name@) == attr_value(av.skip(i as int), name@),
        decreases attrs.len() - i,
    {
        let pair = &attrs[i];
        proof {
            assert(av.skip(i as int).len() > 0);
            assert(av.skip(i as int)[0] == av[i as int]);
        }
        if str_eq(pair.0.as_str(), name) {
            match &pair.1 {
                Some(v) => {
                    return v.clone();
                },
                None => {
                    return String::new();
                },
            }
        }
        proof {
            assert(av.skip(i as int).drop_first() =~= av.skip(i + 1 as int));
        }
        i += 1;
    }
    proof {
        assert(av.skip(attrs@.len() as int) =~= Seq::<(Seq<char>, Option<Seq<char>>)>::empty());
    }
    String::new()
}

/// The text of the element's first text-type child, as a fresh string.
fn first_text_string(children: &Vec<Node>) -> (r: String)
    ensures
        r@ == first_text(views_of(children@)),
{
    let ghost cv = views_of(children@);
    proof {
        lemma_views_of(children@);
        assert(cv.skip(0) =~= cv);
    }
    let mut i: usize = 0;
    while i < children.len()
        invariant
            i <= children.len(),
            cv == views_of(children@),
            cv.len() == children@.len(),
            forall|j: int| 0 <= j < children@.len() ==> cv[j] == crate::dom::node_view(children@[j]),
            first_text(cv) == first_text(cv.skip(i as int)),
        decreases children.len() - i,
    {
        proof {
            assert(cv.skip(i as int).len() > 0);
            assert(cv.skip(i as int)[0] == cv[i as int]);
        }
        let n = &children[i];
        match n {
            Node::Text(t) => {
                return t.clone();
            },
            _ => {
                proof {
                    assert(cv.skip(i as int).drop_first() =~= cv.skip(i + 1 as int));
                }
            },
        }
        i += 1;
    }
    proof {
        assert(cv.skip(children@.len() as int) =~= Seq::<NodeView>::empty());
    }
    String::new()
}

/// Title and link of one element: the `href` attribute's value and the text
/// of the first text-type child, each empty where absent.
pub fn extract_title_link(elem: &Element) -> (r: (String, String))
    ensures
        r.0@ == title_of(element_view(*elem)),
        r.1@ == link_of(element_view(*elem)),
{
    let link = attr_string(&elem.attributes, "href");
    let title = first_text_string(&elem.children);
    (title, link)
}

/// The title and link taken from a sequence of matched title elements: the
/// matches are visited in document order and each overwrites the pair, so the
/// last element among them decides; both parts are empty where no element
/// matches.
pub open spec fn title_link_of_matches(m: Seq<NodeView>) -> (Seq<char>, Seq<char>)
    decreases m.len(),
{
    if m.len() == 0 {
        (Seq::<char>::empty(), Seq::<char>::empty())
    } else {
        match m.last() {
            NodeView::Element(te) => (title_of(te), link_of(te)),
            _ => title_link_of_matches(m.drop_last()),
        }
    }
}

/// Law: where several title elements match inside one container, the last
/// match in document order provides the post's title and link.
pub proof fn lemma_last_match_wins(m: Seq<NodeView>, te: ElementView)
    requires
        m.len() > 0,
        m.last() == NodeView::Element(te),
    ensures
        title_link_of_matches(m) == (title_of(te), link_of(te)),
{
}

/// The post assembled from one container element: title and link from the
/// last `"titlelink"` match below it, the id from its `id` attribute.
pub open spec fn post_of_container(e: ElementView) -> PostView {
    let tl = title_link_of_matches(search_nodes(e.children, "titlelink"@));
    PostView {
        title: tl.0,
        link: tl.1,
        id: match e.id {
            Some(s) => s,
            None => Seq::<char>::empty(),
        },
    }
}

/// The posts assembled from a sequence of matched container nodes: one post
/// per element among them, in order.
pub open spec fn posts_of_matches(m: Seq<NodeView>) -> Seq<PostView>
    decreases m.len(),
{
    if m.len() == 0 {
        Seq::empty()
    } else {
        posts_of_matches(m.drop_last()) + (match m.last() {
            NodeView::Element(e) => seq![post_of_container(e)],
            _ => Seq::empty(),
        })
    }
}

/// The posts of a node tree: one per element carrying class `"athing"`, in
/// document order, kept whether or not title and link were found.
pub open spec fn posts_of(nodes: Seq<NodeView>) -> Seq<PostView> {
    posts_of_matches(search_nodes(nodes, "athing"@))
}

/// Post assembler: one post per `"athing"`-classed element of the tree, in
/// document order. Within each container the `"titlelink"` matches are
/// visited in document order and each overwrites title and link; the `id`
/// attribute, where present, becomes the post's id.
pub fn extract_hn_posts(nodes: &Vec<Node>) -> (posts: Vec<HNPost>)
    ensures
        post_views(posts@) == posts_of(views_of(nodes@)),
{
    let mut posts: Vec<HNPost> = Vec::new();
    let post_nodes = extract_by_class(nodes, "athing");
    let ghost m = views_of(post_nodes@);
    proof {
        lemma_views_of(post_nodes@);
        assert(m.take(0) =~= Seq::<NodeView>::empty());
        assert(post_views(posts@) =~= posts_of_matches(m.take(0)));
    }
    let mut i: usize = 0;
    while i < post_nodes.len()
        invariant
            i <= post_nodes.len(),
            m == views_of(post_nodes@),
            m == search_nodes(views_of(nodes@), "athing"@),
            m.len() == post_nodes@.len(),
            forall|k: int|
                0 <= k < post_nodes@.len() ==> m[k] == crate::dom::node_view(post_nodes@[k]),
            post_views(posts@) == posts_of_matches(m.take(i as int)),
        decreases post_nodes.len() - i,
    {
        proof {
            assert(m.take(i + 1 as int).drop_last() =~= m.take(i as int));
            assert(m.take(i + 1 as int).last() == m[i as int]);
        }
        let n = &post_nodes[i];
        match n {
            Node::Element(el) => {
                let ghost ev = element_view(*el);
                proof {
                    assert(m[i as int] == NodeView::Element(ev));
                }
                let mut p = HNPost::default();
                let tl_nodes = extract_by_class(&el.children, "titlelink");
                let ghost tls = views_of(tl_nodes@);
                proof {
                    lemma_views_of(tl_nodes@);
                    assert(tls.take(0) =~= Seq::<NodeView>::empty());
                }
                let mut j: usize = 0;
                while j < tl_nodes.len()
                    invariant
                        j <= tl_nodes.len(),
                        tls == views_of(tl_nodes@),
                        tls.len() == tl_nodes@.len(),
                        forall|k: int|
                            0 <= k < tl_nodes@.len() ==> tls[k] == crate::dom::node_view(
                                tl_nodes@[k],
                            ),
                        (p.title@, p.link@) == title_link_of_matches(tls.take(j as int)),
                        p.id@ == Seq::<char>::empty(),
                    decreases tl_nodes.len() - j,
                {
                    proof {
                        assert(tls.take(j + 1 as int).drop_last() =~= tls.take(j as int));
                        assert(tls.take(j + 1 as int).last() == tls[j as int]);
                    }
                    let tn = &tl_nodes[j];
                    match tn {
                        Node::Element(te) => {
                            let r = extract_title_link(te);
                            p.title = r.0;
                            p.link = r.1;
                            proof {
                                assert(tls[j as int] == NodeView::Element(element_view(*te)));
                            }
                        },
                        _ => {},
                    }
                    j += 1;
                }
                proof {
                    assert(tls.take(tl_nodes@.len() as int) =~= tls);
                }
                match &el.id {
                    Some(idv) => {
                        p.id = idv.clone();
                    },
                    None => {},
                }
                proof {
                    assert(p@ =~= post_of_container(ev));
                    assert(post_views(posts@.push(p)) =~= post_views(posts@).push(p@));
                    assert(posts_of_matches(m.take(i + 1 as int)) =~= posts_of_matches(
                        m.take(i as int),
                    ).push(post_of_container(ev)));
                }
                posts.push(p);
            },
            _ => {
                proof {
                    assert(posts_of_matches(m.take(i + 1 as int)) =~= posts_of_matches(
                        m.take(i as int),
                    ));
                }
            },
        }
        i += 1;
    }
    proof {
        assert(m.take(post_nodes@.len() as int) =~= m);
    }
    posts
}

/// Whether presentation shows a post: both title and link are non-empty.
pub open spec fn presentable(p: PostView) -> bool {
    p.title.len() > 0 && p.link.len() > 0
}

pub open spec fn pair_views(s: Seq<(String, String)>) -> Seq<(Seq<char>, Seq<char>)> {
    Seq::new(s.len(), |i: int| (s[i].0@, s[i].1@))
}

/// The labelled entries of the selectable list: one `(title, link)` pair per
/// post whose title and link are both non-empty, in order.
pub open spec fn entries_of(posts: Seq<PostView>) -> Seq<(Seq<char>, Seq<char>)>
    decreases posts.len(),
{
    if posts.len() == 0 {
        Seq::empty()
    } else {
        entries_of(posts.drop_last()) + (if presentable(posts.last()) {
            seq![(posts.last().title, posts.last().link)]
        } else {
            Seq::empty()
        })
    }
}

/// The list entries for a sequence of posts: a `(title, link)` pair for each
/// post that presentation keeps; a post with an empty title or an empty link
/// is dropped silently, not shown and not an error.
pub fn build_post_entries(posts: &Vec<HNPost>) -> (entries: Vec<(String, String)>)
    ensures
        pair_views(entries@) == entries_of(post_views(posts@)),
{
    let mut entries: Vec<(String, String)> = Vec::new();
    let ghost pv = post_views(posts@);
    proof {
        assert(pv.take(0) =~= Seq::<PostView>::empty());
        assert(pair_views(entries@) =~= entries_of(pv.take(0)));
    }
    let mut i: usize = 0;
    while i < posts.len()
        invariant
            i <= posts.len(),
            pv == post_views(posts@),
            pv.len() == posts@.len(),
            pair_views(entries@) == entries_of(pv.take(i as int)),
        decreases posts.len() - i,
    {
        proof {
            assert(pv.take(i + 1 as int).drop_last() =~= pv.take(i as int));
            assert(pv.take(i + 1 as int).last() == pv[i as int]);
            assert(pv[i as int] == posts@[i as int]@);
        }
        let p = &posts[i];
        if !p.title.as_str().is_empty() && !p.link.as_str().is_empty() {
            let entry = (p.title.clone(), p.link.clone());
            proof {
                assert(pair_views(entries@.push(entry)) =~= pair_views(entries@).push(
                    (p@.title, p@.link),
                ));
                assert(entries_of(pv.take(i + 1 as int)) =~= entries_of(pv.take(i as int)).push(
                    (p@.title, p@.link),
                ));
            }
            entries.push(entry);
        } else {
            proof {
                assert(entries_of(pv.take(i + 1 as int)) =~= entries_of(pv.take(i as int)));
            }
        }
        i += 1;
    }
    proof {
        assert(pv.take(posts@.len() as int) =~= pv);
    }
    entries
}

} // verus!
