use hntui::dom::{element_has_class, Element, Node};
use hntui::posts::{build_post_entries, extract_hn_posts, extract_title_link, HNPost};
use hntui::search::extract_by_class;

fn elem(
    tag: &str,
    id: Option<&str>,
    classes: &[&str],
    attrs: &[(&str, Option<&str>)],
    children: Vec<Node>,
) -> Element {
    Element {
        tag: tag.to_string(),
        id: id.map(|s| s.to_string()),
        classes: classes.iter().map(|s| s.to_string()).collect(),
        attributes: attrs
            .iter()
            .map(|(k, v)| (k.to_string(), v.map(|s| s.to_string())))
            .collect(),
        children,
    }
}

fn ids_of(nodes: &[Node]) -> Vec<String> {
    nodes
        .iter()
        .map(|n| match n {
            Node::Element(e) => e.id.clone().unwrap_or_default(),
            _ => panic!("search returned a non-element node"),
        })
        .collect()
}

#[test]
fn search_finds_all_matches_in_preorder() {
    // Three elements carry class "x", at varying depths; the one with id "c"
    // is nested inside the match with id "a".
    let e4 = elem("p", Some("c"), &["x"], &[], vec![]);
    let e2 = elem("span", None, &["y"], &[], vec![Node::Element(e4)]);
    let e3 = elem("a", Some("b"), &["x", "y"], &[], vec![]);
    let e1 = elem(
        "div",
        Some("a"),
        &["x"],
        &[],
        vec![
            Node::Element(e2),
            Node::Text("stray".to_string()),
            Node::Element(e3),
        ],
    );
    let tree = vec![Node::Element(e1), Node::Comment("c".to_string())];

    let found = extract_by_class(&tree, "x");
    assert_eq!(found.len(), 3);
    assert_eq!(ids_of(&found), vec!["a", "c", "b"]);
}

#[test]
fn search_absent_class_returns_empty() {
    let inner = elem("p", None, &["x"], &[], vec![]);
    let root = elem("div", None, &["y"], &[], vec![Node::Element(inner)]);
    let tree = vec![Node::Element(root)];
    assert!(extract_by_class(&tree, "zzz").is_empty());
}

#[test]
fn search_empty_input_returns_empty() {
    let tree: Vec<Node> = vec![];
    assert!(extract_by_class(&tree, "x").is_empty());
}

#[test]
fn class_membership() {
    let e = elem("a", None, &["alpha", "beta"], &[], vec![]);
    assert!(element_has_class(&e, "beta"));
    assert!(!element_has_class(&e, "gamma"));
}

#[test]
fn extractor_missing_href_gives_empty_link() {
    let e = elem(
        "a",
        None,
        &[],
        &[("rel", Some("noreferrer"))],
        vec![Node::Text("hello".to_string())],
    );
    let (title, link) = extract_title_link(&e);
    assert_eq!(title, "hello");
    assert_eq!(link, "");
}

#[test]
fn extractor_valueless_href_gives_empty_link() {
    let e = elem("a", None, &[], &[("href", None)], vec![]);
    let (_, link) = extract_title_link(&e);
    assert_eq!(link, "");
}

#[test]
fn extractor_takes_href_value_and_first_text() {
    let e = elem(
        "a",
        None,
        &[],
        &[("rel", None), ("href", Some("http://example.com"))],
        vec![
            Node::Text("first".to_string()),
            Node::Text("second".to_string()),
        ],
    );
    let (title, link) = extract_title_link(&e);
    assert_eq!(title, "first");
    assert_eq!(link, "http://example.com");
}

#[test]
fn extractor_skips_leading_comment() {
    let e = elem(
        "a",
        None,
        &[],
        &[],
        vec![
            Node::Comment("lead".to_string()),
            Node::Text("Example".to_string()),
        ],
    );
    let (title, _) = extract_title_link(&e);
    assert_eq!(title, "Example");
}

#[test]
fn extractor_ignores_text_inside_nested_elements() {
    let inner = elem("b", None, &[], &[], vec![Node::Text("nested".to_string())]);
    let e = elem("a", None, &[], &[], vec![Node::Element(inner)]);
    let (title, _) = extract_title_link(&e);
    assert_eq!(title, "");
}

#[test]
fn default_post_is_empty() {
    let p = HNPost::default();
    assert_eq!(p.title, "");
    assert_eq!(p.link, "");
    assert_eq!(p.id, "");
}

#[test]
fn assembler_last_title_match_wins() {
    let first = elem(
        "a",
        None,
        &["titlelink"],
        &[("href", Some("http://one"))],
        vec![Node::Text("First".to_string())],
    );
    let second = elem(
        "a",
        None,
        &["titlelink"],
        &[("href", Some("http://two"))],
        vec![Node::Text("Second".to_string())],
    );
    let container = elem(
        "tr",
        Some("42"),
        &["athing"],
        &[],
        vec![Node::Element(first), Node::Element(second)],
    );
    let posts = extract_hn_posts(&vec![Node::Element(container)]);
    assert_eq!(posts.len(), 1);
    assert_eq!(posts[0].title, "Second");
    assert_eq!(posts[0].link, "http://two");
    assert_eq!(posts[0].id, "42");
}

#[test]
fn assembler_without_id_gives_empty_id() {
    let title = elem(
        "a",
        None,
        &["titlelink"],
        &[("href", Some("http://x"))],
        vec![Node::Text("T".to_string())],
    );
    let container = elem("tr", None, &["athing"], &[], vec![Node::Element(title)]);
    let posts = extract_hn_posts(&vec![Node::Element(container)]);
    assert_eq!(posts.len(), 1);
    assert_eq!(posts[0].id, "");
}

#[test]
fn end_to_end_minimal_fragment() {
    // The parsed tree of
    // <tr class="athing" id="123">
    //   <a class="titlelink" href="http://example.com">Example</a>
    // </tr>
    let link = elem(
        "a",
        None,
        &["titlelink"],
        &[("href", Some("http://example.com"))],
        vec![Node::Text("Example".to_string())],
    );
    let row = elem(
        "tr",
        Some("123"),
        &["athing"],
        &[],
        vec![Node::Element(link)],
    );
    let tree = vec![Node::Element(row)];

    let posts = extract_hn_posts(&tree);
    assert_eq!(posts.len(), 1);
    assert_eq!(posts[0].title, "Example");
    assert_eq!(posts[0].link, "http://example.com");
    assert_eq!(posts[0].id, "123");

    let entries = build_post_entries(&posts);
    assert_eq!(entries.len(), 1);
    assert_eq!(entries[0].0, "Example");
    assert_eq!(entries[0].1, "http://example.com");
}

#[test]
fn post_with_empty_link_is_assembled_but_not_listed() {
    // No href anywhere inside the container: the post is still assembled,
    // with an empty link, but presentation drops it.
    let title = elem(
        "a",
        None,
        &["titlelink"],
        &[],
        vec![Node::Text("No link".to_string())],
    );
    let container = elem(
        "tr",
        Some("7"),
        &["athing"],
        &[],
        vec![Node::Element(title)],
    );
    let posts = extract_hn_posts(&vec![Node::Element(container)]);
    assert_eq!(posts.len(), 1);
    assert_eq!(posts[0].title, "No link");
    assert_eq!(posts[0].link, "");

    let entries = build_post_entries(&posts);
    assert!(entries.is_empty());
}

#[test]
fn container_without_title_match_gives_empty_post_fields() {
    let container = elem("tr", Some("9"), &["athing"], &[], vec![]);
    let posts = extract_hn_posts(&vec![Node::Element(container)]);
    assert_eq!(posts.len(), 1);
    assert_eq!(posts[0].title, "");
    assert_eq!(posts[0].link, "");
    assert_eq!(posts[0].id, "9");
}
