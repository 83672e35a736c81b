use select::document::Document;
use select::arena::QualName;
use select::builder::Builder;
use select::dom::Dom;
use select::markup::Markup;
use select::predicate::{Any, Name};
use select::tree::{Tree, TreeKind};

fn sample() -> Document {
    Document::parse(
        "<html><head></head><body id=something>foo<bar>baz<quux class=another-thing><!--comment-->",
    )
}

fn idx(n: Option<select::node::Node>) -> Option<usize> {
    n.map(|n| n.index())
}

#[test]
fn node_name() {
    let d = sample();
    let names: Vec<Option<&str>> = (0..7).map(|i| d.nth(i).unwrap().name()).collect();
    assert_eq!(
        names,
        vec![Some("html"), Some("head"), Some("body"), None, Some("bar"), None, Some("quux")]
    );
}

#[test]
fn node_attr() {
    let d = sample();
    assert_eq!(d.nth(0).unwrap().attr("id"), None);
    assert_eq!(d.nth(2).unwrap().attr("id"), Some("something"));
    assert_eq!(d.nth(2).unwrap().attr("class"), None);
    assert_eq!(d.nth(3).unwrap().attr("id"), None);
    assert_eq!(d.nth(6).unwrap().attr("class"), Some("another-thing"));
}

#[test]
fn node_attrs() {
    let d = sample();
    assert_eq!(d.nth(6).unwrap().attrs(), vec![("class", "another-thing")]);
    assert_eq!(d.nth(3).unwrap().attrs(), Vec::<(&str, &str)>::new());
}

#[test]
fn node_parent() {
    let d = sample();
    let parents: Vec<Option<usize>> = (0..7).map(|i| idx(d.nth(i).unwrap().parent())).collect();
    assert_eq!(parents, vec![None, Some(0), Some(0), Some(2), Some(2), Some(4), Some(4)]);
}

#[test]
fn node_prev_next() {
    let d = sample();
    let prevs: Vec<Option<usize>> = (0..7).map(|i| idx(d.nth(i).unwrap().prev())).collect();
    let nexts: Vec<Option<usize>> = (0..7).map(|i| idx(d.nth(i).unwrap().next())).collect();
    assert_eq!(prevs, vec![None, None, Some(1), None, Some(3), None, Some(5)]);
    assert_eq!(nexts, vec![None, Some(2), None, Some(4), None, Some(6), None]);
}

#[test]
fn node_first_last_child() {
    let d = sample();
    for i in 0..d.len() {
        let n = d.nth(i).unwrap();
        let mut kids = Vec::new();
        let mut it = n.children();
        while let Some(c) = it.next() {
            kids.push(c.index());
        }
        assert_eq!(idx(n.first_child()), kids.first().copied());
        assert_eq!(idx(n.last_child()), kids.last().copied());
    }
}

#[test]
fn node_text() {
    let d = sample();
    let texts: Vec<String> = (0..7).map(|i| d.nth(i).unwrap().text()).collect();
    assert_eq!(texts, vec!["foobaz", "", "foobaz", "foo", "baz", "baz", ""]);
}

#[test]
fn node_as_text_and_comment() {
    let d = sample();
    assert_eq!(d.nth(3).unwrap().as_text(), Some("foo"));
    assert_eq!(d.nth(4).unwrap().as_text(), None);
    assert_eq!(d.nth(5).unwrap().as_text(), Some("baz"));
    assert_eq!(d.nth(3).unwrap().as_comment(), None);
    assert_eq!(d.nth(7).unwrap().as_comment(), Some("comment"));
}

#[test]
fn node_children() {
    let d = sample();
    let mut it = d.nth(0).unwrap().children();
    assert_eq!(it.next().unwrap().name(), Some("head"));
    assert_eq!(it.next().unwrap().name(), Some("body"));
    assert!(it.next().is_none());
    assert_eq!(d.nth(2).unwrap().children().into_selection().len(), 2);
    assert_eq!(d.nth(5).unwrap().children().into_selection().len(), 0);
    assert_eq!(d.nth(6).unwrap().children().into_selection().len(), 1);
}

#[test]
fn node_descendants_match_find_any() {
    let d = Document::parse("<div><p>a<b>c</b></p><ul><li>x</li><li><i>y</i></li></ul></div><p>z");
    for i in 0..d.len() {
        let n = d.nth(i).unwrap();
        let mut a = Vec::new();
        let mut it = n.descendants();
        while let Some(x) = it.next() {
            a.push(x.index());
        }
        let mut b = Vec::new();
        let mut f = n.find(Any);
        while let Some(x) = f.next() {
            b.push(x.index());
        }
        assert_eq!(a, b);
        let expected: Vec<usize> = (i + 1..d.len())
            .filter(|&k| {
                let mut p = d.nth(k).unwrap().parent();
                while let Some(q) = p {
                    if q.index() == i {
                        return true;
                    }
                    p = q.parent();
                }
                false
            })
            .collect();
        assert_eq!(a, expected);
    }
}

#[test]
fn node_descendants_of_root_skip_start() {
    let d = sample();
    let mut it = d.nth(0).unwrap().descendants();
    let mut seen = Vec::new();
    while let Some(x) = it.next() {
        seen.push(x.index());
    }
    assert_eq!(seen, vec![1, 2, 3, 4, 5, 6, 7]);
    assert!(it.next().is_none());
}

#[test]
fn node_is_and_find() {
    let d = sample();
    let body = d.nth(2).unwrap();
    assert!(body.is(Name("body")));
    assert!(!body.is(Name("bar")));
    let mut f = body.find(Name("quux"));
    assert_eq!(f.next().map(|n| n.index()), Some(6));
    assert!(f.next().is_none());
}

#[test]
fn scenario_twelve_nodes() {
    let d = Document::parse("<a b=c>d<e><f></e>g<h><i></i><j><!--k-->");
    assert_eq!(d.len(), 12);
    assert_eq!(d.nth(0).unwrap().name(), Some("html"));
    let a = d.nth(3).unwrap();
    assert_eq!(a.name(), Some("a"));
    assert_eq!(a.attr("b"), Some("c"));
    let t = d.nth(4).unwrap();
    assert_eq!(t.as_text(), Some("d"));
    assert_eq!(idx(t.next()), Some(5));
    assert_eq!(d.nth(5).unwrap().name(), Some("e"));
    assert_eq!(idx(t.parent()), Some(3));
    assert_eq!(idx(d.nth(5).unwrap().prev()), Some(4));
    let names: Vec<Option<&str>> = (0..12).map(|i| d.nth(i).unwrap().name()).collect();
    assert_eq!(
        names,
        vec![
            Some("html"), Some("head"), Some("body"), Some("a"), None, Some("e"), Some("f"),
            None, Some("h"), Some("i"), Some("j"), None
        ]
    );
    assert_eq!(idx(d.nth(9).unwrap().parent()), Some(8));
    assert_eq!(idx(d.nth(10).unwrap().parent()), Some(8));
    assert_eq!(idx(d.nth(11).unwrap().parent()), Some(10));
    assert_eq!(d.nth(11).unwrap().as_comment(), Some("k"));
    assert!(d.nth(12).is_none());
}

#[test]
fn node_markup_order() {
    let d = sample();
    assert_eq!(
        d.nth(4).unwrap().markup(),
        vec![Markup::Start(4), Markup::Text(5), Markup::Start(6), Markup::Comment(7), Markup::End(6), Markup::End(4)]
    );
    assert_eq!(d.nth(6).unwrap().inner_markup(), vec![Markup::Comment(7)]);
    assert_eq!(d.nth(3).unwrap().markup(), vec![Markup::Text(3)]);
    assert_eq!(d.nth(3).unwrap().inner_markup(), Vec::<Markup>::new());
    assert_eq!(d.nth(1).unwrap().markup(), vec![Markup::Start(1), Markup::End(1)]);
}

#[test]
fn dom_interface() {
    let d = Dom::from_str("<p class=a>x</p><p>y</p>");
    assert_eq!(d.nth(0).unwrap().name(), Some("html"));
    assert!(d.nth(7).is_none());
    assert_eq!(d.find(Name("p")).len(), 2);
    assert_eq!(d.document().len(), 7);
}

#[test]
fn document_from_str() {
    let d = Document::from("<b>x</b>");
    assert_eq!(d.len(), 5);
    assert_eq!(d.nth(3).unwrap().name(), Some("b"));
    assert_eq!(d.nth(4).unwrap().text(), "x");
}

#[test]
fn builder_links_records() {
    let q = |s: &str| QualName { prefix: None, ns: String::new(), local: s.to_string() };
    let mut b = Builder::new();
    b.open_element(q("a"), vec![(q("k"), "v".to_string())]);
    b.text("t".to_string());
    b.open_element(q("b"), vec![]);
    b.comment("c".to_string());
    b.close_element();
    b.close_element();
    b.text("u".to_string());
    b.close_element();
    let d = b.finish();
    assert_eq!(d.len(), 5);
    let a = d.nth(0).unwrap();
    assert_eq!(a.attr("k"), Some("v"));
    assert_eq!(idx(a.first_child()), Some(1));
    assert_eq!(idx(a.last_child()), Some(2));
    assert_eq!(idx(d.nth(1).unwrap().next()), Some(2));
    assert_eq!(idx(d.nth(3).unwrap().parent()), Some(2));
    assert_eq!(idx(d.nth(4).unwrap().prev()), Some(0));
    assert_eq!(d.nth(4).unwrap().parent().is_none(), true);
    assert_eq!(a.text(), "t");
}

#[test]
fn empty_builder_gives_empty_document() {
    let d = Builder::new().finish();
    assert_eq!(d.len(), 0);
    assert!(d.nth(0).is_none());
    let mut b = Builder::new();
    b.close_element();
    assert_eq!(b.len(), 0);
}

#[test]
fn markup_texts_join_to_node_text() {
    let d = Document::parse("<div>one<p>two<b>three</b></p><!--no-->four</div><p>five</p>");
    for i in 0..d.len() {
        let n = d.nth(i).unwrap();
        let mut joined = String::new();
        for m in n.markup() {
            if let Markup::Text(k) = m {
                joined.push_str(d.nth(k).unwrap().as_text().unwrap());
            }
        }
        assert_eq!(joined, n.text());
    }
    let div = d.find(Name("div")).next().unwrap();
    assert_eq!(div.text(), "onetwothreefour");
}

#[test]
fn from_tree_walks_in_pre_order() {
    let q = |s: &str| QualName { prefix: None, ns: String::new(), local: s.to_string() };
    let leaf = |k: TreeKind| Tree { kind: k, children: vec![] };
    let tree = Tree {
        kind: TreeKind::Document,
        children: vec![
            leaf(TreeKind::Other),
            Tree {
                kind: TreeKind::Element(q("html"), vec![]),
                children: vec![
                    leaf(TreeKind::Text("a".to_string())),
                    Tree {
                        kind: TreeKind::Other,
                        children: vec![leaf(TreeKind::Comment("c".to_string()))],
                    },
                    Tree {
                        kind: TreeKind::Element(q("p"), vec![(q("x"), "y".to_string())]),
                        children: vec![leaf(TreeKind::Text("b".to_string()))],
                    },
                ],
            },
            leaf(TreeKind::Comment("end".to_string())),
        ],
    };
    let d = Document::from_tree(tree);
    assert_eq!(d.len(), 6);
    assert_eq!(d.nth(0).unwrap().name(), Some("html"));
    assert_eq!(d.nth(1).unwrap().as_text(), Some("a"));
    assert_eq!(d.nth(2).unwrap().as_comment(), Some("c"));
    assert_eq!(idx(d.nth(2).unwrap().parent()), Some(0));
    assert_eq!(idx(d.nth(2).unwrap().prev()), Some(1));
    assert_eq!(d.nth(3).unwrap().attr("x"), Some("y"));
    assert_eq!(idx(d.nth(4).unwrap().parent()), Some(3));
    assert_eq!(d.nth(5).unwrap().as_comment(), Some("end"));
    assert_eq!(idx(d.nth(5).unwrap().prev()), Some(0));
    assert!(d.nth(5).unwrap().parent().is_none());
}
