use select::document::Document;
use select::predicate::{
    After, And, Any, Attr, AttrContains, AttrContainsWord, AttrEndsWith, AttrStartsWith, Child,
    Class, Comment, Descendant, Element, Empty, HasAttr, Id, ImmediatelyAfter, Lang, Name, Not,
    Nothing, Or, Pattern, Predicate, Root, Text,
};

fn matching<P: Predicate>(d: &Document, p: P) -> Vec<usize> {
    let mut out = Vec::new();
    let mut f = d.find(p);
    while let Some(n) = f.next() {
        out.push(n.index());
    }
    out
}

#[test]
fn not_name_html() {
    let d = Document::parse("<a b=c>d<e><f></e>g<h><i></i><j><!--k-->");
    assert!(!d.nth(0).unwrap().is(Not(Name("html"))));
    for i in 1..d.len() {
        assert!(d.nth(i).unwrap().is(Not(Name("html"))));
    }
}

#[test]
fn descendant_of_class() {
    let d = Document::parse("<div class='a'><div class='b'><div class='c'><div class='d'></div></div></div></div>");
    let p = Descendant(Class("a"), Or(Class("c"), Class("d")));
    let a = matching(&d, Class("a"))[0];
    let hits = matching(&d, p);
    assert_eq!(hits, vec![a + 2, a + 3]);
    assert_eq!(matching(&d, Descendant(Class("a"), Class("a"))), Vec::<usize>::new());
    assert_eq!(matching(&d, Descendant(Class("a"), Class("b"))), vec![a + 1]);
}

#[test]
fn primitive_predicates() {
    let d = Document::parse("<html><head></head><body id=main class='x  y'><!--c-->t<p lang=en-US title='hello world'></p></body></html>");
    assert_eq!(matching(&d, Any).len(), d.len());
    assert_eq!(matching(&d, Nothing), Vec::<usize>::new());
    assert_eq!(matching(&d, Name("p")), vec![5]);
    assert_eq!(matching(&d, Id("main")), vec![2]);
    assert_eq!(matching(&d, Class("y")), vec![2]);
    assert_eq!(matching(&d, Class("x y")), Vec::<usize>::new());
    assert_eq!(matching(&d, Class("")), Vec::<usize>::new());
    assert_eq!(matching(&d, Attr("lang", "en-US")), vec![5]);
    assert_eq!(matching(&d, Attr("lang", ())), vec![5]);
    assert_eq!(matching(&d, HasAttr("title")), vec![5]);
    assert_eq!(matching(&d, AttrContains("title", "lo wo")), vec![5]);
    assert_eq!(matching(&d, AttrStartsWith("title", "hell")), vec![5]);
    assert_eq!(matching(&d, AttrEndsWith("title", "world")), vec![5]);
    assert_eq!(matching(&d, AttrEndsWith("title", "hello")), Vec::<usize>::new());
    assert_eq!(matching(&d, AttrContainsWord("title", "world")), vec![5]);
    assert_eq!(matching(&d, AttrContainsWord("title", "wor")), Vec::<usize>::new());
    assert_eq!(matching(&d, Lang("lang", "en")), vec![5]);
    assert_eq!(matching(&d, Lang("lang", "e")), Vec::<usize>::new());
    assert_eq!(matching(&d, Element), vec![0, 1, 2, 5]);
    assert_eq!(matching(&d, Text), vec![4]);
    assert_eq!(matching(&d, Comment), vec![3]);
    assert_eq!(matching(&d, Root), vec![0]);
    assert_eq!(matching(&d, Empty), vec![1, 3, 4, 5]);
    assert_eq!(matching(&d, Attr("title", Pattern::new("^h.*d$").unwrap())), vec![5]);
    assert_eq!(matching(&d, Attr("title", Pattern::new("^x").unwrap())), Vec::<usize>::new());
    assert!(Pattern::new("(").is_none());
}

#[test]
fn structural_combinators() {
    let d = Document::parse("<ul><li>a</li><li class=x>b</li><li>c</li></ul>");
    let lis = matching(&d, Name("li"));
    assert_eq!(lis.len(), 3);
    assert_eq!(matching(&d, Child(Name("ul"), Name("li"))), lis);
    assert_eq!(matching(&d, Child(Name("body"), Name("li"))), Vec::<usize>::new());
    assert_eq!(matching(&d, ImmediatelyAfter(Class("x"), Name("li"))), vec![lis[2]]);
    assert_eq!(matching(&d, After(Class("x"), Name("li"))), vec![lis[2]]);
    assert_eq!(matching(&d, After(Name("li"), Name("li"))), vec![lis[1], lis[2]]);
    assert_eq!(matching(&d, And(Name("li"), Class("x"))), vec![lis[1]]);
    assert_eq!(matching(&d, Or(Name("ul"), Class("x"))).len(), 2);
}

#[test]
fn combinator_methods() {
    let d = Document::parse("<div><div><span><span>a</span></span></div><span>b</span></div>");
    let (div, span) = (Name("div"), Name("span"));
    let spans = matching(&d, span);
    assert_eq!(spans.len(), 3);
    assert_eq!(matching(&d, div.child(div).descendant(span.child(span))), vec![spans[1]]);
    assert_eq!(matching(&d, div.child(span)), vec![spans[0], spans[2]]);
    assert_eq!(matching(&d, span.or(div)).len(), 5);
    assert_eq!(matching(&d, span.and(div)), Vec::<usize>::new());
}
