use select::document::Document;
use select::predicate::{And, Any, Attr, Child, Class, Comment, Element, Name, Not, Or, Predicate, Text};

fn doc() -> Document {
    Document::parse(
        "<html><head></head><body>\
         <article id='post-0' class='post category-foo tag-bar'>foo</article>\
         <!--A Comment-->\
         <div class='a'><div class='b'><div class='c'><div class='d'></div></div></div></div>\
         </body></html>",
    )
}

#[test]
fn matches_any_name_class() {
    let d = doc();
    let (html, head, body, article) =
        (d.nth(0).unwrap(), d.nth(1).unwrap(), d.nth(2).unwrap(), d.nth(3).unwrap());
    assert!(Any.matches(&html) && Any.matches(&head) && Any.matches(&body) && Any.matches(&article));
    assert!(Name("html").matches(&html));
    assert!(!Name("head").matches(&html));
    assert!(Name("head").matches(&head));
    assert!(Name("body").matches(&body));
    assert!(!Class("post").matches(&html));
    assert!(Class("post").matches(&article));
    assert!(Class("category-foo").matches(&article));
    assert!(Class("tag-bar").matches(&article));
    assert!(!Class("foo").matches(&article));
    assert!(!Class("bar").matches(&article));
}

#[test]
fn matches_not_attr_kinds() {
    let d = doc();
    let (html, head, article, foo, comment) =
        (d.nth(0).unwrap(), d.nth(1).unwrap(), d.nth(3).unwrap(), d.nth(4).unwrap(), d.nth(5).unwrap());
    assert!(!Not(Name("html")).matches(&html));
    assert!(Not(Name("html")).matches(&head));
    assert!(Name("head").not().matches(&html));
    assert!(!Attr("id", "post-0").matches(&html));
    assert!(Attr("id", "post-0").matches(&article));
    assert!(!Attr("id", ()).matches(&html));
    assert!(Attr("id", ()).matches(&article));
    assert!(Element.matches(&article) && !Element.matches(&foo));
    assert!(Text.matches(&foo) && !Text.matches(&comment) && !Text.matches(&article));
    assert!(Comment.matches(&comment) && !Comment.matches(&foo));
}

#[test]
fn matches_or_and_child() {
    let d = doc();
    let (html, head, body, article, foo) =
        (d.nth(0).unwrap(), d.nth(1).unwrap(), d.nth(2).unwrap(), d.nth(3).unwrap(), d.nth(4).unwrap());
    let html_or_head = Or(Name("html"), Name("head"));
    assert!(html_or_head.matches(&html) && html_or_head.matches(&head));
    assert!(!html_or_head.matches(&body) && !html_or_head.matches(&foo));
    let article_and_post = And(Name("article"), Attr("id", "post-0"));
    assert!(article_and_post.matches(&article) && !article_and_post.matches(&body));
    assert!(!Child(Name("html"), Name("article")).matches(&article));
    assert!(Child(Name("body"), Name("article")).matches(&article));
    assert!(!Child(Name("body"), Name("article")).matches(&html));
}
