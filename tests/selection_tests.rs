use select::document::Document;
use select::predicate::{Class, Name};
use select::selection::Selection;

fn ids(s: &Selection) -> Vec<usize> {
    s.iter().iter().map(|n| n.index()).collect()
}

fn fixture() -> Document {
    Document::parse(
        "<div id=main><div class=struct><div><span>a</span><div>b</div></div></div>\
         <section class=struct><div>c</div></section><div class=other><div>d</div></div></div>",
    )
}

#[test]
fn select_twice_is_union_of_descendants() {
    let d = fixture();
    let main = d.find(select::predicate::Id("main")).into_selection();
    let twice = main.select(Class("struct")).select(Name("div"));
    let first = ids(&twice);
    assert_eq!(first, ids(&main.select(Class("struct")).select(Name("div"))));
    let mut union: Vec<usize> = Vec::new();
    for s in main.select(Class("struct")).iter() {
        let mut f = s.find(Name("div"));
        while let Some(n) = f.next() {
            if !union.contains(&n.index()) {
                union.push(n.index());
            }
        }
    }
    union.sort();
    assert_eq!(first, union);
    assert_eq!(first, vec![5, 8, 11]);
}

#[test]
fn filter_is_idempotent() {
    let d = fixture();
    let all = d.find(select::predicate::Any).into_selection();
    let once = all.filter(Name("div"));
    assert_eq!(ids(&once.filter(Name("div"))), ids(&once));
    assert_eq!(once.len(), 7);
    assert_eq!(ids(&once), vec![3, 4, 5, 8, 11, 13, 14]);
}

#[test]
fn parents_twice_has_no_duplicates() {
    let d = fixture();
    let leaves = d.find(select::predicate::Text).into_selection();
    let pp = leaves.parents().parents();
    let v = ids(&pp);
    for w in v.windows(2) {
        assert!(w[0] < w[1]);
    }
    assert_eq!(ids(&leaves.parents()), vec![0, 2, 3, 4, 5, 6, 8, 10, 11, 13, 14]);
    assert_eq!(v, vec![0, 2, 3, 4, 5, 10, 13]);
}

#[test]
fn relatives_first_last() {
    let d = fixture();
    let divs = d.find(Name("div")).into_selection();
    assert_eq!(divs.first().map(|n| n.index()), Some(3));
    assert_eq!(divs.last().map(|n| n.index()), divs.iter().last().map(|n| n.index()));
    let spans = d.find(Name("span")).into_selection();
    assert_eq!(ids(&spans.parent()), vec![5]);
    assert_eq!(ids(&spans.next()), vec![8]);
    assert_eq!(ids(&spans.prev()), Vec::<usize>::new());
    let empty = spans.prev();
    assert!(empty.is_empty());
    assert!(empty.first().is_none());
}

#[test]
fn children_of_many_divs() {
    let mut html = String::new();
    for i in 0..208 {
        html.push_str("<div>");
        let n = if i < 170 { 6 } else { 5 };
        for _ in 0..n {
            html.push_str("<span></span>");
        }
        html.push_str("</div>");
    }
    let d = Document::parse(&html);
    let divs = d.find(Name("div")).into_selection();
    assert_eq!(divs.len(), 208);
    let kids = divs.children();
    assert_eq!(kids.len(), 1210);
    for k in kids.iter() {
        assert_eq!(k.parent().unwrap().name(), Some("div"));
    }
}

#[test]
fn from_indices_drops_out_of_range() {
    let d = fixture();
    let s = Selection::from_indices(&d, &vec![5, 3, 5, 99, 0]);
    assert_eq!(ids(&s), vec![0, 3, 5]);
    assert_eq!(s.len(), 3);
}
