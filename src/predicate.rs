//! Node predicates: primitive tests and the combinators that compose them.
use vstd::prelude::*;
use crate::arena::{Data, Raw, is_ancestor, lemma_ancestor_chain, lemma_ancestor_lt, node_wf};
use crate::node::{Node, attr_of, children_of, name_of};
use crate::strings::{
    chars_of, has_substring, has_word, is_lang, lang, occurs_at, prefix, str_eq, substring,
    suffix, word,
};

verus! {

/// A test on one node of a document.
pub trait Predicate {
    /// Whether node `i` of arena `s` passes the test.
    spec fn holds(&self, s: Seq<Raw>, i: int) -> bool;

    fn matches(&self, node: &Node) -> (r: bool)
        requires
            node.wf(),
        ensures
            r == self.holds(node.arena(), node.pos()),
    ;

    /// Matches if this predicate or `other` does.
    fn or<Q>(self, other: Q) -> (r: Or<Self, Q>) where Self: Sized
        ensures
            r == Or(self, other),
    {
        Or(self, other)
    }

    /// Matches if this predicate and `other` both do.
    fn and<Q>(self, other: Q) -> (r: And<Self, Q>) where Self: Sized
        ensures
            r == And(self, other),
    {
        And(self, other)
    }

    /// Matches a node that passes `other` and whose parent passes this predicate.
    fn child<Q>(self, other: Q) -> (r: Child<Self, Q>) where Self: Sized
        ensures
            r == Child(self, other),
    {
        Child(self, other)
    }

    /// Matches a node that passes `other` and has an ancestor that passes this
    /// predicate.
    fn descendant<Q>(self, other: Q) -> (r: Descendant<Self, Q>) where Self: Sized
        ensures
            r == Descendant(self, other),
    {
        Descendant(self, other)
    }

    /// Matches if this predicate does not.
    fn not(self) -> (r: Not<Self>) where Self: Sized
        ensures
            r == Not(self),
    {
        Not(self)
    }
}

/// Matches any Node.
#[derive(Clone, Copy, Debug, PartialEq)]
pub struct Any;

impl Predicate for Any {
    open spec fn holds(&self, s: Seq<Raw>, i: int) -> bool {
        true
    }

    fn matches(&self, node: &Node) -> (r: bool) {
        true
    }
}

/// Matches no Node.
#[derive(Clone, Copy, Debug, PartialEq)]
pub struct Nothing;

impl Predicate for Nothing {
    open spec fn holds(&self, s: Seq<Raw>, i: int) -> bool {
        false
    }

    fn matches(&self, node: &Node) -> (r: bool) {
        false
    }
}

/// Matches an element whose tag name is `T`.
#[derive(Clone, Copy, Debug, PartialEq)]
pub struct Name<T>(pub T);

impl<'a> Predicate for Name<&'a str> {
    open spec fn holds(&self, s: Seq<Raw>, i: int) -> bool {
        name_of(s, i) == Some(self.0@)
    }

    fn matches(&self, node: &Node) -> (r: bool) {
        match node.name() {
            Some(n) => str_eq(n, self.0),
            None => false,
        }
    }
}

/// The value of attribute `name` of node `i`, as characters.
fn attr_chars(node: &Node, name: &str) -> (r: Option<Vec<char>>)
    requires
        node.wf(),
    ensures
        match r {
            Some(v) => attr_of(node.arena(), node.pos(), name@) == Some(v@),
            None => attr_of(node.arena(), node.pos(), name@) is None,
        },
{
    match node.attr(name) {
        Some(v) => Some(chars_of(v)),
        None => None,
    }
}

/// Matches an element whose `class` attribute, split on whitespace, holds
/// the word `T`.
#[derive(Clone, Copy, Debug, PartialEq)]
pub struct Class<T>(pub T);

impl<'a> Predicate for Class<&'a str> {
    open spec fn holds(&self, s: Seq<Raw>, i: int) -> bool {
        attr_of(s, i, "class"@) matches Some(v) && has_word(v, self.0@)
    }

    fn matches(&self, node: &Node) -> (r: bool) {
        match attr_chars(node, "class") {
            Some(v) => word(&v, &chars_of(self.0)),
            None => false,
        }
    }
}

/// Matches an element whose `id` attribute is `T`.
#[derive(Clone, Copy, Debug, PartialEq)]
pub struct Id<T>(pub T);

impl<'a> Predicate for Id<&'a str> {
    open spec fn holds(&self, s: Seq<Raw>, i: int) -> bool {
        attr_of(s, i, "id"@) == Some(self.0@)
    }

    fn matches(&self, node: &Node) -> (r: bool) {
        match node.attr("id") {
            Some(v) => str_eq(v, self.0),
            None => false,
        }
    }
}

/// Matches if the predicate `T` does not.
#[derive(Clone, Copy, Debug, PartialEq)]
pub struct Not<T>(pub T);

impl<T: Predicate> Predicate for Not<T> {
    open spec fn holds(&self, s: Seq<Raw>, i: int) -> bool {
        !self.0.holds(s, i)
    }

    fn matches(&self, node: &Node) -> (r: bool) {
        !self.0.matches(node)
    }
}

/// Matches an element whose attribute `N` has the value `V` (`V` a string),
/// or that has attribute `N` at all (`V` the unit value), or whose
/// attribute `N` matches the regular expression `V` (`V` a `Pattern`).
#[derive(Clone, Copy, Debug, PartialEq)]
pub struct Attr<N, V>(pub N, pub V);

impl<'a> Predicate for Attr<&'a str, &'a str> {
    open spec fn holds(&self, s: Seq<Raw>, i: int) -> bool {
        attr_of(s, i, self.0@) == Some(self.1@)
    }

    fn matches(&self, node: &Node) -> (r: bool) {
        match node.attr(self.0) {
            Some(v) => str_eq(v, self.1),
            None => false,
        }
    }
}

impl<'a> Predicate for Attr<&'a str, ()> {
    open spec fn holds(&self, s: Seq<Raw>, i: int) -> bool {
        attr_of(s, i, self.0@) is Some
    }

    fn matches(&self, node: &Node) -> (r: bool) {
        node.attr(self.0).is_some()
    }
}

/// Whether the regular expression `pattern` is valid and matches somewhere
/// in `text`.
pub uninterp spec fn regex_matches(pattern: Seq<char>, text: Seq<char>) -> bool;

/// Relies on `regex::Regex::new` and `regex::Regex::is_match`: compiling a
/// pattern and searching a text give a result that depends on the two
/// strings alone; a pattern that does not compile matches nothing.
#[verifier::external_body]
fn pattern_matches(pattern: &str, text: &str) -> (r: bool)
    ensures
        r == regex_matches(pattern@, text@),
{
    match regex::Regex::new(pattern) {
        Ok(re) => re.is_match(text),
        Err(_) => false,
    }
}

/// Whether `pattern` is a valid regular expression.
pub uninterp spec fn regex_valid(pattern: Seq<char>) -> bool;

/// Relies on `regex::Regex::new`: whether a pattern compiles depends on the
/// pattern alone.
#[verifier::external_body]
fn pattern_compiles(pattern: &str) -> (r: bool)
    ensures
        r == regex_valid(pattern@),
{
    regex::Regex::new(pattern).is_ok()
}

/// A valid regular expression, held as its source text.
#[derive(Clone, Debug, PartialEq)]
pub struct Pattern {
    source: String,
}

impl Pattern {
    /// The source text of the expression.
    pub closed spec fn source(&self) -> Seq<char> {
        self.source@
    }

    /// The expression `source`, or `None` if it is not a valid regular
    /// expression.
    pub fn new(source: &str) -> (r: Option<Pattern>)
        ensures
            r is Some <==> regex_valid(source@),
            r matches Some(p) ==> p.source() == source@,
    {
        if pattern_compiles(source) {
            Some(Pattern { source: source.to_owned() })
        } else {
            None
        }
    }

    /// Whether this expression is valid and matches somewhere in `text`.
    pub fn is_match(&self, text: &str) -> (r: bool)
        ensures
            r == regex_matches(self.source(), text@),
    {
        pattern_matches(self.source.as_str(), text)
    }
}

impl<'a> Predicate for Attr<&'a str, Pattern> {
    open spec fn holds(&self, s: Seq<Raw>, i: int) -> bool {
        attr_of(s, i, self.0@) matches Some(v) && regex_matches(self.1.source(), v)
    }

    fn matches(&self, node: &Node) -> (r: bool) {
        match node.attr(self.0) {
            Some(v) => self.1.is_match(v),
            None => false,
        }
    }
}

/// Matches an element that has attribute `T`, whatever its value.
#[derive(Clone, Copy, Debug, PartialEq)]
pub struct HasAttr<T>(pub T);

impl<'a> Predicate for HasAttr<&'a str> {
    open spec fn holds(&self, s: Seq<Raw>, i: int) -> bool {
        attr_of(s, i, self.0@) is Some
    }

    fn matches(&self, node: &Node) -> (r: bool) {
        node.attr(self.0).is_some()
    }
}

/// Matches an element whose attribute `N` contains `V`.
#[derive(Clone, Copy, Debug, PartialEq)]
pub struct AttrContains<N, V>(pub N, pub V);

impl<'a> Predicate for AttrContains<&'a str, &'a str> {
    open spec fn holds(&self, s: Seq<Raw>, i: int) -> bool {
        attr_of(s, i, self.0@) matches Some(v) && has_substring(v, self.1@)
    }

    fn matches(&self, node: &Node) -> (r: bool) {
        match attr_chars(node, self.0) {
            Some(v) => substring(&v, &chars_of(self.1)),
            None => false,
        }
    }
}

/// Matches an element whose attribute `N` starts with `V`.
#[derive(Clone, Copy, Debug, PartialEq)]
pub struct AttrStartsWith<N, V>(pub N, pub V);

impl<'a> Predicate for AttrStartsWith<&'a str, &'a str> {
    open spec fn holds(&self, s: Seq<Raw>, i: int) -> bool {
        attr_of(s, i, self.0@) matches Some(v) && occurs_at(v, self.1@, 0)
    }

    fn matches(&self, node: &Node) -> (r: bool) {
        match attr_chars(node, self.0) {
            Some(v) => prefix(&v, &chars_of(self.1)),
            None => false,
        }
    }
}

/// Matches an element whose attribute `N` ends with `V`.
#[derive(Clone, Copy, Debug, PartialEq)]
pub struct AttrEndsWith<N, V>(pub N, pub V);

impl<'a> Predicate for AttrEndsWith<&'a str, &'a str> {
    open spec fn holds(&self, s: Seq<Raw>, i: int) -> bool {
        attr_of(s, i, self.0@) matches Some(v) && self.1@.len() <= v.len() && occurs_at(
            v,
            self.1@,
            v.len() - self.1@.len(),
        )
    }

    fn matches(&self, node: &Node) -> (r: bool) {
        match attr_chars(node, self.0) {
            Some(v) => suffix(&v, &chars_of(self.1)),
            None => false,
        }
    }
}

/// Matches an element whose attribute `N`, split on whitespace, holds the
/// word `V`.
#[derive(Clone, Copy, Debug, PartialEq)]
pub struct AttrContainsWord<N, V>(pub N, pub V);

impl<'a> Predicate for AttrContainsWord<&'a str, &'a str> {
    open spec fn holds(&self, s: Seq<Raw>, i: int) -> bool {
        attr_of(s, i, self.0@) matches Some(v) && has_word(v, self.1@)
    }

    fn matches(&self, node: &Node) -> (r: bool) {
        match attr_chars(node, self.0) {
            Some(v) => word(&v, &chars_of(self.1)),
            None => false,
        }
    }
}

/// Matches an element whose attribute `N` is `V`, or starts with `V`
/// followed by a hyphen.
#[derive(Clone, Copy, Debug, PartialEq)]
pub struct Lang<N, V>(pub N, pub V);

impl<'a> Predicate for Lang<&'a str, &'a str> {
    open spec fn holds(&self, s: Seq<Raw>, i: int) -> bool {
        attr_of(s, i, self.0@) matches Some(v) && is_lang(v, self.1@)
    }

    fn matches(&self, node: &Node) -> (r: bool) {
        match attr_chars(node, self.0) {
            Some(v) => lang(&v, &chars_of(self.1)),
            None => false,
        }
    }
}

/// Matches any element.
#[derive(Clone, Copy, Debug, PartialEq)]
pub struct Element;

impl Predicate for Element {
    open spec fn holds(&self, s: Seq<Raw>, i: int) -> bool {
        s[i].data is Element
    }

    fn matches(&self, node: &Node) -> (r: bool) {
        matches!(node.data(), Data::Element(..))
    }
}

/// Matches any text node.
#[derive(Clone, Copy, Debug, PartialEq)]
pub struct Text;

impl Predicate for Text {
    open spec fn holds(&self, s: Seq<Raw>, i: int) -> bool {
        s[i].data is Text
    }

    fn matches(&self, node: &Node) -> (r: bool) {
        matches!(node.data(), Data::Text(..))
    }
}

/// Matches any comment node.
#[derive(Clone, Copy, Debug, PartialEq)]
pub struct Comment;

impl Predicate for Comment {
    open spec fn holds(&self, s: Seq<Raw>, i: int) -> bool {
        s[i].data is Comment
    }

    fn matches(&self, node: &Node) -> (r: bool) {
        matches!(node.data(), Data::Comment(..))
    }
}

/// Matches a node without a parent.
#[derive(Clone, Copy, Debug, PartialEq)]
pub struct Root;

impl Predicate for Root {
    open spec fn holds(&self, s: Seq<Raw>, i: int) -> bool {
        s[i].parent is None
    }

    fn matches(&self, node: &Node) -> (r: bool) {
        node.raw().parent.is_none()
    }
}

/// Matches a node whose children, if any, are all comments.
#[derive(Clone, Copy, Debug, PartialEq)]
pub struct Empty;

impl Predicate for Empty {
    open spec fn holds(&self, s: Seq<Raw>, i: int) -> bool {
        forall|k: int| 0 <= k < children_of(s, i).len() ==> s[#[trigger] children_of(s, i)[k]].data is Comment
    }

    fn matches(&self, node: &Node) -> (r: bool) {
        let ghost s = node.arena();
        let ghost all = children_of(s, node.pos());
        let mut it = node.children();
        let ghost seen: Seq<int> = Seq::empty();
        loop
            invariant
                it.wf(),
                it.arena() == s,
                s == node.arena(),
                all == children_of(s, node.pos()),
                seen + it.remaining() == all,
                forall|k: int| 0 <= k < seen.len() ==> s[#[trigger] seen[k]].data is Comment,
            decreases it.remaining().len(),
        {
            let ghost before = it.remaining();
            match it.next() {
                Some(c) => {
                    if !matches!(c.data(), Data::Comment(..)) {
                        proof {
                            assert(all[seen.len() as int] == c.pos());
                        }
                        return false;
                    }
                    proof {
                        assert(seen.push(c.pos()) + it.remaining() =~= seen + before);
                        seen = seen.push(c.pos());
                    }
                },
                None => {
                    proof {
                        assert(seen + before =~= seen);
                    }
                    return true;
                },
            }
        }
    }
}

/// Matches if either inner predicate matches.
#[derive(Clone, Copy, Debug, PartialEq)]
pub struct Or<A, B>(pub A, pub B);

impl<A: Predicate, B: Predicate> Predicate for Or<A, B> {
    open spec fn holds(&self, s: Seq<Raw>, i: int) -> bool {
        self.0.holds(s, i) || self.1.holds(s, i)
    }

    fn matches(&self, node: &Node) -> (r: bool) {
        self.0.matches(node) || self.1.matches(node)
    }
}

/// Matches if both inner predicates match.
#[derive(Clone, Copy, Debug, PartialEq)]
pub struct And<A, B>(pub A, pub B);

impl<A: Predicate, B: Predicate> Predicate for And<A, B> {
    open spec fn holds(&self, s: Seq<Raw>, i: int) -> bool {
        self.0.holds(s, i) && self.1.holds(s, i)
    }

    fn matches(&self, node: &Node) -> (r: bool) {
        self.0.matches(node) && self.1.matches(node)
    }
}

/// Matches if `B` matches the node and `A` matches its parent.
#[derive(Clone, Copy, Debug, PartialEq)]
pub struct Child<A, B>(pub A, pub B);

impl<A: Predicate, B: Predicate> Predicate for Child<A, B> {
    open spec fn holds(&self, s: Seq<Raw>, i: int) -> bool {
        s[i].parent matches Some(p) && self.1.holds(s, i) && self.0.holds(s, p as int)
    }

    fn matches(&self, node: &Node) -> (r: bool) {
        match node.parent() {
            Some(parent) => self.1.matches(node) && self.0.matches(&parent),
            None => false,
        }
    }
}

/// Matches if `B` matches the node and `A` matches one of its ancestors.
#[derive(Clone, Copy, Debug, PartialEq)]
pub struct Descendant<A, B>(pub A, pub B);

impl<A: Predicate, B: Predicate> Predicate for Descendant<A, B> {
    open spec fn holds(&self, s: Seq<Raw>, i: int) -> bool {
        self.1.holds(s, i) && exists|a: int| is_ancestor(s, a, i) && #[trigger] self.0.holds(s, a)
    }

    fn matches(&self, node: &Node) -> (r: bool) {
        if !self.1.matches(node) {
            return false;
        }
        let ghost s = node.arena();
        let ghost i = node.pos();
        let mut cur = *node;
        proof {
            assert forall|a: int| is_ancestor(s, a, i) implies a < i by {
                lemma_ancestor_lt(s, a, i);
            }
        }
        loop
            invariant
                cur.wf(),
                cur.arena() == s,
                node.arena() == s,
                node.pos() == i,
                self.1.holds(s, i),
                cur.pos() == i || is_ancestor(s, cur.pos(), i),
                forall|a: int|
                    is_ancestor(s, a, i) && cur.pos() <= a ==> !#[trigger] self.0.holds(s, a),
            decreases cur.pos(),
        {
            proof {
                assert(node_wf(s, cur.pos()));
            }
            match cur.parent() {
                Some(parent) => {
                    proof {
                        assert(is_ancestor(s, parent.pos(), cur.pos()));
                        if cur.pos() != i {
                            crate::arena::lemma_ancestor_trans(s, parent.pos(), cur.pos(), i);
                        }
                    }
                    if self.0.matches(&parent) {
                        return true;
                    }
                    proof {
                        assert forall|a: int|
                            is_ancestor(s, a, i) && parent.pos() <= a implies !#[trigger] self.0.holds(s, a) by {
                            if a != parent.pos() && a < cur.pos() {
                                if cur.pos() == i {
                                    assert(a == parent.pos() || is_ancestor(s, a, parent.pos()));
                                    if a != parent.pos() {
                                        lemma_ancestor_lt(s, a, parent.pos());
                                    }
                                } else {
                                    lemma_ancestor_chain(s, a, cur.pos(), i);
                                    if is_ancestor(s, a, cur.pos()) {
                                        if a != parent.pos() {
                                            lemma_ancestor_lt(s, a, parent.pos());
                                        }
                                    } else if is_ancestor(s, cur.pos(), a) {
                                        lemma_ancestor_lt(s, cur.pos(), a);
                                    }
                                }
                            }
                        }
                    }
                    cur = parent;
                },
                None => {
                    proof {
                        assert forall|a: int| is_ancestor(s, a, i) implies !#[trigger] self.0.holds(s, a) by {
                            if cur.pos() != i {
                                lemma_ancestor_chain(s, a, cur.pos(), i);
                                if is_ancestor(s, cur.pos(), a) {
                                    lemma_ancestor_lt(s, cur.pos(), a);
                                }
                            }
                        }
                    }
                    return false;
                },
            }
        }
    }
}

/// Matches if `B` matches the node and `A` matches its previous sibling.
#[derive(Clone, Copy, Debug, PartialEq)]
pub struct ImmediatelyAfter<A, B>(pub A, pub B);

impl<A: Predicate, B: Predicate> Predicate for ImmediatelyAfter<A, B> {
    open spec fn holds(&self, s: Seq<Raw>, i: int) -> bool {
        s[i].prev matches Some(q) && self.1.holds(s, i) && self.0.holds(s, q as int)
    }

    fn matches(&self, node: &Node) -> (r: bool) {
        match node.prev() {
            Some(prev) => self.1.matches(node) && self.0.matches(&prev),
            None => false,
        }
    }
}

/// `j` is reached from `i` by previous-sibling links.
pub open spec fn is_prior_sibling(s: Seq<Raw>, j: int, i: int) -> bool
    decreases i,
{
    match s[i].prev {
        Some(q) => (q as int) < i && (q as int == j || is_prior_sibling(s, j, q as int)),
        None => false,
    }
}

/// Matches if `B` matches the node and `A` matches one of its earlier
/// siblings.
#[derive(Clone, Copy, Debug, PartialEq)]
pub struct After<A, B>(pub A, pub B);

impl<A: Predicate, B: Predicate> Predicate for After<A, B> {
    open spec fn holds(&self, s: Seq<Raw>, i: int) -> bool {
        self.1.holds(s, i) && exists|j: int| is_prior_sibling(s, j, i) && #[trigger] self.0.holds(s, j)
    }

    fn matches(&self, node: &Node) -> (r: bool) {
        if !self.1.matches(node) {
            return false;
        }
        let ghost s = node.arena();
        let ghost i = node.pos();
        let mut cur = *node;
        proof {
            assert forall|j: int| is_prior_sibling(s, j, i) implies j < i by {
                lemma_prior_lt(s, j, i);
            }
        }
        loop
            invariant
                cur.wf(),
                cur.arena() == s,
                node.arena() == s,
                node.pos() == i,
                self.1.holds(s, i),
                cur.pos() == i || is_prior_sibling(s, cur.pos(), i),
                forall|j: int|
                    is_prior_sibling(s, j, i) && cur.pos() <= j ==> !#[trigger] self.0.holds(s, j),
            decreases cur.pos(),
        {
            proof {
                assert(node_wf(s, cur.pos()));
            }
            match cur.prev() {
                Some(prev) => {
                    proof {
                        if cur.pos() != i {
                            lemma_prior_trans(s, prev.pos(), cur.pos(), i);
                        }
                    }
                    if self.0.matches(&prev) {
                        return true;
                    }
                    proof {
                        assert forall|j: int|
                            is_prior_sibling(s, j, i) && prev.pos() <= j implies !#[trigger] self.0.holds(s, j) by {
                            if j != prev.pos() && j < cur.pos() {
                                if cur.pos() == i {
                                    lemma_prior_lt(s, j, prev.pos());
                                } else {
                                    lemma_prior_chain(s, j, cur.pos(), i);
                                    if is_prior_sibling(s, j, cur.pos()) {
                                        if j != prev.pos() {
                                            lemma_prior_lt(s, j, prev.pos());
                                        }
                                    } else if is_prior_sibling(s, cur.pos(), j) {
                                        lemma_prior_lt(s, cur.pos(), j);
                                    }
                                }
                            }
                        }
                    }
                    cur = prev;
                },
                None => {
                    proof {
                        assert forall|j: int| is_prior_sibling(s, j, i) implies !#[trigger] self.0.holds(s, j) by {
                            if cur.pos() != i {
                                lemma_prior_chain(s, j, cur.pos(), i);
                                if is_prior_sibling(s, cur.pos(), j) {
                                    lemma_prior_lt(s, cur.pos(), j);
                                }
                            }
                        }
                    }
                    return false;
                },
            }
        }
    }
}

proof fn lemma_prior_lt(s: Seq<Raw>, j: int, i: int)
    requires
        is_prior_sibling(s, j, i),
    ensures
        0 <= j < i,
    decreases i,
{
    let q = s[i].prev.unwrap() as int;
    if q != j {
        lemma_prior_lt(s, j, q);
    }
}

proof fn lemma_prior_trans(s: Seq<Raw>, a: int, b: int, c: int)
    requires
        is_prior_sibling(s, a, b),
        is_prior_sibling(s, b, c),
    ensures
        is_prior_sibling(s, a, c),
    decreases c,
{
    let q = s[c].prev.unwrap() as int;
    if q != b {
        lemma_prior_trans(s, a, b, q);
    }
}

proof fn lemma_prior_chain(s: Seq<Raw>, a: int, b: int, x: int)
    requires
        is_prior_sibling(s, a, x),
        is_prior_sibling(s, b, x),
    ensures
        a == b || is_prior_sibling(s, a, b) || is_prior_sibling(s, b, a),
    decreases x,
{
    let q = s[x].prev.unwrap() as int;
    if q != a && q != b {
        lemma_prior_chain(s, a, b, q);
    }
}

} // verus!
