//! Character-level matching used by the attribute predicates.
use vstd::prelude::*;
use vstd::std_specs::iter::IteratorSpec;

verus! {

/// A character of Unicode's White_Space property, as `char::is_whitespace`
/// decides it.
pub open spec fn is_space(c: char) -> bool {
    let u = c as u32;
    (0x9 <= u <= 0xd) || u == 0x20 || u == 0x85 || u == 0xa0 || u == 0x1680 || (0x2000 <= u
        <= 0x200a) || u == 0x2028 || u == 0x2029 || u == 0x202f || u == 0x205f || u == 0x3000
}

pub fn space(c: char) -> (r: bool)
    ensures
        r == is_space(c),
{
    let u = c as u32;
    (0x9 <= u && u <= 0xd) || u == 0x20 || u == 0x85 || u == 0xa0 || u == 0x1680 || (0x2000 <= u
        && u <= 0x200a) || u == 0x2028 || u == 0x2029 || u == 0x202f || u == 0x205f || u == 0x3000
}

/// The characters of `s`.
pub fn chars_of(s: &str) -> (r: Vec<char>)
    ensures
        r@ == s@,
{
    let mut it = s.chars();
    let mut out: Vec<char> = Vec::new();
    proof {
        broadcast use vstd::string::axiom_spec_iter;
    }
    loop
        invariant
            out@ + it.remaining() == s@,
        decreases s@.len() - out@.len(),
    {
        let ghost before = it.remaining();
        match it.next() {
            Some(c) => {
                proof {
                    broadcast use vstd::string::next_postcondition;
                }
                out.push(c);
                proof {
                    assert(out@ + it.remaining() =~= s@);
                }
            },
            None => {
                proof {
                    broadcast use vstd::string::next_postcondition;
                    assert(out@ + before =~= out@);
                }
                return out;
            },
        }
    }
}

/// `w` occurs in `v` at position `i`.
pub open spec fn occurs_at(v: Seq<char>, w: Seq<char>, i: int) -> bool {
    0 <= i && i + w.len() <= v.len() && v.subrange(i, i + w.len()) == w
}

/// `w` is one of the whitespace-separated words of `v`.
pub open spec fn has_word(v: Seq<char>, w: Seq<char>) -> bool {
    exists|i: int| #[trigger] occurs_at(v, w, i) && is_word_at(v, w, i)
}

/// The occurrence of `w` at `i` is a whole word.
pub open spec fn is_word_at(v: Seq<char>, w: Seq<char>, i: int) -> bool {
    &&& w.len() > 0
    &&& forall|k: int| 0 <= k < w.len() ==> !is_space(#[trigger] w[k])
    &&& (i == 0 || is_space(v[i - 1]))
    &&& (i + w.len() == v.len() || is_space(v[i + w.len()]))
}

/// `w` is a substring of `v`.
pub open spec fn has_substring(v: Seq<char>, w: Seq<char>) -> bool {
    exists|i: int| #[trigger] occurs_at(v, w, i)
}

/// `v` starts with `w` followed by a hyphen, or is `w` itself.
pub open spec fn is_lang(v: Seq<char>, w: Seq<char>) -> bool {
    v == w || (occurs_at(v, w, 0) && v.len() > w.len() && v[w.len() as int] == '-')
}

fn occurs(v: &Vec<char>, w: &Vec<char>, i: usize) -> (r: bool)
    ensures
        r == occurs_at(v@, w@, i as int),
{
    if i > v.len() || w.len() > v.len() - i {
        return false;
    }
    let mut k: usize = 0;
    while k < w.len()
        invariant
            i + w.len() <= v.len(),
            k <= w.len(),
            forall|j: int| 0 <= j < k ==> v@[i + j] == w@[j],
        decreases w.len() - k,
    {
        if v[i + k] != w[k] {
            proof {
                assert(v@.subrange(i as int, i + w.len())[k as int] != w@[k as int]);
            }
            return false;
        }
        k = k + 1;
    }
    proof {
        assert(v@.subrange(i as int, i + w.len()) =~= w@);
    }
    true
}

/// Whether `w` occurs in `v`.
pub fn substring(v: &Vec<char>, w: &Vec<char>) -> (r: bool)
    ensures
        r == has_substring(v@, w@),
{
    let mut i: usize = 0;
    loop
        invariant
            i <= v.len(),
            forall|j: int| 0 <= j < i ==> !#[trigger] occurs_at(v@, w@, j),
        decreases v.len() - i,
    {
        if occurs(v, w, i) {
            return true;
        }
        if i == v.len() {
            return false;
        }
        i = i + 1;
    }
}

/// Whether `v` begins with `w`.
pub fn prefix(v: &Vec<char>, w: &Vec<char>) -> (r: bool)
    ensures
        r == occurs_at(v@, w@, 0),
{
    occurs(v, w, 0)
}

/// Whether `v` ends with `w`.
pub fn suffix(v: &Vec<char>, w: &Vec<char>) -> (r: bool)
    ensures
        r == (w@.len() <= v@.len() && occurs_at(v@, w@, v@.len() - w@.len())),
{
    if w.len() > v.len() {
        return false;
    }
    occurs(v, w, v.len() - w.len())
}

/// Whether `v` is `w`, or starts with `w` and a hyphen.
pub fn lang(v: &Vec<char>, w: &Vec<char>) -> (r: bool)
    ensures
        r == is_lang(v@, w@),
{
    if !occurs(v, w, 0) {
        proof {
            assert(v@.subrange(0, v@.len() as int) =~= v@);
        }
        return false;
    }
    if v.len() == w.len() {
        proof {
            assert(v@ =~= v@.subrange(0, w@.len() as int));
        }
        return true;
    }
    v[w.len()] == '-'
}

/// Whether `w` is one of the whitespace-separated words of `v`.
pub fn word(v: &Vec<char>, w: &Vec<char>) -> (r: bool)
    ensures
        r == has_word(v@, w@),
{
    if w.len() == 0 {
        return false;
    }
    let mut k: usize = 0;
    while k < w.len()
        invariant
            forall|j: int| 0 <= j < k ==> !is_space(#[trigger] w@[j]),
        decreases w.len() - k,
    {
        if space(w[k]) {
            proof {
                assert forall|i: int| #[trigger] occurs_at(v@, w@, i) implies !is_word_at(v@, w@, i) by {
                    assert(is_space(w@[k as int]));
                }
            }
            return false;
        }
        k = k + 1;
    }
    let mut i: usize = 0;
    loop
        invariant
            i <= v.len(),
            w@.len() > 0,
            forall|j: int| 0 <= j < w@.len() ==> !is_space(#[trigger] w@[j]),
            forall|j: int| 0 <= j < i ==> !(#[trigger] occurs_at(v@, w@, j) && is_word_at(v@, w@, j)),
        decreases v.len() - i,
    {
        if occurs(v, w, i) {
            let before = i == 0 || space(v[i - 1]);
            let after = i + w.len() == v.len() || space(v[i + w.len()]);
            if before && after {
                proof {
                    assert(occurs_at(v@, w@, i as int) && is_word_at(v@, w@, i as int));
                }
                return true;
            }
        }
        if i == v.len() {
            proof {
                assert forall|j: int| #[trigger] occurs_at(v@, w@, j) implies !is_word_at(v@, w@, j) by {
                    assert(j <= v@.len());
                }
            }
            return false;
        }
        i = i + 1;
    }
}

/// Whether two strings hold the same characters.
pub fn str_eq(a: &str, b: &str) -> (r: bool)
    ensures
        r == (a@ == b@),
{
    let x = chars_of(a);
    let y = chars_of(b);
    if x.len() != y.len() {
        return false;
    }
    let mut i: usize = 0;
    while i < x.len()
        invariant
            x@ == a@,
            y@ == b@,
            x@.len() == y@.len(),
            i <= x@.len(),
            forall|j: int| 0 <= j < i ==> x@[j] == y@[j],
        decreases x.len() - i,
    {
        if x[i] != y[i] {
            return false;
        }
        i = i + 1;
    }
    proof {
        assert(x@ =~= y@);
    }
    true
}

} // verus!
