//! The guessed letters: the lower-case forms of the guesses, kept distinct
//! and in ascending text order (character by character, a prefix first).
use vstd::prelude::*;

use crate::game::families::chars_of;
use crate::game::families::views;

verus! {

broadcast use vstd::seq_lib::group_seq_properties;

/// `a` comes before `b` in text order: at the first position where they
/// differ `a` has the smaller character, or `a` is a proper prefix of `b`.
pub open spec fn text_less(a: Seq<char>, b: Seq<char>) -> bool
    decreases a.len(),
{
    if a.len() == 0 {
        b.len() > 0
    } else if b.len() == 0 {
        false
    } else if a[0] != b[0] {
        a[0] < b[0]
    } else {
        text_less(a.drop_first(), b.drop_first())
    }
}

/// Where `a` and `b` first part: they agree on their first `i` characters,
/// and then `a` ends while `b` goes on, or `a` has the smaller code point.
pub open spec fn parts_before(a: Seq<char>, b: Seq<char>, i: int) -> bool {
    &&& 0 <= i <= a.len()
    &&& i <= b.len()
    &&& forall|y: int| 0 <= y < i ==> a[y] == b[y]
    &&& (i == a.len() && i < b.len()) || (i < a.len() && i < b.len() && a[i] < b[i])
}

/// Text order is the lexicographic order of code points, as `String`
/// orders texts: `a` comes before `b` exactly when, after the longest
/// common beginning, `a` ends and `b` goes on, or the next character of `a`
/// is the smaller one.
pub proof fn lemma_text_order_is_lexicographic(a: Seq<char>, b: Seq<char>)
    ensures
        text_less(a, b) <==> exists|i: int| #[trigger] parts_before(a, b, i),
    decreases a.len(),
{
    if a.len() == 0 {
        if b.len() > 0 {
            assert(parts_before(a, b, 0));
        }
    } else if b.len() == 0 {
    } else if a[0] != b[0] {
        if a[0] < b[0] {
            assert(parts_before(a, b, 0));
        }
        if exists|i: int| #[trigger] parts_before(a, b, i) {
            let i = choose|i: int| #[trigger] parts_before(a, b, i);
            if i > 0 {
                assert(a[0] == b[0]);
            }
        }
    } else {
        let a1 = a.drop_first();
        let b1 = b.drop_first();
        lemma_text_order_is_lexicographic(a1, b1);
        if text_less(a1, b1) {
            let j = choose|j: int| #[trigger] parts_before(a1, b1, j);
            assert forall|y: int| 0 <= y < j + 1 implies a[y] == b[y] by {
                if y > 0 {
                    assert(a[y] == a1[y - 1]);
                    assert(b[y] == b1[y - 1]);
                }
            }
            assert(parts_before(a, b, j + 1));
        }
        if exists|i: int| #[trigger] parts_before(a, b, i) {
            let i = choose|i: int| #[trigger] parts_before(a, b, i);
            assert(i > 0);
            assert forall|y: int| 0 <= y < i - 1 implies a1[y] == b1[y] by {
                assert(a[y + 1] == b[y + 1]);
            }
            assert(parts_before(a1, b1, i - 1));
        }
    }
}

/// One-character texts come in the order of their characters.
pub proof fn lemma_letters_in_code_point_order(c: char, d: char)
    ensures
        text_less(seq![c], seq![d]) <==> c < d,
{
    lemma_text_order_is_lexicographic(seq![c], seq![d]);
    if c < d {
        assert(parts_before(seq![c], seq![d], 0));
    }
}

/// No text comes before itself.
pub proof fn lemma_text_less_irreflexive(a: Seq<char>)
    ensures
        !text_less(a, a),
    decreases a.len(),
{
    if a.len() > 0 {
        lemma_text_less_irreflexive(a.drop_first());
    }
}

/// Text order is transitive.
pub proof fn lemma_text_less_transitive(a: Seq<char>, b: Seq<char>, c: Seq<char>)
    requires
        text_less(a, b),
        text_less(b, c),
    ensures
        text_less(a, c),
    decreases a.len(),
{
    if a.len() > 0 && a[0] == b[0] && b[0] == c[0] {
        lemma_text_less_transitive(a.drop_first(), b.drop_first(), c.drop_first());
    }
}

/// Of two different texts, one comes before the other.
pub proof fn lemma_text_less_total(a: Seq<char>, b: Seq<char>)
    requires
        a != b,
    ensures
        text_less(a, b) || text_less(b, a),
    decreases a.len(),
{
    if a.len() == 0 {
        if b.len() == 0 {
            assert(a =~= b);
        }
    } else if b.len() > 0 && a[0] == b[0] {
        if a.drop_first() == b.drop_first() {
            assert(a.drop_first().len() == b.drop_first().len());
            assert(a.len() == b.len());
            assert(a =~= b) by {
                assert forall|x: int| 0 <= x < a.len() implies a[x] == b[x] by {
                    if x > 0 {
                        assert(a[x] == a.drop_first()[x - 1]);
                        assert(b[x] == b.drop_first()[x - 1]);
                    }
                }
            }
        }
        lemma_text_less_total(a.drop_first(), b.drop_first());
    }
}

/// The texts of `s` stand in strictly ascending text order.
pub open spec fn ascending(s: Seq<Seq<char>>) -> bool {
    forall|x: int, y: int| 0 <= x < y < s.len() ==> text_less(#[trigger] s[x], #[trigger] s[y])
}

/// Whether `a` comes before `b` in text order.
pub fn comes_before(a: &Vec<char>, b: &Vec<char>) -> (r: bool)
    ensures
        r == text_less(a@, b@),
{
    let mut x: usize = 0;
    while x < a.len() && x < b.len() && a[x] == b[x]
        invariant
            x <= a@.len(),
            x <= b@.len(),
            text_less(a@, b@) == text_less(a@.skip(x as int), b@.skip(x as int)),
        decreases a@.len() - x,
    {
        assert(a@.skip(x as int).drop_first() =~= a@.skip(x + 1));
        assert(b@.skip(x as int).drop_first() =~= b@.skip(x + 1));
        x = x + 1;
    }
    if x == a.len() {
        x < b.len()
    } else if x == b.len() {
        false
    } else {
        a[x] < b[x]
    }
}

/// Whether `word` is among the ascending texts `used`, and the position
/// where it belongs.
pub fn locate(used: &Vec<String>, word: &String) -> (r: (bool, usize))
    requires
        ascending(views(used@)),
    ensures
        r.0 == views(used@).contains(word@),
        r.1 <= used@.len(),
        !r.0 ==> ascending(views(used@).insert(r.1 as int, word@)),
{
    let ghost s = views(used@);
    let w = chars_of(word);
    let mut x: usize = 0;
    let mut go = true;
    while go && x < used.len()
        invariant
            s == views(used@),
            w@ == word@,
            x <= used@.len(),
            forall|y: int| 0 <= y < x ==> text_less(#[trigger] s[y], word@),
            !go ==> x < used@.len() && !text_less(s[x as int], word@),
        decreases used@.len() - x + (if go {
            1int
        } else {
            0int
        }),
    {
        let u = chars_of(&used[x]);
        assert(u@ == s[x as int]);
        if comes_before(&u, &w) {
            x = x + 1;
        } else {
            go = false;
        }
    }
    if x < used.len() && used[x] == *word {
        assert(s[x as int] == word@);
        return (true, x);
    }
    proof {
        if x < used@.len() {
            assert(!text_less(s[x as int], word@));
            lemma_text_less_total(s[x as int], word@);
        }
    }
    assert forall|y: int| x <= y < s.len() implies text_less(word@, #[trigger] s[y]) by {
        if y > x {
            lemma_text_less_transitive(word@, s[x as int], s[y]);
        }
    }
    assert(!s.contains(word@)) by {
        if s.contains(word@) {
            let y = choose|y: int| 0 <= y < s.len() && s[y] == word@;
            lemma_text_less_irreflexive(word@);
        }
    }
    let ghost t = s.insert(x as int, word@);
    assert forall|y: int, z: int| 0 <= y < z < t.len() implies text_less(
        #[trigger] t[y],
        #[trigger] t[z],
    ) by {
        if z < x {
        } else if z == x {
        } else if y < x {
            lemma_text_less_transitive(t[y], word@, t[z]);
        } else if y == x {
        } else {
            assert(t[y] == s[y - 1] && t[z] == s[z - 1]);
        }
    }
    (false, x)
}

/// Two ascending sequences of the same texts are equal.
pub proof fn lemma_ascending_unique(a: Seq<Seq<char>>, b: Seq<Seq<char>>)
    requires
        ascending(a),
        ascending(b),
        a.to_set() == b.to_set(),
    ensures
        a == b,
    decreases a.len(),
{
    if a.len() == 0 {
        if b.len() > 0 {
            assert(b.to_set().contains(b[0]));
        }
        assert(a =~= b);
    } else {
        assert(a.to_set().contains(a[0]));
        assert(b.contains(a[0]));
        let i = choose|i: int| 0 <= i < b.len() && b[i] == a[0];
        assert(b.to_set().contains(b[0]));
        assert(a.contains(b[0]));
        let j = choose|j: int| 0 <= j < a.len() && a[j] == b[0];
        assert(a[0] == b[0]) by {
            if a[0] != b[0] {
                assert(text_less(b[0], b[i]));
                assert(text_less(a[0], a[j]));
                lemma_text_less_transitive(a[0], b[0], a[0]);
                lemma_text_less_irreflexive(a[0]);
            }
        }
        let a1 = a.drop_first();
        let b1 = b.drop_first();
        assert forall|c: Seq<char>| a1.to_set().contains(c) <==> b1.to_set().contains(c) by {
            if a1.contains(c) {
                let x = choose|x: int| 0 <= x < a1.len() && a1[x] == c;
                assert(a[x + 1] == c);
                assert(text_less(a[0], a[x + 1]));
                assert(a.to_set().contains(c));
                let y = choose|y: int| 0 <= y < b.len() && b[y] == c;
                if y == 0 {
                    lemma_text_less_irreflexive(c);
                }
                assert(b1[y - 1] == c);
            }
            if b1.contains(c) {
                let x = choose|x: int| 0 <= x < b1.len() && b1[x] == c;
                assert(b[x + 1] == c);
                assert(text_less(b[0], b[x + 1]));
                assert(b.to_set().contains(c));
                let y = choose|y: int| 0 <= y < a.len() && a[y] == c;
                if y == 0 {
                    lemma_text_less_irreflexive(c);
                }
                assert(a1[y - 1] == c);
            }
        }
        assert(a1.to_set() =~= b1.to_set());
        lemma_ascending_unique(a1, b1);
        assert(a =~= b) by {
            assert forall|x: int| 0 <= x < a.len() implies a[x] == b[x] by {
                if x > 0 {
                    assert(a[x] == a1[x - 1]);
                    assert(b[x] == b1[x - 1]);
                }
            }
        }
    }
}

} // verus!
