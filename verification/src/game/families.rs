//! The rules by which a guess splits the remaining words into families,
//! and the order in which the families compete.
use vstd::prelude::*;

verus! {

/// `10` to the power `e`.
pub open spec fn pow10(e: nat) -> nat
    decreases e,
{
    if e == 0 {
        1
    } else {
        10 * pow10((e - 1) as nat)
    }
}

/// How far to the right the letter `g` sits in `s`: the number whose decimal
/// digits, read from left to right, are 1 where `s` holds `g` and 0 elsewhere.
/// A smaller value means the letter occurs further to the right.
pub open spec fn rightness(s: Seq<char>, g: char) -> nat
    decreases s.len(),
{
    if s.len() == 0 {
        0
    } else {
        (if s[0] == g {
            pow10((s.len() - 1) as nat)
        } else {
            0
        }) + rightness(s.drop_first(), g)
    }
}

pub proof fn lemma_pow10_positive(e: nat)
    ensures
        pow10(e) >= 1,
    decreases e,
{
    if e > 0 {
        lemma_pow10_positive((e - 1) as nat);
    }
}

pub proof fn lemma_pow10_monotonic(a: nat, b: nat)
    requires
        a <= b,
    ensures
        pow10(a) <= pow10(b),
    decreases b,
{
    if a < b {
        lemma_pow10_monotonic(a, (b - 1) as nat);
        lemma_pow10_positive((b - 1) as nat);
    }
}

/// Up to nineteen digits fit in 64 bits, so `rightness` of a word of at
/// most nineteen characters can be computed in a `u64`.
pub proof fn lemma_pow10_fits_u64(e: nat)
    requires
        e <= 19,
    ensures
        pow10(e) <= u64::MAX,
{
    reveal_with_fuel(pow10, 20);
    assert(pow10(19) == 10000000000000000000nat);
    lemma_pow10_monotonic(e, 19);
}

/// The digits of `rightness` never carry: it stays below `10^len`.
pub proof fn lemma_rightness_bound(s: Seq<char>, g: char)
    ensures
        rightness(s, g) < pow10(s.len()),
    decreases s.len(),
{
    if s.len() > 0 {
        lemma_rightness_bound(s.drop_first(), g);
    }
}

/// Two words of equal length: at the first position where exactly one of
/// them holds `g`, the one without `g` has the smaller rightness.
pub proof fn lemma_rightness_first_difference(s: Seq<char>, t: Seq<char>, g: char, x: int)
    requires
        s.len() == t.len(),
        0 <= x < s.len(),
        forall|y: int| 0 <= y < x ==> (s[y] == g) == (t[y] == g),
        s[x] != g,
        t[x] == g,
    ensures
        rightness(s, g) < rightness(t, g),
    decreases x,
{
    if x == 0 {
        lemma_rightness_bound(s.drop_first(), g);
    } else {
        assert forall|y: int| 0 <= y < x - 1 implies (s.drop_first()[y] == g) == (
        t.drop_first()[y] == g) by {
            assert(s.drop_first()[y] == s[y + 1]);
            assert(t.drop_first()[y] == t[y + 1]);
        }
        lemma_rightness_first_difference(s.drop_first(), t.drop_first(), g, x - 1);
        assert((s[0] == g) == (t[0] == g));
    }
}

/// At the first position where `a` and `b` differ in holding `g`, `b` holds
/// it and `a` does not.
pub open spec fn first_difference_favours(a: Seq<char>, b: Seq<char>, g: char) -> bool {
    exists|x: int|
        0 <= x < a.len() && (forall|y: int| 0 <= y < x ==> (a[y] == g) == (b[y] == g)) && a[x]
            != g && #[trigger] b[x] == g
}

proof fn lemma_rightness_less_witness(a: Seq<char>, b: Seq<char>, g: char)
    requires
        a.len() == b.len(),
        rightness(a, g) < rightness(b, g),
    ensures
        first_difference_favours(a, b, g),
    decreases a.len(),
{
    let n = a.len();
    if n == 0 {
    } else {
        lemma_rightness_bound(a.drop_first(), g);
        lemma_rightness_bound(b.drop_first(), g);
        if (a[0] == g) == (b[0] == g) {
            lemma_rightness_less_witness(a.drop_first(), b.drop_first(), g);
            let x = choose|x: int|
                0 <= x < a.drop_first().len() && (forall|y: int|
                    0 <= y < x ==> (a.drop_first()[y] == g) == (b.drop_first()[y] == g))
                    && a.drop_first()[x] != g && #[trigger] b.drop_first()[x] == g;
            assert forall|y: int| 0 <= y < x + 1 implies (a[y] == g) == (b[y] == g) by {
                if y > 0 {
                    assert(a.drop_first()[y - 1] == a[y]);
                    assert(b.drop_first()[y - 1] == b[y]);
                }
            }
            assert(a[x + 1] == a.drop_first()[x]);
            assert(b[x + 1] == b.drop_first()[x]);
        } else {
            assert(b[0] == g);
        }
    }
}

/// Rightness orders words of equal length by where they hold `g`: it is
/// equal exactly when they hold `g` at the same positions, and smaller for
/// `a` exactly when, at the first position where they differ, `b` holds `g`
/// and `a` does not.
pub proof fn lemma_rightness_order(a: Seq<char>, b: Seq<char>, g: char)
    requires
        a.len() == b.len(),
    ensures
        (rightness(a, g) == rightness(b, g)) <==> (forall|y: int|
            0 <= y < a.len() ==> (a[y] == g) == (b[y] == g)),
        (rightness(a, g) < rightness(b, g)) <==> first_difference_favours(a, b, g),
{
    if rightness(a, g) == rightness(b, g) {
        lemma_rightness_injective(a, b, g);
    }
    if forall|y: int| 0 <= y < a.len() ==> (a[y] == g) == (b[y] == g) {
        lemma_rightness_same_positions(a, b, g);
    }
    if rightness(a, g) < rightness(b, g) {
        lemma_rightness_less_witness(a, b, g);
    }
    if first_difference_favours(a, b, g) {
        let x = choose|x: int|
            0 <= x < a.len() && (forall|y: int| 0 <= y < x ==> (a[y] == g) == (b[y] == g)) && a[x]
                != g && #[trigger] b[x] == g;
        lemma_rightness_first_difference(a, b, g, x);
    }
}

/// Words that hold `g` at the same positions have the same rightness.
/// Words of equal length with equal rightness hold `g` at the same positions.
pub proof fn lemma_rightness_injective(s: Seq<char>, t: Seq<char>, g: char)
    requires
        s.len() == t.len(),
        rightness(s, g) == rightness(t, g),
    ensures
        forall|y: int| 0 <= y < s.len() ==> (s[y] == g) == (t[y] == g),
    decreases s.len(),
{
    if s.len() > 0 {
        lemma_rightness_bound(s.drop_first(), g);
        lemma_rightness_bound(t.drop_first(), g);
        assert((s[0] == g) == (t[0] == g));
        lemma_rightness_injective(s.drop_first(), t.drop_first(), g);
        assert forall|y: int| 0 <= y < s.len() implies (s[y] == g) == (t[y] == g) by {
            if y > 0 {
                assert(s.drop_first()[y - 1] == s[y]);
                assert(t.drop_first()[y - 1] == t[y]);
            }
        }
    }
}

pub proof fn lemma_rightness_same_positions(s: Seq<char>, t: Seq<char>, g: char)
    requires
        s.len() == t.len(),
        forall|y: int| 0 <= y < s.len() ==> (s[y] == g) == (t[y] == g),
    ensures
        rightness(s, g) == rightness(t, g),
    decreases s.len(),
{
    if s.len() > 0 {
        assert forall|y: int| 0 <= y < s.len() - 1 implies (s.drop_first()[y] == g) == (
        t.drop_first()[y] == g) by {
            assert(s.drop_first()[y] == s[y + 1]);
            assert(t.drop_first()[y] == t[y + 1]);
        }
        lemma_rightness_same_positions(s.drop_first(), t.drop_first(), g);
        assert((s[0] == g) == (t[0] == g));
    }
}


/// Number of positions of `s` that hold `g`.
pub open spec fn count_of(s: Seq<char>, g: char) -> nat
    decreases s.len(),
{
    if s.len() == 0 {
        0
    } else {
        count_of(s.drop_last(), g) + (if s.last() == g {
            1nat
        } else {
            0nat
        })
    }
}

pub proof fn lemma_count_bound(s: Seq<char>, g: char)
    ensures
        count_of(s, g) <= s.len(),
    decreases s.len(),
{
    if s.len() > 0 {
        lemma_count_bound(s.drop_last(), g);
    }
}

/// The abstract value of a list of words: each word as its characters.
pub open spec fn views(v: Seq<String>) -> Seq<Seq<char>> {
    v.map_values(|s: String| s@)
}

/// The pattern `p` with the positions `i`, `j` and `k` showing the letter `g`
/// (the positions may coincide).
pub open spec fn reveal_at(p: Seq<char>, g: char, i: int, j: int, k: int) -> Seq<char> {
    p.update(i, g).update(j, g).update(k, g)
}

/// Whether word `w` belongs under `key`, the pattern revealed at `i`, `j`, `k`:
/// `w` holds `g` at those positions and as many times as `key` does.
pub open spec fn fits(w: Seq<char>, key: Seq<char>, g: char, i: int, j: int, k: int) -> bool {
    &&& w[i] == g
    &&& w[j] == g
    &&& w[k] == g
    &&& count_of(w, g) == count_of(key, g)
}

/// The words that belong under the pattern revealed at `i`, `j`, `k`.
pub open spec fn family(ws: Seq<Seq<char>>, p: Seq<char>, g: char, i: int, j: int, k: int) -> Seq<
    Seq<char>,
> {
    ws.filter(fits_pred(reveal_at(p, g, i, j, k), g, i, j, k))
}

/// `fits` as a predicate on words.
pub open spec fn fits_pred(key: Seq<char>, g: char, i: int, j: int, k: int) -> spec_fn(
    Seq<char>,
) -> bool {
    |w: Seq<char>| fits(w, key, g, i, j, k)
}

/// The predicate of words in which `g` does not occur.
pub open spec fn lacks_pred(g: char) -> spec_fn(Seq<char>) -> bool {
    |w: Seq<char>| !w.contains(g)
}

/// The words in which `g` does not occur at all.
pub open spec fn misses(ws: Seq<Seq<char>>, g: char) -> Seq<Seq<char>> {
    ws.filter(lacks_pred(g))
}

/// One step of sorting the words into families: the family of the positions
/// `i`, `j`, `k` is filed under its pattern if it is not empty, replacing
/// whatever was filed under that pattern before.
pub open spec fn with_family(
    m: Map<Seq<char>, Seq<Seq<char>>>,
    ws: Seq<Seq<char>>,
    p: Seq<char>,
    g: char,
    i: int,
    j: int,
    k: int,
) -> Map<Seq<char>, Seq<Seq<char>>> {
    if family(ws, p, g, i, j, k).len() > 0 {
        m.insert(reveal_at(p, g, i, j, k), family(ws, p, g, i, j, k))
    } else {
        m
    }
}

/// `m` after filing the families of `(i, j, k')` for `j <= k' < k`, in order.
pub open spec fn fold_k(
    m: Map<Seq<char>, Seq<Seq<char>>>,
    ws: Seq<Seq<char>>,
    p: Seq<char>,
    g: char,
    i: int,
    j: int,
    k: int,
) -> Map<Seq<char>, Seq<Seq<char>>>
    decreases k - j,
{
    if k <= j {
        m
    } else {
        with_family(fold_k(m, ws, p, g, i, j, k - 1), ws, p, g, i, j, k - 1)
    }
}

/// `m` after filing the families of `(i, j', k)` for `i <= j' < j` and
/// `j' <= k < p.len()`, in order.
pub open spec fn fold_j(
    m: Map<Seq<char>, Seq<Seq<char>>>,
    ws: Seq<Seq<char>>,
    p: Seq<char>,
    g: char,
    i: int,
    j: int,
) -> Map<Seq<char>, Seq<Seq<char>>>
    decreases j - i,
{
    if j <= i {
        m
    } else {
        fold_k(fold_j(m, ws, p, g, i, j - 1), ws, p, g, i, j - 1, p.len() as int)
    }
}

/// The families of all `(i', j, k)` with `0 <= i' < i` and `i' <= j <= k < p.len()`,
/// filed in lexicographic order.
pub open spec fn fold_i(ws: Seq<Seq<char>>, p: Seq<char>, g: char, i: int) -> Map<
    Seq<char>,
    Seq<Seq<char>>,
>
    decreases i,
{
    if i <= 0 {
        Map::empty()
    } else {
        fold_j(fold_i(ws, p, g, i - 1), ws, p, g, i - 1, p.len() as int)
    }
}

/// All families that a guess of `g` splits the words `ws` into, when the
/// board shows `p`: one per pattern that reveals `g` at one to three
/// positions, and the words without `g`, filed under `p` itself.
pub open spec fn families(ws: Seq<Seq<char>>, p: Seq<char>, g: char) -> Map<
    Seq<char>,
    Seq<Seq<char>>,
> {
    fold_i(ws, p, g, p.len() as int).insert(p, misses(ws, g))
}

/// Whether the family of `size_a` words under pattern `a` is preferred to the
/// family of `size_b` words under `b`: the larger family wins; between equal
/// sizes a family that does not show `g` wins, and between two that show it,
/// the one that shows it further to the right.
pub open spec fn beats(size_a: nat, a: Seq<char>, size_b: nat, b: Seq<char>, g: char) -> bool {
    ||| size_a > size_b
    ||| size_a == size_b && b.contains(g) && (!a.contains(g) || rightness(a, g) < rightness(b, g))
}

/// `key` is a pattern of `m` whose family no other family of `m` beats.
pub open spec fn is_chosen(m: Map<Seq<char>, Seq<Seq<char>>>, key: Seq<char>, g: char) -> bool {
    &&& m.dom().contains(key)
    &&& forall|other: Seq<char>| #[trigger]
        m.dom().contains(other) ==> !beats(m[other].len(), other, m[key].len(), key, g)
}

/// The characters of `s`, one by one.
pub fn chars_of(s: &String) -> (v: Vec<char>)
    ensures
        v@ == s@,
{
    let n = s.as_str().unicode_len();
    let mut v: Vec<char> = Vec::new();
    let mut x: usize = 0;
    while x < n
        invariant
            n == s@.len(),
            x <= n,
            v@ == s@.take(x as int),
        decreases n - x,
    {
        v.push(s.as_str().get_char(x));
        x = x + 1;
        assert(v@ =~= s@.take(x as int));
    }
    assert(s@.take(n as int) =~= s@);
    v
}

/// Whether `g` occurs in `s`.
pub fn holds_letter(s: &Vec<char>, g: char) -> (b: bool)
    ensures
        b == s@.contains(g),
{
    let mut x: usize = 0;
    while x < s.len()
        invariant
            x <= s@.len(),
            forall|y: int| 0 <= y < x ==> s@[y] != g,
        decreases s@.len() - x,
    {
        if s[x] == g {
            return true;
        }
        x = x + 1;
    }
    false
}

/// How many times `g` occurs in `s`.
pub fn count_letter(s: &Vec<char>, g: char) -> (c: usize)
    ensures
        c == count_of(s@, g),
{
    let mut c: usize = 0;
    let mut x: usize = 0;
    while x < s.len()
        invariant
            x <= s@.len(),
            c == count_of(s@.take(x as int), g),
        decreases s@.len() - x,
    {
        proof {
            assert(s@.take(x + 1).drop_last() =~= s@.take(x as int));
            lemma_count_bound(s@.take(x as int), g);
        }
        if s[x] == g {
            c = c + 1;
        }
        x = x + 1;
    }
    assert(s@.take(s@.len() as int) =~= s@);
    c
}

/// Whether `g` sits further to the right in `a` than in `b`, that is, whether
/// `rightness(a) < rightness(b)`; decided without computing either number, so
/// words of any length are compared.
pub fn further_right(a: &Vec<char>, b: &Vec<char>, g: char) -> (r: bool)
    requires
        a@.len() == b@.len(),
    ensures
        r == (rightness(a@, g) < rightness(b@, g)),
{
    let mut x: usize = 0;
    while x < a.len()
        invariant
            a@.len() == b@.len(),
            x <= a@.len(),
            forall|y: int| 0 <= y < x ==> (a@[y] == g) == (b@[y] == g),
        decreases a@.len() - x,
    {
        let in_a = a[x] == g;
        let in_b = b[x] == g;
        if in_a != in_b {
            proof {
                if in_b {
                    lemma_rightness_first_difference(a@, b@, g, x as int);
                } else {
                    lemma_rightness_first_difference(b@, a@, g, x as int);
                }
            }
            return in_b;
        }
        x = x + 1;
    }
    proof {
        lemma_rightness_same_positions(a@, b@, g);
    }
    false
}


/// `key` is `p` with some positions replaced by `g`.
pub open spec fn shaped(key: Seq<char>, p: Seq<char>, g: char) -> bool {
    &&& key.len() == p.len()
    &&& forall|x: int| 0 <= x < key.len() ==> #[trigger] key[x] == g || key[x] == p[x]
}

/// Every pattern filed in `m` is `p` with some positions showing `g`, and
/// every family filed in `m` is drawn from `ws`, without repeating a word
/// where `ws` repeats none.
pub open spec fn sound(m: Map<Seq<char>, Seq<Seq<char>>>, ws: Seq<Seq<char>>, p: Seq<char>, g: char) -> bool {
    forall|key: Seq<char>| #[trigger]
        m.dom().contains(key) ==> {
            &&& shaped(key, p, g)
            &&& forall|w: Seq<char>| m[key].contains(w) ==> ws.contains(w)
            &&& ws.no_duplicates() ==> m[key].no_duplicates()
        }
}

/// Filtering keeps a sequence free of repetitions.
pub proof fn lemma_filter_no_duplicates(s: Seq<Seq<char>>, pred: spec_fn(Seq<char>) -> bool)
    requires
        s.no_duplicates(),
    ensures
        s.filter(pred).no_duplicates(),
    decreases s.len(),
{
    reveal(Seq::filter);
    if s.len() > 0 {
        let rest = s.drop_last();
        assert(rest.no_duplicates()) by {
            assert forall|i: int, j: int| 0 <= i < rest.len() && 0 <= j < rest.len() && i != j implies rest[i] != rest[j] by {
                assert(rest[i] == s[i]);
                assert(rest[j] == s[j]);
            }
        }
        lemma_filter_no_duplicates(rest, pred);
        if pred(s.last()) {
            let f = rest.filter(pred);
            if f.contains(s.last()) {
                rest.lemma_filter_contains_rev(pred, s.last());
                let i = choose|i: int| 0 <= i < rest.len() && rest[i] == s.last();
                assert(s[i] == s[s.len() - 1]);
            }
            assert forall|i: int, j: int| 0 <= i < f.push(s.last()).len() && 0 <= j < f.push(s.last()).len() && i != j implies f.push(s.last())[i] != f.push(s.last())[j] by {
                if i < f.len() && j < f.len() {
                } else if i < f.len() {
                    assert(f.contains(f[i]));
                } else {
                    assert(f.contains(f[j]));
                }
            }
        }
    }
}

proof fn lemma_with_family_sound(
    m: Map<Seq<char>, Seq<Seq<char>>>,
    ws: Seq<Seq<char>>,
    p: Seq<char>,
    g: char,
    i: int,
    j: int,
    k: int,
)
    requires
        sound(m, ws, p, g),
        0 <= i < p.len(),
        0 <= j < p.len(),
        0 <= k < p.len(),
    ensures
        sound(with_family(m, ws, p, g, i, j, k), ws, p, g),
{
    let key = reveal_at(p, g, i, j, k);
    let fam = family(ws, p, g, i, j, k);
    assert(shaped(key, p, g));
    assert forall|w: Seq<char>| fam.contains(w) implies ws.contains(w) by {
        ws.lemma_filter_contains_rev(fits_pred(key, g, i, j, k), w);
    }
    if ws.no_duplicates() {
        lemma_filter_no_duplicates(ws, fits_pred(key, g, i, j, k));
    }
}

proof fn lemma_fold_k_sound(
    m: Map<Seq<char>, Seq<Seq<char>>>,
    ws: Seq<Seq<char>>,
    p: Seq<char>,
    g: char,
    i: int,
    j: int,
    k: int,
)
    requires
        sound(m, ws, p, g),
        0 <= i < p.len(),
        0 <= j < p.len(),
        k <= p.len(),
    ensures
        sound(fold_k(m, ws, p, g, i, j, k), ws, p, g),
    decreases k - j,
{
    if k > j {
        lemma_fold_k_sound(m, ws, p, g, i, j, k - 1);
        lemma_with_family_sound(fold_k(m, ws, p, g, i, j, k - 1), ws, p, g, i, j, k - 1);
    }
}

proof fn lemma_fold_j_sound(
    m: Map<Seq<char>, Seq<Seq<char>>>,
    ws: Seq<Seq<char>>,
    p: Seq<char>,
    g: char,
    i: int,
    j: int,
)
    requires
        sound(m, ws, p, g),
        0 <= i < p.len(),
        j <= p.len(),
    ensures
        sound(fold_j(m, ws, p, g, i, j), ws, p, g),
    decreases j - i,
{
    if j > i {
        lemma_fold_j_sound(m, ws, p, g, i, j - 1);
        lemma_fold_k_sound(fold_j(m, ws, p, g, i, j - 1), ws, p, g, i, j - 1, p.len() as int);
    }
}

proof fn lemma_fold_i_sound(ws: Seq<Seq<char>>, p: Seq<char>, g: char, i: int)
    requires
        i <= p.len(),
    ensures
        sound(fold_i(ws, p, g, i), ws, p, g),
    decreases i,
{
    if i > 0 {
        lemma_fold_i_sound(ws, p, g, i - 1);
        lemma_fold_j_sound(fold_i(ws, p, g, i - 1), ws, p, g, i - 1, p.len() as int);
    }
}

/// Every family that a guess of `g` makes is drawn from the words `ws`
/// (repeating none where `ws` repeats none), and its pattern is the board `p`
/// with some positions showing `g`.
pub proof fn lemma_families_sound(ws: Seq<Seq<char>>, p: Seq<char>, g: char)
    ensures
        sound(families(ws, p, g), ws, p, g),
{
    lemma_fold_i_sound(ws, p, g, p.len() as int);
    let m = families(ws, p, g);
    assert(shaped(p, p, g));
    assert forall|w: Seq<char>| misses(ws, g).contains(w) implies ws.contains(w) by {
        ws.lemma_filter_contains_rev(lacks_pred(g), w);
    }
    if ws.no_duplicates() {
        lemma_filter_no_duplicates(ws, lacks_pred(g));
    }
}

/// The outcome of a guess does not depend on the order in which the
/// families are compared: at most one family is beaten by no other.
pub proof fn lemma_choice_is_unique(
    ws: Seq<Seq<char>>,
    p: Seq<char>,
    g: char,
    a: Seq<char>,
    b: Seq<char>,
)
    requires
        is_chosen(families(ws, p, g), a, g),
        is_chosen(families(ws, p, g), b, g),
    ensures
        a == b,
{
    let m = families(ws, p, g);
    lemma_families_sound(ws, p, g);
    assert(shaped(a, p, g));
    assert(shaped(b, p, g));
    assert(!beats(m[a].len(), a, m[b].len(), b, g));
    assert(!beats(m[b].len(), b, m[a].len(), a, g));
    if a.contains(g) && b.contains(g) {
        lemma_rightness_injective(a, b, g);
    }
    assert forall|x: int| 0 <= x < a.len() implies a[x] == b[x] by {
        if a[x] != g {
            assert(a[x] == p[x]);
            if b[x] == g {
                assert(b.contains(g));
            }
        }
        if b[x] != g {
            assert(b[x] == p[x]);
            if a[x] == g {
                assert(a.contains(g));
            }
        }
    }
    assert(a =~= b);
}

/// The family that is chosen is at least as large as every other family.
pub proof fn lemma_chosen_is_largest(
    ws: Seq<Seq<char>>,
    p: Seq<char>,
    g: char,
    chosen: Seq<char>,
    other: Seq<char>,
)
    requires
        is_chosen(families(ws, p, g), chosen, g),
        families(ws, p, g).dom().contains(other),
    ensures
        families(ws, p, g)[other].len() <= families(ws, p, g)[chosen].len(),
{
}

/// How ties between families of the same size are broken, whatever the
/// comparison that makes the choice: the chosen pattern shows the letter only
/// if every other pattern with a family of that size shows it too, and then,
/// at the first position where the two differ in showing the letter, the
/// chosen one does not show it (it shows the letter further to the right).
pub proof fn lemma_tie_goes_to_letter_furthest_right(
    ws: Seq<Seq<char>>,
    p: Seq<char>,
    g: char,
    chosen: Seq<char>,
    other: Seq<char>,
)
    requires
        is_chosen(families(ws, p, g), chosen, g),
        families(ws, p, g).dom().contains(other),
        other != chosen,
        families(ws, p, g)[other].len() == families(ws, p, g)[chosen].len(),
    ensures
        chosen.len() == other.len(),
        chosen.contains(g) ==> other.contains(g),
        chosen.contains(g) ==> exists|x: int|
            0 <= x < chosen.len() && chosen[x] != g && #[trigger] other[x] == g && forall|y: int|
                0 <= y < x ==> (chosen[y] == g) == (other[y] == g),
{
    let m = families(ws, p, g);
    lemma_families_sound(ws, p, g);
    assert(shaped(chosen, p, g));
    assert(shaped(other, p, g));
    assert(!beats(m[other].len(), other, m[chosen].len(), chosen, g));
    if chosen.contains(g) {
        assert(other.contains(g));
        assert(rightness(other, g) >= rightness(chosen, g));
        if rightness(other, g) == rightness(chosen, g) {
            lemma_rightness_injective(chosen, other, g);
            assert forall|x: int| 0 <= x < chosen.len() implies chosen[x] == other[x] by {
                if chosen[x] != g {
                    assert(chosen[x] == p[x]);
                }
                if other[x] != g {
                    assert(other[x] == p[x]);
                }
            }
            assert(chosen =~= other);
        }
        lemma_rightness_order(chosen, other, g);
        assert(first_difference_favours(chosen, other, g));
        let x = choose|x: int|
            0 <= x < chosen.len() && (forall|y: int| 0 <= y < x ==> (chosen[y] == g) == (other[y] == g))
                && chosen[x] != g && #[trigger] other[x] == g;
        assert(other[x] == g);
    }
}

/// The words filed under the unchanged board are exactly those without `g`.
pub proof fn lemma_unchanged_board_family(ws: Seq<Seq<char>>, p: Seq<char>, g: char)
    ensures
        families(ws, p, g).dom().contains(p),
        families(ws, p, g)[p] == misses(ws, g),
        forall|w: Seq<char>| #[trigger] families(ws, p, g)[p].contains(w) ==> !w.contains(g),
{
    assert forall|w: Seq<char>| #[trigger] families(ws, p, g)[p].contains(w) implies !w.contains(g) by {
        let x = choose|x: int| 0 <= x < misses(ws, g).len() && misses(ws, g)[x] == w;
        ws.lemma_filter_pred(lacks_pred(g), x);
    }
}

/// Where the first `g` of `b` comes later than the first `g` of `a`, `b`
/// shows `g` further to the right than `a`.
pub proof fn lemma_later_first_letter_is_further_right(
    a: Seq<char>,
    b: Seq<char>,
    g: char,
    fa: int,
    fb: int,
)
    requires
        a.len() == b.len(),
        0 <= fa < fb < b.len(),
        a[fa] == g,
        b[fb] == g,
        forall|y: int| 0 <= y < fa ==> a[y] != g,
        forall|y: int| 0 <= y < fb ==> b[y] != g,
    ensures
        rightness(b, g) < rightness(a, g),
{
    lemma_rightness_first_difference(b, a, g, fa);
}

proof fn lemma_count_monotone(s: Seq<char>, t: Seq<char>, g: char)
    requires
        s.len() == t.len(),
        forall|x: int| 0 <= x < t.len() && t[x] == g ==> s[x] == g,
    ensures
        count_of(t, g) <= count_of(s, g),
    decreases s.len(),
{
    if s.len() > 0 {
        lemma_count_monotone(s.drop_last(), t.drop_last(), g);
    }
}

/// If `s` holds `g` wherever `t` does, and as often, it holds `g` nowhere else.
proof fn lemma_count_pins_positions(s: Seq<char>, t: Seq<char>, g: char)
    requires
        s.len() == t.len(),
        forall|x: int| 0 <= x < t.len() && t[x] == g ==> s[x] == g,
        count_of(s, g) == count_of(t, g),
    ensures
        forall|x: int| 0 <= x < s.len() && s[x] == g ==> t[x] == g,
    decreases s.len(),
{
    if s.len() > 0 {
        let n = s.len() - 1;
        lemma_count_monotone(s.drop_last(), t.drop_last(), g);
        assert(t[n] == g ==> s[n] == g);
        assert(s[n] == g ==> t[n] == g);
        lemma_count_pins_positions(s.drop_last(), t.drop_last(), g);
        assert forall|x: int| 0 <= x < s.len() && s[x] == g implies t[x] == g by {
            if x < n {
                assert(s.drop_last()[x] == s[x]);
                assert(t.drop_last()[x] == t[x]);
            }
        }
    }
}

/// `w` holds `g` exactly where `key` shows it.
pub open spec fn shows_exactly(w: Seq<char>, key: Seq<char>, g: char) -> bool {
    &&& w.len() == key.len()
    &&& forall|x: int| 0 <= x < key.len() ==> (#[trigger] w[x] == g) == (key[x] == g)
}

/// In every family of `m`, each word holds `g` exactly where the family's
/// pattern shows it.
pub open spec fn exact(m: Map<Seq<char>, Seq<Seq<char>>>, g: char) -> bool {
    forall|key: Seq<char>| #[trigger]
        m.dom().contains(key) ==> (forall|w: Seq<char>|
            m[key].contains(w) ==> shows_exactly(w, key, g))
}

/// The words `ws` all have the length of the board `p`, which does not show `g`.
pub open spec fn fresh_letter(ws: Seq<Seq<char>>, p: Seq<char>, g: char) -> bool {
    &&& !p.contains(g)
    &&& forall|t: int| 0 <= t < ws.len() ==> (#[trigger] ws[t]).len() == p.len()
}

proof fn lemma_with_family_exact(
    m: Map<Seq<char>, Seq<Seq<char>>>,
    ws: Seq<Seq<char>>,
    p: Seq<char>,
    g: char,
    i: int,
    j: int,
    k: int,
)
    requires
        exact(m, g),
        fresh_letter(ws, p, g),
        0 <= i < p.len(),
        0 <= j < p.len(),
        0 <= k < p.len(),
    ensures
        exact(with_family(m, ws, p, g, i, j, k), g),
{
    let key = reveal_at(p, g, i, j, k);
    let fam = family(ws, p, g, i, j, k);
    let m2 = with_family(m, ws, p, g, i, j, k);
    assert forall|q: Seq<char>, w: Seq<char>|
        m2.dom().contains(q) && m2[q].contains(w) implies shows_exactly(w, q, g) by {
        if q == key && fam.len() > 0 {
            ws.lemma_filter_contains_rev(fits_pred(key, g, i, j, k), w);
            let u = choose|u: int| 0 <= u < ws.len() && ws[u] == w;
            assert(ws[u].len() == p.len());
            let y = choose|y: int| 0 <= y < fam.len() && fam[y] == w;
            ws.lemma_filter_pred(fits_pred(key, g, i, j, k), y);
            assert forall|x: int| 0 <= x < key.len() && key[x] == g implies w[x] == g by {
                if x != i && x != j && x != k {
                    assert(key[x] == p[x]);
                    assert(p.contains(p[x]));
                }
            }
            lemma_count_pins_positions(w, key, g);
        }
    }
}

proof fn lemma_fold_k_exact(
    m: Map<Seq<char>, Seq<Seq<char>>>,
    ws: Seq<Seq<char>>,
    p: Seq<char>,
    g: char,
    i: int,
    j: int,
    k: int,
)
    requires
        exact(m, g),
        fresh_letter(ws, p, g),
        0 <= i < p.len(),
        0 <= j < p.len(),
        k <= p.len(),
    ensures
        exact(fold_k(m, ws, p, g, i, j, k), g),
    decreases k - j,
{
    if k > j {
        lemma_fold_k_exact(m, ws, p, g, i, j, k - 1);
        lemma_with_family_exact(fold_k(m, ws, p, g, i, j, k - 1), ws, p, g, i, j, k - 1);
    }
}

proof fn lemma_fold_j_exact(
    m: Map<Seq<char>, Seq<Seq<char>>>,
    ws: Seq<Seq<char>>,
    p: Seq<char>,
    g: char,
    i: int,
    j: int,
)
    requires
        exact(m, g),
        fresh_letter(ws, p, g),
        0 <= i < p.len(),
        j <= p.len(),
    ensures
        exact(fold_j(m, ws, p, g, i, j), g),
    decreases j - i,
{
    if j > i {
        lemma_fold_j_exact(m, ws, p, g, i, j - 1);
        lemma_fold_k_exact(fold_j(m, ws, p, g, i, j - 1), ws, p, g, i, j - 1, p.len() as int);
    }
}

proof fn lemma_fold_i_exact(ws: Seq<Seq<char>>, p: Seq<char>, g: char, i: int)
    requires
        fresh_letter(ws, p, g),
        i <= p.len(),
    ensures
        exact(fold_i(ws, p, g, i), g),
    decreases i,
{
    if i > 0 {
        lemma_fold_i_exact(ws, p, g, i - 1);
        lemma_fold_j_exact(fold_i(ws, p, g, i - 1), ws, p, g, i - 1, p.len() as int);
    }
}

/// When the board does not show `g` yet and every word has the board's
/// length, each family that a guess of `g` makes holds exactly the words that
/// show `g` where the family's pattern shows it, and nowhere else.
pub proof fn lemma_families_exact(ws: Seq<Seq<char>>, p: Seq<char>, g: char)
    requires
        fresh_letter(ws, p, g),
    ensures
        exact(families(ws, p, g), g),
{
    lemma_fold_i_exact(ws, p, g, p.len() as int);
    let m = families(ws, p, g);
    assert forall|q: Seq<char>, w: Seq<char>|
        m.dom().contains(q) && m[q].contains(w) implies shows_exactly(w, q, g) by {
        if q == p {
            let y = choose|y: int| 0 <= y < misses(ws, g).len() && misses(ws, g)[y] == w;
            ws.lemma_filter_pred(lacks_pred(g), y);
            ws.lemma_filter_contains_rev(lacks_pred(g), w);
            let u = choose|u: int| 0 <= u < ws.len() && ws[u] == w;
            assert(ws[u].len() == p.len());
            assert forall|x: int| 0 <= x < q.len() implies (w[x] == g) == (q[x] == g) by {
                assert(!w.contains(g));
                assert(!p.contains(g));
                if w[x] == g {
                    assert(w.contains(g));
                }
                if q[x] == g {
                    assert(p.contains(g));
                }
            }
        }
    }
}

/// The words that hold `g` exactly where `key` shows it.
pub open spec fn matches_pred(key: Seq<char>, g: char) -> spec_fn(Seq<char>) -> bool {
    |w: Seq<char>| shows_exactly(w, key, g)
}

proof fn lemma_count_same_positions(s: Seq<char>, t: Seq<char>, g: char)
    requires
        s.len() == t.len(),
        forall|x: int| 0 <= x < s.len() ==> (s[x] == g) == (t[x] == g),
    ensures
        count_of(s, g) == count_of(t, g),
    decreases s.len(),
{
    if s.len() > 0 {
        lemma_count_same_positions(s.drop_last(), t.drop_last(), g);
    }
}

/// Filters by predicates that agree on the elements of `s` agree.
proof fn lemma_filter_congruent(
    s: Seq<Seq<char>>,
    p1: spec_fn(Seq<char>) -> bool,
    p2: spec_fn(Seq<char>) -> bool,
)
    requires
        forall|i: int| 0 <= i < s.len() ==> p1(#[trigger] s[i]) == p2(s[i]),
    ensures
        s.filter(p1) == s.filter(p2),
    decreases s.len(),
{
    reveal(Seq::filter);
    if s.len() > 0 {
        assert forall|i: int| 0 <= i < s.drop_last().len() implies p1(#[trigger] s.drop_last()[i])
            == p2(s.drop_last()[i]) by {
            assert(s.drop_last()[i] == s[i]);
        }
        lemma_filter_congruent(s.drop_last(), p1, p2);
        assert(p1(s.last()) == p2(s[s.len() - 1]));
    }
}

/// With `g` not on the board, the family of the positions `i`, `j`, `k` is
/// the words that hold `g` exactly where the revealed pattern shows it.
proof fn lemma_family_is_match(
    ws: Seq<Seq<char>>,
    p: Seq<char>,
    g: char,
    i: int,
    j: int,
    k: int,
)
    requires
        fresh_letter(ws, p, g),
        0 <= i < p.len(),
        0 <= j < p.len(),
        0 <= k < p.len(),
    ensures
        family(ws, p, g, i, j, k) == ws.filter(matches_pred(reveal_at(p, g, i, j, k), g)),
{
    let key = reveal_at(p, g, i, j, k);
    assert forall|u: int| 0 <= u < ws.len() implies fits_pred(key, g, i, j, k)(#[trigger] ws[u])
        == matches_pred(key, g)(ws[u]) by {
        let w = ws[u];
        assert(w.len() == p.len());
        assert forall|x: int| 0 <= x < key.len() && key[x] == g implies x == i || x == j || x
            == k by {
            if x != i && x != j && x != k {
                assert(key[x] == p[x]);
                assert(p.contains(p[x]));
            }
        }
        if fits(w, key, g, i, j, k) {
            lemma_count_pins_positions(w, key, g);
        }
        if shows_exactly(w, key, g) {
            lemma_count_same_positions(w, key, g);
        }
    }
    lemma_filter_congruent(ws, fits_pred(key, g, i, j, k), matches_pred(key, g));
}

/// Every family of `m` is the words of `ws` that hold `g` exactly where its
/// pattern shows it.
pub open spec fn partitioned(m: Map<Seq<char>, Seq<Seq<char>>>, ws: Seq<Seq<char>>, g: char) -> bool {
    forall|key: Seq<char>| #[trigger]
        m.dom().contains(key) ==> m[key] == ws.filter(matches_pred(key, g))
}

proof fn lemma_fold_k_partitioned(
    m: Map<Seq<char>, Seq<Seq<char>>>,
    ws: Seq<Seq<char>>,
    p: Seq<char>,
    g: char,
    i: int,
    j: int,
    k: int,
)
    requires
        partitioned(m, ws, g),
        fresh_letter(ws, p, g),
        0 <= i < p.len(),
        0 <= j < p.len(),
        k <= p.len(),
    ensures
        partitioned(fold_k(m, ws, p, g, i, j, k), ws, g),
    decreases k - j,
{
    if k > j {
        lemma_fold_k_partitioned(m, ws, p, g, i, j, k - 1);
        lemma_family_is_match(ws, p, g, i, j, k - 1);
    }
}

proof fn lemma_fold_j_partitioned(
    m: Map<Seq<char>, Seq<Seq<char>>>,
    ws: Seq<Seq<char>>,
    p: Seq<char>,
    g: char,
    i: int,
    j: int,
)
    requires
        partitioned(m, ws, g),
        fresh_letter(ws, p, g),
        0 <= i < p.len(),
        j <= p.len(),
    ensures
        partitioned(fold_j(m, ws, p, g, i, j), ws, g),
    decreases j - i,
{
    if j > i {
        lemma_fold_j_partitioned(m, ws, p, g, i, j - 1);
        lemma_fold_k_partitioned(fold_j(m, ws, p, g, i, j - 1), ws, p, g, i, j - 1, p.len() as int);
    }
}

proof fn lemma_fold_i_partitioned(ws: Seq<Seq<char>>, p: Seq<char>, g: char, i: int)
    requires
        fresh_letter(ws, p, g),
        i <= p.len(),
    ensures
        partitioned(fold_i(ws, p, g, i), ws, g),
    decreases i,
{
    if i > 0 {
        lemma_fold_i_partitioned(ws, p, g, i - 1);
        lemma_fold_j_partitioned(fold_i(ws, p, g, i - 1), ws, p, g, i - 1, p.len() as int);
    }
}

/// When the board does not show `g` yet and every word has the board's
/// length, the family filed under each pattern is exactly the words that
/// hold `g` where that pattern shows it and nowhere else.
pub proof fn lemma_families_partition(ws: Seq<Seq<char>>, p: Seq<char>, g: char)
    requires
        fresh_letter(ws, p, g),
    ensures
        partitioned(families(ws, p, g), ws, g),
{
    lemma_fold_i_partitioned(ws, p, g, p.len() as int);
    assert forall|u: int| 0 <= u < ws.len() implies lacks_pred(g)(#[trigger] ws[u])
        == matches_pred(p, g)(ws[u]) by {
        let w = ws[u];
        assert(w.len() == p.len());
        if w.contains(g) {
            let x = choose|x: int| 0 <= x < w.len() && w[x] == g;
            assert(p[x] != g) by {
                if p[x] == g {
                    assert(p.contains(g));
                }
            }
        }
        if !shows_exactly(w, p, g) {
            let x = choose|x: int| 0 <= x < p.len() && (w[x] == g) != (p[x] == g);
            if p[x] == g {
                assert(p.contains(g));
            }
        }
    }
    lemma_filter_congruent(ws, lacks_pred(g), matches_pred(p, g));
}

proof fn lemma_fold_k_files(
    m: Map<Seq<char>, Seq<Seq<char>>>,
    ws: Seq<Seq<char>>,
    p: Seq<char>,
    g: char,
    i: int,
    j: int,
    k: int,
    k0: int,
)
    requires
        j <= k0 < k,
        family(ws, p, g, i, j, k0).len() > 0,
    ensures
        fold_k(m, ws, p, g, i, j, k).dom().contains(reveal_at(p, g, i, j, k0)),
    decreases k - j,
{
    if k - 1 > k0 {
        lemma_fold_k_files(m, ws, p, g, i, j, k - 1, k0);
    }
}

proof fn lemma_fold_k_keeps(
    m: Map<Seq<char>, Seq<Seq<char>>>,
    ws: Seq<Seq<char>>,
    p: Seq<char>,
    g: char,
    i: int,
    j: int,
    k: int,
)
    ensures
        m.dom().subset_of(fold_k(m, ws, p, g, i, j, k).dom()),
    decreases k - j,
{
    if k > j {
        lemma_fold_k_keeps(m, ws, p, g, i, j, k - 1);
    }
}

proof fn lemma_fold_j_keeps(
    m: Map<Seq<char>, Seq<Seq<char>>>,
    ws: Seq<Seq<char>>,
    p: Seq<char>,
    g: char,
    i: int,
    j: int,
)
    ensures
        m.dom().subset_of(fold_j(m, ws, p, g, i, j).dom()),
    decreases j - i,
{
    if j > i {
        lemma_fold_j_keeps(m, ws, p, g, i, j - 1);
        lemma_fold_k_keeps(fold_j(m, ws, p, g, i, j - 1), ws, p, g, i, j - 1, p.len() as int);
    }
}

proof fn lemma_fold_j_files(
    m: Map<Seq<char>, Seq<Seq<char>>>,
    ws: Seq<Seq<char>>,
    p: Seq<char>,
    g: char,
    i: int,
    j: int,
    j0: int,
    k0: int,
)
    requires
        i <= j0 < j,
        j0 <= k0 < p.len(),
        family(ws, p, g, i, j0, k0).len() > 0,
    ensures
        fold_j(m, ws, p, g, i, j).dom().contains(reveal_at(p, g, i, j0, k0)),
    decreases j - i,
{
    if j - 1 > j0 {
        lemma_fold_j_files(m, ws, p, g, i, j - 1, j0, k0);
        lemma_fold_k_keeps(fold_j(m, ws, p, g, i, j - 1), ws, p, g, i, j - 1, p.len() as int);
    } else {
        lemma_fold_k_files(fold_j(m, ws, p, g, i, j - 1), ws, p, g, i, j0, p.len() as int, k0);
    }
}

proof fn lemma_fold_i_files(ws: Seq<Seq<char>>, p: Seq<char>, g: char, i: int, i0: int, j0: int, k0: int)
    requires
        0 <= i0 < i,
        i0 <= j0 <= k0 < p.len(),
        family(ws, p, g, i0, j0, k0).len() > 0,
    ensures
        fold_i(ws, p, g, i).dom().contains(reveal_at(p, g, i0, j0, k0)),
    decreases i,
{
    if i - 1 > i0 {
        lemma_fold_i_files(ws, p, g, i - 1, i0, j0, k0);
        lemma_fold_j_keeps(fold_i(ws, p, g, i - 1), ws, p, g, i - 1, p.len() as int);
    } else {
        lemma_fold_j_files(fold_i(ws, p, g, i - 1), ws, p, g, i0, p.len() as int, j0, k0);
    }
}

/// When the board does not show `g` yet and every word has the board's
/// length, a word that holds `g` exactly at positions `i <= j <= k` (one to
/// three positions) belongs to the family filed under the board revealed at
/// those positions.
pub proof fn lemma_families_cover(
    ws: Seq<Seq<char>>,
    p: Seq<char>,
    g: char,
    w: Seq<char>,
    i: int,
    j: int,
    k: int,
)
    requires
        fresh_letter(ws, p, g),
        ws.contains(w),
        0 <= i <= j <= k < p.len(),
        shows_exactly(w, reveal_at(p, g, i, j, k), g),
    ensures
        families(ws, p, g).dom().contains(reveal_at(p, g, i, j, k)),
        families(ws, p, g)[reveal_at(p, g, i, j, k)].contains(w),
{
    let key = reveal_at(p, g, i, j, k);
    lemma_family_is_match(ws, p, g, i, j, k);
    let u = choose|u: int| 0 <= u < ws.len() && ws[u] == w;
    ws.lemma_filter_contains(matches_pred(key, g), u);
    lemma_fold_i_files(ws, p, g, p.len() as int, i, j, k);
    lemma_families_partition(ws, p, g);
    assert(key != p) by {
        assert(key[i] == g);
        assert(p.contains(p[i]));
    }
}

/// Two patterns made from `p` by showing `g` at the same positions are equal.
proof fn lemma_shaped_same_positions(a: Seq<char>, b: Seq<char>, p: Seq<char>, g: char)
    requires
        shaped(a, p, g),
        shaped(b, p, g),
        forall|x: int| 0 <= x < a.len() ==> (a[x] == g) == (b[x] == g),
    ensures
        a == b,
{
    assert forall|x: int| 0 <= x < a.len() implies a[x] == b[x] by {
        if a[x] != g {
            assert(a[x] == p[x]);
            assert(b[x] == p[x]);
        }
    }
    assert(a =~= b);
}

/// Every word of `ws` that holds `g` holds it at one to three positions
/// `i <= j <= k` of the board `p`, and nowhere else.
pub open spec fn at_most_three(ws: Seq<Seq<char>>, p: Seq<char>, g: char) -> bool {
    forall|w: Seq<char>|
        ws.contains(w) && w.contains(g) ==> exists|i: int, j: int, k: int|
            0 <= i <= j <= k < p.len() && #[trigger] shows_exactly(w, reveal_at(p, g, i, j, k), g)
}

/// When the board does not show `g`, every word has the board's length and
/// holds `g` at most three times, the chosen family is at least as large as
/// the class of words that show `g` exactly where any pattern `q` made from
/// the board shows it.
pub proof fn lemma_chosen_is_largest_class(
    ws: Seq<Seq<char>>,
    p: Seq<char>,
    g: char,
    key: Seq<char>,
    q: Seq<char>,
)
    requires
        fresh_letter(ws, p, g),
        at_most_three(ws, p, g),
        is_chosen(families(ws, p, g), key, g),
        shaped(q, p, g),
    ensures
        ws.filter(matches_pred(q, g)).len() <= families(ws, p, g)[key].len(),
{
    let m = families(ws, p, g);
    let c = ws.filter(matches_pred(q, g));
    if c.len() > 0 {
        lemma_families_partition(ws, p, g);
        lemma_unchanged_board_family(ws, p, g);
        let w = c[0];
        ws.lemma_filter_pred(matches_pred(q, g), 0);
        assert(c.contains(w));
        ws.lemma_filter_contains_rev(matches_pred(q, g), w);
        assert(shows_exactly(w, q, g));
        if !w.contains(g) {
            assert forall|x: int| 0 <= x < q.len() implies (q[x] == g) == (p[x] == g) by {
                if q[x] == g {
                    assert(w[x] == g);
                    assert(w.contains(g));
                }
                if p[x] == g {
                    assert(p.contains(g));
                }
            }
            assert(shaped(p, p, g));
            lemma_shaped_same_positions(q, p, p, g);
        } else {
            let (i, j, k) = choose|i: int, j: int, k: int|
                0 <= i <= j <= k < p.len() && #[trigger] shows_exactly(
                    w,
                    reveal_at(p, g, i, j, k),
                    g,
                );
            let kk = reveal_at(p, g, i, j, k);
            assert(shaped(kk, p, g));
            assert(shows_exactly(w, kk, g));
            assert forall|x: int| 0 <= x < q.len() implies (q[x] == g) == (kk[x] == g) by {
                assert((w[x] == g) == (q[x] == g));
                assert((w[x] == g) == (kk[x] == g));
            }
            lemma_shaped_same_positions(q, kk, p, g);
            lemma_families_cover(ws, p, g, w, i, j, k);
        }
        assert(m.dom().contains(q));
        assert(!beats(m[q].len(), q, m[key].len(), key, g));
    }
}

/// When the board does not show `g`, every word has the board's length and
/// no class of words made from the board is larger than the words without
/// `g`, the chosen family is the words without `g`, under the unchanged board.
pub proof fn lemma_absent_letter_wins(ws: Seq<Seq<char>>, p: Seq<char>, g: char, key: Seq<char>)
    requires
        fresh_letter(ws, p, g),
        is_chosen(families(ws, p, g), key, g),
        forall|q: Seq<char>| #[trigger]
            shaped(q, p, g) ==> ws.filter(matches_pred(q, g)).len() <= misses(ws, g).len(),
    ensures
        key == p,
        families(ws, p, g)[key] == misses(ws, g),
{
    let m = families(ws, p, g);
    lemma_families_partition(ws, p, g);
    lemma_families_sound(ws, p, g);
    lemma_unchanged_board_family(ws, p, g);
    assert(shaped(key, p, g));
    if key != p {
        assert(exists|x: int| 0 <= x < key.len() && key[x] != p[x]) by {
            if forall|x: int| 0 <= x < key.len() ==> key[x] == p[x] {
                assert(key =~= p);
            }
        }
        let x = choose|x: int| 0 <= x < key.len() && key[x] != p[x];
        assert(key[x] == g);
        assert(key.contains(g));
        assert(m[key] == ws.filter(matches_pred(key, g)));
        assert(beats(m[p].len(), p, m[key].len(), key, g));
        assert(m.dom().contains(p));
    }
}

/// A filter keeps exactly the elements that satisfy the predicate.
proof fn lemma_filter_to_set(s: Seq<Seq<char>>, pred: spec_fn(Seq<char>) -> bool)
    ensures
        s.filter(pred).to_set() == s.to_set().filter(pred),
{
    assert forall|w: Seq<char>| s.filter(pred).to_set().contains(w) <==> s.to_set().filter(
        pred,
    ).contains(w) by {
        if s.filter(pred).contains(w) {
            s.lemma_filter_contains_rev(pred, w);
            let i = choose|i: int| 0 <= i < s.filter(pred).len() && s.filter(pred)[i] == w;
            s.lemma_filter_pred(pred, i);
        }
        if s.contains(w) && pred(w) {
            let i = choose|i: int| 0 <= i < s.len() && s[i] == w;
            s.lemma_filter_contains(pred, i);
        }
    }
    assert(s.filter(pred).to_set() =~= s.to_set().filter(pred));
}

/// Filters by the same predicate of two repetition-free sequences holding the
/// same elements hold the same elements and have the same length.
proof fn lemma_filter_alike(
    s: Seq<Seq<char>>,
    t: Seq<Seq<char>>,
    pred: spec_fn(Seq<char>) -> bool,
)
    requires
        s.no_duplicates(),
        t.no_duplicates(),
        s.to_set() == t.to_set(),
    ensures
        s.filter(pred).to_set() == t.filter(pred).to_set(),
        s.filter(pred).len() == t.filter(pred).len(),
        s.filter(pred).no_duplicates(),
        t.filter(pred).no_duplicates(),
{
    lemma_filter_to_set(s, pred);
    lemma_filter_to_set(t, pred);
    lemma_filter_no_duplicates(s, pred);
    lemma_filter_no_duplicates(t, pred);
    s.filter(pred).unique_seq_to_set();
    t.filter(pred).unique_seq_to_set();
}

/// Two maps of families with the same patterns, whose families under each
/// pattern hold the same words, as many, without repetition.
pub open spec fn alike(m1: Map<Seq<char>, Seq<Seq<char>>>, m2: Map<Seq<char>, Seq<Seq<char>>>) -> bool {
    &&& m1.dom() == m2.dom()
    &&& forall|key: Seq<char>| #[trigger]
        m1.dom().contains(key) ==> {
            &&& m1[key].to_set() == m2[key].to_set()
            &&& m1[key].len() == m2[key].len()
            &&& m1[key].no_duplicates()
            &&& m2[key].no_duplicates()
        }
}

/// The words of `ws1` and `ws2` are the same, each without repetition.
pub open spec fn same_words(ws1: Seq<Seq<char>>, ws2: Seq<Seq<char>>) -> bool {
    &&& ws1.no_duplicates()
    &&& ws2.no_duplicates()
    &&& ws1.to_set() == ws2.to_set()
}

proof fn lemma_fold_k_alike(
    m1: Map<Seq<char>, Seq<Seq<char>>>,
    m2: Map<Seq<char>, Seq<Seq<char>>>,
    ws1: Seq<Seq<char>>,
    ws2: Seq<Seq<char>>,
    p: Seq<char>,
    g: char,
    i: int,
    j: int,
    k: int,
)
    requires
        alike(m1, m2),
        same_words(ws1, ws2),
    ensures
        alike(fold_k(m1, ws1, p, g, i, j, k), fold_k(m2, ws2, p, g, i, j, k)),
    decreases k - j,
{
    if k > j {
        lemma_fold_k_alike(m1, m2, ws1, ws2, p, g, i, j, k - 1);
        let key = reveal_at(p, g, i, j, k - 1);
        lemma_filter_alike(ws1, ws2, fits_pred(key, g, i, j, k - 1));
        let a = fold_k(m1, ws1, p, g, i, j, k - 1);
        let b = fold_k(m2, ws2, p, g, i, j, k - 1);
        let a2 = with_family(a, ws1, p, g, i, j, k - 1);
        let b2 = with_family(b, ws2, p, g, i, j, k - 1);
        assert(a2.dom() =~= b2.dom());
    }
}

proof fn lemma_fold_j_alike(
    m1: Map<Seq<char>, Seq<Seq<char>>>,
    m2: Map<Seq<char>, Seq<Seq<char>>>,
    ws1: Seq<Seq<char>>,
    ws2: Seq<Seq<char>>,
    p: Seq<char>,
    g: char,
    i: int,
    j: int,
)
    requires
        alike(m1, m2),
        same_words(ws1, ws2),
    ensures
        alike(fold_j(m1, ws1, p, g, i, j), fold_j(m2, ws2, p, g, i, j)),
    decreases j - i,
{
    if j > i {
        lemma_fold_j_alike(m1, m2, ws1, ws2, p, g, i, j - 1);
        lemma_fold_k_alike(
            fold_j(m1, ws1, p, g, i, j - 1),
            fold_j(m2, ws2, p, g, i, j - 1),
            ws1,
            ws2,
            p,
            g,
            i,
            j - 1,
            p.len() as int,
        );
    }
}

proof fn lemma_fold_i_alike(ws1: Seq<Seq<char>>, ws2: Seq<Seq<char>>, p: Seq<char>, g: char, i: int)
    requires
        same_words(ws1, ws2),
    ensures
        alike(fold_i(ws1, p, g, i), fold_i(ws2, p, g, i)),
    decreases i,
{
    if i > 0 {
        lemma_fold_i_alike(ws1, ws2, p, g, i - 1);
        lemma_fold_j_alike(
            fold_i(ws1, p, g, i - 1),
            fold_i(ws2, p, g, i - 1),
            ws1,
            ws2,
            p,
            g,
            i - 1,
            p.len() as int,
        );
    } else {
        assert(fold_i(ws1, p, g, i).dom() =~= fold_i(ws2, p, g, i).dom());
    }
}

/// The order of the words does not matter: a guess splits two orderings of
/// the same words into families with the same patterns, each holding the
/// same words, and the same family is chosen in both.
pub proof fn lemma_families_ignore_order(
    ws1: Seq<Seq<char>>,
    ws2: Seq<Seq<char>>,
    p: Seq<char>,
    g: char,
    key: Seq<char>,
)
    requires
        same_words(ws1, ws2),
        is_chosen(families(ws1, p, g), key, g),
    ensures
        alike(families(ws1, p, g), families(ws2, p, g)),
        is_chosen(families(ws2, p, g), key, g),
{
    lemma_fold_i_alike(ws1, ws2, p, g, p.len() as int);
    lemma_filter_alike(ws1, ws2, lacks_pred(g));
    let m1 = families(ws1, p, g);
    let m2 = families(ws2, p, g);
    assert(m1.dom() =~= m2.dom());
    assert forall|other: Seq<char>| #[trigger] m2.dom().contains(other) implies !beats(
        m2[other].len(),
        other,
        m2[key].len(),
        key,
        g,
    ) by {
        assert(m1.dom().contains(other));
    }
}

/// The table `keys`/`groups` files `groups[x]` under `keys[x]`, its keys are
/// distinct, and as a map it is `m`.
pub open spec fn represents(
    keys: Seq<Vec<char>>,
    groups: Seq<Vec<String>>,
    m: Map<Seq<char>, Seq<Seq<char>>>,
) -> bool {
    &&& keys.len() == groups.len()
    &&& forall|x: int, y: int| 0 <= x < keys.len() && 0 <= y < keys.len() && x != y ==> keys[x]@ != keys[y]@
    &&& forall|x: int| 0 <= x < keys.len() ==> #[trigger] m.dom().contains(keys[x]@)
    &&& forall|x: int| 0 <= x < keys.len() ==> m[#[trigger] keys[x]@] == views(groups[x]@)
    &&& forall|key: Seq<char>| #[trigger]
        m.dom().contains(key) ==> exists|x: int| 0 <= x < keys.len() && keys[x]@ == key
}

/// Whether `a` and `b` hold the same characters.
fn same_chars(a: &Vec<char>, b: &Vec<char>) -> (r: bool)
    ensures
        r == (a@ == b@),
{
    if a.len() != b.len() {
        return false;
    }
    let mut x: usize = 0;
    while x < a.len()
        invariant
            a@.len() == b@.len(),
            x <= a@.len(),
            forall|y: int| 0 <= y < x ==> a@[y] == b@[y],
        decreases a@.len() - x,
    {
        if a[x] != b[x] {
            return false;
        }
        x = x + 1;
    }
    assert(a@ =~= b@);
    true
}

/// Files `group` under `key`, replacing what was filed there.
pub(crate) fn file_family(
    keys: &mut Vec<Vec<char>>,
    groups: &mut Vec<Vec<String>>,
    key: Vec<char>,
    group: Vec<String>,
    Ghost(m): Ghost<Map<Seq<char>, Seq<Seq<char>>>>,
)
    requires
        represents(old(keys)@, old(groups)@, m),
    ensures
        represents(final(keys)@, final(groups)@, m.insert(key@, views(group@))),
        forall|x: int| 0 <= x < old(keys)@.len() ==> #[trigger] final(keys)@[x] == old(keys)@[x],
        forall|x: int| 0 <= x < final(keys)@.len() ==> old(keys)@.contains(#[trigger] final(keys)@[x]) || final(keys)@[x] == key,
{
    let ghost m2 = m.insert(key@, views(group@));
    let mut x: usize = 0;
    while x < keys.len()
        invariant
            represents(keys@, groups@, m),
            m2 == m.insert(key@, views(group@)),
            x <= keys@.len(),
            forall|y: int| 0 <= y < x ==> keys@[y]@ != key@,
        decreases keys@.len() - x,
    {
        if same_chars(&keys[x], &key) {
            groups.set(x, group);
            assert forall|y: int| 0 <= y < keys@.len() implies m2[#[trigger] keys@[y]@] == views(groups@[y]@) by {
                if y != x {
                    assert(keys@[y]@ != key@);
                }
            }
            assert forall|k: Seq<char>| #[trigger] m2.dom().contains(k) implies exists|y: int| 0 <= y < keys@.len() && keys@[y]@ == k by {
                if k != key@ {
                    assert(m.dom().contains(k));
                }
            }
            assert(keys@.contains(keys@[x as int]));
            return;
        }
        x = x + 1;
    }
    let ghost old_keys = keys@;
    keys.push(key);
    groups.push(group);
    assert forall|y: int, z: int| 0 <= y < keys@.len() && 0 <= z < keys@.len() && y != z implies keys@[y]@ != keys@[z]@ by {
        if y < old_keys.len() && z < old_keys.len() {
            assert(old_keys[y] == keys@[y]);
            assert(old_keys[z] == keys@[z]);
        }
    }
    assert forall|y: int| 0 <= y < keys@.len() implies m2[#[trigger] keys@[y]@] == views(groups@[y]@) by {
        if y < old_keys.len() {
            assert(old_keys[y] == keys@[y]);
        }
    }
    assert forall|y: int| 0 <= y < keys@.len() implies #[trigger] m2.dom().contains(keys@[y]@) by {
        if y < old_keys.len() {
            assert(old_keys[y] == keys@[y]);
        }
    }
    assert forall|k: Seq<char>| #[trigger] m2.dom().contains(k) implies exists|y: int| 0 <= y < keys@.len() && keys@[y]@ == k by {
        if k != key@ {
            assert(m.dom().contains(k));
            let y = choose|y: int| 0 <= y < old_keys.len() && old_keys[y]@ == k;
            assert(keys@[y] == old_keys[y]);
        } else {
            assert(keys@[keys@.len() - 1] == key);
        }
    }
    assert forall|y: int| 0 <= y < keys@.len() implies old_keys.contains(#[trigger] keys@[y]) || keys@[y] == key by {
        if y < old_keys.len() {
            assert(old_keys[y] == keys@[y]);
        }
    }
}

/// The words of `words` (given also as characters and letter counts) that
/// belong under `key`, the pattern revealed at `i`, `j`, `k`.
fn collect_family(
    words: &Vec<String>,
    chars: &Vec<Vec<char>>,
    counts: &Vec<usize>,
    key: &Vec<char>,
    g: char,
    i: usize,
    j: usize,
    k: usize,
) -> (fam: Vec<String>)
    requires
        chars@.len() == words@.len(),
        counts@.len() == words@.len(),
        forall|t: int| 0 <= t < words@.len() ==> (#[trigger] chars@[t])@ == words@[t]@,
        forall|t: int| 0 <= t < words@.len() ==> #[trigger] counts@[t] == count_of(words@[t]@, g),
        forall|t: int| 0 <= t < words@.len() ==> (#[trigger] words@[t])@.len() == key@.len(),
        i < key@.len(),
        j < key@.len(),
        k < key@.len(),
    ensures
        views(fam@) == views(words@).filter(fits_pred(key@, g, i as int, j as int, k as int)),
{
    let ghost pred = fits_pred(key@, g, i as int, j as int, k as int);
    let key_count = count_letter(key, g);
    let mut fam: Vec<String> = Vec::new();
    let mut t: usize = 0;
    while t < words.len()
        invariant
            chars@.len() == words@.len(),
            counts@.len() == words@.len(),
            forall|t: int| 0 <= t < words@.len() ==> (#[trigger] chars@[t])@ == words@[t]@,
            forall|t: int| 0 <= t < words@.len() ==> #[trigger] counts@[t] == count_of(words@[t]@, g),
            forall|t: int| 0 <= t < words@.len() ==> (#[trigger] words@[t])@.len() == key@.len(),
            i < key@.len(),
            j < key@.len(),
            k < key@.len(),
            key_count == count_of(key@, g),
            pred == fits_pred(key@, g, i as int, j as int, k as int),
            t <= words@.len(),
            views(fam@) == views(words@).take(t as int).filter(pred),
        decreases words@.len() - t,
    {
        let w = &chars[t];
        assert(w@ == words@[t as int]@);
        let fit = w[i] == g && w[j] == g && w[k] == g && counts[t] == key_count;
        proof {
            assert(views(words@).take(t + 1) =~= views(words@).take(t as int).push(
                words@[t as int]@,
            ));
            views(words@).take(t as int).lemma_filter_push(words@[t as int]@, pred);
            assert(fit == pred(words@[t as int]@));
        }
        if fit {
            let ghost before = fam@;
            fam.push(words[t].clone());
            assert(views(fam@) =~= views(before).push(words@[t as int]@));
        }
        t = t + 1;
    }
    assert(views(words@).take(words@.len() as int) =~= views(words@));
    fam
}

/// The words of `words` in which `g` does not occur.
fn collect_misses(words: &Vec<String>, chars: &Vec<Vec<char>>, g: char) -> (fam: Vec<String>)
    requires
        chars@.len() == words@.len(),
        forall|t: int| 0 <= t < words@.len() ==> (#[trigger] chars@[t])@ == words@[t]@,
    ensures
        views(fam@) == misses(views(words@), g),
{
    let ghost pred = lacks_pred(g);
    let mut fam: Vec<String> = Vec::new();
    let mut t: usize = 0;
    while t < words.len()
        invariant
            chars@.len() == words@.len(),
            forall|t: int| 0 <= t < words@.len() ==> (#[trigger] chars@[t])@ == words@[t]@,
            pred == lacks_pred(g),
            t <= words@.len(),
            views(fam@) == views(words@).take(t as int).filter(pred),
        decreases words@.len() - t,
    {
        let lacks = !holds_letter(&chars[t], g);
        proof {
            assert(chars@[t as int]@ == words@[t as int]@);
            assert(views(words@).take(t + 1) =~= views(words@).take(t as int).push(
                words@[t as int]@,
            ));
            views(words@).take(t as int).lemma_filter_push(words@[t as int]@, pred);
        }
        if lacks {
            let ghost before = fam@;
            fam.push(words[t].clone());
            assert(views(fam@) =~= views(before).push(words@[t as int]@));
        }
        t = t + 1;
    }
    assert(views(words@).take(words@.len() as int) =~= views(words@));
    fam
}

/// Sorts `words` into the families that a guess of `g` makes when the board
/// shows `pattern`: the patterns that reveal `g` at positions `i <= j <= k`
/// are visited in lexicographic order, each non-empty family is filed under
/// its pattern, and last the words without `g` are filed under `pattern`.
pub fn sort_into_families(words: &Vec<String>, pattern: &Vec<char>, g: char) -> (res: (
    Vec<Vec<char>>,
    Vec<Vec<String>>,
))
    requires
        forall|t: int| 0 <= t < words@.len() ==> (#[trigger] words@[t])@.len() == pattern@.len(),
    ensures
        represents(res.0@, res.1@, families(views(words@), pattern@, g)),
        forall|x: int| 0 <= x < res.0@.len() ==> (#[trigger] res.0@[x])@.len() == pattern@.len(),
{
    let ghost ws = views(words@);
    let ghost p = pattern@;
    let n = pattern.len();
    let mut chars: Vec<Vec<char>> = Vec::new();
    let mut counts: Vec<usize> = Vec::new();
    let mut t: usize = 0;
    while t < words.len()
        invariant
            t <= words@.len(),
            chars@.len() == t,
            counts@.len() == t,
            forall|u: int| 0 <= u < t ==> (#[trigger] chars@[u])@ == words@[u]@,
            forall|u: int| 0 <= u < t ==> #[trigger] counts@[u] == count_of(words@[u]@, g),
        decreases words@.len() - t,
    {
        let c = chars_of(&words[t]);
        counts.push(count_letter(&c, g));
        chars.push(c);
        t = t + 1;
    }
    let mut keys: Vec<Vec<char>> = Vec::new();
    let mut groups: Vec<Vec<String>> = Vec::new();
    let mut i: usize = 0;
    while i < n
        invariant
            n == p.len(),
            ws == views(words@),
            p == pattern@,
            chars@.len() == words@.len(),
            counts@.len() == words@.len(),
            forall|u: int| 0 <= u < words@.len() ==> (#[trigger] chars@[u])@ == words@[u]@,
            forall|u: int| 0 <= u < words@.len() ==> #[trigger] counts@[u] == count_of(words@[u]@, g),
            forall|u: int| 0 <= u < words@.len() ==> (#[trigger] words@[u])@.len() == p.len(),
            i <= n,
            represents(keys@, groups@, fold_i(ws, p, g, i as int)),
            forall|x: int| 0 <= x < keys@.len() ==> (#[trigger] keys@[x])@.len() == p.len(),
        decreases n - i,
    {
        let ghost base_i = fold_i(ws, p, g, i as int);
        let mut j: usize = i;
        while j < n
            invariant
                n == p.len(),
                ws == views(words@),
                p == pattern@,
                chars@.len() == words@.len(),
                counts@.len() == words@.len(),
                forall|u: int| 0 <= u < words@.len() ==> (#[trigger] chars@[u])@ == words@[u]@,
                forall|u: int| 0 <= u < words@.len() ==> #[trigger] counts@[u] == count_of(words@[u]@, g),
                forall|u: int| 0 <= u < words@.len() ==> (#[trigger] words@[u])@.len() == p.len(),
                i < n,
                i <= j <= n,
                represents(keys@, groups@, fold_j(base_i, ws, p, g, i as int, j as int)),
                forall|x: int| 0 <= x < keys@.len() ==> (#[trigger] keys@[x])@.len() == p.len(),
            decreases n - j,
        {
            let ghost base_j = fold_j(base_i, ws, p, g, i as int, j as int);
            let mut k: usize = j;
            while k < n
                invariant
                    n == p.len(),
                    ws == views(words@),
                    p == pattern@,
                    chars@.len() == words@.len(),
                    counts@.len() == words@.len(),
                    forall|u: int| 0 <= u < words@.len() ==> (#[trigger] chars@[u])@ == words@[u]@,
                    forall|u: int| 0 <= u < words@.len() ==> #[trigger] counts@[u] == count_of(words@[u]@, g),
                    forall|u: int| 0 <= u < words@.len() ==> (#[trigger] words@[u])@.len() == p.len(),
                    i < n,
                    i <= j < n,
                    j <= k <= n,
                    represents(
                        keys@,
                        groups@,
                        fold_k(base_j, ws, p, g, i as int, j as int, k as int),
                    ),
                    forall|x: int| 0 <= x < keys@.len() ==> (#[trigger] keys@[x])@.len() == p.len(),
                decreases n - k,
            {
                let ghost m = fold_k(base_j, ws, p, g, i as int, j as int, k as int);
                let mut key = pattern.clone();
                assert(key@ =~= p);
                key.set(i, g);
                key.set(j, g);
                key.set(k, g);
                assert(key@ =~= reveal_at(p, g, i as int, j as int, k as int));
                let fam = collect_family(words, &chars, &counts, &key, g, i, j, k);
                assert(views(fam@) == family(ws, p, g, i as int, j as int, k as int));
                if fam.len() > 0 {
                    let ghost old_keys = keys@;
                    let ghost key_g = key;
                    file_family(&mut keys, &mut groups, key, fam, Ghost(m));
                    assert forall|x: int| 0 <= x < keys@.len() implies (#[trigger] keys@[x])@.len()
                        == p.len() by {
                        if keys@[x] != key_g {
                            let y = choose|y: int| 0 <= y < old_keys.len() && old_keys[y] == keys@[x];
                            assert(old_keys[y]@.len() == p.len());
                        }
                    }
                }
                k = k + 1;
            }
            j = j + 1;
        }
        i = i + 1;
    }
    let ghost before = fold_i(ws, p, g, n as int);
    let fam = collect_misses(words, &chars, g);
    let key = pattern.clone();
    assert(key@ =~= p);
    let ghost old_keys = keys@;
    let ghost key_g = key;
    file_family(&mut keys, &mut groups, key, fam, Ghost(before));
    assert forall|x: int| 0 <= x < keys@.len() implies (#[trigger] keys@[x])@.len() == p.len() by {
        if keys@[x] != key_g {
            let y = choose|y: int| 0 <= y < old_keys.len() && old_keys[y] == keys@[x];
            assert(old_keys[y]@.len() == p.len());
        }
    }
    (keys, groups)
}

/// Preference between families is transitive.
pub proof fn lemma_beats_transitive(
    sa: nat,
    a: Seq<char>,
    sb: nat,
    b: Seq<char>,
    sc: nat,
    c: Seq<char>,
    g: char,
)
    requires
        beats(sa, a, sb, b, g),
        beats(sb, b, sc, c, g),
    ensures
        beats(sa, a, sc, c, g),
{
}

/// The position in the table of a family that no other family beats.
pub(crate) fn choose_family(
    keys: &Vec<Vec<char>>,
    groups: &Vec<Vec<String>>,
    g: char,
    Ghost(m): Ghost<Map<Seq<char>, Seq<Seq<char>>>>,
) -> (b: usize)
    requires
        represents(keys@, groups@, m),
        keys@.len() > 0,
        forall|x: int| 0 <= x < keys@.len() ==> (#[trigger] keys@[x])@.len() == keys@[0]@.len(),
    ensures
        b < keys@.len(),
        is_chosen(m, keys@[b as int]@, g),
{
    let mut b: usize = 0;
    let mut x: usize = 1;
    while x < keys.len()
        invariant
            represents(keys@, groups@, m),
            forall|x: int| 0 <= x < keys@.len() ==> (#[trigger] keys@[x])@.len() == keys@[0]@.len(),
            b < x <= keys@.len(),
            forall|y: int|
                0 <= y < x ==> !beats(
                    m[(#[trigger] keys@[y])@].len(),
                    keys@[y]@,
                    m[keys@[b as int]@].len(),
                    keys@[b as int]@,
                    g,
                ),
        decreases keys@.len() - x,
    {
        assert(m[keys@[x as int]@] == views(groups@[x as int]@));
        assert(m[keys@[b as int]@] == views(groups@[b as int]@));
        let sx = groups[x].len();
        let sb = groups[b].len();
        let take = if sb < sx {
            true
        } else if sb == sx {
            if !holds_letter(&keys[b], g) {
                false
            } else if !holds_letter(&keys[x], g) {
                true
            } else {
                further_right(&keys[x], &keys[b], g)
            }
        } else {
            false
        };
        assert(take == beats(
            m[keys@[x as int]@].len(),
            keys@[x as int]@,
            m[keys@[b as int]@].len(),
            keys@[b as int]@,
            g,
        ));
        if take {
            let ghost old_b = b;
            assert forall|y: int| 0 <= y < x + 1 implies !beats(
                m[(#[trigger] keys@[y])@].len(),
                keys@[y]@,
                m[keys@[x as int]@].len(),
                keys@[x as int]@,
                g,
            ) by {
                if y == x {
                } else if beats(
                    m[keys@[y]@].len(),
                    keys@[y]@,
                    m[keys@[x as int]@].len(),
                    keys@[x as int]@,
                    g,
                ) {
                    lemma_beats_transitive(
                        m[keys@[y]@].len(),
                        keys@[y]@,
                        m[keys@[x as int]@].len(),
                        keys@[x as int]@,
                        m[keys@[old_b as int]@].len(),
                        keys@[old_b as int]@,
                        g,
                    );
                }
            }
            b = x;
        }
        x = x + 1;
    }
    assert forall|other: Seq<char>| #[trigger] m.dom().contains(other) implies !beats(
        m[other].len(),
        other,
        m[keys@[b as int]@].len(),
        keys@[b as int]@,
        g,
    ) by {
        let y = choose|y: int| 0 <= y < keys@.len() && keys@[y]@ == other;
        assert(!beats(m[keys@[y]@].len(), keys@[y]@, m[keys@[b as int]@].len(), keys@[b as int]@, g));
    }
    b
}

} // verus!
