//! The game: it holds the board (the pattern of revealed letters), the words
//! still consistent with it, and the letters guessed so far.
use vstd::prelude::*;
use vstd::utf8::encode_utf8;
use vstd::utf8::is_ascii_chars;
use vstd::utf8::is_ascii_chars_encode_utf8;

use crate::game::families::at_most_three;
use crate::game::families::chars_of;
use crate::game::families::lemma_absent_letter_wins;
use crate::game::families::lemma_chosen_is_largest_class;
use crate::game::families::lemma_families_partition;
use crate::game::families::matches_pred;
use crate::game::families::misses;
use crate::game::families::choose_family;
use crate::game::families::families;
use crate::game::families::fresh_letter;
use crate::game::families::is_chosen;
use crate::game::families::lemma_choice_is_unique;
use crate::game::families::lemma_families_ignore_order;
use crate::game::families::same_words;
use crate::game::families::lemma_families_exact;
use crate::game::families::lemma_families_sound;
use crate::game::families::lemma_pow10_monotonic;
use crate::game::families::lemma_rightness_bound;
use crate::game::families::pow10;
use crate::game::families::rightness;
use crate::game::families::shaped;
use crate::game::families::shows_exactly;
use crate::game::families::sort_into_families;
use crate::game::families::views;
use crate::game::letters::ascending;
use crate::game::letters::comes_before;
use crate::game::letters::lemma_ascending_unique;
use crate::game::letters::lemma_text_less_transitive;
use crate::game::letters::locate;
use crate::game::letters::text_less;
use crate::game::text::ascii_lower;
use crate::game::text::lemma_ascii_lower_is_ascii;
use crate::game::text::char_lowercase;
use crate::game::text::lowercase_char;
use crate::game::text::lowercase_word;
use crate::game::text::split_words;
use crate::game::text::str_lowercase;
use crate::game::text::string_from_chars;
use crate::game::text::whitespace_split;

verus! {

broadcast use vstd::seq_lib::group_seq_properties;

/// A game of evil hangman.
pub struct EvilHangmanGame {
    current_words: Option<Vec<String>>,
    current_set: Option<String>,
    used_char: Option<Vec<String>>,
}

/// The board before any letter is revealed: `n` dashes.
pub open spec fn blank_pattern(n: nat) -> Seq<char> {
    Seq::new(n, |x: int| '-')
}

/// `gs` holds the one-character text `c`.
pub open spec fn has_letter(gs: Seq<Seq<char>>, c: char) -> bool {
    gs.contains(seq![c])
}

/// Words whose UTF-8 encoding is `n` bytes long.
pub open spec fn byte_length_is(n: nat) -> spec_fn(Seq<char>) -> bool {
    |w: Seq<char>| encode_utf8(w).len() == n
}

/// Each word in lower case.
pub open spec fn lowered(ws: Seq<Seq<char>>) -> Seq<Seq<char>> {
    ws.map_values(|w: Seq<char>| str_lowercase(w))
}

/// The whitespace-separated words of `text` that are `word_length` bytes long.
pub open spec fn kept_words(text: Seq<char>, word_length: nat) -> Seq<Seq<char>> {
    whitespace_split(text).filter(byte_length_is(word_length))
}

/// Every word of `ws` is ASCII.
pub open spec fn all_ascii(ws: Seq<Seq<char>>) -> bool {
    forall|u: int| 0 <= u < ws.len() ==> is_ascii_chars(#[trigger] ws[u])
}

/// The words that a game on `text` plays with, for words of `word_length`
/// bytes: the whitespace-separated words of that length, in lower case.
pub open spec fn dictionary_words(text: Seq<char>, word_length: nat) -> Seq<Seq<char>> {
    lowered(kept_words(text, word_length))
}

/// Each word with its ASCII capitals lower-cased.
pub open spec fn ascii_lowered(ws: Seq<Seq<char>>) -> Seq<Seq<char>> {
    ws.map_values(|w: Seq<char>| w.map_values(|c: char| ascii_lower(c)))
}

/// What `start_game(text, n)` leaves, answering `r`: a board of `n` dashes,
/// no guessed letter, a truthful board; with no word of `n` bytes in `text`
/// no words and "empty dictionary", and otherwise "Setup succeeded" and the
/// distinct lower-cased words of `n` bytes. Where those words are ASCII the
/// game can then be played.
pub open spec fn start_outcome(
    after: EvilHangmanGame,
    text: Seq<char>,
    n: nat,
    r: Result<&'static str, &'static str>,
) -> bool {
    let kept = dictionary_words(text, n);
    &&& after.pattern() == Some(blank_pattern(n))
    &&& after.guessed() == Some(Seq::<Seq<char>>::empty())
    &&& after.truthful()
    &&& kept.len() == 0 ==> {
        &&& after.words() is None
        &&& r matches Err(e) && e@ == "empty dictionary"@
    }
    &&& kept.len() > 0 ==> {
        &&& r matches Ok(m) && m@ == "Setup succeeded"@
        &&& after.words() matches Some(ws) && ws.no_duplicates() && ws.to_set() == kept.to_set()
    }
    &&& all_ascii(kept_words(text, n)) && kept.len() > 0 ==> after.ready()
}

/// Starting a game keeps exactly the lower-case forms of the text's
/// whitespace-separated words of `n` bytes, whatever else they hold: it
/// succeeds exactly when the text has such a word, and then the game's words
/// are those lower-case forms, each once.
pub proof fn lemma_start_keeps_words_of_length(
    after: EvilHangmanGame,
    text: Seq<char>,
    n: nat,
    r: Result<&'static str, &'static str>,
)
    requires
        start_outcome(after, text, n, r),
    ensures
        r is Ok <==> exists|t: Seq<char>|
            #[trigger] whitespace_split(text).contains(t) && encode_utf8(t).len() == n,
        r is Ok ==> after.words() is Some && after.words()->0.no_duplicates(),
        r is Ok ==> forall|w: Seq<char>|
            #[trigger] after.words()->0.contains(w) <==> exists|t: Seq<char>|
                #[trigger] whitespace_split(text).contains(t) && encode_utf8(t).len() == n && w
                    == str_lowercase(t),
{
    let all = whitespace_split(text);
    let pred = byte_length_is(n);
    let kept = all.filter(pred);
    let lower = dictionary_words(text, n);
    assert(lower.len() == kept.len());
    assert forall|t: Seq<char>| #[trigger] all.contains(t) && encode_utf8(t).len() == n implies kept.contains(t) by {
        let u = choose|u: int| 0 <= u < all.len() && all[u] == t;
        all.lemma_filter_contains(pred, u);
    }
    if exists|t: Seq<char>| #[trigger] all.contains(t) && encode_utf8(t).len() == n {
        let t = choose|t: Seq<char>| #[trigger] all.contains(t) && encode_utf8(t).len() == n;
        assert(kept.contains(t));
    }
    if kept.len() > 0 {
        all.lemma_filter_pred(pred, 0);
        all.lemma_filter_contains_rev(pred, kept[0]);
        assert(kept.contains(kept[0]));
        assert(all.contains(kept[0]) && encode_utf8(kept[0]).len() == n);
        let ws = after.words()->0;
        assert forall|w: Seq<char>| #[trigger] ws.contains(w) <==> exists|t: Seq<char>|
            #[trigger] all.contains(t) && encode_utf8(t).len() == n && w == str_lowercase(t) by {
            if ws.contains(w) {
                assert(ws.to_set().contains(w));
                assert(lower.to_set().contains(w));
                let u = choose|u: int| 0 <= u < lower.len() && lower[u] == w;
                all.lemma_filter_pred(pred, u);
                all.lemma_filter_contains_rev(pred, kept[u]);
                assert(kept.contains(kept[u]));
                assert(all.contains(kept[u]) && encode_utf8(kept[u]).len() == n && w == str_lowercase(
                    kept[u],
                ));
            }
            if exists|t: Seq<char>| #[trigger] all.contains(t) && encode_utf8(t).len() == n && w
                == str_lowercase(t) {
                let t = choose|t: Seq<char>| #[trigger] all.contains(t) && encode_utf8(t).len() == n
                    && w == str_lowercase(t);
                assert(kept.contains(t));
                let u = choose|u: int| 0 <= u < kept.len() && kept[u] == t;
                assert(lower[u] == w);
                assert(lower.to_set().contains(w));
                assert(ws.to_set().contains(w));
            }
        }
    }
}

/// What a guess of `letter` does to the game `before`, giving `after` and
/// the answer `r`: a letter guessed before is refused and nothing changes;
/// otherwise the letter joins the guessed letters, the board becomes the
/// pattern of the family that no other family of `families` beats, the words
/// become that family, and the family is the answer.
pub open spec fn guess_outcome(
    before: EvilHangmanGame,
    after: EvilHangmanGame,
    letter: char,
    r: Result<Vec<String>, &'static str>,
) -> bool {
    if has_letter(before.guessed()->0, letter) {
        &&& r matches Err(e) && e@ == "Guess already made"@
        &&& after == before
    } else {
        let fams = families(before.words()->0, before.pattern()->0, letter);
        &&& after.pattern() matches Some(p) && is_chosen(fams, p, letter)
        &&& after.words() == Some(fams[after.pattern()->0])
        &&& r matches Ok(v) && views(v@) == fams[after.pattern()->0]
        &&& after.guessed() matches Some(gs) && ascending(gs) && gs.to_set()
            == before.guessed()->0.to_set().insert(seq![letter])
    }
}

/// Whether `w` is one of `words`.
fn contains_word(words: &Vec<String>, w: &String) -> (b: bool)
    ensures
        b == views(words@).contains(w@),
{
    let mut u: usize = 0;
    while u < words.len()
        invariant
            u <= words@.len(),
            forall|v: int| 0 <= v < u ==> words@[v]@ != w@,
        decreases words@.len() - u,
    {
        if words[u] == *w {
            assert(views(words@)[u as int] == w@);
            return true;
        }
        u = u + 1;
    }
    false
}

/// A guess of a letter other than the dash keeps the board truthful.
pub proof fn lemma_guess_keeps_board_truthful(
    before: EvilHangmanGame,
    after: EvilHangmanGame,
    letter: char,
    r: Result<Vec<String>, &'static str>,
)
    requires
        before.ready(),
        before.truthful(),
        letter != '-',
        guess_outcome(before, after, letter, r),
    ensures
        after.truthful(),
{
    let p = before.pattern()->0;
    let ws = before.words()->0;
    let gs = before.guessed()->0;
    if !has_letter(gs, letter) {
        let fams = families(ws, p, letter);
        let key = after.pattern()->0;
        let ws2 = after.words()->0;
        let gs2 = after.guessed()->0;
        lemma_families_sound(ws, p, letter);
        assert(!p.contains(letter)) by {
            if p.contains(letter) {
                let x = choose|x: int| 0 <= x < p.len() && p[x] == letter;
                assert(p[x] == '-' || has_letter(gs, p[x]));
            }
        }
        assert(fresh_letter(ws, p, letter));
        lemma_families_exact(ws, p, letter);
        assert(has_letter(gs2, letter)) by {
            assert(gs2.to_set().contains(seq![letter]));
        }
        assert forall|c: char| has_letter(gs, c) implies #[trigger] has_letter(gs2, c) by {
            assert(gs2.to_set().contains(seq![c]));
        }
        assert forall|c: char| #[trigger] has_letter(gs2, c) && c != letter implies has_letter(gs, c) by {
            assert(seq![c][0] == c);
            assert(seq![c] != seq![letter]);
            assert(gs.to_set().insert(seq![letter]).contains(seq![c]));
        }
        assert(shaped(key, p, letter));
        assert forall|x: int| 0 <= x < key.len() implies #[trigger] key[x] == '-' || has_letter(
            gs2,
            key[x],
        ) by {
            if key[x] != letter {
                assert(key[x] == p[x]);
                assert(p[x] == '-' || has_letter(gs, p[x]));
            }
        }
        assert forall|t: int, x: int, c: char|
            0 <= t < ws2.len() && 0 <= x < key.len() && #[trigger] has_letter(gs2, c) implies (
            #[trigger] ws2[t][x] == c) == (key[x] == c) by {
            let w = ws2[t];
            assert(fams[key].contains(w));
            assert(shows_exactly(w, key, letter));
            assert((w[x] == letter) == (key[x] == letter));
            if c != letter {
                assert(has_letter(gs, c));
                assert(ws.contains(w));
                let u = choose|u: int| 0 <= u < ws.len() && ws[u] == w;
                assert((ws[u][x] == c) == (p[x] == c));
                if key[x] != letter {
                    assert(key[x] == p[x]);
                }
            }
        }
    }
}

/// In a ready game, a letter other than the dash that was not guessed
/// before is not on the board.
proof fn lemma_fresh_letter(game: EvilHangmanGame, letter: char)
    requires
        game.ready(),
        letter != '-',
        !has_letter(game.guessed()->0, letter),
    ensures
        fresh_letter(game.words()->0, game.pattern()->0, letter),
{
    let p = game.pattern()->0;
    if p.contains(letter) {
        let x = choose|x: int| 0 <= x < p.len() && p[x] == letter;
        assert(p[x] == '-' || has_letter(game.guessed()->0, p[x]));
    }
}

/// A played guess of a letter other than the dash on a ready game whose
/// words hold the letter at most three times: the new board is the old
/// one showing the letter at some positions, the new words (and the answer)
/// are exactly the words holding the letter there and nowhere else, and no
/// such class of words, for any choice of positions, is larger.
pub proof fn lemma_guess_keeps_a_largest_class(
    before: EvilHangmanGame,
    after: EvilHangmanGame,
    letter: char,
    r: Result<Vec<String>, &'static str>,
)
    requires
        before.ready(),
        letter != '-',
        !has_letter(before.guessed()->0, letter),
        at_most_three(before.words()->0, before.pattern()->0, letter),
        guess_outcome(before, after, letter, r),
    ensures
        shaped(after.pattern()->0, before.pattern()->0, letter),
        after.words()->0 == before.words()->0.filter(matches_pred(after.pattern()->0, letter)),
        r matches Ok(v) && views(v@) == after.words()->0,
        forall|q: Seq<char>| #[trigger]
            shaped(q, before.pattern()->0, letter) ==> before.words()->0.filter(
                matches_pred(q, letter),
            ).len() <= after.words()->0.len(),
{
    let ws = before.words()->0;
    let p = before.pattern()->0;
    lemma_fresh_letter(before, letter);
    lemma_families_sound(ws, p, letter);
    lemma_families_partition(ws, p, letter);
    assert forall|q: Seq<char>| #[trigger] shaped(q, p, letter) implies ws.filter(
        matches_pred(q, letter),
    ).len() <= after.words()->0.len() by {
        lemma_chosen_is_largest_class(ws, p, letter, after.pattern()->0, q);
    }
}

/// A played guess of a letter other than the dash on a ready game, when no
/// class of words made from the board is larger than the words
/// without the letter: the letter is reported absent, the board is
/// unchanged, and the words (and the answer) are those without the letter.
pub proof fn lemma_guess_of_absent_letter(
    before: EvilHangmanGame,
    after: EvilHangmanGame,
    letter: char,
    r: Result<Vec<String>, &'static str>,
)
    requires
        before.ready(),
        letter != '-',
        !has_letter(before.guessed()->0, letter),
        forall|q: Seq<char>| #[trigger]
            shaped(q, before.pattern()->0, letter) ==> before.words()->0.filter(
                matches_pred(q, letter),
            ).len() <= misses(before.words()->0, letter).len(),
        guess_outcome(before, after, letter, r),
    ensures
        after.pattern() == before.pattern(),
        after.words()->0 == misses(before.words()->0, letter),
        r matches Ok(v) && views(v@) == misses(before.words()->0, letter),
{
    lemma_fresh_letter(before, letter);
    lemma_absent_letter_wins(before.words()->0, before.pattern()->0, letter, after.pattern()->0);
}

/// Games whose boards, guessed letters and word sets agree are equally
/// ready to play.
proof fn lemma_ready_by_word_set(a: EvilHangmanGame, b: EvilHangmanGame)
    requires
        a.pattern() == b.pattern(),
        a.guessed() == b.guessed(),
        a.words() is Some,
        b.words() is Some,
        a.words()->0.to_set() == b.words()->0.to_set(),
        a.ready(),
    ensures
        b.ready(),
{
    let wa = a.words()->0;
    let wb = b.words()->0;
    assert forall|t: int| 0 <= t < wb.len() implies is_ascii_chars(#[trigger] wb[t])
        && wb[t].len() == b.pattern()->0.len() by {
        assert(wb.to_set().contains(wb[t]));
        let u = choose|u: int| 0 <= u < wa.len() && wa[u] == wb[t];
        assert(is_ascii_chars(wa[u]));
    }
}

/// Starting a game forgets what came before: two games started on the same
/// text and length, whatever their earlier state, give the same answer and
/// the same board, guessed letters, readiness and set of words (which they
/// may hold in different orders).
pub proof fn lemma_start_forgets_history(
    a: EvilHangmanGame,
    b: EvilHangmanGame,
    text: Seq<char>,
    n: nat,
    ra: Result<&'static str, &'static str>,
    rb: Result<&'static str, &'static str>,
)
    requires
        start_outcome(a, text, n, ra),
        start_outcome(b, text, n, rb),
    ensures
        ra is Ok <==> rb is Ok,
        a.pattern() == b.pattern(),
        a.guessed() == b.guessed(),
        a.words() is Some <==> b.words() is Some,
        a.words() is Some ==> a.words()->0.to_set() == b.words()->0.to_set() && a.words()->0.len()
            == b.words()->0.len(),
        a.ready() == b.ready(),
        a.truthful() && b.truthful(),
        same_game(a, b),
{
    if a.words() is Some {
        a.words()->0.unique_seq_to_set();
        b.words()->0.unique_seq_to_set();
        if a.ready() {
            lemma_ready_by_word_set(a, b);
        }
        if b.ready() {
            lemma_ready_by_word_set(b, a);
        }
    }
}

/// Two games that agree on the board, the guessed letters and the set of
/// words (each without repetition), though maybe not on the words' order.
pub open spec fn same_game(a: EvilHangmanGame, b: EvilHangmanGame) -> bool {
    &&& a.pattern() == b.pattern()
    &&& a.guessed() == b.guessed()
    &&& a.words() is Some <==> b.words() is Some
    &&& a.words() is Some ==> same_words(a.words()->0, b.words()->0)
}

/// The order in which a game holds its words does not matter: the same guess
/// on two games that agree up to that order gives the same kind of answer,
/// answers with the same words, and leaves games that again agree up to the
/// order of their words.
pub proof fn lemma_guess_ignores_word_order(
    a: EvilHangmanGame,
    a2: EvilHangmanGame,
    b: EvilHangmanGame,
    b2: EvilHangmanGame,
    guess: char,
    ra: Result<Vec<String>, &'static str>,
    rb: Result<Vec<String>, &'static str>,
)
    requires
        same_game(a, b),
        a.ready(),
        b.ready(),
        make_guess_outcome(a, a2, guess, ra),
        make_guess_outcome(b, b2, guess, rb),
    ensures
        same_game(a2, b2),
        ra is Ok <==> rb is Ok,
        ra matches Ok(v) ==> rb matches Ok(w) && views(v@).to_set() == views(w@).to_set(),
{
    let lower = char_lowercase(guess);
    if playable_lowercase(lower) && !has_letter(a.guessed()->0, lower[0]) {
        let g = lower[0];
        let wa = a.words()->0;
        let wb = b.words()->0;
        let p = a.pattern()->0;
        let ka = a2.pattern()->0;
        let kb = b2.pattern()->0;
        lemma_families_ignore_order(wa, wb, p, g, ka);
        lemma_choice_is_unique(wb, p, g, ka, kb);
        lemma_ascending_unique(a2.guessed()->0, b2.guessed()->0);
    } else if !playable_lowercase(lower) && !a.guessed()->0.contains(lower) && answers_as_miss(
        a,
        lower,
    ) {
        lemma_ascending_unique(a2.guessed()->0, b2.guessed()->0);
    }
}

/// A guess answered as a miss keeps the board truthful: the board and words
/// stay, and the new guessed text is no single letter that the board could show.
proof fn lemma_miss_keeps_board_truthful(
    before: EvilHangmanGame,
    after: EvilHangmanGame,
    lower: Seq<char>,
)
    requires
        before.truthful(),
        before.guessed() is Some,
        after.pattern() == before.pattern(),
        after.words() == before.words(),
        after.guessed() matches Some(gs) && gs.to_set() == before.guessed()->0.to_set().insert(lower),
        before.pattern()->0.len() == 0 || lower.len() != 1,
    ensures
        after.truthful(),
{
    let gs = before.guessed()->0;
    let gs2 = after.guessed()->0;
    let p = before.pattern()->0;
    let ws = before.words()->0;
    assert forall|c: char| #[trigger] has_letter(gs, c) implies has_letter(gs2, c) by {
        assert(gs.to_set().contains(seq![c]));
        assert(gs2.to_set().contains(seq![c]));
    }
    if p.len() > 0 {
        assert forall|c: char| #[trigger] has_letter(gs2, c) implies has_letter(gs, c) by {
            assert(gs2.to_set().contains(seq![c]));
            assert(seq![c].len() == 1);
            assert(seq![c] != lower);
            assert(gs.to_set().contains(seq![c]));
        }
        assert forall|t: int, x: int, c: char|
            0 <= t < ws.len() && 0 <= x < p.len() && #[trigger] has_letter(gs2, c) implies (
            #[trigger] ws[t][x] == c) == (p[x] == c) by {
            assert(has_letter(gs, c));
        }
    }
}

/// A guess whose lower-case form does not start with a dash keeps the board
/// of a ready game truthful.
pub proof fn lemma_make_guess_keeps_board_truthful(
    before: EvilHangmanGame,
    after: EvilHangmanGame,
    guess: char,
    r: Result<Vec<String>, &'static str>,
)
    requires
        before.ready(),
        before.truthful(),
        char_lowercase(guess)[0] != '-',
        make_guess_outcome(before, after, guess, r),
    ensures
        after.truthful(),
{
    let lower = char_lowercase(guess);
    if playable_lowercase(lower) {
        lemma_guess_keeps_board_truthful(before, after, lower[0], r);
    } else if !before.guessed()->0.contains(lower) && answers_as_miss(before, lower) {
        lemma_miss_keeps_board_truthful(before, after, lower);
    }
}

/// One guess of a game's history: made on a game ready for it, with a
/// lower-case form that does not start with a dash, leading from `before` to
/// `after` with the answer `r`.
pub open spec fn letter_step(
    before: EvilHangmanGame,
    after: EvilHangmanGame,
    guess: char,
    r: Result<Vec<String>, &'static str>,
) -> bool {
    &&& before.ready()
    &&& make_guess_outcome(before, after, guess, r)
    &&& char_lowercase(guess)[0] != '-'
}

proof fn lemma_truthful_after(
    text: Seq<char>,
    n: nat,
    start: Result<&'static str, &'static str>,
    games: Seq<EvilHangmanGame>,
    guesses: Seq<char>,
    answers: Seq<Result<Vec<String>, &'static str>>,
    k: int,
)
    requires
        games.len() == guesses.len() + 1,
        answers.len() == guesses.len(),
        start_outcome(games[0], text, n, start),
        forall|i: int|
            0 <= i < guesses.len() ==> #[trigger] letter_step(
                games[i],
                games[i + 1],
                guesses[i],
                answers[i],
            ),
        0 <= k < games.len(),
    ensures
        games[k].truthful(),
    decreases k,
{
    if k > 0 {
        lemma_truthful_after(text, n, start, games, guesses, answers, k - 1);
        let j = k - 1;
        assert(letter_step(games[j], games[j + 1], guesses[j], answers[j]));
        lemma_make_guess_keeps_board_truthful(games[j], games[j + 1], guesses[j], answers[j]);
    }
}

/// Over a whole game the board tells the truth: after `start_game` on `text`
/// and any number of guesses whose lower-case forms do not start with a dash,
/// each made on a game ready for it, every board shows only dashes and
/// guessed letters, and each guessed letter occurs in each remaining word
/// exactly where the board shows it.
pub proof fn lemma_board_stays_truthful(
    text: Seq<char>,
    n: nat,
    start: Result<&'static str, &'static str>,
    games: Seq<EvilHangmanGame>,
    guesses: Seq<char>,
    answers: Seq<Result<Vec<String>, &'static str>>,
)
    requires
        games.len() == guesses.len() + 1,
        answers.len() == guesses.len(),
        start_outcome(games[0], text, n, start),
        forall|i: int|
            0 <= i < guesses.len() ==> #[trigger] letter_step(
                games[i],
                games[i + 1],
                guesses[i],
                answers[i],
            ),
    ensures
        forall|k: int| 0 <= k < games.len() ==> #[trigger] games[k].truthful(),
{
    assert forall|k: int| 0 <= k < games.len() implies #[trigger] games[k].truthful() by {
        lemma_truthful_after(text, n, start, games, guesses, answers, k);
    }
}

/// The guess cannot be answered: its lower-case form is not a single ASCII
/// character, was not guessed before, and is not answered as a miss.
pub open spec fn unsupported_guess(before: EvilHangmanGame, guess: char) -> bool {
    let lower = char_lowercase(guess);
    &&& !playable_lowercase(lower)
    &&& !before.guessed()->0.contains(lower)
    &&& !answers_as_miss(before, lower)
}

/// One answered guess of a game's history: made on a game ready for it and
/// not unsupported, leading from `before` to `after` with the answer `r`.
pub open spec fn answered_step(
    before: EvilHangmanGame,
    after: EvilHangmanGame,
    guess: char,
    r: Result<Vec<String>, &'static str>,
) -> bool {
    &&& before.ready()
    &&& make_guess_outcome(before, after, guess, r)
    &&& !unsupported_guess(before, guess)
}

/// The lower-case forms of `guesses`.
pub open spec fn lower_forms(guesses: Seq<char>) -> Seq<Seq<char>> {
    guesses.map_values(|c: char| char_lowercase(c))
}

proof fn lemma_guessed_after(
    text: Seq<char>,
    n: nat,
    start: Result<&'static str, &'static str>,
    games: Seq<EvilHangmanGame>,
    guesses: Seq<char>,
    answers: Seq<Result<Vec<String>, &'static str>>,
    k: int,
)
    requires
        games.len() == guesses.len() + 1,
        answers.len() == guesses.len(),
        start_outcome(games[0], text, n, start),
        forall|i: int|
            0 <= i < guesses.len() ==> #[trigger] answered_step(
                games[i],
                games[i + 1],
                guesses[i],
                answers[i],
            ),
        0 <= k < games.len(),
    ensures
        games[k].guessed() is Some,
        ascending(games[k].guessed()->0),
        games[k].guessed()->0.to_set() == lower_forms(guesses.take(k)).to_set(),
    decreases k,
{
    if k == 0 {
        assert(lower_forms(guesses.take(0)) =~= Seq::<Seq<char>>::empty());
        assert(games[0].guessed()->0.to_set() =~= Set::<Seq<char>>::empty());
    } else {
        let j = k - 1;
        lemma_guessed_after(text, n, start, games, guesses, answers, j);
        assert(answered_step(games[j], games[j + 1], guesses[j], answers[j]));
        let before = games[j];
        let after = games[j + 1];
        let lower = char_lowercase(guesses[j]);
        let gs = before.guessed()->0;
        assert(guesses.take(k) =~= guesses.take(j).push(guesses[j]));
        assert(lower_forms(guesses.take(k)) =~= lower_forms(guesses.take(j)).push(lower));
        assert(lower_forms(guesses.take(k)).to_set() =~= lower_forms(guesses.take(j)).to_set().insert(
            lower,
        ));
        if playable_lowercase(lower) {
            assert(lower =~= seq![lower[0]]);
            if has_letter(gs, lower[0]) {
                assert(gs.to_set().contains(lower));
                assert(gs.to_set().insert(lower) =~= gs.to_set());
            }
        } else if gs.contains(lower) {
            assert(gs.to_set().contains(lower));
            assert(gs.to_set().insert(lower) =~= gs.to_set());
        }
    }
}

/// Over a whole game the guessed texts are the guesses: after `start_game`
/// and any number of guesses that the game answers, each made on a game
/// ready for it, the game holds exactly the lower-case forms of those
/// guesses, each once, in ascending text order (a guess made again adds
/// nothing).
pub proof fn lemma_guessed_are_the_guesses(
    text: Seq<char>,
    n: nat,
    start: Result<&'static str, &'static str>,
    games: Seq<EvilHangmanGame>,
    guesses: Seq<char>,
    answers: Seq<Result<Vec<String>, &'static str>>,
)
    requires
        games.len() == guesses.len() + 1,
        answers.len() == guesses.len(),
        start_outcome(games[0], text, n, start),
        forall|i: int|
            0 <= i < guesses.len() ==> #[trigger] answered_step(
                games[i],
                games[i + 1],
                guesses[i],
                answers[i],
            ),
    ensures
        forall|k: int|
            0 <= k < games.len() ==> (#[trigger] games[k].guessed() matches Some(gs) && ascending(gs)
                && gs.to_set() == lower_forms(guesses.take(k)).to_set()),
{
    assert forall|k: int| 0 <= k < games.len() implies (#[trigger] games[k].guessed() matches Some(
        gs,
    ) && ascending(gs) && gs.to_set() == lower_forms(guesses.take(k)).to_set()) by {
        lemma_guessed_after(text, n, start, games, guesses, answers, k);
    }
}

/// A copy of `words`.
fn copy_words(words: &Vec<String>) -> (copy: Vec<String>)
    ensures
        views(copy@) == views(words@),
{
    let mut copy: Vec<String> = Vec::new();
    let mut u: usize = 0;
    while u < words.len()
        invariant
            u <= words@.len(),
            views(copy@) == views(words@).take(u as int),
        decreases words@.len() - u,
    {
        let ghost before = copy@;
        copy.push(words[u].clone());
        assert(views(copy@) =~= views(before).push(words@[u as int]@));
        assert(views(words@).take(u + 1) =~= views(words@).take(u as int).push(words@[u as int]@));
        u = u + 1;
    }
    assert(views(words@).take(words@.len() as int) =~= views(words@));
    copy
}

/// The lower-case form of a guess can be played: it is a single ASCII character.
pub open spec fn playable_lowercase(lower: Seq<char>) -> bool {
    lower.len() == 1 && lower[0] <= '\u{7f}'
}

/// A guess whose lower-case form `lower` cannot be played letter by letter
/// is still answered when no word can hold it at a board position: the board
/// has no position, or one position and `lower` starts with an ASCII
/// character (so it is longer than one character).
pub open spec fn answers_as_miss(before: EvilHangmanGame, lower: Seq<char>) -> bool {
    let n = before.pattern()->0.len();
    n == 0 || (n == 1 && lower[0] <= '\u{7f}')
}

/// The game answers a guess of `guess` with an error: its lower-case form
/// was guessed before, or it is neither playable nor answered as a miss.
pub open spec fn guess_refused(before: EvilHangmanGame, guess: char) -> bool {
    let lower = char_lowercase(guess);
    if playable_lowercase(lower) {
        has_letter(before.guessed()->0, lower[0])
    } else {
        before.guessed()->0.contains(lower) || !answers_as_miss(before, lower)
    }
}

/// What `make_guess(guess)` does. Where the lower-case form of `guess` is a
/// single ASCII character it is played as `guess_outcome` says. Any other
/// lower-case form guessed before is refused with "Guess already made";
/// where `answers_as_miss` holds it joins the guessed letters and the board
/// and words stay, the words being the answer; otherwise the guess is
/// refused with "Unsupported guess". A refused guess changes nothing.
pub open spec fn make_guess_outcome(
    before: EvilHangmanGame,
    after: EvilHangmanGame,
    guess: char,
    r: Result<Vec<String>, &'static str>,
) -> bool {
    let lower = char_lowercase(guess);
    if playable_lowercase(lower) {
        guess_outcome(before, after, lower[0], r)
    } else if before.guessed()->0.contains(lower) {
        &&& r matches Err(e) && e@ == "Guess already made"@
        &&& after == before
    } else if answers_as_miss(before, lower) {
        &&& after.pattern() == before.pattern()
        &&& after.words() == before.words()
        &&& after.guessed() matches Some(gs) && ascending(gs) && gs.to_set()
            == before.guessed()->0.to_set().insert(lower)
        &&& r matches Ok(v) && views(v@) == before.words()->0
    } else {
        &&& r matches Err(e) && e@ == "Unsupported guess"@
        &&& after == before
    }
}

impl EvilHangmanGame {
    /// The board, once a game was started.
    pub closed spec fn pattern(&self) -> Option<Seq<char>> {
        match self.current_set {
            Some(s) => Some(s@),
            None => None,
        }
    }

    /// The words still consistent with the board, while there are any to play with.
    pub closed spec fn words(&self) -> Option<Seq<Seq<char>>> {
        match self.current_words {
            Some(v) => Some(views(v@)),
            None => None,
        }
    }

    /// The lower-case forms of the guesses since the game was started, in
    /// ascending text order.
    pub closed spec fn guessed(&self) -> Option<Seq<Seq<char>>> {
        match self.used_char {
            Some(v) => Some(views(v@)),
            None => None,
        }
    }

    /// A guess can be played: the game was started with a non-empty word
    /// list, the board and every word are ASCII of the board's length, the
    /// guessed texts are in ascending order and the board shows only dashes
    /// and guessed letters.
    pub open spec fn ready(&self) -> bool {
        &&& self.pattern() is Some
        &&& self.words() is Some
        &&& self.guessed() is Some
        &&& is_ascii_chars(self.pattern()->0)
        &&& ascending(self.guessed()->0)
        &&& self.shows_only_guessed()
        &&& forall|t: int|
            0 <= t < self.words()->0.len() ==> is_ascii_chars(#[trigger] self.words()->0[t])
                && self.words()->0[t].len() == self.pattern()->0.len()
    }

    /// The board shows only dashes and guessed letters.
    pub open spec fn shows_only_guessed(&self) -> bool {
        forall|x: int|
            0 <= x < self.pattern()->0.len() ==> #[trigger] self.pattern()->0[x] == '-' || has_letter(
                self.guessed()->0,
                self.pattern()->0[x],
            )
    }

    /// The board tells the truth about every remaining word: it shows only
    /// dashes and guessed letters, and each guessed letter occurs in each word
    /// exactly where the board shows it.
    pub open spec fn truthful(&self) -> bool {
        let p = self.pattern()->0;
        let ws = self.words()->0;
        let gs = self.guessed()->0;
        &&& forall|x: int| 0 <= x < p.len() ==> #[trigger] p[x] == '-' || has_letter(gs, p[x])
        &&& forall|t: int, x: int, c: char|
            0 <= t < ws.len() && 0 <= x < p.len() && #[trigger] has_letter(gs, c) ==> (
            #[trigger] ws[t][x] == c) == (p[x] == c)
    }

    /// A game that has not been started.
    pub fn new() -> (game: Self)
        ensures
            game.pattern() is None,
            game.words() is None,
            game.guessed() is None,
    {
        Self { current_words: None, current_set: None, used_char: None }
    }

    /// Starts a game on the words of `dictionary` that are `word_length` bytes
    /// long, in lower case; see `start_with_words`.
    pub fn start_game(&mut self, dictionary: &str, word_length: usize) -> (r: Result<
        &'static str,
        &'static str,
    >)
        ensures
            start_outcome(*final(self), dictionary@, word_length as nat, r),
            all_ascii(kept_words(dictionary@, word_length as nat)) ==> dictionary_words(
                dictionary@,
                word_length as nat,
            ) == ascii_lowered(kept_words(dictionary@, word_length as nat)),
    {
        let pieces = split_words(dictionary);
        let ghost all = whitespace_split(dictionary@);
        let ghost pred = byte_length_is(word_length as nat);
        let ghost ascii = all_ascii(all.filter(pred));
        let mut words: Vec<String> = Vec::new();
        let mut t: usize = 0;
        while t < pieces.len()
            invariant
                views(pieces@) == all,
                pred == byte_length_is(word_length as nat),
                t <= pieces@.len(),
                views(words@) == lowered(all.take(t as int).filter(pred)),
                ascii == all_ascii(all.filter(pred)),
                ascii ==> forall|u: int|
                    0 <= u < words@.len() ==> is_ascii_chars(#[trigger] words@[u]@)
                        && words@[u]@.len() == word_length,
                ascii ==> views(words@) == ascii_lowered(all.take(t as int).filter(pred)),
            decreases pieces@.len() - t,
        {
            let piece = &pieces[t];
            let fits = piece.as_str().as_bytes().len() == word_length;
            proof {
                assert(all[t as int] == piece@);
                assert(all.take(t + 1) =~= all.take(t as int).push(piece@));
                all.take(t as int).lemma_filter_push(piece@, pred);
                assert(fits == pred(piece@));
            }
            if fits {
                let ghost before = words@;
                let lower = lowercase_word(piece.as_str());
                proof {
                    if ascii {
                        all.lemma_filter_contains(pred, t as int);
                        let u = choose|u: int| 0 <= u < all.filter(pred).len() && all.filter(pred)[u]
                            == piece@;
                        assert(is_ascii_chars(all.filter(pred)[u]));
                        assert(is_ascii_chars(piece@));
                        is_ascii_chars_encode_utf8(piece@);
                        assert(lower@.len() == word_length);
                        assert forall|x: int| 0 <= x < lower@.len() implies '\0' <= #[trigger] lower@[x]
                            <= '\u{7f}' by {
                            lemma_ascii_lower_is_ascii(piece@[x]);
                        }
                    }
                }
                words.push(lower);
                assert(views(words@) =~= views(before).push(words@[words@.len() - 1]@));
                assert(lowered(all.take(t as int).filter(pred).push(piece@)) =~= lowered(
                    all.take(t as int).filter(pred),
                ).push(str_lowercase(piece@)));
                assert(ascii_lowered(all.take(t as int).filter(pred).push(piece@)) =~= ascii_lowered(
                    all.take(t as int).filter(pred),
                ).push(piece@.map_values(|c: char| ascii_lower(c))));
            }
            t = t + 1;
        }
        assert(all.take(pieces@.len() as int) =~= all);
        self.start_with_words(&words, word_length)
    }

    /// Starts a game on `words`: the board becomes `word_length` dashes, no letter is
    /// guessed yet, and the game plays with the distinct words. With no word
    /// the game is left without words and "empty dictionary" is returned.
    pub fn start_with_words(&mut self, words: &Vec<String>, word_length: usize) -> (r: Result<
        &'static str,
        &'static str,
    >)
        ensures
            final(self).pattern() == Some(blank_pattern(word_length as nat)),
            final(self).guessed() == Some(Seq::<Seq<char>>::empty()),
            final(self).truthful(),
            words@.len() == 0 ==> {
                &&& final(self).words() is None
                &&& r matches Err(e) && e@ == "empty dictionary"@
            },
            words@.len() > 0 ==> {
                &&& r matches Ok(m) && m@ == "Setup succeeded"@
                &&& final(self).words() matches Some(ws) && ws.no_duplicates() && ws.to_set()
                    == views(words@).to_set()
            },
            words@.len() > 0 && (forall|t: int|
                0 <= t < words@.len() ==> is_ascii_chars(#[trigger] words@[t]@) && words@[t]@.len()
                    == word_length) ==> final(self).ready(),
    {
        let mut blank: Vec<char> = Vec::new();
        let mut x: usize = 0;
        while x < word_length
            invariant
                x <= word_length,
                blank@ == blank_pattern(x as nat),
            decreases word_length - x,
        {
            blank.push('-');
            x = x + 1;
            assert(blank@ =~= blank_pattern(x as nat));
        }
        self.current_set = Some(string_from_chars(&blank));
        self.used_char = Some(Vec::new());
        assert(self.guessed()->0 =~= Seq::<Seq<char>>::empty());
        self.current_words = None;

        let ghost given = views(words@);
        let mut distinct: Vec<String> = Vec::new();
        let mut t: usize = 0;
        while t < words.len()
            invariant
                given == views(words@),
                t <= words@.len(),
                views(distinct@).no_duplicates(),
                views(distinct@).to_set() == given.take(t as int).to_set(),
            decreases words@.len() - t,
        {
            let word = &words[t];
            let ghost before = given.take(t as int);
            assert(given.take(t + 1) =~= before.push(word@));
            assert(before.push(word@).to_set() =~= before.to_set().insert(word@));
            if !contains_word(&distinct, word) {
                let ghost old_distinct = views(distinct@);
                distinct.push(word.clone());
                assert(views(distinct@) =~= old_distinct.push(word@));
                assert(old_distinct.push(word@).to_set() =~= old_distinct.to_set().insert(word@));
            } else {
                assert(views(distinct@).to_set().contains(word@));
                assert(views(distinct@).to_set() =~= views(distinct@).to_set().insert(word@));
            }
            t = t + 1;
        }
        assert(given.take(words@.len() as int) =~= given);
        if distinct.len() == 0 {
            proof {
                if given.len() > 0 {
                    assert(given.to_set().contains(given[0]));
                }
            }
            return Err("empty dictionary");
        }
        assert(views(distinct@).to_set().contains(views(distinct@)[0]));
        proof {
            if forall|t: int|
                0 <= t < words@.len() ==> is_ascii_chars(#[trigger] words@[t]@) && words@[t]@.len()
                    == word_length {
                assert forall|u: int| 0 <= u < views(distinct@).len() implies is_ascii_chars(
                    #[trigger] views(distinct@)[u],
                ) && views(distinct@)[u].len() == word_length by {
                    assert(views(distinct@).to_set().contains(views(distinct@)[u]));
                    let t = choose|t: int| 0 <= t < given.len() && given[t] == views(distinct@)[u];
                    assert(given[t] == words@[t]@);
                }
            }
        }
        self.current_words = Some(distinct);
        Ok("Setup succeeded")
    }

    /// Guesses the letter `guess`, taken in lower case; see `make_guess_outcome`.
    pub fn make_guess(&mut self, guess: char) -> (r: Result<Vec<String>, &'static str>)
        requires
            old(self).ready(),
        ensures
            final(self).ready(),
            make_guess_outcome(*old(self), *final(self), guess, r),
            char_lowercase(guess).len() >= 1,
            guess <= '\u{7f}' ==> char_lowercase(guess) == seq![ascii_lower(guess)],
            old(self).words()->0.no_duplicates() ==> final(self).words()->0.no_duplicates(),
            final(self).pattern()->0.len() == old(self).pattern()->0.len(),
            old(self).truthful() && char_lowercase(guess)[0] != '-' ==> final(self).truthful(),
    {
        let lower = lowercase_char(guess);
        let letters = chars_of(&lower);
        if letters.len() == 1 && letters[0] <= '\u{7f}' {
            return self.guess_letter(letters[0]);
        }
        let ghost before = *self;
        let used = self.used_char.as_ref().unwrap();
        let (found, at) = locate(used, &lower);
        if found {
            return Err("Guess already made");
        }
        let n = self.current_set.as_ref().unwrap().as_str().unicode_len();
        if n == 0 || (n == 1 && letters[0] <= '\u{7f}') {
            let ghost text = lower@;
            let mut used = self.used_char.take().unwrap();
            let ghost old_used = views(used@);
            used.insert(at, lower);
            assert(views(used@) =~= old_used.insert(at as int, text));
            assert(views(used@).to_set() =~= old_used.to_set().insert(text));
            self.used_char = Some(used);
            let answer = copy_words(self.current_words.as_ref().unwrap());
            proof {
                if before.truthful() {
                    lemma_miss_keeps_board_truthful(before, *self, text);
                }
            }
            return Ok(answer);
        }
        Err("Unsupported guess")
    }

    /// How far to the right `guess` sits in `key`: the number whose decimal
    /// digits are 1 where `key` holds `guess` and 0 elsewhere.
    pub fn rightness(key: &String, guess: char) -> (sum: usize)
        requires
            is_ascii_chars(key@),
            pow10(key@.len()) <= usize::MAX,
        ensures
            sum == rightness(key@, guess),
    {
        let n = key.as_str().unicode_len();
        let mut sum: usize = 0;
        let mut pos: usize = 1;
        let mut i: usize = n;
        while i > 0
            invariant
                n == key@.len(),
                i <= n,
                pow10(n as nat) <= usize::MAX,
                pos == pow10((n - i) as nat),
                sum == rightness(key@.subrange(i as int, n as int), guess),
            decreases i,
        {
            i = i - 1;
            proof {
                lemma_rightness_bound(key@.subrange(i + 1, n as int), guess);
                lemma_pow10_monotonic((n - i) as nat, n as nat);
                assert(key@.subrange(i as int, n as int).drop_first() =~= key@.subrange(
                    i + 1,
                    n as int,
                ));
            }
            if key.as_str().get_char(i) == guess {
                sum = sum + pos;
            }
            pos = pos * 10;
        }
        sum
    }

    /// Whether a guess can be played (`ready`).
    pub fn is_ready(&self) -> (b: bool)
        ensures
            b == self.ready(),
    {
        let pattern = match &self.current_set {
            Some(p) => p,
            None => return false,
        };
        let words = match &self.current_words {
            Some(w) => w,
            None => return false,
        };
        let used = match &self.used_char {
            Some(u) => u,
            None => return false,
        };
        assert(self.pattern() == Some(pattern@));
        assert(self.words() == Some(views(words@)));
        assert(self.guessed() == Some(views(used@)));
        if !pattern.is_ascii() {
            return false;
        }
        let ghost gs = views(used@);
        let mut x: usize = 1;
        while x < used.len()
            invariant
                self.guessed() == Some(gs),
                gs == views(used@),
                1 <= x,
                gs.len() == 0 || x <= gs.len(),
                gs.len() > 0 ==> ascending(gs.take(x as int)),
            decreases gs.len() - x,
        {
            let prev = chars_of(&used[x - 1]);
            let next = chars_of(&used[x]);
            assert(prev@ == gs[x - 1] && next@ == gs[x as int]);
            if !comes_before(&prev, &next) {
                assert(!ascending(gs));
                return false;
            }
            let ghost upto = gs.take(x + 1);
            assert forall|y: int, z: int| 0 <= y < z < x + 1 implies text_less(
                #[trigger] upto[y],
                #[trigger] upto[z],
            ) by {
                if z < x {
                    assert(text_less(gs.take(x as int)[y], gs.take(x as int)[z]));
                } else if y < x - 1 {
                    assert(text_less(gs.take(x as int)[y], gs.take(x as int)[x - 1]));
                    lemma_text_less_transitive(gs[y], gs[x - 1], gs[z]);
                }
            }
            x = x + 1;
        }
        if used.len() > 0 {
            assert(gs.take(gs.len() as int) =~= gs);
        }
        assert(ascending(gs));
        let shown = chars_of(pattern);
        let mut x: usize = 0;
        while x < shown.len()
            invariant
                self.guessed() == Some(gs),
                self.pattern() == Some(pattern@),
                gs == views(used@),
                ascending(gs),
                shown@ == pattern@,
                x <= shown@.len(),
                forall|y: int| 0 <= y < x ==> #[trigger] shown@[y] == '-' || has_letter(gs, shown@[y]),
            decreases shown@.len() - x,
        {
            if shown[x] != '-' {
                let mut one: Vec<char> = Vec::new();
                one.push(shown[x]);
                let text = string_from_chars(&one);
                assert(text@ =~= seq![shown@[x as int]]);
                let (found, _) = locate(used, &text);
                if !found {
                    assert(!has_letter(gs, shown@[x as int]));
                    assert(self.pattern()->0[x as int] == shown@[x as int]);
                    assert(!self.shows_only_guessed());
                    return false;
                }
            }
            x = x + 1;
        }
        let n = pattern.as_str().unicode_len();
        let mut t: usize = 0;
        while t < words.len()
            invariant
                self.words() == Some(views(words@)),
                self.pattern() == Some(pattern@),
                n == pattern@.len(),
                t <= words@.len(),
                forall|u: int|
                    0 <= u < t ==> is_ascii_chars(#[trigger] views(words@)[u]) && views(words@)[u].len()
                        == n,
            decreases words@.len() - t,
        {
            let w = &words[t];
            if !(w.is_ascii() && w.as_str().unicode_len() == n) {
                assert(views(words@)[t as int] == w@);
                assert(!(is_ascii_chars(self.words()->0[t as int]) && self.words()->0[t as int].len()
                    == self.pattern()->0.len()));
                return false;
            }
            t = t + 1;
        }
        true
    }

    /// The lower-case forms of the guesses so far, in ascending text order.
    pub fn get_guessed_letters(&self) -> (letters: &Vec<String>)
        requires
            self.guessed() is Some,
        ensures
            views(letters@) == self.guessed()->0,
    {
        self.used_char.as_ref().unwrap()
    }

    /// The board.
    pub fn get_current_set(&self) -> (board: &String)
        requires
            self.pattern() is Some,
        ensures
            board@ == self.pattern()->0,
    {
        self.current_set.as_ref().unwrap()
    }

    /// Plays the (already lower-cased) ASCII letter `letter`; see `guess_outcome`.
    pub fn guess_letter(&mut self, letter: char) -> (r: Result<Vec<String>, &'static str>)
        requires
            old(self).ready(),
            letter <= '\u{7f}',
        ensures
            guess_outcome(*old(self), *final(self), letter, r),
            final(self).ready(),
            old(self).words()->0.no_duplicates() ==> final(self).words()->0.no_duplicates(),
            final(self).pattern()->0.len() == old(self).pattern()->0.len(),
            old(self).truthful() && letter != '-' ==> final(self).truthful(),
    {
        let ghost before = *self;
        let r = self.play(letter);
        proof {
            if !has_letter(before.guessed()->0, letter) {
                lemma_families_sound(before.words()->0, before.pattern()->0, letter);
                assert(shaped(self.pattern()->0, before.pattern()->0, letter));
            }
            if before.truthful() && letter != '-' {
                lemma_guess_keeps_board_truthful(before, *self, letter, r);
            }
        }
        r
    }

    /// Plays `letter`; see `guess_letter`.
    fn play(&mut self, letter: char) -> (r: Result<Vec<String>, &'static str>)
        requires
            old(self).ready(),
            letter <= '\u{7f}',
        ensures
            guess_outcome(*old(self), *final(self), letter, r),
            final(self).ready(),
            old(self).words()->0.no_duplicates() ==> final(self).words()->0.no_duplicates(),
    {
        let used = self.used_char.as_ref().unwrap();
        let mut one: Vec<char> = Vec::new();
        one.push(letter);
        let key = string_from_chars(&one);
        assert(key@ =~= seq![letter]);
        let (found, at) = locate(used, &key);
        if found {
            return Err("Guess already made");
        }
        let mut used = self.used_char.take().unwrap();
        let ghost old_used = views(used@);
        used.insert(at, key);
        assert(views(used@) =~= old_used.insert(at as int, seq![letter]));
        assert(views(used@).to_set() =~= old_used.to_set().insert(seq![letter]));
        self.used_char = Some(used);

        assert(self.words() == old(self).words());
        assert(self.pattern() == old(self).pattern());
        let pattern = chars_of(self.current_set.as_ref().unwrap());
        let words = self.current_words.as_ref().unwrap();
        assert(views(words@) == self.words()->0);
        assert(pattern@ == self.pattern()->0);
        assert forall|t: int| 0 <= t < words@.len() implies (#[trigger] words@[t])@.len()
            == pattern@.len() by {
            assert(views(words@)[t] == words@[t]@);
        }
        let (keys, groups) = sort_into_families(words, &pattern, letter);
        let ghost fams = families(views(words@), pattern@, letter);
        assert(fams.dom().contains(pattern@));
        assert(keys@.len() > 0);
        let b = choose_family(&keys, &groups, letter, Ghost(fams));
        let new_pattern = string_from_chars(&keys[b]);
        let chosen = copy_words(&groups[b]);
        let answer = copy_words(&groups[b]);
        assert(fams[keys@[b as int]@] == views(groups@[b as int]@));
        proof {
            lemma_families_sound(views(words@), pattern@, letter);
            let key = keys@[b as int]@;
            assert(shaped(key, pattern@, letter));
            assert forall|x: int| 0 <= x < key.len() implies '\0' <= #[trigger] key[x] <= '\u{7f}' by {
                if key[x] != letter {
                    assert(pattern@[x] == key[x]);
                }
            }
            assert forall|t: int| 0 <= t < views(chosen@).len() implies is_ascii_chars(
                #[trigger] views(chosen@)[t],
            ) && views(chosen@)[t].len() == key.len() by {
                assert(fams[key].contains(views(chosen@)[t]));
                let w = views(chosen@)[t];
                assert(views(words@).contains(w));
                let u = choose|u: int| 0 <= u < views(words@).len() && views(words@)[u] == w;
                assert(is_ascii_chars(views(words@)[u]));
            }
        }
        self.current_set = Some(new_pattern);
        self.current_words = Some(chosen);
        Ok(answer)
    }
}

} // verus!
