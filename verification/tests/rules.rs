use std::collections::HashSet;

use evil_hangman::game::evil_hangman_game::EvilHangmanGame;
use evil_hangman::game::families::count_letter;
use evil_hangman::game::families::further_right;
use evil_hangman::game::families::sort_into_families;
use evil_hangman::session::Ending;
use evil_hangman::session::Reply;
use evil_hangman::session::Session;

fn started(dictionary: &str, length: usize) -> EvilHangmanGame {
    let mut game = EvilHangmanGame::new();
    assert_eq!(Ok("Setup succeeded"), game.start_game(dictionary, length));
    game
}

fn as_set(words: &[String]) -> HashSet<String> {
    words.iter().cloned().collect()
}

fn set_of(words: &[&str]) -> HashSet<String> {
    words.iter().map(|w| w.to_string()).collect()
}

#[test]
fn rightness_reads_positions_as_decimal_digits() {
    assert_eq!(101, EvilHangmanGame::rightness(&"a-a".to_string(), 'a'));
    assert_eq!(1, EvilHangmanGame::rightness(&"--a".to_string(), 'a'));
    assert_eq!(0, EvilHangmanGame::rightness(&"---".to_string(), 'a'));
    assert_eq!(1000001010, EvilHangmanGame::rightness(&"t-----t-t-".to_string(), 't'));
    assert_eq!(0, EvilHangmanGame::rightness(&String::new(), 'a'));
}

#[test]
fn further_right_compares_rightness() {
    let a: Vec<char> = "--a".chars().collect();
    let b: Vec<char> = "-a-".chars().collect();
    assert!(further_right(&a, &b, 'a'));
    assert!(!further_right(&b, &a, 'a'));
    assert!(!further_right(&a, &a, 'a'));
    let long_a: Vec<char> = "------------------------a".chars().collect();
    let long_b: Vec<char> = "a------------------------".chars().collect();
    assert!(further_right(&long_a, &long_b, 'a'));
}

#[test]
fn count_letter_counts_occurrences() {
    let w: Vec<char> = "banana".chars().collect();
    assert_eq!(3, count_letter(&w, 'a'));
    assert_eq!(0, count_letter(&w, 'z'));
}

#[test]
fn new_game_is_not_ready() {
    let game = EvilHangmanGame::new();
    assert!(!game.is_ready());
}

#[test]
fn start_sets_blank_board_and_lowercases_words() {
    let mut game = EvilHangmanGame::new();
    assert_eq!(Ok("Setup succeeded"), game.start_game("  CAT\tdog\n\nCat  bird ", 3));
    assert_eq!("---", game.get_current_set().as_str());
    assert!(game.get_guessed_letters().is_empty());
    assert!(game.is_ready());
    let words = game.make_guess('z').unwrap();
    assert_eq!(set_of(&["cat", "dog"]), as_set(&words));
    assert_eq!(2, words.len());
}

#[test]
fn start_without_matching_words_fails_but_shows_board() {
    let mut game = EvilHangmanGame::new();
    assert_eq!(Err("empty dictionary"), game.start_game("apple pear", 3));
    assert_eq!("---", game.get_current_set().as_str());
    assert!(!game.is_ready());
}

#[test]
fn word_length_counts_bytes() {
    let mut game = EvilHangmanGame::new();
    assert_eq!(Ok("Setup succeeded"), game.start_game("caf\u{e9} cafe", 5));
    assert!(!game.is_ready());
    let mut game = EvilHangmanGame::new();
    assert_eq!(Ok("Setup succeeded"), game.start_game("caf\u{e9} cafe", 4));
    assert!(game.is_ready());
}

#[test]
fn uppercase_guess_is_lowercased() {
    let mut game = started("cat cot", 3);
    let words = game.make_guess('A').unwrap();
    assert_eq!(set_of(&["cot"]), as_set(&words));
    assert_eq!(&vec!["a".to_string()], game.get_guessed_letters());
    assert_eq!(Err("Guess already made"), game.make_guess('a'));
}

#[test]
fn unsupported_guess_changes_nothing() {
    let mut game = started("cat cot", 3);
    assert_eq!(Err("Unsupported guess"), game.make_guess('\u{c9}'));
    assert_eq!(Err("Unsupported guess"), game.make_guess('\u{130}'));
    assert!(game.get_guessed_letters().is_empty());
    assert_eq!("---", game.get_current_set().as_str());
    let mut one = started("a b c", 1);
    assert_eq!(Err("Unsupported guess"), one.make_guess('\u{c9}'));
    assert!(one.get_guessed_letters().is_empty());
}

#[test]
fn long_lowercase_guess_misses_on_one_letter_words() {
    let mut game = started("a B c", 1);
    let words = game.make_guess('\u{130}').unwrap();
    assert_eq!(set_of(&["a", "b", "c"]), as_set(&words));
    assert_eq!("-", game.get_current_set().as_str());
    assert_eq!(&vec!["i\u{307}".to_string()], game.get_guessed_letters());
    assert_eq!(Err("Guess already made"), game.make_guess('\u{130}'));
    let words = game.make_guess('b').unwrap();
    assert_eq!(set_of(&["a", "c"]), as_set(&words));
    assert_eq!(&vec!["b".to_string(), "i\u{307}".to_string()], game.get_guessed_letters());
}

#[test]
fn guessed_letters_stay_sorted() {
    let mut game = started("cat cot cut", 3);
    game.make_guess('x').unwrap();
    game.make_guess('b').unwrap();
    game.make_guess('m').unwrap();
    let expected: Vec<String> = vec!["b".to_string(), "m".to_string(), "x".to_string()];
    assert_eq!(&expected, game.get_guessed_letters());
}

#[test]
fn board_reveals_the_chosen_family() {
    let mut game = started("aab abb bba", 3);
    // families: "a--" {abb}, "aa-" {aab}, "--a" {bba}; all of one word,
    // the rightmost ("--a") wins.
    let words = game.make_guess('a').unwrap();
    assert_eq!(set_of(&["bba"]), as_set(&words));
    assert_eq!("--a", game.get_current_set().as_str());
    let words = game.make_guess('b').unwrap();
    assert_eq!(set_of(&["bba"]), as_set(&words));
    assert_eq!("bba", game.get_current_set().as_str());
}

#[test]
fn word_without_letter_wins_a_tie() {
    let mut game = started("ab cd", 2);
    let words = game.make_guess('a').unwrap();
    assert_eq!(set_of(&["cd"]), as_set(&words));
    assert_eq!("--", game.get_current_set().as_str());
}

#[test]
fn largest_family_is_kept() {
    let mut game = started("aaxb axxb xxxb xxab", 4);
    // "a---" {axxb} , "aa--" {aaxb}, "--a-" {xxab}, none: {xxxb}: all single;
    // none without 'a' wins the tie.
    let words = game.make_guess('a').unwrap();
    assert_eq!(set_of(&["xxxb"]), as_set(&words));
    let mut game = started("xab yab zab abc", 3);
    let words = game.make_guess('a').unwrap();
    assert_eq!(set_of(&["xab", "yab", "zab"]), as_set(&words));
    assert_eq!("-a-", game.get_current_set().as_str());
}

#[test]
fn word_with_four_copies_of_the_letter_belongs_to_no_family() {
    let mut game = started("aaaa bbbb", 4);
    let words = game.make_guess('a').unwrap();
    assert_eq!(set_of(&["bbbb"]), as_set(&words));
    let mut game = started("aaaa", 4);
    let words = game.make_guess('a').unwrap();
    assert!(words.is_empty());
    assert_eq!("----", game.get_current_set().as_str());
}

#[test]
fn board_stays_truthful() {
    let mut game = started("sassy mossy tipsy bossy gassy pussy", 5);
    for c in ['s', 'y', 'o', 'a', 'u'] {
        let words = game.make_guess(c).unwrap();
        let board: Vec<char> = game.get_current_set().chars().collect();
        let guessed = game.get_guessed_letters().clone();
        for w in &words {
            let wc: Vec<char> = w.chars().collect();
            for x in 0..board.len() {
                for g in &guessed {
                    let gc: Vec<char> = g.chars().collect();
                    assert_eq!(1, gc.len());
                    assert_eq!(wc[x] == gc[0], board[x] == gc[0]);
                }
            }
        }
    }
}

#[test]
fn session_plays_hits_and_misses() {
    let mut game = started("cat", 3);
    let mut session = Session::new(2, game.get_current_set());
    assert!(session.playing());
    assert!(session.needs_line());
    assert!(matches!(session.take_guess(&mut game), Reply::NeedLine));
    session.feed_line("zz 1 z\n");
    assert!(matches!(session.take_guess(&mut game), Reply::InvalidInput));
    assert!(matches!(session.take_guess(&mut game), Reply::InvalidInput));
    match session.take_guess(&mut game) {
        Reply::Miss { word } => assert_eq!("z", word),
        _ => panic!("expected a miss"),
    }
    assert_eq!(1, session.remaining_guesses());
    assert!(session.needs_line());
    session.feed_line("C");
    match session.take_guess(&mut game) {
        Reply::Hit { count, letter } => {
            assert_eq!('C', letter);
            assert_eq!(0, count);
        }
        _ => panic!("expected a hit"),
    }
    assert_eq!("c--", session.current_board().as_str());
    assert_eq!(1, session.remaining_guesses());
    session.feed_line("c a t");
    assert!(matches!(session.take_guess(&mut game), Reply::Refused));
    match session.take_guess(&mut game) {
        Reply::Hit { count, letter } => {
            assert_eq!('a', letter);
            assert_eq!(1, count);
        }
        _ => panic!("expected a hit"),
    }
    assert!(session.needs_line());
    session.feed_line("t");
    assert!(matches!(session.take_guess(&mut game), Reply::Hit { .. }));
    assert!(!session.playing());
    assert!(matches!(session.ending(), Ending::Won));
    assert_eq!(vec!["cat".to_string()], *session.last_words());
}

#[test]
fn session_is_lost_when_guesses_run_out() {
    let mut game = started("cat", 3);
    let mut session = Session::new(1, game.get_current_set());
    session.feed_line("q");
    assert!(matches!(session.take_guess(&mut game), Reply::Miss { .. }));
    assert!(!session.playing());
    assert!(matches!(session.ending(), Ending::Lost));
}

#[test]
fn session_rereads_the_typed_text_of_the_turn() {
    let mut game = started("cat", 3);
    let mut session = Session::new(3, game.get_current_set());
    session.feed_line("xy\n");
    assert!(matches!(session.take_guess(&mut game), Reply::InvalidInput));
    assert!(session.needs_line());
    session.feed_line("q\n");
    // the whole text of the turn is split again: "xy" comes back first
    assert!(matches!(session.take_guess(&mut game), Reply::InvalidInput));
    assert!(matches!(session.take_guess(&mut game), Reply::Miss { .. }));
}

#[test]
fn each_word_is_filed_under_its_own_pattern() {
    let words: Vec<String> = ["aab", "abb", "bba", "bbb", "aba"].iter().map(|w| w.to_string()).collect();
    let pattern: Vec<char> = "---".chars().collect();
    let (keys, groups) = sort_into_families(&words, &pattern, 'a');
    let mut filed: Vec<(String, Vec<String>)> =
        keys.iter().map(|k| k.iter().collect::<String>()).zip(groups.iter().cloned()).collect();
    filed.sort();
    let expected: Vec<(String, Vec<String>)> = vec![
        ("---".to_string(), vec!["bbb".to_string()]),
        ("--a".to_string(), vec!["bba".to_string()]),
        ("a--".to_string(), vec!["abb".to_string()]),
        ("a-a".to_string(), vec!["aba".to_string()]),
        ("aa-".to_string(), vec!["aab".to_string()]),
    ];
    assert_eq!(expected, filed);
}

#[test]
fn outcome_does_not_depend_on_word_order() {
    let mut first = started("abc bca cab bbb acc cca", 3);
    let mut second = started("cca acc bbb cab bca abc", 3);
    for c in ['a', 'c', 'b'] {
        let a = first.make_guess(c).unwrap();
        let b = second.make_guess(c).unwrap();
        assert_eq!(as_set(&a), as_set(&b));
        assert_eq!(first.get_current_set(), second.get_current_set());
    }
}

#[test]
fn session_tells_when_it_will_guess() {
    let game = started("cat", 3);
    let mut session = Session::new(2, game.get_current_set());
    assert!(!session.will_guess());
    session.feed_line("ab 1 z");
    assert!(!session.will_guess());
    let mut game = game;
    session.take_guess(&mut game);
    assert!(!session.will_guess());
    session.take_guess(&mut game);
    assert!(session.will_guess());
}

#[test]
fn starting_again_forgets_the_earlier_game() {
    let mut game = started("cat cot dog", 3);
    game.make_guess('o').unwrap();
    assert_eq!(Ok("Setup succeeded"), game.start_game("bee bat", 3));
    let mut fresh = started("bee bat", 3);
    assert_eq!(game.get_current_set(), fresh.get_current_set());
    assert_eq!(game.get_guessed_letters(), fresh.get_guessed_letters());
    assert_eq!(as_set(&game.make_guess('e').unwrap()), as_set(&fresh.make_guess('e').unwrap()));
    assert_eq!(game.get_current_set(), fresh.get_current_set());
}
