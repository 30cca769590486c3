use std::collections::HashSet;

use evil_hangman::game::evil_hangman_game::EvilHangmanGame;

const EMPTY_DICT_ERROR: Result<&str, &str> = Err("empty dictionary");
const SUCCESSFUL_LOAD: Result<&str, &str> = Ok("Setup succeeded");
const GUESS_ALREADY_MADE: Result<Vec<String>, &str> = Err("Guess already made");

/// A small dictionary: a handful of words of each length, chosen to exercise
/// one rule of the game per length.
const SMALL_DICTIONARY: &str = "brakes chicks editor little nickle chubby
toner tombs title silly lambs lakes
zyzzyva zizzled buzzwig fuzzbox
gardened forgemen lingerer ohmmeter bythelee dronebee parmelee tuskegee
abs are bar tag bra moa
charmillions phylogenesis antimonarchy boxingweight
huggingly legginged dugogogue logogogue foglogged pigwiggen
thelittleo teakettles titeration tetrastoon triacetate tennantite";

const EMPTY_DICTIONARY: &str = "";

const FILLERS: &[u8] = b"bcdfghjklmnpqvwxyz";
const CONSONANTS: &[u8] = b"bcdfghjklmnpqrstvwxyz";

const TWO_LETTER_WITHOUT_A: &str = "be bi bo by de do ef eh el em en er es et ex go he hi hm ho id if in is it jo li lo me mi mm mo mu my ne no nu od oe of oh om on op or os ow ox oy pe pi re sh si so ti to uh um un up us ut we wo xi xu ye";
const TWO_LETTER_WITH_A: &str = "aa ab ad ae ag ah ai al am an ar as at aw ax ay ba da fa ha ka la ma na pa ta ya za";

/// A word of length `n`: `fixed` letters at their positions, the digits of
/// `var` (base 18, over letters that no test guesses) at the `free`
/// positions, and `b` elsewhere.
fn spread(mut var: usize, free: &[usize], n: usize, fixed: &[(usize, u8)]) -> String {
    let mut w = vec![b'b'; n];
    for &(p, c) in fixed {
        w[p] = c;
    }
    for &p in free {
        w[p] = FILLERS[var % 18];
        var /= 18;
    }
    String::from_utf8(w).unwrap()
}

fn three_letter_words() -> Vec<String> {
    let mut out: Vec<String> = vec!["bib".to_string(), "fix".to_string(), "zit".to_string()];
    for &x in CONSONANTS {
        for &y in CONSONANTS {
            let w = String::from_utf8(vec![x, b'i', y]).unwrap();
            if out.len() < 110 && !out.contains(&w) {
                out.push(w);
            }
        }
    }
    let mut count = 0;
    for &x in CONSONANTS {
        for &y in CONSONANTS {
            for &z in CONSONANTS {
                if count < 109 {
                    out.push(String::from_utf8(vec![x, y, z]).unwrap());
                    count += 1;
                }
            }
        }
    }
    let mut count = 0;
    for &x in CONSONANTS {
        for &y in CONSONANTS {
            if count < 109 {
                out.push(String::from_utf8(vec![b'i', x, y]).unwrap());
                out.push(String::from_utf8(vec![x, y, b'i']).unwrap());
                count += 1;
            }
        }
    }
    for &x in &CONSONANTS[..19] {
        out.push(String::from_utf8(vec![b'i', b'i', x]).unwrap());
    }
    let mut count = 0;
    for &x in CONSONANTS {
        for &y in CONSONANTS {
            if count < 209 {
                out.push(String::from_utf8(vec![x, b'o', y]).unwrap());
                count += 1;
            }
        }
    }
    for &x in &CONSONANTS[..10] {
        out.push(String::from_utf8(vec![x, b'a', b'b']).unwrap());
    }
    out
}

fn ten_letter_words() -> Vec<String> {
    let mut out: Vec<String> =
        vec!["hobnobbing".to_string(), "conglobing".to_string(), "flummoxing".to_string(), "unmuzzling".to_string()];
    let positions = [0usize, 1, 2, 3, 4, 5, 6, 8, 9];
    let mut pairs = Vec::new();
    for &x in &positions {
        for &y in &positions {
            if x < y && (x, y) != (0, 3) {
                pairs.push((x, y));
            }
        }
    }
    for &(x, y) in &pairs[..20] {
        let mut w = vec![b'b'; 10];
        w[7] = b'i';
        w[x] = b'u';
        w[y] = b'u';
        out.push(String::from_utf8(w).unwrap());
    }
    let all: Vec<usize> = (0..10).collect();
    for v in 0..10 {
        out.push(spread(v, &all, 10, &[]));
    }
    let mut patterns: Vec<Vec<usize>> = (0..10).map(|p| vec![p]).collect();
    for p in 0..10 {
        for q in p + 1..10 {
            patterns.push(vec![p, q]);
        }
    }
    for idx in 0..1054 {
        let pat = &patterns[idx % 55];
        let free: Vec<usize> = (0..10).filter(|p| !pat.contains(p)).collect();
        let fixed: Vec<(usize, u8)> = pat.iter().map(|&p| (p, b'a')).collect();
        out.push(spread(idx / 55, &free, 10, &fixed));
    }
    for w in ["airmailing", "micrograms", "signalling"] {
        out.push(w.to_string());
    }
    for idx in 0..4304 {
        let p = idx % 10;
        let free: Vec<usize> = (0..10).filter(|&q| q != p).collect();
        out.push(spread(idx / 10, &free, 10, &[(p, b'e')]));
    }
    for idx in 0..20 {
        let p = idx % 10;
        let free: Vec<usize> = (0..10).filter(|&q| q != p).collect();
        out.push(spread(idx / 10, &free, 10, &[(p, b't')]));
    }
    out
}

/// A larger dictionary of two-, three- and ten-letter words, built so that
/// the families of the guesses below have the sizes that the tests expect.
fn dictionary() -> String {
    let mut words: Vec<String> = Vec::new();
    for w in TWO_LETTER_WITHOUT_A.split_whitespace().chain(TWO_LETTER_WITH_A.split_whitespace()) {
        words.push(w.to_string());
    }
    words.extend(three_letter_words());
    words.extend(ten_letter_words());
    words.join("\n")
}

fn setup() -> EvilHangmanGame {
    EvilHangmanGame::new()
}

fn as_set(words: &Vec<String>) -> HashSet<String> {
    words.iter().cloned().collect()
}

#[test]
fn test_empty_file_load() {
    let mut game = setup();
    assert_eq!(EMPTY_DICT_ERROR, game.start_game(EMPTY_DICTIONARY, 4), "Failed to return empty dictionary error");
    assert_eq!(EMPTY_DICT_ERROR, game.start_game(EMPTY_DICTIONARY, 1), "Failed to return empty dictionary error");
    assert_eq!(EMPTY_DICT_ERROR, game.start_game(EMPTY_DICTIONARY, 15), "Failed to return empty dictionary error");
}

#[test]
fn test_word_length() {
    let mut game = setup();
    assert_eq!(EMPTY_DICT_ERROR, game.start_game(EMPTY_DICTIONARY, 0), "Failed to return empty dictionary error");
}

#[test]
fn test_load_files() {
    let dict = dictionary();
    let mut game = setup();
    assert_eq!(SUCCESSFUL_LOAD, game.start_game(&dict, 2), "Loading file with dictionary gave an error");
    assert_eq!(SUCCESSFUL_LOAD, game.start_game(&dict, 10), "Loading file with dictionary gave an error");
    assert_eq!(SUCCESSFUL_LOAD, game.start_game(SMALL_DICTIONARY, 10), "Loading file with dictionary gave an error");
}

#[test]
fn test_guess_already_made() {
    let dict = dictionary();
    let mut game = setup();

    game.start_game(&dict, 2).expect("Empty Dictionary");

    game.make_guess('a').expect("Error");

    assert_eq!(GUESS_ALREADY_MADE, game.make_guess('a'), "Failed to return Guess already made error.");
    assert_eq!(GUESS_ALREADY_MADE, game.make_guess('A'), "Failed to return Guess already made error with uppercase letter.");

    game.make_guess('E').expect("Guessing a letter after a previously guess letter gave an error");

    assert_eq!(GUESS_ALREADY_MADE, game.make_guess('E'), "Failed to return Guess already made error with uppercase letter.");
    assert_eq!(GUESS_ALREADY_MADE, game.make_guess('a'), "Failed to return Guess already made error with previously guessed letter.");
}

#[test]
fn test_2_letter_word() {
    let dict = dictionary();
    let mut game = setup();

    game.start_game(&dict, 2).expect("Dictionary that contains words is counted as empty");

    let possible_words = game.make_guess('a').unwrap();

    assert_eq!(68, possible_words.len(), "Incorrect set size");
    let temp_vec: Vec<String> = ["be","bi","bo","by","de","do","ef","eh","el","em","en","er","es","et","ex","go","he","hi","hm","ho","id","if","in","is","it","jo","li","lo","me","mi","mm","mo","mu","my","ne","no","nu","od","oe","of","oh","om","on","op","or","os","ow","ox","oy","pe","pi","re","sh","si","so","ti","to","uh","um","un","up","us","ut","we","wo","xi","xu","ye"].map(String::from).to_vec();
    let correct_possibilities: HashSet<String> = temp_vec.into_iter().collect();

    assert_eq!(correct_possibilities, as_set(&possible_words), "Incorrect set contents after 1 guess");

    assert_eq!(GUESS_ALREADY_MADE, game.make_guess('a'), "Set changed on duplicate guess");

    let possible_words = game.make_guess('e').unwrap();

    assert_eq!(49, possible_words.len(), "Incorrect set size after second guess");
    let temp_vec: Vec<String> = ["bi","bo","by","do","go","hi","hm","ho","id","if","in","is","it","jo","li","lo","mi","mm","mo","mu","my","no","nu","od","of","oh","om","on","op","or","os","ow","ox","oy","pi","sh","si","so","ti","to","uh","um","un","up","us","ut","wo","xi","xu"].map(String::from).to_vec();
    let correct_possibilities: HashSet<String> = temp_vec.into_iter().collect();

    assert_eq!(correct_possibilities, as_set(&possible_words), "Incorrect set contents after second guess");
}

#[test]
fn test_3_letter_word() {
    let dict = dictionary();
    let mut game = setup();
    game.start_game(&dict, 3).expect("Dictionary that contains words is counted as empty");
    let possible_words = game.make_guess('a').unwrap();

    assert_eq!(665, possible_words.len(), "Incorrect size after 1 guess");
    for word in possible_words.iter() {
        assert!(!word.contains('a'), "Incorrect contents after 1 guess");
    }

    let possible_words = game.make_guess('o').unwrap();

    assert_eq!(456, possible_words.len(), "Incorrect size after 2nd guess");
    for word in possible_words.iter() {
        assert!(!word.contains('o'), "Incorrect contents after 2nd guess");
    }

    game.make_guess('e').unwrap();
    game.make_guess('u').unwrap();
    let possible_words = game.make_guess('i').unwrap();

    assert_eq!(110, possible_words.len(), "Incorrect size after 5th guess");
    for word in possible_words.iter() {
        assert!(!word.contains('e'), "Incorrect contents after 5nd guess");
        assert!(!word.contains('u'), "Incorrect contents after 5nd guess");
        assert!(word.contains('i'), "Incorrect contents after 5nd guess");
    }

    let possible_words = as_set(&possible_words);
    assert!(possible_words.contains("bib"), "Incorrect contents after 5th guess");
    assert!(possible_words.contains("fix"), "Incorrect contents after 5th guess");
    assert!(possible_words.contains("zit"), "Incorrect contents after 5th guess");
}

#[test]
fn test_10_letter_word() {
    let dict = dictionary();
    let mut game = setup();
    game.start_game(&dict, 10).expect("Dictionary that contains words is counted as empty");

    let possible_words = game.make_guess('t').unwrap();

    assert_eq!(5395, possible_words.len(), "Incorrect size after 1 guess");
    for word in possible_words.iter() {
        assert!(!word.contains('t'), "Incorrect contents after 1 guess");
    }

    let possible_words = game.make_guess('e').unwrap();

    assert_eq!(1091, possible_words.len(), "Incorrect size after 2nd guess");
    let set = as_set(&possible_words);
    assert!(set.contains("airmailing"), "Incorrect contents after 2nd guess");
    assert!(set.contains("micrograms"), "Incorrect contents after 2nd guess");
    assert!(set.contains("signalling"), "Incorrect contents after 2nd guess");
    for word in possible_words.iter() {
        assert!(!word.contains('e'), "Incorrect contents after 2nd guess");
    }

    game.make_guess('a').unwrap();
    game.make_guess('i').unwrap();
    game.make_guess('r').unwrap();
    let possible_words = game.make_guess('s').unwrap();

    assert_eq!(24, possible_words.len(), "Incorrect size after 6th guess");
    for word in possible_words.iter() {
        assert!(!word.contains('a'), "Incorrect contents after 6th guess");
    }
    let set = as_set(&possible_words);
    assert!(set.contains("conglobing"), "Incorrect contents after 6th guess");
    assert!(set.contains("flummoxing"), "Incorrect contents after 6th guess");
    assert!(set.contains("unmuzzling"), "Incorrect contents after 6th guess");

    game.make_guess('u').unwrap();
    game.make_guess('c').unwrap();
    game.make_guess('p').unwrap();
    let possible_words = game.make_guess('f').unwrap();
    assert_eq!(1, possible_words.len(), "Incorrect size aftre 10th guess");
    assert!(as_set(&possible_words).contains("hobnobbing"), "Incorrect contents after 10th guess");
}

#[test]
fn test_largest_group() {
    let mut game = setup();

    game.start_game(SMALL_DICTIONARY, 6).expect("Dictionary that contains words is counted as empty");

    let possible_words = as_set(&game.make_guess('u').unwrap());

    assert_eq!(5, possible_words.len(), "Incorrect size after 1 guess");
    assert!(!possible_words.contains("chubby"), "Incorrect contents after 1 guess");

    let possible_words = as_set(&game.make_guess('l').unwrap());

    assert_eq!(3, possible_words.len(), "Incorrect contents after 2nd guess");
    assert!(!possible_words.contains("little"), "Incorrect contents after 2nd guess");
    assert!(!possible_words.contains("nickle"), "Incorrect contents after 2nd guess");

    let possible_words = as_set(&game.make_guess('s').unwrap());

    assert_eq!(2, possible_words.len(), "Incorrect size after 3rd guess");
    assert!(!possible_words.contains("editor"), "Incorrect contents after 3rd guess");
    assert!(possible_words.contains("brakes"), "Incorrect contents after 3rd guess");
    assert!(possible_words.contains("chicks"), "Incorrect contents after 3rd guess");
}

#[test]
fn test_letter_does_not_appear() {
    let mut game = setup();
    game.start_game(SMALL_DICTIONARY, 5).expect("Dictionary that contains words is counted as empty");

    let possible_words = as_set(&game.make_guess('a').unwrap());

    assert_eq!(4, possible_words.len(), "Incorrect size after 1 guess");
    assert!(!possible_words.contains("lambs"), "Incorrect contents after 1 guess");
    assert!(!possible_words.contains("lakes"), "Incorrect contents after 1 guess");
    assert!(possible_words.contains("toner"), "Incorrect contents after 1 guess");

    let possible_words = as_set(&game.make_guess('o').unwrap());

    assert_eq!(2, possible_words.len(), "Incorrect contents after 2nd guess");
    assert!(!possible_words.contains("tombs"), "Incorrect contents after 2nd guess");
    assert!(!possible_words.contains("toner"), "Incorrect contents after 2nd guess");
    assert!(possible_words.contains("title"), "Incorrect contents after 2nd guess");
    assert!(possible_words.contains("silly"), "Incorrect contents after 2nd guess");

    let possible_words = as_set(&game.make_guess('t').unwrap());
    assert_eq!(1, possible_words.len(), "Incorrect contents after 3rd guess");
    assert!(!possible_words.contains("title"), "Incorrect contents after 3rd guess");
    assert!(possible_words.contains("silly"), "Incorrect contents after 3rd guess");
}

#[test]
fn test_fewest_instances() {
    let mut game = setup();
    game.start_game(SMALL_DICTIONARY, 7).expect("Dictionary that contains words is counted as empty");

    let possible_words = as_set(&game.make_guess('z').unwrap());

    assert_eq!(2, possible_words.len(), "Incorrect size after 1 guess");
    assert!(!possible_words.contains("zyzzyva"), "Incorrect contents after 1 guess");
    assert!(!possible_words.contains("zizzled"), "Incorrect contents after 1 guess");
    assert!(possible_words.contains("buzzwig"), "Incorrect contents after 1 guess");

    game.start_game(SMALL_DICTIONARY, 8).expect("Dictionary that contains words is counted as empty");

    let possible_words = as_set(&game.make_guess('e').unwrap());

    assert_eq!(4, possible_words.len(), "Incorrect size after 1 guess");
    assert!(!possible_words.contains("bythelee"), "Incorrect contents after 1 guess");
    assert!(!possible_words.contains("dronebee"), "Incorrect contents after 1 guess");
    assert!(!possible_words.contains("parmelee"), "Incorrect contents after 1 guess");
    assert!(!possible_words.contains("tuskegee"), "Incorrect contents after 1 guess");
    assert!(possible_words.contains("gardened"), "Incorrect contents after 1 guess");
    assert!(possible_words.contains("forgemen"), "Incorrect contents after 1 guess");
    assert!(possible_words.contains("lingerer"), "Incorrect contents after 1 guess");
    assert!(possible_words.contains("ohmmeter"), "Incorrect contents after 1 guess");
}

#[test]
fn test_rightmost_letter() {
    let mut game = setup();
    game.start_game(SMALL_DICTIONARY, 3).expect("Dictionary that contains words is counted as empty");

    let possible_words = as_set(&game.make_guess('a').unwrap());

    assert_eq!(2, possible_words.len(), "Incorrect word count after 1st guess.");
    assert!(!possible_words.contains("abs"), "Incorrect contents after 1 guess");
    assert!(!possible_words.contains("are"), "Incorrect contents after 1 guess");
    assert!(!possible_words.contains("bar"), "Incorrect contents after 1 guess");
    assert!(!possible_words.contains("tag"), "Incorrect contents after 1 guess");
    assert!(possible_words.contains("bra"), "Incorrect contents after 1 guess");
    assert!(possible_words.contains("moa"), "Incorrect contents after 1 guess");

    game.start_game(SMALL_DICTIONARY, 12).expect("Dictionary that contains words is counted as empty");

    let possible_words = as_set(&game.make_guess('h').unwrap());

    assert_eq!(2, possible_words.len(), "Incorrect word count after 1st guess");
    assert!(!possible_words.contains("charmillions"), "Incorrect contents after 1 guess");
    assert!(!possible_words.contains("phylogenesis"), "Incorrect contents after 1 guess");
    assert!(possible_words.contains("antimonarchy"), "Incorrect contents after 1 guess");
    assert!(possible_words.contains("boxingweight"), "Incorrect contents after 1 guess");
}

#[test]
fn test_rightmost_of_multiple_instances() {
    let mut game = setup();
    game.start_game(SMALL_DICTIONARY, 9).expect("Dictionary that contains words is counted as empty");

    let possible_words = as_set(&game.make_guess('g').unwrap());
    assert_eq!(2, possible_words.len(), "Incorrect word count after 1st guess");
    assert!(!possible_words.contains("huggingly"), "Incorrect contents after 1 guess");
    assert!(!possible_words.contains("legginged"), "Incorrect contents after 1 guess");
    assert!(!possible_words.contains("dugogogue"), "Incorrect contents after 1 guess");
    assert!(!possible_words.contains("logogogue"), "Incorrect contents after 1 guess");
    assert!(possible_words.contains("foglogged"), "Incorrect contents after 1 guess");
    assert!(possible_words.contains("pigwiggen"), "Incorrect contents after 1 guess");

    game.start_game(SMALL_DICTIONARY, 10).expect("Dictionary that contains words is counted as empty");

    let possible_words = as_set(&game.make_guess('t').unwrap());

    assert_eq!(2, possible_words.len(), "Incorrect word count after 1st guess");
    assert!(!possible_words.contains("thelittleo"), "Incorrect contents after 1 guess");
    assert!(!possible_words.contains("teakettles"), "Incorrect contents after 1 guess");
    assert!(!possible_words.contains("titeration"), "Incorrect contents after 1 guess");
    assert!(!possible_words.contains("tetrastoon"), "Incorrect contents after 1 guess");
    assert!(possible_words.contains("triacetate"), "Incorrect contents after 1 guess");
    assert!(possible_words.contains("tennantite"), "Incorrect contents after 1 guess");
}
