//! A console session of the game: the decisions of the interactive loop,
//! from the words a player types to the answers the console prints. Reading
//! lines and printing stay with the caller.
use vstd::prelude::*;
use vstd::utf8::char_is_scalar;
use vstd::utf8::char_u32_cast;
use vstd::utf8::encode_scalar;
use vstd::utf8::encode_utf8;

use crate::game::evil_hangman_game::make_guess_outcome;
use crate::game::evil_hangman_game::guess_refused;
use crate::game::evil_hangman_game::EvilHangmanGame;
use crate::game::families::chars_of;
use crate::game::families::count_letter;
use crate::game::families::count_of;
use crate::game::families::holds_letter;
use crate::game::families::views;
use crate::game::text::ascii_letter;
use crate::game::text::is_alphabetic;
use crate::game::text::split_words;
use crate::game::text::whitespace_split;

verus! {

/// What the console answers to one step of a turn.
pub enum Reply {
    /// No typed word is waiting: a line must be read.
    NeedLine,
    /// The word is empty or a line break and is passed over.
    Skipped,
    /// The word is longer than one byte, or not a letter.
    InvalidInput,
    /// The game refused the guess (`guess_refused`).
    Refused,
    /// The board changed; it shows `letter` `count` times.
    Hit { count: usize, letter: char },
    /// The board did not change, and a guess is lost.
    Miss { word: String },
}

/// How a session ends.
pub enum Ending {
    /// The board was completed, or guesses were left.
    Won,
    /// The guesses ran out with letters still hidden.
    Lost,
}

/// The state of the console loop.
pub struct Session {
    remaining: u32,
    board: String,
    words: Vec<String>,
    typed: String,
    queue: Vec<String>,
    over: bool,
}

/// The next step plays a guess: the first waiting word is one byte long
/// and an ASCII letter.
pub open spec fn guesses_next(s: Session) -> bool {
    &&& s.waiting().len() > 0
    &&& encode_utf8(s.waiting()[0]).len() == 1
    &&& ascii_letter(s.waiting()[0][0])
}

/// A word of one byte is one ASCII character.
proof fn lemma_one_byte_word(w: Seq<char>)
    requires
        encode_utf8(w).len() == 1,
    ensures
        w.len() == 1,
        w[0] <= '\u{7f}',
{
    if w.len() == 0 {
        assert(encode_utf8(w) =~= Seq::<u8>::empty());
    }
    char_is_scalar(w[0]);
    let v = w[0] as u32;
    assert(encode_utf8(w) == encode_scalar(v) + encode_utf8(w.drop_first()));
    if v > 0x7f {
        assert(encode_scalar(v).len() >= 2);
    }
    assert(v <= 0x7f);
    char_u32_cast(w[0], v);
    assert(w[0] == v as char);
    if w.len() > 1 {
        char_is_scalar(w[1]);
        assert(w.drop_first()[0] == w[1]);
        assert(encode_utf8(w.drop_first()).len() >= 1);
    }
}

/// `after` is `before` with the first waiting word taken away.
pub open spec fn passed_over(before: Session, after: Session) -> bool {
    &&& after.waiting() == before.waiting().drop_first()
    &&& after.left() == before.left()
    &&& after.shown() == before.shown()
    &&& after.found() == before.found()
    &&& after.typed_text() == before.typed_text()
    &&& after.done() == before.done()
}

/// One step of a turn, from `before` (on the game `game_before`) to `after`
/// (on `game_after`), answering `r`. With no waiting word a line is asked
/// for. Otherwise the first waiting word is looked at: one of more than one
/// byte or not an ASCII letter is invalid, an empty one or a line break is passed
/// over, and a letter is guessed. A refused guess changes nothing but the
/// waiting words. A played guess ends the turn (the typed text and waiting
/// words are dropped) and keeps the words it leaves; if the board changed it
/// is a hit, showing the letter as often as the new board holds the typed
/// character, and otherwise a miss, which costs a guess. The session is
/// done when the board shows no dash.
pub open spec fn step_outcome(
    before: Session,
    after: Session,
    game_before: EvilHangmanGame,
    game_after: EvilHangmanGame,
    r: Reply,
) -> bool {
    if before.waiting().len() == 0 {
        &&& r is NeedLine
        &&& after == before
        &&& game_after == game_before
    } else {
        let word = before.waiting()[0];
        if encode_utf8(word).len() > 1 || (encode_utf8(word).len() == 1 && !ascii_letter(
            word[0],
        )) {
            &&& r is InvalidInput
            &&& passed_over(before, after)
            &&& game_after == game_before
        } else if encode_utf8(word).len() == 0 || word[0] == '\n' {
            &&& r is Skipped
            &&& passed_over(before, after)
            &&& game_after == game_before
        } else if guess_refused(game_before, word[0]) {
            &&& r is Refused
            &&& passed_over(before, after)
            &&& game_after == game_before
        } else {
            let c = word[0];
            &&& exists|v: Vec<String>|
                make_guess_outcome(game_before, game_after, c, Ok(v)) && #[trigger] views(v@)
                    == after.found()
            &&& if game_after.pattern()->0 != before.shown() {
                &&& r matches Reply::Hit { count, letter } && letter == c && count == count_of(
                    game_after.pattern()->0,
                    c,
                )
                &&& after.shown() == game_after.pattern()->0
                &&& after.left() == before.left()
            } else {
                &&& r matches Reply::Miss { word: w } && w@ == word
                &&& after.shown() == before.shown()
                &&& after.left() == before.left() - 1
            }
            &&& after.done() == !after.shown().contains('-')
            &&& after.typed_text() == Seq::<char>::empty()
            &&& after.waiting() == Seq::<Seq<char>>::empty()
        }
    }
}

/// The characters equal to `c`.
pub open spec fn is_char(c: char) -> spec_fn(char) -> bool {
    |ch: char| ch == c
}

proof fn lemma_count_is_filter_len(s: Seq<char>, c: char)
    ensures
        count_of(s, c) == s.filter(is_char(c)).len(),
    decreases s.len(),
{
    if s.len() > 0 {
        lemma_count_is_filter_len(s.drop_last(), c);
        assert(s =~= s.drop_last().push(s.last()));
        s.drop_last().lemma_filter_push(s.last(), is_char(c));
    }
}

/// A hit reports the character that was typed and the number of positions
/// of the new board that show it, and the console then shows that board.
pub proof fn lemma_hit_counts_the_board(
    before: Session,
    after: Session,
    game_before: EvilHangmanGame,
    game_after: EvilHangmanGame,
    r: Reply,
)
    requires
        step_outcome(before, after, game_before, game_after, r),
    ensures
        r matches Reply::Hit { count, letter } ==> {
            &&& before.waiting().len() > 0
            &&& letter == before.waiting()[0][0]
            &&& count == game_after.pattern()->0.filter(is_char(letter)).len()
            &&& after.shown() == game_after.pattern()->0
        },
{
    if let Reply::Hit { count, letter } = r {
        lemma_count_is_filter_len(game_after.pattern()->0, letter);
    }
}

/// Only a miss costs a guess, and exactly one: a step that is not a miss
/// (a hit, a refused, invalid or skipped guess, or a request for a line)
/// leaves the guesses left as they were, and a miss is a played guess that
/// leaves the board as the console showed it.
pub proof fn lemma_only_a_miss_costs_a_guess(
    before: Session,
    after: Session,
    game_before: EvilHangmanGame,
    game_after: EvilHangmanGame,
    r: Reply,
)
    requires
        step_outcome(before, after, game_before, game_after, r),
    ensures
        r is Miss ==> after.left() == before.left() - 1 && game_after.pattern()->0 == before.shown()
            && after.shown() == before.shown(),
        !(r is Miss) ==> after.left() == before.left(),
{
}

impl Session {
    /// Guesses left.
    pub closed spec fn left(&self) -> nat {
        self.remaining as nat
    }

    /// The board as the console last showed it.
    pub closed spec fn shown(&self) -> Seq<char> {
        self.board@
    }

    /// The words of the last successful guess.
    pub closed spec fn found(&self) -> Seq<Seq<char>> {
        views(self.words@)
    }

    /// Everything typed in the current turn.
    pub closed spec fn typed_text(&self) -> Seq<char> {
        self.typed@
    }

    /// The typed words not yet looked at in the current turn.
    pub closed spec fn waiting(&self) -> Seq<Seq<char>> {
        views(self.queue@)
    }

    /// The board was completed.
    pub closed spec fn done(&self) -> bool {
        self.over
    }

    /// A session with `total` guesses on a game whose board is `board`.
    pub fn new(total: u32, board: &String) -> (s: Self)
        ensures
            s.left() == total,
            s.shown() == board@,
            s.found() == Seq::<Seq<char>>::empty(),
            s.typed_text() == Seq::<char>::empty(),
            s.waiting() == Seq::<Seq<char>>::empty(),
            !s.done(),
    {
        let s = Session {
            remaining: total,
            board: board.clone(),
            words: Vec::new(),
            typed: String::new(),
            queue: Vec::new(),
            over: false,
        };
        assert(views(s.words@) =~= Seq::<Seq<char>>::empty());
        assert(views(s.queue@) =~= Seq::<Seq<char>>::empty());
        s
    }

    /// Whether another turn is played: guesses are left and the board is not complete.
    pub fn playing(&self) -> (b: bool)
        ensures
            b == (self.left() > 0 && !self.done()),
    {
        self.remaining > 0 && !self.over
    }

    /// Whether the next step plays a guess (`guesses_next`).
    pub fn will_guess(&self) -> (b: bool)
        ensures
            b == guesses_next(*self),
    {
        if self.queue.len() == 0 {
            return false;
        }
        let word = &self.queue[0];
        assert(word@ == self.waiting()[0]);
        if word.as_str().as_bytes().len() != 1 {
            return false;
        }
        proof {
            lemma_one_byte_word(word@);
        }
        let c = word.as_str().get_char(0);
        is_alphabetic(c) && c != '\n'
    }

    /// Whether a line must be read before the next step.
    pub fn needs_line(&self) -> (b: bool)
        ensures
            b == (self.waiting().len() == 0),
    {
        self.queue.len() == 0
    }

    /// One step of the current turn on `game`; see `step_outcome`.
    pub fn take_guess(&mut self, game: &mut EvilHangmanGame) -> (r: Reply)
        requires
            guesses_next(*old(self)) ==> old(game).ready(),
            old(self).left() > 0,
            old(self).shown() == old(game).pattern()->0,
        ensures
            step_outcome(*old(self), *final(self), *old(game), *final(game), r),
            old(game).ready() ==> final(game).ready(),
            final(self).shown() == final(game).pattern()->0,
    {
        if self.queue.len() == 0 {
            return Reply::NeedLine;
        }
        let ghost waiting = views(self.queue@);
        let word = self.queue.remove(0);
        assert(views(self.queue@) =~= waiting.drop_first());
        assert(word@ == waiting[0]);
        let n = word.as_str().as_bytes().len();
        if n > 1 {
            return Reply::InvalidInput;
        }
        if n == 0 {
            return Reply::Skipped;
        }
        proof {
            lemma_one_byte_word(word@);
        }
        let c = word.as_str().get_char(0);
        if !is_alphabetic(c) {
            return Reply::InvalidInput;
        }
        if c == '\n' {
            return Reply::Skipped;
        }
        match game.make_guess(c) {
            Err(_) => Reply::Refused,
            Ok(v) => {
                let ghost found = v;
                self.words = v;
                let now = game.get_current_set();
                let reply = if !(*now == self.board) {
                    self.board = now.clone();
                    let board_chars = chars_of(&self.board);
                    Reply::Hit { count: count_letter(&board_chars, c), letter: c }
                } else {
                    self.remaining = self.remaining - 1;
                    Reply::Miss { word }
                };
                let board_chars = chars_of(&self.board);
                self.over = !holds_letter(&board_chars, '-');
                self.typed = String::new();
                self.queue = Vec::new();
                assert(views(self.queue@) =~= Seq::<Seq<char>>::empty());
                assert(views(found@) == self.found());
                reply
            },
        }
    }

    /// How the session ends: won when the board shows no dash or guesses are
    /// left, lost otherwise.
    pub fn ending(&self) -> (e: Ending)
        ensures
            e is Won <==> (!self.shown().contains('-') || self.left() > 0),
    {
        let board_chars = chars_of(&self.board);
        if !holds_letter(&board_chars, '-') || self.remaining > 0 {
            Ending::Won
        } else {
            Ending::Lost
        }
    }

    /// Guesses left.
    pub fn remaining_guesses(&self) -> (n: u32)
        ensures
            n == self.left(),
    {
        self.remaining
    }

    /// The board as the console last showed it.
    pub fn current_board(&self) -> (board: &String)
        ensures
            board@ == self.shown(),
    {
        &self.board
    }

    /// The words of the last successful guess.
    pub fn last_words(&self) -> (words: &Vec<String>)
        ensures
            views(words@) == self.found(),
    {
        &self.words
    }

    /// Takes a line the player typed: it is added to the text of this turn,
    /// and every word of that text joins the waiting words.
    pub fn feed_line(&mut self, line: &str)
        ensures
            final(self).typed_text() == old(self).typed_text() + line@,
            final(self).waiting() == old(self).waiting() + whitespace_split(final(self).typed_text()),
            final(self).left() == old(self).left(),
            final(self).shown() == old(self).shown(),
            final(self).found() == old(self).found(),
            final(self).done() == old(self).done(),
    {
        self.typed.append(line);
        let words = split_words(self.typed.as_str());
        let ghost before = views(self.queue@);
        let ghost typed_now = self.typed@;
        assert(typed_now == old(self).typed@ + line@);
        assert(views(words@) == whitespace_split(typed_now));
        let mut t: usize = 0;
        while t < words.len()
            invariant
                self.typed@ == typed_now,
                self.remaining == old(self).remaining,
                self.board == old(self).board,
                self.words == old(self).words,
                self.over == old(self).over,
                before == views(old(self).queue@),
                t <= words@.len(),
                views(self.queue@) == before + views(words@).take(t as int),
            decreases words@.len() - t,
        {
            let ghost prev = self.queue@;
            self.queue.push(words[t].clone());
            assert(views(self.queue@) =~= views(prev).push(words@[t as int]@));
            assert(views(words@).take(t + 1) =~= views(words@).take(t as int).push(words@[t as int]@));
            t = t + 1;
        }
        assert(views(words@).take(words@.len() as int) =~= views(words@));
    }
}

} // verus!
