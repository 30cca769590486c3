# evil_hangman

A verified game of "evil" hangman. The computer never picks a secret word:
after each guess it splits the words still in play into families by where
the guessed letter occurs, and keeps the largest family (ties go to the
family without the letter, then to the one showing it furthest right).

- `src/game/families.rs`: the rules (families of a guess, the order between
  them) as spec functions, the code that sorts words into families and picks
  one, and the laws about them.
- `src/game/evil_hangman_game.rs`: the game (`start_game`, `make_guess`,
  getters) with contracts over the board, the words and the guessed letters.
- `src/game/letters.rs`: the guessed letters, kept as the lower-case texts
  of the guesses in ascending text order.
- `src/game/text.rs`: the calls into the standard library's Unicode text
  handling (whitespace splitting, lower-casing), with their contracts.
- `src/session.rs`: the decisions of the console loop.
- `app/main.rs`: arguments, the dictionary file, reading lines and printing.
