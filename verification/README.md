# farkle

A solver for the dice game Farkle, with its rules proved in Verus.

`src/` is the verified library:

- `dice_set` packs a multiset of at most six dice into one number (one base-7
  digit per face) and converts it to and from its string forms.
- `precompute` states the scoring rules and builds the tables the solver reads:
  the score, the holds worth considering and the number of dice of every roll,
  the rolls of each number of dice, and how often each scoring roll comes up.
- `valid_holds` decides which dice of a roll are worth holding.
- `roll_odds` counts the ways the dice can fall and merges the scoring rolls
  that leave the same holds.
- `farkle_solver` holds the integer side of the solver: the keys of its memo
  table, how a position stands, and where holding dice leads.
- `turn` plays out one throw of a simulated game.
- `freq` and `iter_tools` state what the library uses from `rust-freqdist` and
  `itertools`.

`app/` is the program around it: the command line, the solver's probabilities
of winning (floating point), the memo files and the browser bindings.
