# poke_search

A verified search library for turn-based team battles: the static matchup
kernel, the evaluator's features and model files, Monte Carlo tree search on
one thread and on a shared tree, self-play and trajectory tools.

- `src/` is the library. Its functions carry contracts that Verus proves. The
  contracts of the few wrappers around outside calls (random numbers, the
  clock, text, collections) are believed; the comment above each says what it
  claims. The battle engine is asked through functions that the caller passes
  in.
- `tests/` runs it, mostly on a miniature battle.
- `app/` holds what needs floating-point arithmetic, threads or files: sums of
  features, the logistic curve, the workers of the shared search, and the
  commands. It is generic over a battle engine.

Modules of the library:

| module | what it holds |
|---|---|
| `state`, `codes`, `ratio`, `float32`, `quotient`, `rounding`, `text` | positions and the plain values they are made of, and how numbers are rounded |
| `matchup` | the best attack of every Pokemon on every other, duels, entry damage, the pair cache |
| `evaluate` | what the evaluator sees, weights and models as text, configurations |
| `mcts` | the tree, one iteration, whole searches, trees kept from turn to turn |
| `shared` | a tree that several workers search, a worker's turns, and whole runs |
| `selfplay` | decisions and games of two configurations |
| `trajectory` | lines of recorded games |
| `prof` | counting cycles by section |

Scores are shares of a win in fixed point, rounded as machine numbers are where
they are added, divided or split between the sides. Other single-precision
numbers are kept by their bit patterns: the library compares them and leaves
their arithmetic to the caller.
