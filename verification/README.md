# mechanism_design

Social choice rules with contracts proved by Verus, and the mechanism-design
layer (outcome spaces, mechanisms, DSIC and strategy-proofness checks, VCG)
around them.

- `src/` — the verified library:
  - `social_choice.rs`: preferences and profiles; pairwise majority counts,
    Condorcet winners, Borda count/winner/ranking, approval voting,
    dictatorship test, Arrow's conditions.
  - `scoring.rs`: Borda points and approval counts as functions of the ballots.
  - `tally.rs`: per-alternative scores with one entry per alternative.
  - `grid.rs`: enumeration of grid assignments used by grid-search misreports.
  - `seq_util.rs`: first positions of values and string views.
  - `laws.rs`: properties proved over all inputs (preference is a strict
    order on listed alternatives, pairwise counts, uniqueness of the Condorcet
    winner, unanimity results, Borda ranking starts with a Borda winner).
- `app/` — the parts that work on `f64` valuations (outcomes, mechanisms,
  incentive and strategy-proofness checks, VCG), serializable copies of the
  library's types, and hash-map entry points.
- `tests/` — the test suite.
