# opendefalgsplitting

Decides whether target relations `T...` of a finite model are definable in
fragments of first-order logic (quantifier-free, positive, existential
positive, primitive positive, first-order, guarded, Horn).

- `src/` is the verified library: the model file parser and target
  preprocessing, formulas and their semantics, the unary decision and the
  strategy selector, the split engines (atomic, positive, existential
  positive, first-order and guarded k-types, Horn), the dispatcher that routes
  a fragment and engine to them, the isomorphism type of generated
  substructures, the Stone filtering functions, and the quantifier-free
  splitting search: the candidate generator (`generator`), the step that
  takes the generator's first useful candidate and splits a block of tuple
  histories on it (`search::search_step` over `splitting::block_step`), and
  the split of a finished block by isomorphism type
  (`impure::split_finished_impure`).
- `app/` is the command line program around it: reading files, argument
  handling, parallel runs, the loop of the splitting search that drives the
  library's step (with the information-gain scoring, which is floating
  point), and the engines that run outside the library (the orbit and
  embedding splits, the guarded merge and the merge by isomorphism types),
  with their own model types converted from the library's.
- `tests/` exercises the library on concrete models.
