# fraktivitaeten

Distribution of activities ("Fraktivitäten") over rooms and time slots,
verified with Verus.

- `src/fraktivitaet_verteilung/`: activities with participants, rooms and
  allowed start points on a day plan (`zeit`), placed by backtracking
  (`FraktivitaetManager::verteilen`), with JSON-like listings.
- `src/lp/`: the integer programs that distribute entries: their variables
  (`variables`), constraints (`constraints`), the checks, grid and rooms that
  a distribution starts from (`plan`), and the sequence of programs as a
  state machine (`run`) that hands each program out to be solved. The slot
  programs (`slot_variables`, `slot_constraints`, `slot_run`) distribute with
  one variable per entry, start and room, and search for the entries that
  cannot be placed when that fails.
- `src/text.rs`: digits and decimal numbers on character sequences.
- `app/`: the solver driver (good_lp with CBC) that runs the state
  machines, printing, and a benchmark on random entries.
