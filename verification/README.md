# kataribe

A tabletop game master whose narrator is a language model and whose game
state belongs to a deterministic engine. The narrator proposes prose plus a
list of state operations; the engine judges the proposal against the scenario,
refuses it with reasons or applies it as a whole, rolls the dice itself and
fires the scenario's reactive beats.

## Layout

- `src/` — the library, verified with Verus.
  - `strmap`, `state`, `gate`, `spine`: the state, the scenario and its
    conditions, initial state and module transitions.
  - `engine`, `expr`, `reason`: adjudication, application, dice, checks,
    challenges, triggers, goals, and the reasons a delta is refused.
  - `facts`, `turn`, `synopsis`, `memoria`: the agreed-facts list, the
    chronicle, chapter synopses and lore recall.
  - `prompt`, `brief`, `turnloop`, `session`: what the narrator is told, and
    the propose–judge–repair loop as a state machine.
  - `campaign`, `package`, `asset`, `site`, `view`: campaigns of modules,
    package manifests, asset ids, package-zip checks and the player's panels.
- `app/` — the command-line program around it: reading YAML, the HTTP client
  for the narrator, unpacking package zips, the terminal loop.
- `tests/` — scenario tests run against the compiled library.
