# truco_bots

Bots for two-player Brazilian Truco: a uniform random baseline, a simple
trainer, a heuristic bot with playing profiles, provider-backed language-model
bots (OpenAI, Anthropic, OpenRouter) and a bot that plays a solved policy,
plus the seeding of studied positions as live hands.

`src/` is the verified library, checked by Verus. Its contracts speak of
mathematical models (card classes, strengths, model-id sequences, maps of
stored profiles). The calls into rand, serde_json and std's character
escaping sit behind a few trusted wrappers in `rng`, `json` and `text`, whose
contracts say only what those crates document.

- `engine`, `abstraction`: cards, actions and views as the bots read them;
  card classes under a turnup.
- `bot`, `random`, `simple`, `heuristic/`: the bots' decisions; every action
  a bot returns is legal.
- `text`, `json`, `llm`: text building, JSON reading, prompts.
- `provider`: configuration from request and environment, request shapes,
  answer extraction, OpenRouter's curated shortlist, catalogs.
- `policy`: profile selection with the seat transpose, the solver's view of a
  hand and its log, playable stored actions, fallback notes.
- `seed`: validation and deal accounting for studied positions, completions,
  deal weights, realization of concrete cards, line replay steps.

`app/` is the runtime around the library: the rules engine and policy
artifacts it plays against, HTTP, serialisation, floating-point mixing, the
process environment and seeding from the operating system's entropy. `tests/` exercises the library.
