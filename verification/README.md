# idv_asas

An assistant for the survivors' side of ranked matches in Identity V: an
OpenAI-compatible language model proposes plans (four survivors, each on a
numbered spawn point of the map with two talents, and a short description), and
this library builds the requests, reads the streamed answer, checks the plans
against the game's catalogue and records the session. The library is written in Verus; each public function carries
a contract that Verus proves.

## Layout

- `src/text.rs`: models of the `str` operations the readers use (trimming,
  splitting into lines, searching, replacing, number parsing and printing),
  with executable versions proved against them.
- `src/checker.rs`: the catalogue of maps and survivors built from the resource
  files, and how names are looked up in it.
- `src/parser.rs`: the model's answer read as plans and checked against the
  catalogue and the map.
- `src/positions.rs`: the point files of the maps.
- `src/prompt.rs`: the system prompt and the requests of a round.
- `src/config.rs`: the settings of the model service.
- `src/api.rs`: the streamed reply of the service, line by line.
- `src/session.rs`: the conversation sent to the model, what a reply leads to
  (accept, ask again, give up), the cast of a round.
- `src/history.rs`: names and order of saved sessions, token totals.
- `src/flow.rs`: the steps of a session in the desktop front end and the
  actions between them (the window itself is not part of this crate).
- `app/`: the web front end: HTTP handlers that keep the session state, file
  access, the HTTP call to the service, JSON, and the floating-point prices
  and temperature; the rules it applies come from the library.
- `tests/`: tests of the library on concrete values.
