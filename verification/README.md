# nescioDB, verified core

nescioDB stores ignorance as a first-class object: claims with sources,
reliabilities and half-lives instead of values, regions and entropy derived
at query time.

- `src/` — the library whose behaviour is stated in contracts and proved:
  the binary evidence log (round trip and torn-tail recovery), calendar
  arithmetic and the reading and writing of points in time, the seeded
  generator, the coupling-graph cycle test, the knowledge-horizon search of
  watches, categorical domains, and the HTTP text layer (query strings,
  percent decoding, the route table, statuses and error bodies).
- `app/` — the `nescio` program around it: the probabilistic engine (belief
  propagation, joins, RESOLVE planning, calibration, which compute in
  floating point), persistence of a database directory, the HTTP server and
  the command line.
- `tests/` — tests of the library on concrete values.
