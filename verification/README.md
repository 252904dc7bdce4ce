# einbuergerung

A mock exam for the German naturalisation test (Einbürgerungstest), served
over HTTP. An exam has 33 questions: 30 general ones and 3 about Berlin,
drawn from a local JSON dataset, with questions a learner often missed drawn
first and questions missed in the last exam held back for two exams. A
learner's history (missed questions, confusions, difficult words, finished
exams) is kept per profile id on the server. An optional tutor (OpenAI)
gives hints and feedback.

Layout:

- `src/` — the library, verified with Verus: grading and dataset checks
  (`quiz`), the learner's memory (`memory`, `counts`), sorting and ranking
  (`order`), the decisions behind each request (`routes`), file locations
  (`storage`), the tutor's prompts and replies (`ai`), text helpers (`text`),
  and properties that hold across calls (`laws`). `chance` and `clock` hold
  the calls into `rand` and `chrono`.
- `app/` — the web server (axum), file I/O, the OpenAI requests, the JSON
  forms of the data, and the `backfill_progress` command.
- `tests/` — tests of the library.

Run the server with `cargo run` from this directory (it reads
`data/questions.json` or `questions-answers-dataset.json`), or
`cargo run -- backfill_progress [PROFILE_ID]` to rebuild learners'
progress from their stored exams.
