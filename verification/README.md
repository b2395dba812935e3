# runtime

The memory of an autonomous coding agent, verified with Verus: a daily journal,
the dream pass that distills it into durable memories, and the proactive layer
that decides when to dream and when to check in with the user.

- `src/` holds the decisions, and the texts that the agent reads and writes, with
  contracts over `Seq<char>`, dates and state machines. It reads the machine's
  clocks, and does no other I/O.
- `app/` does the I/O: it reads and writes the files, asks the environment,
  shares the idle runtime between threads, and performs what `src/` decides.
- `tests/` runs the library against files in memory and against the standard
  library.

| module     | what it holds                                                   |
|------------|-----------------------------------------------------------------|
| `text`     | trimming, searching, splitting and joining                      |
| `numeral`  | decimal numerals, written and read                              |
| `calendar` | the civil date of a Unix timestamp                              |
| `clock`    | the machine's clocks                                            |
| `store`    | paths below the configuration directory                         |
| `journal`  | the daily journal: entries, file names, listing                 |
| `slug`     | topics as file names                                            |
| `distill`  | the prompt for the model, and the reading of its reply          |
| `memory`   | topic files and their index                                     |
| `writing`  | writing memories, step by step                                  |
| `dream`    | the dream pass, step by step                                    |
| `pass`     | what a dream pass comes to, and the laws that it keeps          |
| `kairos`   | when to dream on start, and when to check in with an idle user  |
