# Consensus

A debate engine for several language models. A prompt goes to all of them in parallel, each of them
audits the answers of the others, and one of them merges everything into a single answer. A local history
scores the models over time, and the one with the highest score does the merging.

`src/` is the library, verified with Verus. Its proofs rest on what is stated of a few calls into other
crates and the standard library. These are not proved:

- `serde_json`: parsing a document, and the members, items and texts of a value (`json`);
- `colored`: text in eight colours and styles (`paint`);
- `reqwest`: a status code as text (`api`);
- `dirs`: the home directory, of which nothing is stated (`config`);
- the standard library: `String::push` (`text`), `String::from_utf8_lossy` (`stream`) and
  `str::to_lowercase` (`history`).

| Module     | What it holds                                                              |
|------------|----------------------------------------------------------------------------|
| `rounds`   | who is asked what in each round, and when a debate is over                 |
| `debate`   | modes, what models are told, and the award in a synthesis                  |
| `api`      | replies, statuses, retries and pauses of a call                            |
| `sse`      | server-sent events and the text that they carry                            |
| `stream`   | events that are read while they arrive                                     |
| `history`  | scores, issues named by audits, and what is written for a debate           |
| `report`   | results, scoreboard, history and progress as text                          |
| `config`   | providers, limits and paths                                                |
| `cli`      | tasks, modes and the prompt                                                |
| `calendar` | dates and timestamps                                                       |
| `number`   | real numbers, as far as they are compared and shown                        |
| `text`     | trimming, splitting, searching, joining and padding                        |
| `json`     | what is read of JSON documents                                             |
| `paint`    | text in colour                                                             |

Functions named `law_…` state what holds of several functions together. `app/` is the program around the
library: the command line, the configuration file, HTTP and the history database, which is always built in.
