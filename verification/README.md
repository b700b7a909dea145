# Amnestic Trace

A replacement of short-term working memory across a context boundary: a session
that survives its own compaction, or an explicit handoff to another session.
What remains relevant is kept, the rest is dropped, and the result overwrites
what came before. There is no history and no shared memory.

## Layout

`src/` is the library, verified with Verus. It decides everything and touches
nothing: operations on files come out as lists of steps, and what alternates
between deciding and waiting is a state machine that says what to do next and is
told what came of it. `app/` performs the steps, runs the machines, and holds
the `amtr` command. `tests/` run the library against files in memory.

| module | what it decides |
| --- | --- |
| `journal`, `lines` | the window since the last compaction, cut out of a journal as its bytes go by |
| `extract`, `prompt` | what the extraction agent is asked, and whether its answer is a handoff |
| `store`, `disk` | where rows and markers are, and how they are written |
| `synthesize`, `detach` | capture: the debt that a compaction begins and the worker that pays it |
| `recall` | delivery: the shared wait, the claim on a snapshot, the text that the session reads |
| `look`, `peek`, `cli` | inspection, and what a command line asks for |
| `store_laws`, `delivery` | what holds of all of this together |

`text`, `numeral`, `order`, `clock`, `json`, `host` and `fault` are what the others are
built from.

## What is proved

Every public function of `src/` has a contract that says what it returns. Beyond that,
public proof functions state what the parts promise together, among them:

- However many hooks run at once, and in whatever order, a snapshot is delivered
  no more often than it was marked ready, and only the snapshot that the claimed
  marker names.
- A ready snapshot whose hooks do not fail is delivered exactly once.
- No hook loses a snapshot that waits to be delivered.
- The hooks that wait for one debt share one deadline, and none waits past the
  budget.
- A synthesis leaves no debt behind that nobody will pay.
- A reader never sees a file that is half written, and a move never loses a row.
- Two windows of a journal in a row meet: nothing is lost between them and
  nothing is told twice.
- Looking at a store changes no file of it.
- Whatever a handoff holds, no tag opens inside the frame that it is put in, and
  the frame is closed once.

## What is trusted

`chrono` reads and writes timestamps, `serde_json` parses and prints JSON, and a
few functions of std handle UTF-8. Each of them stands behind a small function
in `clock`, `json`, `lines`, `text` or `extract` whose contract says what is
taken on trust.
