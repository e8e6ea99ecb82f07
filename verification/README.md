# francis

A log-based hypothesis verifier, written in [Verus](https://github.com/verus-lang/verus).

A hypothesis is a tree of predictions about log events: a `Unit` expects one log
line within a time budget, an `All` group expects every one of its children, an
`Any` group at least one. `francis` polls a [Loki](https://grafana.com/oss/loki/)
server for the lines and reports whether the hypothesis holds, with an audit trail
of everything that happened.

## Layout

- `src/` is the library. All of its logic is verified.
  - `hypothesis` — the tree of predictions and its model
  - `validate`, `variation` — what is wrong with a hypothesis before it is run, and
    how that varies
  - `pattern`, `captures`, `template` — the grammar of patterns, captures from log
    lines and how they are filled in
  - `loki` — requests and answers
  - `tree` — the predictions as a flat table
  - `staging`, `polling`, `settling` — the three parts of a poll
  - `progress`, `tally`, `order` — what holds of a table and its trail at every point
    of a run
  - `runner` — the run as a state machine
  - `observation` — the audit trail and its text
  - `time`, `text`, `names` — instants, text helpers and sets of names
- `app/` is the program around it: command line, JSON, HTTP and sleeping.
- `tests/` runs the library.

## What is proved

Contracts are stated over character sequences, tables of nodes and instants as
pairs of seconds and nanoseconds. Functions named `law_...` state what holds across
functions, among them:

- a hypothesis is accepted exactly if it meets the rules of validation
  (`validate::law_accepted_hypotheses`);
- a run passes exactly if the observed units satisfy the hypothesis and fails
  exactly if the units that were given up refute it (`runner::law_run_verdict`);
- every search begins just past what it waits for
  (`runner::law_search_starts_past_what_it_waits_for`);
- the audit trail tells, in order, all that has happened
  (`runner::consistent`, kept by every part of a poll; `runner::law_audit_is_in_order`);
- every captured value is part of a log line that was observed
  (`runner::law_captures_come_from_observed_lines`);
- captures fill in references and nothing else
  (`template::law_captures_fill_templates`).

What `chrono` and `regex` compute is trusted: see the wrappers in `time` and
`captures`, each of which says what is claimed of the function it calls.

## Usage

```
francis [OPTIONS] <HYPOTHESIS>
```

| Option | Default | Description |
|---|---|---|
| `--t0 <RFC3339\|now>` | `now` | Reference start time for the root prediction |
| `--loki-url <URL>` | from hypothesis | Override the Loki URL |
| `--base-query <LOGQL>` | from hypothesis | Override the base LogQL selector |
| `--output <text\|json>` | `text` | Output format |
| `--dry-run` | | Validate the hypothesis without executing |

Exit code `0` means that the hypothesis was verified, `1` that it was falsified or
that there was an error.
