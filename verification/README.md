# rshx

Run one command — or one script — on many hosts over ssh, with a bounded fanout
and a readable per-host report.

The library under `src/` holds everything rshx decides, verified with Verus:

- `host` — the host file: patterns (`host/pattern.rs`), groups
  (`host/group.rs`), selection (`host/select.rs`), names, users, and where the
  file is found;
- `remote` — the words a Host is handed: ssh's arguments, the marker, the
  launcher of a detached run, and the stop script;
- `privilege` — the command under sudo, the marker in a Host's stderr, who is
  given which password, and what a prompt costs a Host's limit;
- `interrupt` — Ctrl-C, and the limit a Host's ssh is held to;
- `run` — the run itself: its plan, its window, and what each Host's ssh comes
  to;
- `report`, `style`, `heartbeat` — what a run prints;
- `cause` — why a Host that is not `ok` did not work;
- `cli`, `duration` — what the command line asks for;
- `text`, `bytes` — the texts and streams all of this is made of.

Proof functions named `law_…` state what holds of the library as a whole.

The program under `app/` is the rest: the command line, the files, the ssh
processes, the terminal, and the two output streams. Times and spans cross
between the two as nanoseconds, paths as bytes, and seconds that are shown to a
person as text.
