# cdgcd

Allow-list garbage collector for systemd-coredump dumps, with its decisions
verified by Verus.

The daemon watches the coredump directory and deletes every dump that no rule
of its configuration matches. A rule may also limit how many dumps are kept,
per rule or per group of dumps that agree in some fields. A dump with a marker
file `<dump>.cdgc-retain` beside it is pinned: it is never deleted and counts
against no limit.

## Layout

`src/` is the library. It does no I/O; each module states what its functions
return and proves it.

| module     | what it decides                                              |
| ---------- | ------------------------------------------------------------ |
| `dump`     | what the name of a coredump says                             |
| `retain`   | which marker pins which dump                                 |
| `document` | TOML documents as plain values                               |
| `duration` | spans of time                                                |
| `config`   | what a configuration means, and what is wrong with one       |
| `pattern`  | shell-style patterns, and how much text they need            |
| `policy`   | the first rule that matches a dump                           |
| `quota`    | which dumps stay: the newest of each group, and pinned ones  |
| `scan`     | what a scan finds, reports and hands on to be deleted        |
| `check`    | the lines of a check                                         |
| `journal`  | what is asked of the journal, and how its answer is read     |
| `daemon`   | the steps of the daemon, and what a reload changes           |
| `sd`       | messages to the service manager                              |
| `ctl`      | the command that pins dumps                                  |
| `text`, `path`, `find` | texts, paths and searches                        |

`app/` is the program around it: arguments, files, signals, sockets and other
processes. `tests/` runs the library on concrete values.

## What is trusted

The proofs rest on the contracts of a few calls into outside code:
`toml::from_str`, `humantime::parse_duration`, `glob::Pattern::new` and
`glob::Pattern::matches`, and from the standard library `std::str::from_utf8`,
`String::push` and `format!("{:?}")`. Each says in its doc comment what it
claims.
