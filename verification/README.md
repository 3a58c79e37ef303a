# tush

A process manager built around log tailing. A config file declares procs; a
session runs them, keeps what each one writes, and shows it on a screen, prints
it, or serves it over a socket.

## Layout

- `src/` is the library: everything a session decides. Each function states in
  its contract what it returns or changes, and Verus proves that it does.
  - `log` assembles bytes into lines, packs lines into chunks, keeps the newest
    chunks, and reads them back a window at a time.
  - `config`, `app`, `unit`, `cli` are what is declared, checked and asked for:
    the units, what waits on what, and the order they start in.
  - `base`, `runner`, `process` are the life of one run, from its gate to how it
    ended, as steps from what happened to what to do next.
  - `view`, `ui` are the rows, the keys and every cell the screen draws.
  - `server` is what a client is answered, and how the socket is taken.
  - `util` holds what the rest is built from.
- `app/` is the program around it: the command line, files, child processes,
  the terminal and the socket. It performs what the library decides and hands
  back what came of it.
- `tests/` runs the library on concrete values.

## Reading the library

A type's `@` is what it stands for, and contracts speak of that. A public
`proof fn` with a sentence for a name is a property of the library as a whole,
such as `reading_loses_nothing` in `log::buffer` or `nothing_waits_on_itself` in
`app::session`.

What the library takes from other crates it takes through functions marked
`#[verifier::external_body]`; the comment above each says which function it
calls and what is claimed of it.
