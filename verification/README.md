# stack_lang

An interpreter for a small stack-oriented scripting language, written in
Verus. Programs are split into tokens; each token pushes a value (numbers,
truth values, `(strings)`, `[lists]`, `{matrices}`, `error:` values,
variables) or runs a command on the stack. A tiny HTTP front end serves
routes whose handlers are programs.

Layout:

- `src/` — the verified library.
  - `text`, `unicode`, `syntax`, `numeral`, `json`: text operations, the
    tokenizer, numbers and JSON text.
  - `value`, `store`, `machine`: values, named properties and variables, and
    the executor's stack, memory and debug log.
  - `commands`, `memory`, `objects`, `documents`, `random`, `pattern`: the
    commands that work on the stack alone.
  - `interp`: evaluation of programs, with a token-by-token semantics that
    the evaluator is proved against; commands that reach the outside world
    are performed by a host function the caller supplies.
  - `http`: reading requests, routes, Basic credentials and replies.
  - `window`: a window's options and what one message from its page does.
  - `laws`: properties that relate several commands.
- `app/` — the command-line program: file and console I/O, the host's
  floating-point, file, network, database and matrix commands, and the
  server loop.
- `tests/` — tests of the library.
