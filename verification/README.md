# tai

An agent loop for terminal work: a language model answers each tick with
prose and fenced blocks (`watch:name`, `exec:name`, `write:path`,
`edit:path`, `task:complete`, ...), the server runs the blocks, collects what
each window printed, and shows it to the model on the next tick.

The library under `src/` is written in Verus and proved:

- `response` — the response protocol: block headers, heredoc bodies, the
  parser (`parse_response`) and the writer (`serialize_blocks`), with the
  law that written blocks read back as written (`response::roundtrip`)
  and that every block read has a window (`response::shape`);
  `response::edit_command` — edit commands, their text form, validation and
  application to a file's lines; `response::overlaps` shows that the order
  of edits matters neither to the overlap check nor to their application.
- `state` — the state of a tick: the outputs of the windows, the blocks of
  the last response, the task.
- `server` — one tick as a state machine (`TickRun`): which blocks run,
  which edits apply, which windows close; the steps that touch the world are
  actions handed to the caller; `progress` proves that a tick always ends,
  whatever the actions bring back, keeps one block per window, runs each
  exec block once and refreshes every watch and file window.
- `agent` — responses, the scripted agents used in tests, and the decisions
  of the model-backed agent (`agent::llm`: message windows, retry
  complaints, edit violations).
- `backend` — commands of the local backend and the watcher of running
  windows.
- `session` — names and formats of the session files.
- `text`, `numfmt` — the text and number routines the above rest on.

`app/` holds what does file, process and network work: the command line,
the session directory on disk, the local shell backend, and the streaming
chat client. It drives the library's state machines.

`tests/` runs the library on concrete cases.
