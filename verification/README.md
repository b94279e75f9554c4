# mistake_agent

The verified core of a local learning agent for secondary-school students:
it keeps a notebook of mistakes, talks to a model through tools, and keeps
every conversation as a tree of messages.  The logic is written in Verus;
each public function states in its contract what it returns or changes, and
the properties that tie several functions together are proof functions
(`lemma_*`) in the module they concern.

## Layout

- `src/` — the library, verified by Verus.
  - `contract`, `registry`, `dispatch` — entry points of plugins, their
    registration and wire names, who may call them, timeouts.
  - `kernel` — decisions of the request handler: composing a user message
    with a forced tool and attachments, the one turn that runs at a time.
  - `turn`, `agent`, `guard`, `interrupt`, `scheduler` — the agent loop of
    a turn as a state machine (what to do after each event, with its guard
    rails: at most 25 tool calls, three failures in a row, cancellation and
    the deadline), how a streamed model step is assembled, session guards,
    and the session lifecycle (one active session, new turns, hand-off
    summaries, titles).
  - `message`, `session`, `store`, `migrate` — the message tree, session
    metadata, the in-memory store (sessions and the mistake notebook), and
    the split of legacy sessions that hold several topics.
  - `mistake`, `grading`, `practice`, `generate` — the notebook and the
    grading and practice tools (answer checking, and how a generation request
    is routed to the template, the exam pool or the model).
  - `audit` — the append-only audit log and the records of calls and turns.
  - `services`, `sse`, `responses`, `wire`, `summary`, `prompt`, `settings`
    — model requests and replies, the event-stream parser, prompts,
    hand-off summaries and titles, and the settings patch.
  - `storage`, `memfiles`, `upload`, `text` — sandboxed paths, the file
    store of the data domains, attachments (and the check that one is read
    only from inside the uploads directory), and string operations.
- `tests/` — tests of the library on concrete values.
- `app/` — the host program around the library: standard input and output
  in JSON lines, files on disk, HTTP calls to the model providers, and the
  loop that performs what the turn state machine decides.

Calls into outside crates (`uuid`, `chrono`, `base64`, `serde_json`,
`jsonschema`) stand behind small trusted functions whose doc comments say
what their contracts claim.
