# zeta

A terminal agent that streams a language model's answers, shows the tools it
calls, and keeps chat sessions.

- `src/` is the verified library (Verus): text formatting (`text`), session
  ids and their files (`session`), the decisions taken on the answer stream
  (`agent`), what the line interfaces print (`render`), the state of the
  full-screen view (`view`), and the computing parts of the tools (`tools`).
- `app/` is the program around it: the model client, the terminal, files,
  processes and HTTP.
- `tests/` runs the library on concrete values.
