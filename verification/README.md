# Sonar

Sonar asks one question at a time and keeps the answers as a tree: each
conversation is a branch from a common root, and the map shows how far each
topic was dug.

- `src/` is the verified library (Verus): the moods, the digging instruction,
  the request for the next question, the decoding of the streamed reply (bytes
  to characters, frames, and the JSON fields read from each event), the
  store's checks and the shape of the stored tree, the session cookie's
  policy, the walk from the root to a node, ordering by id, and the payload
  the map page reads.
- `tests/` exercises the library on concrete values.
- `app/` is the server around it: database access (Toasty), pages and cookies
  (Topcoat), the HTTP call for the next question (reqwest), and serialisation.
