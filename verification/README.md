# dotbot

The logic of a Discord bot, verified with Verus.

- `src/dot_remover.rs` — decides whether a message is a single sentence ending
  in a dot (or a look-alike hidden behind invisible characters, escapes or
  Markdown) and gives it back without the dot.
- `src/starboard.rs`, `src/star.rs` — the starboard's records, when a message
  is posted or updated there, and the text of a starboard post.
- `src/eval.rs`, `src/latex.rs`, `src/bingo.rs` — the parts of the text
  commands that compute: language names and code fences, the formula link,
  bingo cards and how they are drawn.
- `src/text.rs` — character-sequence helpers.

`app/` holds the bot itself: the Discord and database plumbing, drawing with
`image`/`imageproc`, and `main`.
