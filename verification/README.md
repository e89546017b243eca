# quiz_bot

A quiz bot for a Matrix room. It gathers trivia questions from OpenTDB and
TriviaQA, asks them on a schedule, takes answers as reactions or as text, and
keeps scores.

- `src/` is the library: what the bot decides and writes, with contracts that
  Verus proves. Nothing in it waits, reads or sends. Where the bot has to, a
  state machine says what to do next and takes what came of it.
- `app/` is the program around it: the room, the clock, the database, the state
  file and the services on the net.
- `tests/` runs the library on concrete values.

| Module | What it holds |
| --- | --- |
| `fetcher` | questions: tokens, batches, the cache, the groups of a round |
| `quiz` | a round: answers, reactions on the server, scores, messages |
| `scheduler`, `leaderboard` | when a quiz is fired, and the board of a month |
| `commands` | what messages ask for, and the replies |
| `format` | text as a message with mentions |
| `triviaqa` | the dataset, and having its questions prepared |
| `groq`, `explainer` | asking a language model |
| `config`, `state`, `db` | settings, what is kept, and what is read of the database |
| `calendar`, `letters`, `chance` | what chrono, the standard library and rand provide |
| `text`, `numbers`, `names`, `order`, `retry` | building blocks |
