# Neon Invaders

A Space Invaders-style arcade shooter with local player profiles, and an
authenticated score server (magic-link login, access and refresh tokens,
score submission, leaderboard).

The game rules and the server's request handling are a library verified
with Verus; the window, drawing, sound playback, HTTP and files are an
ordinary Rust program around it.

## Layout

- `src/` — the verified library
  - `rules.rs`: scoring, lives, bomb rewards, waves, bunker wear
  - `formation.rs`: which aliens are alive or diving; who may fire or dive
  - `shots.rs`: shots of the two sides cancelling each other
  - `profiles.rs`: local profiles, their file format and the title-screen
    player selection
  - `audio.rs`: mixing and WAV encoding of the synthesized sounds
  - `store.rs`, `auth.rs`, `scores.rs`, `board.rs`, `account.rs`,
    `tokens.rs`, `clock.rs`, `error.rs`: the score server's records and
    handlers
  - `text.rs`, `order.rs`, `sorting.rs`: string and ordering helpers
  - `laws.rs`: properties proved across operations
- `tests/` — tests of the library
- `app/` — the game (`neon_invaders`) and the score server
  (`neon_invaders score-server`)

## Score server

Environment variables: `SCORE_SERVER_BIND` (default `127.0.0.1:8787`),
`SCORE_SERVER_BASE_URL` (default `http://` followed by the bind address),
`SCORE_SERVER_DATA_DIR` (default `./score-server/data`). Routes:
`GET /health`, `POST /auth/request-link`, `POST /auth/verify`,
`POST /auth/refresh`, `POST /scores`, `GET /leaderboard?limit=N`.
