# citordle

Backend of a city-themed daily puzzle game: every day serves one city, with a
word round (letter feedback as in Wordle), a geography round and a third round
chosen for the day (a multiple-choice phrase, a drawing, or trivia). Players
are anonymous; their progress for recent days travels in a signed token.

## Layout

- `src/` — the library, verified with Verus.
  - `text` — normalising words and answers, decimal text, splitting and trimming.
  - `schedule` — the seeded FNV hash and the order in which a cycle serves the cities.
  - `dates` — calendar dates, their day numbers and their `YYYY-MM-DD` text.
  - `feedback` — letter-by-letter feedback on a guess.
  - `words`, `catalog`, `city_files` — the dictionary, the city list as it is merged,
    and which data files are read, in what order.
  - `codec` — URL-safe base64 and HMAC-SHA256 from the `base64`, `hmac` and `sha2` crates.
  - `clock` — the current time and date, from the `chrono` crate.
  - `session` — progress entries, their update on each attempt, and token framing.
  - `game` — the city of a day, the daily puzzle and the checking of answers.
  - `laws` — properties that hold across calls: feedback counts, one city per
    day of a cycle, progress kept and counted across requests.
- `tests/` — tests on concrete values.
- `app/` — the HTTP server: routes, file loading, JSON, and the floating-point
  drawing comparison.
