# cheese_scraper

Bookkeeping for a leaderboard of cheese-race personal bests on jstris:
reading players' run pages and profiles, choosing each player's best run,
ranking players, merging alternate accounts into their main account, and
reporting who climbed or dropped between two leaderboards.

- `src/` is the library, verified with Verus: the data model (`model`), the
  ranking rules (`ranking`), the published leaderboard (`leaderboard`), the
  page readers (`html`, `profile`, `runpage`), the crawling state
  (`crawl`), the change report (`stats`) and text and number helpers
  (`text`, `numbers`).
- `app/` holds what runs around it: HTTP requests, JSON files, progress
  bars, the report webhook and the web server.

Pieces-per-second figures are floating-point numbers; the library keeps them
as integer keys that order the same way, and `app/` converts between the two.
