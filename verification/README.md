# finbox

The decision core of a desktop client for the Finbox skill marketplace,
verified with Verus.

- `src/` is the verified library:
  - `text` — character-level string operations (substring, prefix, suffix,
    trimming, repeated suffix removal, joining), stated over `Seq<char>`;
  - `skill` — the catalogue records and the search over the cached list;
  - `slug` — directory slugs, with proofs that every slug is well formed and
    that slugging is idempotent;
  - `install` — archive URLs, GitHub coordinates of download URLs, and the
    install plan of a skill;
  - `cache` — the rows a refresh stores, the cache table (one row per key,
    later rows replacing earlier ones), and what a read gives back of it
    (freshness and case-insensitive name order);
  - `seqs` — general facts about filtered sequences and sub-lists;
  - `service` — the single-sign-on cookie and each service operation's decision;
  - `sso` — when the login window has reached Finbox, and what follows the
    cookie extraction;
  - `error` — the refusals and their messages;
  - `laws` — properties that span several functions.
- `app/` is the desktop layer: HTTP requests, the SQLite cache table, the login
  window and the front-end commands. It calls the library for every decision.
- `tests/` exercises the library on concrete values.
