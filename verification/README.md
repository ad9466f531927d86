# nsa

A Discord bot that stores every message it sees in Postgres, with reactions,
pins and attachment files. It also pages each channel's history back in, and
rewrites links to embed-unfriendly sites into mirrors that embed well.

The decisions the bot makes are written in Verus and proved against their
contracts:

- `src/link_rewriter.rs`: finding URLs, spoiler regions, rewriting links, and
  deciding whether to reply to a message or replace it.
- `src/attachments.rs`: file-name sanitizing, the configuration, each
  download's step machine (size caps, the temp file, what gets recorded), and
  the boot-time drain over pending attachments.
- `src/backfill.rs`: the catch-up over the downtime gap (cut at the floor)
  and the one-time deep sweep (a step machine that persists each page whole
  before checkpointing it), with cursors that only move towards older messages.
- `src/logger.rs`: message times, channel rows, emoji records, pin
  reconciliation, and the once-per-process start of the boot tasks.
- `src/text.rs`: string and number helpers shared by the modules above.

`app/` is the program around the library: the Discord gateway handlers, REST
calls, file and HTTP I/O, and SQL. It performs the actions that the library
decides on and reports back what happened.
