# reel_core

The engine of `reel`, a manager for trip footage from DJI / GoPro / iPhone cards:
import card sessions into per-trip workspaces, review and mark, cut, build an
editor timeline, and keep each trip in step with a shared rclone cloud.

- `src/` — the verified library (Verus). The engine's decisions are here
  with contracts: the card session survey, the content-id ledger and its
  tombstones, trip state, import planning, moves/renames/merges/deletes, the
  three-way sync diff and its owed-op queue, duplicate grouping and safe pruning,
  card reclaim and archive gates, marks, cut names, the Kdenlive project text,
  the clip server's byte-range answers, the Nextcloud share bookkeeping and
  the order shares and friends are listed in.
  Content hashing calls the `sha1` and `hex` crates, and JSON string quoting and
  the reading of rclone's and Nextcloud's JSON replies call `serde_json`, through
  small trusted wrappers.
- `tests/` — tests of the library on concrete values.
- `app/` — the `reel` command line around it: environment, files, directory
  walks, rclone / ffmpeg / ffprobe / curl, the loopback clip server
  (`tiny_http`), and the JSON that the command prints (`serde`). It gathers facts, asks the
  library what they mean and what to do, and carries that out.
