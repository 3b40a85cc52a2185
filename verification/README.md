# deadlock_mods

The core of a mod manager for a game, verified with Verus: which VPK files of which
mod are loaded, in which order, from which directory; what a profile records of its
mods; how the addons are backed up and restored; and what the game's log tells of
the player.

The game loads at most 99 numbered files of a directory, so a profile spreads its
enabled files over up to ten directories, its shards. Most of the library is about
moving files between them without losing one.

## Layout

- `src/path.rs`, `src/disk.rs`: paths, and a tree of files in memory. Operations
  change the tree and note each change.
- `src/journal.rs`: what a list of noted changes has to be like so that it can be
  taken back, or is made as a whole or not at all.
- `src/runner.rs`: hands the noted changes out one by one, and takes back those
  since the last commit when one of them fails.
- `src/shard.rs`, `src/shard_store.rs`, `src/shard_report.rs`: shards, their names
  and places, and a report on them.
- `src/vpk_manifest.rs`, `src/manifest_store.rs`: what a profile records, and how
  that record is kept and recovered.
- `src/vpk_manager/`: enabling, disabling, copying, swapping and reordering files.
- `src/manager/`: installing, removing and ordering mods; the search paths that the
  game is given.
- `src/profiles/`: profiles, their files, and importing one.
- `src/addons_backup_manager/`, `src/tree_copy/`, `src/backup_name.rs`: backups.
- `src/presence/`: the game's log.
- `src/hero_files.rs`, `src/vpk_file.rs`: what the parsers of VPK files are given.
- `app/`: reads the file system into a tree, carries the noted changes out on it,
  and turns values into JSON and back. It is not verified.

What holds of several operations together is stated by the public proof functions
whose names begin with `law_`.
