# optimizer_core

The core of the Gothic 1 Remake optimizer, verified with Verus: it turns a
VRAM preset and the user's choices into the `Engine.ini`, `Scalability.ini`
and `Game.ini` texts to write, merges them into existing INI files when asked,
plans installs, backups, restores and resets, tells files the app wrote from
files changed since, and recommends a preset for the detected GPU.

## Layout

- `src/` — the verified library. Every public function has a contract over spec
  functions; the laws that relate several functions are public proof
  functions (`lemma_*`).
  - `text.rs`, `seq_util.rs` — character-sequence and search helpers.
  - `ini_line.rs`, `ini_doc.rs` — INI lines, documents, patches and the
    comment-headed blocks of managed settings.
  - `ini_merge.rs` — merging planned settings into an existing text.
  - `content.rs` — the texts an install writes for each option.
  - `installer.rs` — options, previews, install plans, backups and restores,
    over an in-memory picture of the config folder.
  - `manifest.rs` — the record of what the app wrote, with FNV-1a checksums.
  - `presets.rs`, `recommendation.rs`, `hardware.rs`, `paths.rs`,
    `commands.rs` — presets, the recommendation, GPU facts, Steam and config
    folder candidates, and the desktop commands' argument parsing.
- `tests/` — tests of the library on concrete values.
- `app/` — the desktop side: the file system, the manifest file (JSON), the
  hardware probes (sysinfo, NVML) and the commands, around the library.
