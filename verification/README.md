# nv

Minimal Neovim version manager for Linux stable and nightly builds. Each channel
retains one previous release for rollback.

The selected executable is linked at `~/.local/bin/nvim`. nv refuses to replace
an existing `~/.local/bin/nvim` it did not create.

## Usage

```text
nv install stable|nightly
nv use stable|nightly
nv update [stable|nightly]
nv remove [stable|nightly]
nv rollback stable|nightly
nv status
```

- `install` installs a channel if it is missing, without changing the selected
  channel.
- `use` installs a channel if it is missing, then selects it. It never updates.
- `update` updates all installed channels by default, or one selected channel.
  It is the only command that replaces an installed release.
- `remove` removes all installed channels by default, or one selected channel.
  Removing the active channel also removes nv's managed executable link.
- `rollback` swaps a channel's current and previous releases. Running it again
  swaps forward.

## Layout

- `src/` is the library, verified with Verus. It decides everything: what to
  look at, what to change and in what order, and what each outcome means.
- `app/` is the program. It performs the actions that the library asks for and
  hands back the replies.
- `tests/` runs the library on values and, in whole commands, on a machine in
  memory.
