# gfx_tool

Extract and re-inject Scaleform `.gfx` / Adobe SWF movies in *Mercenaries 2: World in Flames* (PC),
producing a `vz-patch.wad` overlay.

```bash
# Locate a movie asset by name
gfx_tool find    --wad vz.wad minimap loadingscreen hud

# Characterize a block: entry table, UCFX container layout, movie header, CSUM
gfx_tool inspect --wad vz.wad --block-name minimap        # or --block-index N

# Pull a movie's .gfx/.swf out to disk
gfx_tool extract --wad vz.wad --name minimap --out minimap.gfx

# Build a patch WAD overriding one movie with a modified file (fresh or merged)
gfx_tool build   --wad vz.wad --name minimap --movie minimap.gfx --out vz-patch.wad
gfx_tool build   --wad vz.wad --name minimap --movie minimap.gfx --out vz-patch.wad \
                 --merge existing-vz-patch.wad
```

## Layout

`src/` is the library, written in Verus: every function has a contract, which Verus proves but for
the functions marked `external_body`.

- `movie`: movie headers and how the first believable one is found
- `container`: UCFX containers, extracting a movie and splicing another one in
- `block`: decompressed blocks, their entry table and containers
- `archive`: asset and chunk tables, block paths
- `patch`: patch blocks and patch archives, fresh and merged
- `layout`: how a patch archive is laid out, and what comes back from it
- `sges`: compressed blocks
- `inspect`: reports on blocks and containers
- `error`, `text`, `strings`, `bytes`, `checksum`, `asset_types`: what the others are written with

Functions named `law_*` state what holds of several functions together. `law_extract_after_rebuild`,
`law_fresh_patch_gives_movie`, `law_movie_comes_back_from_patch` and `law_movie_survives_merge` say
that an injected movie comes back byte for byte.

The archive formats themselves (FFCS archives, sges compression, the walk over a block) come from the
`mercs2_formats` crate. What the proofs take for granted of it, and of a few string functions of the
standard library, is written in the contracts of the functions marked `external_body`.

A function that cannot be asked for every input has a companion whose name starts with `can_`, which
tells whether it can; `merge_wad` has `try_merge_wad`.

`app/` is the command line program: it reads and writes files and prints. `tests/` runs the library on
concrete values.
