# cxpk

Packs folders of game assets into binary blobs and one container, and unpacks them again.

The library under `src/` is written in Verus: what each function returns is stated in its contract
and proved. The program under `app/` reads and writes the files, walks directories, runs the worker
threads and does the arithmetic on floats.

The library decodes the PNGs on which the decoder is known not to panic. Other pictures are decoded
by the program, and their pixels are handed to the library.

| module | what it holds |
| --- | --- |
| `bytes` | little-endian fields and byte strings |
| `text` | numbers as text, comparisons and small edits |
| `sort` | putting things in order by name |
| `raster`, `sheet`, `tiles` | pictures, pictures laid out in cells, textures cut into tiles |
| `codec` | PNG streams and files, through `png` and `image` |
| `tree` | TOML and JSON documents, through `toml` and `serde_json` |
| `driver`, `fault` | the drivers of the formats, what unpacking asks for, what can be wrong |
| `cxan`, `cxsi`, `cxta`, `cxmp` | animations, images in variants, atlases, maps |
| `hitbox` | hitboxes dealt out to the tiles of a map |
| `container` | the container of all the blobs and files |
| `packer` | which folders and files of a directory are packed, and under which names |
| `cli` | the command line |

For each format a proof function `unpacking_undoes_packing` states that unpacking gives back what was
packed, and under which conditions.
