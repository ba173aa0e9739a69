# awm

A terminal browser for Apple's aerial wallpapers: it reads the wallpaper manifest, shows its
categories as a tree, and downloads what is chosen.

- `src/` is the library. It holds everything that is decided or computed, and Verus proves each
  function against its contract.
- `app/` is the program around it: arguments, files, the network, threads and the terminal.
- `tests/` runs the library on concrete values.

## The library

| Module | What it holds |
| --- | --- |
| `text` | operations on texts, and the trusted facts on strings of the standard library |
| `paths` | paths: bytes whose separator is `/` |
| `json` | JSON documents as plain data, read with `serde_json` |
| `strings` | localized labels, and which locale they are taken from |
| `naming` | labels, file names and extensions |
| `catalog` | categories, subcategories and assets |
| `manifest` | from a JSON document to a catalog |
| `locate` | where the manifest, its strings and the downloads are |
| `downloader` | the queue; `pool`: the workers that share its jobs; `job`: the life of one download; `course`: what holds of all of them |
| `app` | the state of the browser: the tree, the selection, downloads, keys |
| `screen` | the lines that the screen shows |

What only a machine can tell (what is on the disk, what a server answers, what a program wrote) is
handed to the library as plain values. A download is a `Transfer`: it says which action comes next
and takes the report on it. A path is its bytes, so a directory need not have a name in Unicode.
Functions whose names begin with `law_` state what holds of several functions together.

## Keys

- `Up` / `Down` move through the tree
- `Right` expand, `Left` collapse
- `Space` toggle the category, subcategory or asset under the cursor; an asset stays chosen while
  its subcategory is
- `a` select all subcategories, `c` clear the selection
- `x` remove the files under the cursor from disk
- `d` or `Enter` start downloading
- `q` quit
