# watch-floor

A terminal dashboard that shows, live, what edits are doing to a Python
package's structure — the class hierarchy and the call graph — by comparing the
working tree against the baseline committed at git `HEAD`.

The library under `src/` is verified with Verus: every rule that turns two
snapshots of source into the two views is ordinary code with a contract. What
is taken on trust are the calls into tree-sitter — making a parser, loading the
Python grammar into it, and the parse itself, whose result is named
(`python_nodes`) so that everything read off the tree is proved against that
name — and std's `String::push`.

| module | what it holds |
| --- | --- |
| `text`, `strmap` | strings as character sequences, and an ordered string-keyed map |
| `intercept` | tree-sitter parsing, lifted into plain `Syntax` trees, and the rules that read classes, functions, calls and imports off them |
| `dossier` | `Subject`, `Operation`, base resolution, method lookup and call wiring |
| `pairing`, `sitrep` | pairing moved definitions; `Status`, `Edge`, `Counts`, tree flattening |
| `structure`, `network` | the class diff and inheritance forest; the call diff and traffic forest |
| `collection` | module naming, path handling, and filing one swept file into a snapshot |
| `app`, `look`, `floor`, `report`, `manual` | the operator's seat and keys, and every line the floor, the report and the field manual show |

`app/` is the program around it: command-line arguments, reading files and
git, the filesystem watcher, and drawing the lines on the terminal.

Laws the library proves stand as `law_*` proof functions beside the code they
speak of.
