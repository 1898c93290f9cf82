# ferralk

A filesystem walker whose decisions are proved.

The library in `src/` reads include and exclude patterns for a root, reads and
applies gitignore files and the Git configuration that bears on them, parses
directory records, classifies every entry, and drives a serial walk, a visited
walk and a pull-based stream one step at a time. It does no input or output
itself: each step names what has to be read next, and takes the answer. All of
it is verified with Verus. The outside calls it makes (glob compilation and
matching, substring search, Unicode composition) stand behind small trusted
functions in `glob.rs`, `search.rs`, `unicode.rs` and `dirent.rs`.

`app/` is the crate a program uses: it opens directories, asks the filesystem
and runs the library's steps.

## Layout

| module | what it holds |
| --- | --- |
| `absolute`, `literal`, `pattern`, `pattern_error`, `glob` | patterns: absolute spellings, literal prefilters, reading one for a root, matching |
| `rule_syntax`, `components`, `ignore_rules`, `rule_laws` | one gitignore rule: its syntax, how its components cover a path, rule sets |
| `gitignore`, `repository`, `git_config`, `config_laws` | rule sets along a path, where a repository keeps its metadata, configuration files |
| `options`, `walker` | a walk's options and how they are built up |
| `classify`, `listing`, `dirent` | one entry, one directory's entries, one kernel record |
| `walk`, `stream` | the serial walk and the stream, step by step |
| `runs`, `agreement`, `aborting`, `ending` | whole walks: what they report, that the frontends agree and abort alike, that they end |
| `bytes`, `paths`, `volume`, `unicode`, `search`, `failure` | byte strings, path spellings and order, drives and shares, composition, searching, failures |

Laws that relate several functions are public proof functions whose names start
with `law_`.
