# build_content_pack

Builds content packs from source files: TOML files become JSON, SVG images become PNG, and all other
files are copied. What is built goes to a directory, where files that are up to date are kept, to a
zip archive, or to both.

- TOML files can put other files in their place with `##include other-file.toml` at the start of a
  line. Other uses of `##` at the start of a line are escaped with `###`. What to include is a glob:
  `?` stands for one character as a reader sees it, `*` for any number, `**` for any directories, and
  letters match whatever their case.
- A directory with an entry named `.content-pack-skip` is left out.

## Layout

`src/` is a library that touches no files. It parses and matches, decides what is to be done next and
with what result, and proves that of itself.

| module | what it does |
| --- | --- |
| `utf8`, `grapheme`, `normal`, `text` | text, broken or not, as matching sees it |
| `glob` | globs: `lex`, `parse`, `pattern`, `matching` for names, `paths` for paths, `walk` for directories |
| `toml` | preprocessing, line by line and file by file, and writing JSON |
| `svg` | writing PNG |
| `source`, `pack` | what is built of which source, and in what order |
| `out` | where it goes |
| `cli` | what the command line asks for |
| `ascii`, `order`, `file`, `world`, `tally` | what the others share |

Functions whose name starts with `law_` are proofs of what holds of the library as a whole.

- `glob::separators`, `glob::wildcards`: how separators are repeated makes no difference to a glob, and
  it may match several files if and only if it has a wildcard that is not escaped.
- `glob::finding`, `glob::whole`: a name matches wherever the strings between wildcards can be placed in
  it, and a string matches all of a text from either end.
- `glob::search`, `glob::distinct`, `glob::ending`: a walk finds the files that a glob matches, no others,
  and none twice. It comes to its end, or is refused a directory that is also one of those that it is in.
- `toml::expansion`, `toml::reached`, `toml::loops`, `toml::ending`: preprocessing gives the text that a
  file stands for. It comes to that end, or is refused a command or a file, and always is refused if a
  file would be read into itself.
- `pack::coverage`, `pack::once`, `pack::ending`: a build comes to every file that is not left out, and
  opens and closes every such directory, none of them twice. It comes to its end, or is refused: for a
  name that two entries are built into, or a directory that is also one of those that it is in.

`app/` is the program around it: arguments, files, archives, and rendering.
