# Junk

Junk is a small data language for describing game entities that maps directly
to JSON. This crate reads Junk documents and writes them as single-line JSON;
the parser, the JSON writer and the string escapes are verified with Verus.

## Layout

- `src/model.rs` — the abstract value (`JValue`) and its JSON text (`json`),
  string escapes, integer text.
- `src/grammar.rs` — the grammar, as a parsing expression grammar over the
  characters of the input (`document_value`); also where reading stops in an
  input that is not a document.
- `src/value.rs` — `Value` and `Def`, the parsed form, with their abstract view.
- `src/lex.rs`, `src/parser.rs` — the scanner and the parser (`parse_document`),
  proved to follow the grammar.
- `src/render.rs` — `Value::to_json`, proved to write `json`.
- `src/range.rs` — `Value::ints_fit`: whether every integer fits an `i64`.
- `src/escape.rs` — `unescape`.
- `src/convert.rs` — `parse_junk`: parse and write in one call.
- `src/laws.rs` — properties of the whole: escapes read back, strings
  round-trip, output holds no raw control character (so is one line), the
  structure of lists, objects and definitions, `#id` comes first, flags.
- `src/margins.rs` — blank lines and comments around a document change nothing.
- `app/main.rs` — the `junk` command.

## The grammar

- Blanks (space, tab) and line comments (`//` to the end of the line) may stand
  between any two tokens. Line breaks are `\n`, `\r\n` or `\r`.
- A document is a newline-separated sequence of values (a JSON array; tried
  first, so an empty document is `[]`) or of definitions (a JSON object).
  Blank lines and comments may stand anywhere between them.
- A value is an object, a list, a float, an integer, `true`, `false` or a
  string.
- An integer is an optional `-` and `0` or digits without a leading zero; a
  float is an integer, `.` and at least one digit.
- A string is `"..."`; `\"`, `\\`, `\n`, `\r`, `\t` are its escapes, and any
  other backslash is an error.
- A list is `[ ... ]`: its items are comma-separated (at least two, no
  trailing comma) or newline-separated; line breaks may follow `[` and
  precede `]`.
- An object is `#id { ... }` or `{ ... }` with definitions separated as list
  items are. `#id` becomes `"id": "id"`, first.
- A definition is `key: value`, `!key` (false) or `key` (true). Keys are runs
  of ASCII letters, digits, `.`, `-` and `_`.

In the JSON output, strings escape `"`, `\`, line feed, carriage return and
tab with a backslash, and every other character below U+0020 as `\u00XX`.

Floats are written by a function that the caller passes: the `junk` command
parses the literal as an `f64` and displays it, so `1.0` is written `1`.
Integers must fit an `i64`.
