# pajson

A compiler from Pajson, an emoji programming language, to C, written in
Verus: each stage states what it computes as a contract and the contracts
are proved.

Layout:

- `src/tokenizer.rs` — tokens, locations, and the tokenizer; `src/scan.rs`
  specifies each part of reading as a function of the source and the reading
  state; `src/scan_laws.rs` proves what holds of every run (tokens are only
  appended, integers are non-negative, names are made of the listed emojis,
  every accepted statement ends with an end-of-line token, parentheses and
  blocks open as often as they close, comment lines between statements are
  ignored, and failures are errors for the user or the conditions where
  reading gives up: an index past the end, an overflowing integer).
- `src/parser.rs` — the syntax tree, its specification and the parser; its
  laws: operators group to the left and a leading `➖` negates one factor,
  expressions read only variables that are set, variables stay set, and an
  accepted program reads every variable after an earlier statement set it.
- `src/parse_laws.rs` — how the parser reads statement by statement:
  complete statements give their nodes in order whatever follows them, a
  conditional's block ends at the `🫴` that matches its `🫳`, and every
  assignment's target is set after the statements.
- `src/compiler.rs` — the C printer, the variable table and their laws (each
  variable gets the name `v<n>` by order of first assignment, names are
  distinct and stable, a program is `main` around its statements, every
  well-formed expression tree prints its operator tree).
- `src/text.rs` — decimal rendering and string helpers.
- `app/main.rs` — the command: reads standard input, writes `output/main.c`.

Usage:

```
pajson < input/fib.txt
clang output/main.c -o output/main
```

The statements of the language: `name 👈 expr` assigns, `💬✋ expr 🤚`
prints, `👀 expr cmp expr 🫳` … `🫴` is a conditional, `🔄🫳` … `🫴` a
loop, `🔚` leaves the loop. Expressions use `➕ ➖ ❎ ➗` and the
parentheses `✋ 🤚`; the operators of a level group to the left, `❎ ➗`
bind tighter than `➕ ➖`, and a `➖` at the start of an expression or after
another operator negates the factor after it. Comparisons are
`👉👈 🐊 🐰 👎🐊 👎🐰 👎👈` (compiled to `== > < <= >= !=`); the digits are the
clock faces `🕛 🕐 … 🕘`; `🙈` starts a comment, and blank and comment lines
may stand anywhere between statements. A line ends with a line feed, a
carriage return or the end-of-text sign U+2403. The blocks of conditionals
and of loops hold one or more statements.
