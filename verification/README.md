# A verified front end for a small systems language

The library reads programs of a small language (slots, layouts, procedures, `when`,
`during`, `emit`, `yield`, pointers and arrays) and turns them into a three-address
intermediate form. Every stage is stated as a mathematical function and the code is
proved to compute it:

- `lexer`: characters to tokens; `lex` is the lexical grammar.
- `parser`: tokens to a syntax tree by recursive descent; the `p_*` functions are the
  grammar, `program` reads a whole program.
- `ir`: syntax tree to intermediate code; `gen_program` and the `gen_*` functions say what
  each node generates.
- `parserlearnmaterial`: a small parser for chains of number literals joined by `+` and `-`.
- `core_types`, `text`: the shared data types, their models, and string building.

Laws proved about the stages include: the tokens end with exactly one end-of-input token;
whitespace and whole line comments before a text change none of its tokens; reading a
program stops only at the end of the tokens or at an end-of-input token; layout fields lie
eight bytes apart; in a generated program no register is written twice and no label occurs
twice, across all its instruction lists; every register an instruction reads is written
earlier in the same list; every jump goes to a label of the same list; string constants are
stored once, and the code loads only strings that the table holds.

`app/main.rs` is the command-line driver: it reads `source.txt` and prints the
intermediate code.
