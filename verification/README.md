# terbium_grammar

The grammar of the Terbium language, as a Verus library: tokens, the syntax tree, and a parser
that is proved to compute what the grammar says.

```rust
let (tree, errors) = Body::from_string("let x = 5; x + 1".to_string());
```

## Layout

- `token`, `error`: the tokens, and what can be wrong with a text.
- `lexical`, `lexer`: which texts are which tokens, and the lexer that finds them.
- `ast`: the syntax tree, its views, `get_body_parser` and `ParseInterface`.
- `grammar`: which token sequences are which trees, as rules made of rules.
- `parser`: the parser, function by function the grammar's rules.
- `copy`: copies of trees.
- `nesting`: what holds of the rules when they are nested in each other.
- `shape`: the trees that can be read.
- `laws`: what holds of the grammar as a whole.
- `embedding`: what is read of tokens in one sequence and in a longer one that holds them.
- `joining`: what holds of sequences that are put together from others.
- `writing`: how each of those trees can be written down in tokens, and that it is read back.
- `spelling`: how tokens are spelled, and that they are read back, and with them the trees.
- `app`: the parser for bodies as a `chumsky` parser.

## Things to know about the language

- Alternatives are ordered, and repetitions are greedy: nothing is taken back.
- An assignment has one target or more, each with its own `=`: a name, a list of names in square
  brackets or, unless `let` or `immut` stands before it, an attribute: `x.y = [a, b] = z;`.
- `const` is a keyword, but begins no statement.
- An `if` is a statement wherever it ends a body; its value is not returned.
- A value is called once at most: write `(f())()`.
- Every token sequence begins with a body, perhaps an empty one. What follows it is passed over.
