# grove_compiler

A season-based compiler for a small expression language, verified with Verus.

- **Spring** (`src/spring.rs`): the lexer and the recursive-descent parser.
  Both are specified by spec functions (`lex_from`, `p_program` and the
  `p_*` family), and `Lexer::tokenize`, `Parser::parse_program` and `spring`
  are proved to compute exactly what those say, errors included.
- **Summer** (`src/summer.rs`): scope validation of programs (`summer`),
  type checking of the typed expression grove (`typecheck`), and constant
  evaluation (`const_eval`).
- **Autumn** (`src/autumn.rs`): constant folding, identities, strength
  reduction and constant branches, with the proofs that optimization keeps
  the value of every expression, is idempotent, and keeps valid programs
  valid.
- **Winter** (`src/winter.rs`): emission of balanced ternary bytecode, with
  its constant pool proved to be the program's literals in order.
- `src/ast.rs` and `src/ast/`: the program syntax, the typed expression
  grove and balanced ternary digits (`encode_int` / `decode_int`, proved to
  be inverse).
- `src/num.rs`: exact rational numbers, in lowest terms, used for every
  literal.

`app/lib.rs` holds serializable mirrors of the token type and of the typed
expression grove (the types that carry serde derives), with conversions to
and from the library's types, and a displayable error. The program syntax
and the bytecode have no serde mirrors.

Numbers are exact fractions in lowest terms whose numerator and denominator
fit in an `i64` (`Num`). A number literal whose exact value is beyond that
is kept as written: the lexer gives a `Token::Numeral`, the parser an
`Expr::Numeral`, and winter puts it in the constant pool as
`Constant::Numeral`; the lexer never refuses a run of digits and dots.
Folding is exact: a numeral is never folded, and a fold whose exact result
would leave the range of `Num` is not done (the operation stays in the
program).
