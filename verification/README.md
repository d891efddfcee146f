# over

A reader for OVER, a data format like JSON with variables, object parents, file includes,
arithmetic on values and a type system, written in Verus with its behaviour stated as
contracts and proved.

## Layout

- `src/types.rs`: the types of values (`Type`), their equality, refinement and the most
  specific type of two types, with the laws they obey.
- `src/bignum.rs`: arbitrary-size integers and fractions, backed by `num-bigint`,
  `num-rational` and `num-traits`; fractions are always kept in lowest terms.
- `src/value.rs`, `src/valid.rs`: values, arrays, tuples and objects, their models, and what
  it is for a value to be well formed (arrays of one type, distinct field names).
- `src/parse/`: the character stream, character classes, include bookkeeping and the parser.
  `parse_obj_str` reads an object from text; its contract states that the result is well
  formed and, for text made of simple fields, globals and parent fields, exactly which fields,
  values and parent it holds.
- `app/`: reading files from disk and resolving file includes around the library.
- `tests/`: tests of the library on concrete inputs.

Verify with Verus on `src/lib.rs`.
