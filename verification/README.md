# script_descriptor

A small language of Bitcoin Script fragments, verified with Verus.

A fragment is one of five kinds (`E`, `W`, `F`, `V`, `T`), each an AST of
key checks, timelocks, hash checks and their combinations. The library
serializes fragments into Script, reads them back from a script's tokens,
names them in a descriptor language, prints them, and translates their keys.

Modules under `src/`:

- `ast`: the five kinds, the instructions that each fragment stands for, and
  `pushes_fit`, which checks what serializing needs.
- `script`: the bytes of a script, and the calls into `bitcoin`'s `Builder`.
- `serialize`: fragments to Script; the bytes appended are exactly those of
  the fragment's instructions.
- `elem`: any one fragment (`Elem`), the casts between kinds, and the
  `AstElem` trait.
- `lex`: script tokens and the stack the parser reads them from.
- `canon`: the tokens of a fragment, and the forms of fragment that the
  script parser reads back from their own tokens.
- `parse`: the script parser. What it returns stands for exactly the tokens
  it took, and every fragment of the forms in `canon` (all but a cascade
  `or` of kind `E`, whose tokens are also a `T`'s) is read back from its
  own tokens, an expression cast to `W` included: `TOALTSTACK` stops the
  expression from being joined to what precedes it.
- `expression`: fragments from descriptor expression trees, sound and
  complete against the forms the language gives each kind; a tree names at
  most one fragment of each kind; a refused tree gets the error of its first
  part, left to right, that names nothing of the kind sought there.
  `from_tree` needs only that no `multi` or `thres` it would read as an
  expression lacks its threshold (`e_ready` and the like); `is_tree_ok`
  checks a condition that suffices for every kind.
- `printed`: the text of an expression tree. A fragment read from a tree
  whose leaves are written as the library writes them prints as that tree's
  text; the tree in which the library writes a fragment has the fragment's
  text, and reading it gives the fragment back (print, read, print gives
  the same text).
- `keys`: public keys and hashes by their bytes, parsed from text with
  `secp256k1` and `bitcoin_hashes`.
- `display`, `text`: the descriptor text of a fragment, over any key with a
  text form (`KeyText`: public keys in hex, numbers in decimal).
- `debug`: the debug form, the text form with each part tagged by its kind
  and each key in its own debug form (`secp256k1`'s for public keys).
- `translate`: the same fragment over another key type: the shape is kept
  and each key mapped in order.
- `error`: the parsers' errors.

The tests under `tests/` run the library with the real outside crates.
