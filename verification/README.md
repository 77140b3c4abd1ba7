# grammar_analyzer

A grammar analyser, written in Verus and proved against its contracts.

A grammar is read from three texts: the terminal words, the nonterminal words
and the productions (`HEAD alt1|alt2|...`, each alternative cut into known
words, `nil` for the empty body). From it the library builds:

- an LL(1) analyser: FIRST and FOLLOW sets (each proved to be the least set
  closed under the usual rules), the analysis table, and a stack machine that
  analyses a sentence and logs the productions it applies;
- an LR(1) analyser: the augmented grammar, its items, the item sets (each
  proved to be an LR(1) closure), the transitions between them (pruned and
  merged until no set goes to two sets on one symbol), the shift, goto and
  reduction tables, and a stack machine that analyses a sentence and logs its
  stacks.

Layout:

- `src/` the verified library: `text` (strings, splitting, numbers),
  `dict` (association lists), `language` (reading a grammar), `first` and
  `follow` (the sets), `growth` (finiteness arguments), `history` (the LL(1)
  log), `ff` (the LL(1) analyser and its table), `pattern` (regular
  expressions, through the `regex` crate), `lr` (the LR(1) analyser);
- `tests/` tests of the library on concrete grammars;
- `app/` the program and its C interface: reading the grammar files, printing,
  and handing analysers to C callers.
