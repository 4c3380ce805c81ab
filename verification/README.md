# lex_tables

Builds the lexers of a generated parser, and proves that they do what the lexical
grammar says.

The input is a lexical grammar (a nondeterministic automaton with a start state for each
token), the parts of a parse table that lexing depends on, and what is known of how
tokens can be mistaken for each other. `build_lex_table` returns the main lexer, the
keyword lexer and the list of large character sets, and sets the lexer state of every
parse state. `try_build_lex_table` does the same, and returns nothing if a lexer has more
states than can be numbered with 32 bits.

## Layout

- `character_set`, `sorted`, `order`, `bits`: character sets, sorted lists, stable
  sorting and rows of bits.
- `nfa`, `transitions`, `cursor`, `runs`: automata, and what they do on a text.
- `rules`, `grammars`, `tables`: symbols and token sets, grammars, lexer and parse tables.
- `token_conflicts`, `token_groups`: which tokens clash, and which parse states can share
  a lexer state.
- `continuation`, `keywords`: which tokens the lexer looks for in a parse state, where
  the word token stands in for keywords.
- `configs`, `builder`: the lexer that an automaton makes up, and its construction.
- `groups`, `minimize`, `sort_states`: joining and sorting the states of a lexer.
- `large_sets`: character sets with many ranges.
- `build_lex_table`: all of it together.
- `table_runs` and the modules whose names end in `_laws`: what lexers do on a text, and
  what holds of the library as a whole.
- `hashing`: the hash maps and sets of `rustc_hash`, with what is believed of them.
