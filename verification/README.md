# resharp_rs

A regex engine built on Brzozowski derivatives, with intersection (`&`),
complement (`~(...)`) and the universal wildcard (`_`). Matches are
leftmost-longest. The library is written in Verus: Verus checks every
function of `src/`, and the functions that compute a result carry contracts
that state it. Input is matched byte by byte, each byte read as the
character with its code point; searches try the positions where a character
begins, so the search laws speak of those positions. The meaning of a pattern
is stated for ASCII words.

## Layout

- `src/types.rs`, `src/types/node_id.rs`: node identifiers, flags, matches.
- `src/charset.rs`: character sets (an ASCII bitmap and Unicode ranges).
- `src/semantics.rs`: what a node of the node table accepts, its
  nullability, and the laws that survive the growth of the table.
- `src/builder.rs`: the hash-consing node builder and its simplifications.
- `src/algorithm.rs`: nullability and derivatives.
- `src/grammar.rs`: the pattern syntax as a scan over the pattern's
  characters: where each construct ends, or the first error and its message.
- `src/meaning.rs`: what a pattern means, as a set of words.
- `src/parser.rs`: the recursive-descent parser, proved to follow the scan
  and to build nodes that mean what the pattern means.
- `src/engine.rs`: the matcher (lazy DFA, precomputed DFA, literal-prefix and
  start-byte search) and the search laws.
- `src/fxmap.rs`: the hash maps of `rustc-hash` used by the builder and the
  engine.
- `app/`: copies of the error types with `Display` and `std::error::Error`.

## Main results

- `Regex::new` succeeds exactly on the patterns the scan accepts; otherwise it
  reports the scan's first error, at its position and with its message.
- For a pattern without anchors, lookarounds or word boundaries, the root
  node accepts exactly the ASCII words the pattern means.
- `find`, `find_all` and `is_match` return longest matches; for a pattern
  without anchors or lookarounds, and while no more DFA states have been built
  than the state limit allows, they return the leftmost-longest matches among
  those that begin at a character start, over any input
  (`lemma_find_means`, `lemma_find_all_means`, `lemma_is_match_means` state
  this in the pattern's own terms for ASCII input). Once the limit is exceeded, every search fails;
  `Regex::new` builds at most 1024 states and a search over `n` bytes at most
  `(n + 2) * (n + 1)`, so the default limit of 10000 is not reached by a
  fresh regex searching a short input.
  The first match `find_all` lists is the one `find` returns
  (`lemma_find_is_first_of_find_all`, and `lemma_first_of_all` in the
  pattern's terms).
- The derivative of a plain node by a character accepts exactly the words
  that, preceded by that character, the node accepts; that of a
  concatenation headed by an anchor is the derivative of its tail where the
  anchor holds, and `BOT` elsewhere.
- The patterns `^`, `$` and `(?m)` parse to the anchor nodes and to `EPS`;
  `find` with a lone `^` gives the empty match at the start, with a lone `$`
  over ASCII input the empty match at the end.
- Alternations are hash-consed: lists with the same members, in any order,
  repeated or with `BOT` among them, give the same node
  (`lemma_mk_or_same_members`); `mk_not(mk_not(x))` is `x`.
