# docsearch

A compact keyword index over documents, with fuzzy search, verified with Verus.

Each document (title, category, href, body, optional keywords) is reduced to
keywords: the ones it lists, the words of its title, and RAKE's best phrases
from its body within two budgets. The keywords go into an FST map that numbers
them; each number has a posting list of (document, score) pairs. The documents'
strings are kept FSST-compressed. A search looks each query word (and the
whole query) up within one edit or as a prefix, adds up the scores per document
and returns the best documents.

An index is written with postcard as its keyword pairs (in key order), the
string vector's table, offsets and codes, and the posting lists. Reading it
back checks every part and rebuilds the FST map from the keyword pairs, so the
library only ever searches maps that its own builder wrote.

Layout of `src/`:

- `strvec.rs` — `FsstStrVec`, the compressed string vector.
- `text.rs` — word splitting and normalisation.
- `order.rs` — byte order, rankings and sorting, with their lemmas.
- `fstmap.rs` — the keyword map (calls into `fst`).
- `keywords.rs` — which keywords a document gets (calls into `rake`).
- `builder.rs` — building an index from documents.
- `index.rs` — `Index`, `Document`, and the byte form (calls into `postcard`).
- `search.rs` — scoring and ranking documents for a query.
- `stopwords.rs` — the English stop-word list.

`app/` holds the serde-facing front end: a copy of `Document` with serde
derives, and helpers that build an index as bytes and search such bytes.
