# highlighting

A verified library that finds the tokens of a document which a search should highlight.

A document is the sequence of tokens that an analyser cut out of a text. `DocumentHighlighter`
indexes it by term and answers six kinds of searches: for a term, a wildcard pattern, a regular
expression, a fuzzy key, a phrase, and words near each other. Every answer is specified over the
document itself, and Verus proves that the code gives it. What the crates `regex` and `levenshtein`
answer is trusted: their functions have contracts, in `pattern` and `fuzzy`, that are not proved.

| module                 | holds                                                              |
|------------------------|--------------------------------------------------------------------|
| `token`                | tokens as they are reported and stored, and their model            |
| `document`             | occurrences and terms of a document                                |
| `document_highlighter` | the index, and the search for a term                               |
| `pattern`              | regular expressions (crate `regex`) and wildcard patterns          |
| `fuzzy`                | edit distance (crate `levenshtein`) and fuzzy searches             |
| `proximity_model`      | which tokens a proximity clause or a phrase finds                  |
| `proximity`            | proximity and phrase searches                                      |
| `rows`                 | the searches as table functions                                    |
| `error`                | why a search is refused                                            |
| `laws`, `proximity_laws` | what holds of the searches as a whole                            |

`app/` has the texts analysed by a search server and yields the rows.
