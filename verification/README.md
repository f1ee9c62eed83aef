# git-embed

Semantic similarity search for git repositories: embeddings of file contents, kept under
a ref of the repository and searched by cosine similarity.

`src/` is the library, written in Verus. Every function states what it returns in its
contract, and the contracts are proved:

| module | contents |
|---|---|
| `git` | tree entries, text files, object names, blob contents |
| `index` | the embedding index and its binary form |
| `wire` | big-endian numbers and length-prefixed text |
| `search` | candidates, ranking, search by query and by file |
| `order` | the ranking behind search and batching |
| `definition` | which tokenizer definitions are admitted |
| `tokens` | the tokenizer, and padded batches of tokens |
| `chunks` | splitting long texts at line boundaries |
| `batches` | packing texts into batches |
| `model` | planning, batched inference and reassembly of documents |
| `update` | pruning, new blobs, selection of documents, storing a batch |
| `hooks` | the section that the tool keeps in git hooks |
| `report` | what the commands print |
| `sha_map`, `lists`, `text` | an ordered map, lists of lists, and the text operations underneath |

Scores and vector components appear in the library as the bit patterns of IEEE 754
singles. Similarity, inference and averaging are functions that callers hand in; what is
proved holds for all of them.

The public proof functions named `law_...` state what holds across functions, for example
that an index reads back as it was written, that every text is in exactly one batch, that
documents get the same vectors together as on their own, and that installing hooks twice is
the same as installing them once.

`app/` is the command line around the library: git and file access, the ONNX session,
arithmetic on vectors, and argument handling. `tests/` runs the library.

Calls into other crates (`byteorder`, `git2`, `serde_json`, `tokenizers`) and into the
standard library that carry a contract without a proof are marked `external_body` or
`assume_specification`; the comment above each says what is taken for granted.
