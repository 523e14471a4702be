# Mt Postings

A posting index over an ordered key-value store, with what BM25 scoring needs. The library is
written in Verus: what its functions return is stated in their contracts and proved.

Documents get sequential docids. A posting list is stored as blocks, each under a key that ends with
its first docid. A list that grows is divided into more blocks, so that seeks stay cheap. Batching
updates keeps the amount of rewriting down.

For each token of a field the store has

* a statistics entry with the document frequency and the term frequency over all documents, or, for
  a token in one document only, the posting itself;
* a document posting list with the matching docids and the term frequency in each;
* optionally the positions of the token within each document.

## Layout

`src/` does no input or output. Where an append or an iterator needs an entry of the store, it says
which one (`store::Query`) and goes on when it gets the answer; what is to be stored comes out as
`store::Write`s.

* `varint`, `bytes`, `words`: numbers in bytes, and the order of keys
* `features`, `field`: what a field records, and how its keys and keyspaces are named
* `stats`, `block`, `positions`: the values that are stored
* `token_map`, `buffer`: documents gathered in memory
* `append`: appending a buffer to a field
* `iter`: iterating over the documents of a token
* `store`, `stored_list`: what a store holds, when it holds a posting list, and what iterators give
  over such a list
* `token_append`, `append_law`: an append makes the lists longer, and what was appended is read back
* `written_out`, `batching`: which entries a list has, byte for byte, and that batches do not show
* `reader`, `tokenizer`, `ingest`: records of a file, their tokens, and batches of them
* `ingest_law`: which documents a run over records puts into the index

`app/` is a command line tool that keeps the index in a fjall database. `tests/` runs the library
against such a database and against a map in memory.

Deleting documents is not supported.
