# erigon_seg

A verified library for the Erigon 3 **seg** state file format. It reads, queries, writes
and merges the file triple Erigon writes for each domain snapshot.

| File    | Contents                                                                        |
|---------|---------------------------------------------------------------------------------|
| `.kv`   | `seg`-compressed *words*. For a domain file: alternating sorted `key`, `value`.  |
| `.bt`   | B-tree index: an Elias-Fano array of the `.kv` byte offset of every key.         |
| `.kvei` | Existence (bloom) filter: a *negative* lookup accelerator.                       |

## Layout

- `src/` is the library. It works on the bytes of the files, and every public function
  carries a contract that Verus proves.
- `tests/` runs it.
- `app/` is the file layer around it: mapping, advising, locking and writing files, and
  searching for a salt with threads.

## What is proved

Each function is proved to do what its contract says, without panicking. The proof
functions named `law_…` state what holds of several functions together. The main ones:

- `readback::law_written_domain_reads_back`: every key of a written domain is found with
  its value, and no other key is, with the index and the filter or without; iterating
  gives the pairs back in order.
- `readback::law_written_words_read_back`: a written `.kv` that opens gives the words it was
  written from one after the other, compressed or not. `depth::law_small_files_are_readable`
  bounds the code lengths, so that files of any ordinary size open.
- `built::law_built_index_holds`, `built::law_built_nodes`, `built::law_built_index_narrows`:
  an index built for any `.kv` finds every key, its nodes describe the file, and narrowing a
  search never loses a key. `ef_builder::law_ef_roundtrip`: every offset comes back.
- `built::law_built_filter_holds`, `kvei_writer::law_no_false_negatives`: a filter never
  reports a key that was added as absent.
- `reader::law_enabling_hides_nothing`, `ages::law_stack_finds_newest_under_any_salt`: a
  wrong salt can never cause a missed key.
- `newest::law_merge_takes_newest`, `ages::law_merge_answers_as_stack`: newest wins, in a
  merge as in a stack of the same files. `ages::law_stack_takes_any_order` and
  `ages::law_merge_takes_any_order`: the order in which the files are given does not matter,
  unless their steps are the same.

Nothing is taken on trust beyond Verus and its specifications of the standard library: the
library calls no other crate.
