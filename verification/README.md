# address_extractor

Extracts the addresses of all senders and receivers in a range of blocks of an EVM chain, and
writes them, sorted and without repetitions, to one compressed CSV file for every million blocks.

- `src/` is the library. It is written in Verus: every function carries a contract that is proved
  from its body. Proof functions whose names start with `law_` state what holds of several
  functions together, for example that every block of a run is requested exactly once
  (`plan::law_every_block_once`), that a fetch ends (`fetch::law_fetch_ends`), that one that ends
  well yields what is in the blocks it received, whatever failed in between
  (`replies::law_fetch_yields_received_blocks`), and that the file of a part holds exactly the
  addresses in its blocks (`extraction::law_part_is_complete`,
  `part_file::law_file_holds_the_set`).
- `app/` is the program around it: arguments, HTTP requests, pauses, files and uploads.
- `tests/` runs the library on concrete values.

Three things are believed without proof: what `hex::decode_to_slice` and `hex::encode` do
(`src/address.rs`), and what `str::to_lowercase` does (`src/chains.rs`).
