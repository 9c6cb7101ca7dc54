# backup_inventory

A size-exclusion report for backups: newline-delimited JSON that lists the files a backup
would leave out for their size, under a hard limit on the report's bytes.

The library under `src/` is verified with Verus. `serde_json` renders the JSON; everything
that is taken for granted of it stands in `src/codec.rs`. Proved are, among others:

* a report never holds more bytes than its limit, and it is complete exactly when all of it
  fits, equality included;
* whatever happens, what was written is a prefix of the whole report, each finished line is a
  whole record, and a report that failed has no completion footer: the last record is written
  whole or not at all, and no line of such a report, cut short or not, reads as that record;
* each line of a report, read on its own, gives back its record, where that record has no
  floats and is not nested too deeply;
* file names and counters lose nothing: distinct paths and distinct integers have distinct
  encodings.

`app/` holds the `backup-inventory` and `version` commands: argument parsing, the walk over
the sources and standard output.
