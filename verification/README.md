# fishbowl

Shell support with proofs: lexical path handling, `realpath`, output buffering, locale
selection, configuration directories, change notification, and the decisions of a set of small
builtins and programs (`seq`, `rm`, `mkdir`, `touch`, `mktemp`, `sleep`, `kill`, ...).

* `src/` is the library. Every function states what it returns and is proved to do so with
  Verus. Text is a slice or a vector of characters; what comes from files, processes or the
  C library is an argument.
* `tests/` runs the library.
* `app/` connects the library to files, processes, locales and the shell that embeds it.

Laws that hold across functions are the public proof functions named `law_...`.
