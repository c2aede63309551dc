# ninja-linter

A command-line helper that runs PHP CS Fixer (and, on request, the project's
tests and PHPStan) inside a Docker container on the PHP files that git reports
as modified.

- `src/` is the library, verified with Verus:
  - `text` — trimming, lines, prefixes and text order over `Seq<char>`;
  - `file` — reading `git status --short` into the modified PHP files;
  - `command` — the git and docker command lines, and the CS Fixer run that
    stops at the first file that fails;
  - `pipeline` — the order of a run and the exit status it ends with;
  - `config` — the stored settings and the time of the last update check;
  - `parallel` and `tui` — the tasks that run side by side and the state of
    the live dashboard;
  - `updater` — release version comparison and choice of the download.
- `app/` is the program around it: flags, prompts, processes, threads, the
  terminal dashboard and the HTTP calls of the updater.
- `tests/` exercises the library on concrete values.
