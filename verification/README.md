# cxpkg

A unified package manager over APT, DNF and Flatpak, written in Verus.

- `src/` is the verified library: the models of packages, versions and
  errors (`package`, `error`), the parsers of each package tool's output
  (`backend::apt`, `backend::dnf`, `backend::flatpak`), the backend
  registry and the merging of search results (`backend`), dependency
  resolution with install ordering and conflict detection (`resolver`),
  the configuration model (`config`) and the decisions that each command
  makes (`cli`). String handling on character sequences lives in `text`.
- `app/` is the `cxpkg` program: command-line parsing, the configuration
  file, running the package tools and showing progress and results.
- `tests/` exercises the library on concrete outputs and plans.
