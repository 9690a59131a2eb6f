# foxguard

Static security scanning, with the parts that decide, compute and check proved with Verus.

- `src/` is the library. Its functions carry contracts, but for the few that only turn the values of
  another crate into those of this one; what holds across functions is stated as public proof
  functions beside them.
  - `finding`, `pr_policy`, `baseline`, `compliance`, `fix`, `secrets`: findings and what becomes of
    them.
  - `rules`: whole-file rules (post-quantum algorithms, manifests) and how much of a Semgrep rule pack
    takes effect.
  - `engine`: CodeQL rules, SARIF results, differences between databases, syntax trees.
  - `github_app`: the job store and its laws, the dispatcher, and the state machines behind the hosted
    receiver.
  - `adapter`, `cli`, `report`: requests, their arguments and their answers.
  - `text`, `bytes`, `paths`, `url`, `document`, `sort`: what the others are built on.
- `app/` meets the outside: files, processes and the network.
- `tests/` runs the library.

Calls into other crates stand behind small functions whose doc comments say what is believed of them.
