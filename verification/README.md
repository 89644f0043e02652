# spoonstill-app

The decisions behind spoonstill — turning a folder of photographs and
narration into one film — as a library whose behaviour is stated in
`requires` / `ensures` contracts and proved with Verus.

## Layout

- `src/` — the verified library.
  - `ingest` — what a drop of files becomes: which are stills, recordings
    and scripts, natural ordering (`IMG_2` before `IMG_10`), pairing by stem
    then by position, scene numbering, and the report.
  - `arrange` — reading a numbered folder as scenes, moving and removing
    scenes, the two-pass renumber plan with its parked names, and recovery
    of a folder left half-renamed.
  - `import` — rows from a manifest or from the folder by stem, the
    problems found on the way, unlisted stills, and `project.yaml`'s
    reading decision.
  - `film` — segment and temporary names, collecting every failure of a
    run, the refusals' wording, and what the sweep after a join deletes.
  - `capacity`, `pool` — how many workers a render starts, from the cores
    and the memory budget, and what an item that never ran reports.
  - `machine`, `voice`, `window`, `audio`, `render`, `diagnostics`,
    `formats`, `subtitles` — the smaller decisions of the same kind.
  - `text`, `natural`, `order` — the string, path and ordering vocabulary
    the contracts are written in.
- `tests/` — tests of the library on concrete values.
- `app/` — the parts that touch the machine: the file system, threads,
  the environment, other programs, and the CSV, YAML and JSON formats.
  Every decision they make is the library's.

The laws of the library stand in `src/` as public proof functions named
`lemma_…`, beside the functions they speak of.
