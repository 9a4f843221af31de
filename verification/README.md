# llmbench

A command-line tool that runs one-shot benchmarks for large language models
through the OpenRouter API, scores the answers and prints a report. The
benchmarks are Markdown files with TOML frontmatter (`expected = "..."`),
optionally composed with agent prompts.

## Layout

- `src/` — the library, verified with Verus: bench identifiers and patterns,
  answer normalisation (chat tags, letters and digits, trimming), evaluators,
  bench discovery decisions and composition, the batch of runs per model,
  scoring and grouping of stored results, aggregates and per-agent totals,
  the layout of the score table and its cells, and the response details
  wrapped under each row.
- `tests/` — tests of the library on concrete values.
- `app/` — the program around it: command line, configuration and results
  files, directory walks, API calls, progress bars and printing.

Costs are summed as the integers the API reports; the report shows costs
per run, percentage differences and their medians, which are fractional and
computed in `app/`.
