# wrappy

`wrappy` adds subcommand aliases to other programs. A file
`~/.config/wrappy/<command>.toml` maps alias keys to expansions:

```toml
[aliases]
rm = ["remove"]
"team ls" = ["team", "list"]
```

and `wrappy exec <command> rm foo` runs `<command> remove foo`. The longest
alias key that is a prefix of the leading subcommand path (the words before
the first option) is replaced; every other argument is kept byte for byte.
`wrappy init zsh` prints shell functions that wrap the configured commands
and merge alias suggestions into their completion; `wrappy rewrite` and
`wrappy complete` answer those functions in JSON or as zsh assignments.

## Layout

- `src/` is the verified library (Verus):
  - `text.rs`: option detection, white-space splitting, shell quoting, zsh names;
  - `args.rs`: raw arguments, their lossy decoding, the leading subcommand path;
  - `order.rs`: the order of strings and word lists, stable insertion sorting;
  - `decimal.rs`: rendering and reading `usize` values;
  - `config.rs`: alias rules, rewriting, completion suggestions and cursors;
  - `cli.rs`: the command line of `wrappy`;
  - `catalog.rs`: which commands have a configuration file;
  - `path_search.rs`: the `PATH` candidate to run and the configuration directory;
  - `zsh.rs`: the init script and the replies the shell evaluates;
  - `laws.rs`: properties of rewriting that hold for every configuration.
- `app/main.rs` is the program: it reads the environment and probes files,
  parses TOML, writes JSON and calls `exec`.
- `tests/` runs the library on concrete values.
