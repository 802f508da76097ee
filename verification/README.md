# dispatch

SSH batch operations: run commands and manage files on many servers at once,
through the system `ssh` and `scp`. Host aliases, wildcard `Host` blocks,
identities, known hosts and jump hosts behave as the ssh client is configured.

- `exec` runs a command on many hosts, with an environment, a directory, an input
  and live streaming of its output.
- `copy` pushes a local file or directory to each host; `fetch` pulls a remote path
  from each host into `dest/<host>/`.
- `update` is a copy that skips hosts whose file already matches, with an optional
  backup (`<dest>.bak`) and mode.
- `write` and `read` carry bytes to and from a remote file.

Each has a cap on the hosts at work at once and a limit on the time that one host
may take.

## Layout

- `src/` is the library, verified with Verus. It does no input or output: it
  resolves patterns to hosts, writes the scripts, says what to do after each reply,
  and collects the results.
- `app/` does the input and output: it reads the configuration files, opens ssh
  sessions, runs `scp`, and asks the library what to do.
- `tests/` holds the tests of the library.

## Hosts

A pattern is, in this order:

1. the name of a group in `~/.dispatch/config.toml`, whose members are patterns;
2. a wildcard (`*`, `?`, `[..]`) that matches `Host` aliases in `~/.ssh/config`;
3. an alias, a host name, an address or `user@host`, taken as it is.

## What is taken on trust

The encoding and decoding of base64, SHA-256, the matching of globs, the reading of
bytes as UTF-8 and the text of a duration come from other crates and from the
standard library. Each is called in one small function, whose comment says what is
assumed of it. That `String::push` appends its one character is assumed as well.
