# ptrace_binds

Runs a process under `ptrace` and serves the paths that it hands to system calls from elsewhere.
A bind is a pair of a host path and a guest path: a path at or below the guest path is served from
the host path.

`src/` is a library that is verified with Verus. It makes no system call. It decides, and its
caller acts.

- `bind`: which host path stands behind a path.
- `regs`, `x86_64`, `aarch64`: the registers that carry a system call, and which of its arguments
  are paths.
- `word`: machine words as bytes.
- `cstring`, `writer`: strings read from a process, and bytes written to it, word by word.
- `maps`: where the stack of a process is.
- `rewrite`: what to do to a process that has entered a system call.
- `trace`: what to do to a process from attaching to it to its end.
- `text`, `memory`, `tracee`: UTF-8, memory, and the process as a whole, as the laws of the library
  speak of them. The main law, `tracee::law_bound_paths_served`, says what a process sees at its
  path arguments once its system call has been rewritten. Another,
  `tracee::law_touches_strings_and_free_stack_only`, says what a rewrite may change, whether it
  succeeds or fails.

`app/` starts processes and makes the calls of `ptrace` that the library asks for.
