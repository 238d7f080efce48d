//! Path binds for a traced process: what to do to a process under `ptrace` so that the paths it
//! hands to system calls are served from elsewhere.

pub mod aarch64;
pub mod bind;
pub mod cstring;
pub mod maps;
pub mod memory;
pub mod regs;
pub mod rewrite;
pub mod text;
pub mod trace;
pub mod tracee;
pub mod word;
pub mod writer;
pub mod x86_64;
