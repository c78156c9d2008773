[package]
name = "rattler_vfs"
version = "0.1.0"
edition = "2021"
publish = false

[dependencies]
memchr = "2"
memmap2 = "*"
anyhow = "*"
async-trait = "*"
clap = "*"
compio = { version = "*", features = ["macros", "signal"] }
libc = "*"
nfs3_server = "*"
nfs3_types = "*"
rattler_cache = { version = "*", default-features = false }
rattler_conda_types = { version = "*", default-features = false }
rattler_lock = { version = "*", default-features = false }
rattler_networking = { version = "*", default-features = false }
tokio = { version = "*", features = ["rt"] }
