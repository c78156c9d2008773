use vstd::prelude::*;

verus! {

/// The kind of filesystem server that exposes the virtual environment.
#[derive(Debug, Clone, Copy, PartialEq, Eq, Structural)]
pub enum MountBackend {
    Nfs,
}

/// Picks the backend named by a command-line value: every name, known or
/// not, selects the NFS backend.
impl From<&str> for MountBackend {
    fn from(value: &str) -> (backend: MountBackend) {
        MountBackend::Nfs
    }
}

impl vstd::std_specs::convert::FromSpecImpl<&str> for MountBackend {
    open spec fn obeys_from_spec() -> bool {
        true
    }

    open spec fn from_spec(value: &str) -> MountBackend {
        MountBackend::Nfs
    }
}

/// The provider that serves the virtual environment over NFS.
pub struct NfsProvider;

/// What the command line asks for: the lock file, the package cache, the
/// mount point (as path bytes), the backend and the environment to mount.
pub struct MountArgs {
    pub pixi_lock: Vec<u8>,
    pub cache_origin: Vec<u8>,
    pub mount_dir: Vec<u8>,
    pub mount_type: MountBackend,
    pub environment_name: String,
}

} // verus!
