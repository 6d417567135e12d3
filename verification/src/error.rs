//! The error surface of the sort engine, and the configuration it runs
//! under.
use vstd::prelude::*;

verus! {

/// Why a run failed. `Io` is raised by the unverified edge that performs
/// file operations; `UnexpectedEof` by the merge phase when a read returns
/// fewer bytes than a well-formed intermediate file allows;
/// `InvalidConfiguration` when the configured limits cannot support a run.
#[derive(Debug)]
pub enum SortError {
    Io { path: String, operation: String },
    UnexpectedEof { expected: usize, got: usize },
    InvalidConfiguration,
}

/// The configuration the engine runs under: the source/output path, the
/// bytes per intermediate chunk file, the bound on concurrent chunk workers,
/// the directory for intermediate files, the memory ceiling, and the size to
/// generate when a synthetic input is requested.
pub struct Config {
    pub file: String,
    pub size: Option<u64>,
    pub max_mem: u64,
    pub int_file_dir: String,
    pub int_file_size: u64,
    pub split_concurrency: i32,
}

impl Config {
    /// A configuration the engine can run under: the memory ceiling admits
    /// at least one block, chunking has a positive chunk size to divide by,
    /// and the admission gate has a positive capacity.
    pub open spec fn valid(self) -> bool {
        &&& self.max_mem >= crate::BLOCK_SIZE
        &&& self.int_file_size > 0
        &&& self.split_concurrency > 0
    }
}

/// Accepts exactly the configurations the engine can run under; any other
/// is rejected as `InvalidConfiguration` before a run starts.
pub fn validate(cfg: &Config) -> (r: Result<(), SortError>)
    ensures
        r is Ok <==> cfg.valid(),
        !cfg.valid() ==> r == Result::<(), SortError>::Err(SortError::InvalidConfiguration),
{
    if cfg.max_mem >= crate::BLOCK_SIZE as u64 && cfg.int_file_size > 0 && cfg.split_concurrency
        > 0 {
        Ok(())
    } else {
        Err(SortError::InvalidConfiguration)
    }
}

} // verus!
