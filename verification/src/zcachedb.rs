//! What the inspection tool can be asked for.
use vstd::prelude::*;

verus! {

#[derive(Debug)]
pub enum ZettaCacheDBCommand {
    DumpStructures(DumpStructuresOptions),
    DumpSlabs(DumpSlabsOptions),
    DumpSpaceUsage,
    DumpSuperblocks,
    VerifyIndex,
}

#[derive(Debug)]
pub struct DumpStructuresOptions {
    pub dump_defaults: bool,
    pub dump_spacemaps: bool,
    pub dump_operation_log_raw: bool,
    pub dump_index_log_raw: bool,
    pub dump_rebalance_log_raw: bool,
    pub dump_atime_histogram: bool,
}

impl Default for DumpStructuresOptions {
    fn default() -> (r: Self)
        ensures
            r == DumpStructuresOptions::spec_new(),
    {
        Self::new()
    }
}

impl DumpStructuresOptions {
    /// Only the default structures.
    pub open spec fn spec_new() -> Self {
        DumpStructuresOptions {
            dump_defaults: true,
            dump_spacemaps: false,
            dump_operation_log_raw: false,
            dump_index_log_raw: false,
            dump_rebalance_log_raw: false,
            dump_atime_histogram: false,
        }
    }

    pub fn new() -> (r: Self)
        ensures
            r == DumpStructuresOptions::spec_new(),
    {
        DumpStructuresOptions {
            dump_defaults: true,
            dump_spacemaps: false,
            dump_operation_log_raw: false,
            dump_index_log_raw: false,
            dump_rebalance_log_raw: false,
            dump_atime_histogram: false,
        }
    }

    pub fn defaults(self, value: bool) -> (r: Self)
        ensures
            r == (DumpStructuresOptions { dump_defaults: value, ..self }),
    {
        DumpStructuresOptions { dump_defaults: value, ..self }
    }

    pub fn spacemaps(self, value: bool) -> (r: Self)
        ensures
            r == (DumpStructuresOptions { dump_spacemaps: value, ..self }),
    {
        DumpStructuresOptions { dump_spacemaps: value, ..self }
    }

    pub fn operation_log_raw(self, value: bool) -> (r: Self)
        ensures
            r == (DumpStructuresOptions { dump_operation_log_raw: value, ..self }),
    {
        DumpStructuresOptions { dump_operation_log_raw: value, ..self }
    }

    pub fn index_log_raw(self, value: bool) -> (r: Self)
        ensures
            r == (DumpStructuresOptions { dump_index_log_raw: value, ..self }),
    {
        DumpStructuresOptions { dump_index_log_raw: value, ..self }
    }

    pub fn rebalance_log_raw(self, value: bool) -> (r: Self)
        ensures
            r == (DumpStructuresOptions { dump_rebalance_log_raw: value, ..self }),
    {
        DumpStructuresOptions { dump_rebalance_log_raw: value, ..self }
    }

    pub fn atime_histogram(self, value: bool) -> (r: Self)
        ensures
            r == (DumpStructuresOptions { dump_atime_histogram: value, ..self }),
    {
        DumpStructuresOptions { dump_atime_histogram: value, ..self }
    }
}

#[derive(Debug)]
pub struct DumpSlabsOptions {
    pub verbosity: u64,
}

impl Default for DumpSlabsOptions {
    fn default() -> (r: Self)
        ensures
            r.verbosity == 0,
    {
        Self::new()
    }
}

impl DumpSlabsOptions {
    pub fn new() -> (r: Self)
        ensures
            r.verbosity == 0,
    {
        DumpSlabsOptions { verbosity: 0 }
    }

    pub fn verbosity(self, value: u64) -> (r: Self)
        ensures
            r.verbosity == value,
    {
        DumpSlabsOptions { verbosity: value }
    }
}

/// The parts of the cache that a command has to open before it can run.
#[derive(Debug, Clone, Copy, PartialEq, Eq, Structural)]
pub enum CommandScope {
    /// Only the superblocks of the devices.
    Superblocks,
    /// The checkpoint and what it refers to.
    PoolState,
}

impl ZettaCacheDBCommand {
    /// Only the dump of the superblocks works on devices that do not make up a cache.
    pub fn scope(&self) -> (r: CommandScope)
        ensures
            r == if self is DumpSuperblocks {
                CommandScope::Superblocks
            } else {
                CommandScope::PoolState
            },
    {
        match self {
            ZettaCacheDBCommand::DumpSuperblocks => CommandScope::Superblocks,
            _ => CommandScope::PoolState,
        }
    }
}

} // verus!
