use vstd::prelude::*;
use crate::config::{chunk_range_of, parse_chunk_range_cli, Config};

verus! {

/// Options shared by every command.
#[derive(Clone, Debug, Default)]
pub struct CommonOpts {
    pub tiles_db: Option<String>,
    pub out_db: Option<String>,
    pub planes: Option<Vec<i32>>,
    pub chunk_range: Option<String>,
    pub threads: Option<usize>,
    pub dry_run: bool,
    pub store_paths: bool,
    pub log_level: Option<String>,
}

/// The stage entry points.
#[derive(Clone, Copy, Debug, PartialEq, Eq, Structural)]
pub enum ClusterCommand {
    BuildClusters,
    EntranceDiscovery,
    IntraConnector,
    InterConnector,
    JpsAccelerator,
    NeighborPolicy,
    Exec { resume: bool, force: bool },
}

/// The effective configuration: command-line options, each overridden by the
/// environment's value where that is set; a flag is on when either turns it on.
pub fn merge_config(common: CommonOpts, env: Config) -> (r: Config)
    ensures
        r.tiles_db == if env.tiles_db is Some { env.tiles_db } else { common.tiles_db },
        r.out_db == if env.out_db is Some { env.out_db } else { common.out_db },
        r.planes == if env.planes is Some { env.planes } else { common.planes },
        r.chunk_range == if env.chunk_range is Some {
            env.chunk_range
        } else {
            match common.chunk_range {
                Some(s) => chunk_range_of(s@),
                None => None,
            }
        },
        r.threads == if env.threads is Some { env.threads } else { common.threads },
        r.dry_run == (common.dry_run || env.dry_run),
        r.store_paths == (common.store_paths || env.store_paths),
        r.log_level == if env.log_level is Some { env.log_level } else { common.log_level },
{
    let cli_range = match &common.chunk_range {
        Some(s) => parse_chunk_range_cli(s.as_str()),
        None => None,
    };
    Config {
        tiles_db: if env.tiles_db.is_some() { env.tiles_db } else { common.tiles_db },
        out_db: if env.out_db.is_some() { env.out_db } else { common.out_db },
        planes: if env.planes.is_some() { env.planes } else { common.planes },
        chunk_range: if env.chunk_range.is_some() { env.chunk_range } else { cli_range },
        threads: if env.threads.is_some() { env.threads } else { common.threads },
        dry_run: common.dry_run || env.dry_run,
        store_paths: common.store_paths || env.store_paths,
        log_level: if env.log_level.is_some() { env.log_level } else { common.log_level },
    }
}

} // verus!
