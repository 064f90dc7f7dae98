use vstd::prelude::*;

verus! {

/// The name of a series, such as `cpu.usage.total`.
#[derive(Debug, Clone)]
pub struct SeriesKey(pub String);

impl SeriesKey {
    pub fn new(name: &str) -> (r: SeriesKey)
        ensures
            r.0@ == name@,
    {
        SeriesKey(name.to_owned())
    }
}

impl From<String> for SeriesKey {
    fn from(name: String) -> SeriesKey {
        SeriesKey(name)
    }
}

impl vstd::std_specs::convert::FromSpecImpl<String> for SeriesKey {
    open spec fn obeys_from_spec() -> bool {
        true
    }

    open spec fn from_spec(name: String) -> SeriesKey {
        SeriesKey(name)
    }
}

impl From<&str> for SeriesKey {
    fn from(name: &str) -> SeriesKey {
        SeriesKey::new(name)
    }
}

impl vstd::std_specs::convert::FromSpecImpl<&str> for SeriesKey {
    open spec fn obeys_from_spec() -> bool {
        false
    }

    open spec fn from_spec(name: &str) -> SeriesKey {
        vstd::pervasive::arbitrary()
    }
}

pub const DEFAULT_MEMORY_BUFFER_SIZE: usize = 10000;

pub const DEFAULT_FLUSH_INTERVAL_SECONDS: u64 = 300;

pub const DEFAULT_ARCHIVAL_AGE_DAYS: u32 = 14;

pub const DEFAULT_REPLICATION_FACTOR: usize = 2;

pub const MS_PER_DAY: u64 = 86_400_000;

/// The engine's settings, with the archive and cluster options.
#[derive(Debug, Clone)]
pub struct CountConfig {
    pub memory_buffer_size: usize,
    pub flush_interval_seconds: u64,
    pub data_dir: String,
    pub s3_enabled: bool,
    pub s3_bucket: Option<String>,
    pub s3_region: Option<String>,
    pub s3_prefix: Option<String>,
    pub archival_age_days: u32,
    pub cluster_enabled: bool,
    pub node_id: Option<u32>,
    pub bind_address: Option<String>,
    pub seed_nodes: Vec<String>,
    pub replication_factor: usize,
}

impl Default for CountConfig {
    fn default() -> (r: CountConfig)
        ensures
            r.memory_buffer_size == DEFAULT_MEMORY_BUFFER_SIZE,
            r.flush_interval_seconds == DEFAULT_FLUSH_INTERVAL_SECONDS,
            r.data_dir@ == "./count_data"@,
            !r.s3_enabled,
            r.s3_bucket is None,
            r.s3_region is None,
            r.s3_prefix is None,
            r.archival_age_days == DEFAULT_ARCHIVAL_AGE_DAYS,
            !r.cluster_enabled,
            r.node_id is None,
            r.bind_address is None,
            r.seed_nodes@.len() == 0,
            r.replication_factor == DEFAULT_REPLICATION_FACTOR,
    {
        CountConfig {
            memory_buffer_size: DEFAULT_MEMORY_BUFFER_SIZE,
            flush_interval_seconds: DEFAULT_FLUSH_INTERVAL_SECONDS,
            data_dir: "./count_data".to_owned(),
            s3_enabled: false,
            s3_bucket: None,
            s3_region: None,
            s3_prefix: None,
            archival_age_days: DEFAULT_ARCHIVAL_AGE_DAYS,
            cluster_enabled: false,
            node_id: None,
            bind_address: None,
            seed_nodes: Vec::new(),
            replication_factor: DEFAULT_REPLICATION_FACTOR,
        }
    }
}

impl CountConfig {
    /// The archive tier is used only when it is enabled and has a bucket.
    pub fn archive_active(&self) -> (r: bool)
        ensures
            r == (self.s3_enabled && self.s3_bucket is Some),
    {
        self.s3_enabled && self.s3_bucket.is_some()
    }
}

/// The timestamp before which blocks are old enough to archive: `age_days`
/// days before `now_ms`, or 0 when that would lie before the epoch.
pub open spec fn archive_cutoff_spec(now_ms: u64, age_days: u32) -> u64 {
    if now_ms >= age_days * MS_PER_DAY {
        (now_ms - age_days * MS_PER_DAY) as u64
    } else {
        0
    }
}

pub fn archive_cutoff(now_ms: u64, age_days: u32) -> (r: u64)
    ensures
        r == archive_cutoff_spec(now_ms, age_days),
{
    let age: u64 = (age_days as u64) * MS_PER_DAY;
    if now_ms >= age {
        now_ms - age
    } else {
        0
    }
}

/// Whether the background flusher is due: at least `interval_s` seconds have
/// passed since `last_flush_ms` (a clock that went back is never due).
pub fn flush_due(last_flush_ms: u64, now_ms: u64, interval_s: u64) -> (r: bool)
    ensures
        r == (now_ms >= last_flush_ms && now_ms - last_flush_ms >= interval_s * 1000),
{
    if now_ms < last_flush_ms {
        return false;
    }
    let elapsed: u128 = (now_ms - last_flush_ms) as u128;
    elapsed >= (interval_s as u128) * 1000
}

} // verus!
