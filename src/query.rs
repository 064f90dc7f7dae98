use vstd::prelude::*;
use crate::error::StorageError;

verus! {

/// How the points of a window are combined into one.
#[derive(Debug, Clone, Copy, PartialEq, Eq, Structural)]
pub enum Aggregation {
    Sum,
    Avg,
    Min,
    Max,
    Count,
    First,
    Last,
    StdDev,
}

/// The aggregates that the engine answers over a whole range.
#[derive(Debug, Clone, Copy, PartialEq, Eq, Structural)]
pub enum AggregationType {
    Mean,
    Sum,
    Min,
    Max,
    Count,
}

/// Failures of a query.
#[derive(Debug, Clone)]
pub enum QueryError {
    InvalidQuery(String),
    TimeSeriesNotFound(String),
    InvalidTimeRange(u64, u64),
    StorageError(StorageError),
    AggregationError(String),
}

/// A range query over one series, optionally aggregated per window.
#[derive(Debug, Clone)]
pub struct Query {
    pub key: String,
    pub start_time: u64,
    pub end_time: u64,
    pub aggregation: Option<Aggregation>,
    pub window_size: Option<u64>,
    pub max_points: Option<usize>,
}

/// A query as the engine's callers phrase it.
#[derive(Debug, Clone)]
pub struct QueryRequest {
    pub series_key: String,
    pub start_time: u64,
    pub end_time: u64,
    pub aggregation: Option<AggregationType>,
    pub step_ms: Option<u64>,
}

impl Query {
    pub fn new(key: String, start_time: u64, end_time: u64) -> (r: Query)
        ensures
            r.key@ == key@,
            r.start_time == start_time,
            r.end_time == end_time,
            r.aggregation is None,
            r.window_size is None,
            r.max_points is None,
    {
        Query { key, start_time, end_time, aggregation: None, window_size: None, max_points: None }
    }

    pub fn with_aggregation(self, aggregation: Aggregation, window_size: u64) -> (r: Query)
        ensures
            r.key@ == self.key@,
            r.start_time == self.start_time,
            r.end_time == self.end_time,
            r.aggregation == Some(aggregation),
            r.window_size == Some(window_size),
            r.max_points == self.max_points,
    {
        let mut q = self;
        q.aggregation = Some(aggregation);
        q.window_size = Some(window_size);
        q
    }

    pub fn with_max_points(self, max_points: usize) -> (r: Query)
        ensures
            r.key@ == self.key@,
            r.start_time == self.start_time,
            r.end_time == self.end_time,
            r.aggregation == self.aggregation,
            r.window_size == self.window_size,
            r.max_points == Some(max_points),
    {
        let mut q = self;
        q.max_points = Some(max_points);
        q
    }

    /// A query is valid when its range is not inverted and an aggregation
    /// comes with a window.
    pub fn validate(&self) -> (r: Result<(), QueryError>)
        ensures
            self.start_time > self.end_time ==> (r matches Err(QueryError::InvalidTimeRange(a, b))
                && a == self.start_time && b == self.end_time),
            self.start_time <= self.end_time && self.aggregation is Some && self.window_size is None
                ==> r matches Err(QueryError::InvalidQuery(_)),
            r is Ok <==> self.start_time <= self.end_time && (self.aggregation is Some
                ==> self.window_size is Some),
    {
        if self.start_time > self.end_time {
            return Err(QueryError::InvalidTimeRange(self.start_time, self.end_time));
        }
        if self.aggregation.is_some() && self.window_size.is_none() {
            return Err(QueryError::InvalidQuery("Aggregation requires window_size".to_owned()));
        }
        Ok(())
    }
}

/// The window of a point in windowed aggregation: whole `window`s since the
/// first point's timestamp.
pub open spec fn window_of(first_ts: u64, ts: u64, window: u64) -> int {
    (ts - first_ts) / (window as int)
}

/// For each point of a timestamp-ordered run, the index of its window,
/// counted from the first point.
pub fn window_indices(timestamps: &Vec<u64>, window: u64) -> (r: Vec<u64>)
    requires
        window > 0,
        forall|i: int, j: int| 0 <= i <= j < timestamps@.len() ==> timestamps@[i] <= timestamps@[j],
    ensures
        r@.len() == timestamps@.len(),
        forall|i: int|
            0 <= i < r@.len() ==> r@[i] == window_of(timestamps@[0], #[trigger] timestamps@[i], window),
{
    let mut out: Vec<u64> = Vec::new();
    let n = timestamps.len();
    let mut i: usize = 0;
    while i < n
        invariant
            n == timestamps@.len(),
            i <= n,
            window > 0,
            out@.len() == i,
            forall|a: int, b: int| 0 <= a <= b < timestamps@.len() ==> timestamps@[a] <= timestamps@[b],
            forall|j: int|
                0 <= j < i ==> out@[j] == window_of(timestamps@[0], #[trigger] timestamps@[j], window),
        decreases n - i,
    {
        let d = timestamps[i] - timestamps[0];
        out.push(d / window);
        i = i + 1;
    }
    out
}

} // verus!
