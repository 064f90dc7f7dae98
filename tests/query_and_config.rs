use count::cluster::ReplicationResponse;
use count::config::{archive_cutoff, flush_due, CountConfig, SeriesKey};
use count::query::{window_indices, Aggregation, Query, QueryError};

#[test]
fn test_query_creation() {
    let query = Query::new("test".to_string(), 1000, 2000);
    assert_eq!(query.key, "test");
    assert_eq!(query.start_time, 1000);
    assert_eq!(query.end_time, 2000);
    assert!(query.aggregation.is_none());
}

#[test]
fn test_query_with_aggregation() {
    let query = Query::new("test".to_string(), 1000, 2000).with_aggregation(Aggregation::Avg, 500);

    assert!(query.aggregation.is_some());
    assert_eq!(query.window_size, Some(500));
}

#[test]
fn test_query_validation_invalid_time_range() {
    let query = Query::new("test".to_string(), 2000, 1000);
    assert!(query.validate().is_err());
}

#[test]
fn test_query_validation_aggregation_without_window() {
    let mut query = Query::new("test".to_string(), 1000, 2000);
    query.aggregation = Some(Aggregation::Sum);
    assert!(query.validate().is_err());
}

#[test]
fn query_validation_errors_and_success() {
    assert!(matches!(Query::new("k".to_string(), 5, 4).validate(), Err(QueryError::InvalidTimeRange(5, 4))));
    let mut q = Query::new("k".to_string(), 1, 2);
    q.aggregation = Some(Aggregation::Max);
    assert!(matches!(q.validate(), Err(QueryError::InvalidQuery(_))));
    let ok = Query::new("k".to_string(), 1, 1).with_aggregation(Aggregation::Count, 10).with_max_points(3);
    assert!(ok.validate().is_ok());
    assert_eq!(ok.max_points, Some(3));
}

#[test]
fn window_indices_count_whole_windows_from_the_first_point() {
    assert_eq!(window_indices(&vec![1000, 1100, 1399, 1400, 2500], 400), vec![0, 0, 0, 1, 3]);
    assert!(window_indices(&Vec::new(), 1).is_empty());
}

#[test]
fn test_default_config() {
    let config = CountConfig::default();

    assert_eq!(config.memory_buffer_size, 10000);
    assert_eq!(config.flush_interval_seconds, 300);
    assert_eq!(config.data_dir, "./count_data");
    assert!(!config.s3_enabled);
    assert!(config.s3_bucket.is_none());
    assert!(config.s3_region.is_none());
    assert!(config.s3_prefix.is_none());
    assert_eq!(config.archival_age_days, 14);
    assert!(!config.cluster_enabled);
    assert!(config.node_id.is_none());
    assert!(config.bind_address.is_none());
    assert!(config.seed_nodes.is_empty());
    assert_eq!(config.replication_factor, 2);
}

#[test]
fn test_config_s3_enabled_without_bucket() {
    let mut config = CountConfig::default();
    config.s3_enabled = true;
    config.s3_bucket = None;

    assert!(config.s3_enabled);
    assert!(config.s3_bucket.is_none());
    assert!(!config.archive_active());
}

#[test]
fn test_config_clone_and_debug() {
    let config = CountConfig {
        memory_buffer_size: 5000,
        flush_interval_seconds: 60,
        data_dir: "/tmp/test".to_string(),
        s3_enabled: true,
        s3_bucket: Some("test-bucket".to_string()),
        s3_region: Some("eu-west-1".to_string()),
        s3_prefix: Some("test-data".to_string()),
        archival_age_days: 30,
        cluster_enabled: true,
        node_id: Some(1),
        bind_address: Some("127.0.0.1:9090".to_string()),
        seed_nodes: vec!["peer1:9090".to_string()],
        replication_factor: 1,
    };

    let cloned_config = config.clone();
    assert_eq!(cloned_config.memory_buffer_size, config.memory_buffer_size);
    assert_eq!(cloned_config.s3_bucket, config.s3_bucket);
    assert_eq!(cloned_config.archival_age_days, config.archival_age_days);

    let debug_str = format!("{:?}", config);
    assert!(debug_str.contains("CountConfig"));
    assert!(debug_str.contains("test-bucket"));
}

#[test]
fn test_series_key_from_string() {
    let key1 = SeriesKey::from("cpu.usage");
    let key2 = SeriesKey::from("memory.usage".to_string());

    assert_eq!(key1.0, "cpu.usage");
    assert_eq!(key2.0, "memory.usage");
}

#[test]
fn test_s3_configuration_scenarios() {
    let mut config = CountConfig::default();
    config.s3_enabled = true;
    config.s3_bucket = Some("my-bucket".to_string());

    assert!(config.s3_enabled);
    assert_eq!(config.s3_bucket, Some("my-bucket".to_string()));
    assert!(config.s3_region.is_none());
    assert!(config.s3_prefix.is_none());
    assert_eq!(config.archival_age_days, 14);

    config.s3_region = Some("eu-central-1".to_string());
    config.s3_prefix = Some("timeseries-data".to_string());
    config.archival_age_days = 30;

    assert_eq!(config.s3_region, Some("eu-central-1".to_string()));
    assert_eq!(config.s3_prefix, Some("timeseries-data".to_string()));
    assert_eq!(config.archival_age_days, 30);
    assert!(config.archive_active());
}

#[test]
fn archive_cutoff_is_saturating() {
    assert_eq!(archive_cutoff(100 * 86_400_000, 14), 86 * 86_400_000);
    assert_eq!(archive_cutoff(1000, 1), 0);
}

#[test]
fn test_replication_response() {
    let response = ReplicationResponse { success: true, error: None, node_id: 1 };

    assert!(response.success);
    assert!(response.error.is_none());
    assert_eq!(response.node_id, 1);
}

#[test]
fn flush_due_after_the_interval_only() {
    assert!(!flush_due(10_000, 309_999, 300));
    assert!(flush_due(10_000, 310_000, 300));
    assert!(!flush_due(10_000, 9_000, 1));
    assert!(!flush_due(0, u64::MAX, u64::MAX));
}
