use prometheus::{Encoder, IntCounter, IntGauge, Opts, Registry, TextEncoder};
use zydecodb_engine::metrics::{metric_table, MetricKind, METRIC_PREFIX};

/// Registers the counters and gauges without a label, and counts 42 on the log's.
fn registry() -> Registry {
    let registry = Registry::new();
    for m in metric_table().iter().filter(|m| m.label.is_empty()) {
        let name = format!("{}{}", METRIC_PREFIX, m.name);
        match m.kind {
            MetricKind::Counter => {
                let c = IntCounter::with_opts(Opts::new(name, m.help)).unwrap();
                registry.register(Box::new(c.clone())).unwrap();
                if m.name == "wal_bytes_written_total" {
                    c.inc_by(42);
                }
            }
            MetricKind::Gauge => {
                let g = IntGauge::with_opts(Opts::new(name, m.help)).unwrap();
                registry.register(Box::new(g)).unwrap();
            }
            _ => {}
        }
    }
    registry
}

fn render(registry: &Registry) -> String {
    let mut buf = Vec::new();
    TextEncoder::new().encode(&registry.gather(), &mut buf).unwrap();
    String::from_utf8(buf).unwrap()
}

#[test]
fn render_contains_core_lsm_metric_names() {
    let out = render(&registry());
    assert!(out.contains("zydecodb_wal_bytes_written_total 42"));
    assert!(out.contains("zydecodb_sstable_flushes_total"));
    assert!(out.contains("zydecodb_memtable_size_bytes"));
}

#[test]
fn external_counters_can_share_the_registry() {
    let registry = registry();
    let custom = IntCounter::with_opts(Opts::new("embedder_custom_total", "from outside")).unwrap();
    registry.register(Box::new(custom.clone())).unwrap();
    custom.inc();
    assert!(render(&registry).contains("embedder_custom_total"));
}

#[test]
fn metrics_are_named_apart() {
    let table = metric_table();
    assert_eq!(table.len(), 44);
    let mut names: Vec<&str> = table.iter().map(|m| m.name).collect();
    names.sort();
    names.dedup();
    assert_eq!(names.len(), 44);
    let labelled: Vec<(&str, &str)> =
        table.iter().filter(|m| !m.label.is_empty()).map(|m| (m.name, m.label)).collect();
    assert_eq!(
        labelled,
        vec![
            ("live_sstables_by_level", "level"),
            ("compaction_jobs_by_input_level_total", "input_level"),
            ("errors_total", "code"),
        ]
    );
}
