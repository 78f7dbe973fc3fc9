use mysticeti_core::config::node_defaults;
use mysticeti_core::config::{ClientParameters, NodeParameters, NodePrivateConfig};
use mysticeti_core::instance::Instance;
use mysticeti_core::logs::LogsAnalyzer;
use mysticeti_core::monitor::{Grafana, Monitor, NodeExporter, Prometheus};
use mysticeti_core::settings::defaults;

#[test]
fn node_defaults_values() {
    assert_eq!(node_defaults::default_wave_length(), 3);
    assert_eq!(node_defaults::default_leader_timeout(), 2);
    assert_eq!(node_defaults::default_rounds_in_epoch(), 3600000);
    assert_eq!(node_defaults::default_shutdown_grace_period(), 2);
    assert_eq!(node_defaults::default_number_of_leaders(), 2);
    assert!(node_defaults::default_enable_pipelining());
    assert!(node_defaults::default_consensus_only());

    let parameters = NodeParameters::default();
    assert_eq!(parameters.wave_length, 3);
    assert_eq!(parameters.number_of_leaders, 2);
    assert!(parameters.enable_pipelining);

    let clients = ClientParameters::default();
    assert_eq!(clients.load, 10);
    assert_eq!(clients.transaction_size, 512);
    assert_eq!(clients.initial_delay_secs, 10);
}

#[test]
fn settings_defaults_values() {
    assert_eq!(defaults::default_benchmark_duration(), 0);
    assert_eq!(defaults::default_working_dir(), "~/working_dir");
    assert_eq!(defaults::default_results_dir(), "./results");
    assert_eq!(defaults::default_logs_dir(), "./logs");
    assert!(defaults::default_use_nvme());
    assert_eq!(defaults::default_scrape_interval(), 15);
    assert!(!defaults::default_log_processing());
    assert_eq!(defaults::default_dedicated_clients(), 0);
    assert!(defaults::default_monitoring());
    assert_eq!(defaults::default_ssh_timeout(), 30);
    assert_eq!(defaults::default_ssh_retries(), 3);
}

#[test]
fn private_config_paths() {
    assert_eq!(NodePrivateConfig::default_filename(3), "val-3.yaml");
    assert_eq!(NodePrivateConfig::default_storage_path(12), "storage-12");
    let configs = NodePrivateConfig::new_for_benchmarks("/tmp/testbed", 4);
    assert_eq!(configs.len(), 4);
    assert_eq!(configs[1].storage_path, "/tmp/testbed/storage-1");
    assert_eq!(
        configs[1].certified_transactions_log(),
        "/tmp/testbed/storage-1/certified.txt"
    );
    assert_eq!(
        configs[1].committed_transactions_log(),
        "/tmp/testbed/storage-1/committed.txt"
    );
    assert_eq!(configs[1].wal(), "/tmp/testbed/storage-1/wal");
}

#[test]
fn logs_analyzer_counts() {
    let mut analyzer = LogsAnalyzer::default();
    analyzer.set_node_errors("a ERROR b ERROR c");
    assert_eq!(analyzer.node_errors, 2);
    assert!(!analyzer.node_panic);
    analyzer.set_client_errors("one ERROR only");
    assert_eq!(analyzer.client_errors, 1);
    // A lower later count keeps the worst count seen so far.
    analyzer.set_client_errors("quiet");
    assert_eq!(analyzer.client_errors, 1);
    assert!(!analyzer.client_panic);
    assert_eq!(
        analyzer.summary().unwrap(),
        "Logs contain errors (node: 2, client: 1)"
    );

    let mut panicking = LogsAnalyzer::default();
    panicking.set_node_errors("thread panicked at main");
    assert!(panicking.node_panic);
    assert_eq!(panicking.summary().unwrap(), "Node(s) panicked!");

    let quiet = LogsAnalyzer::default();
    assert!(quiet.summary().is_none());
}

#[test]
fn monitor_commands() {
    assert_eq!(Prometheus::install_commands().len(), 2);
    assert_eq!(Grafana::install_commands().len(), 7);
    assert_eq!(NodeExporter::install_commands().len(), 10);
    assert_eq!(Monitor::dependencies().len(), 19);
    assert_eq!(
        Prometheus::global_configuration(),
        "global:\n  scrape_interval: 5s\n  evaluation_interval: 5s\nscrape_configs:"
    );
    let mut instance = Instance::new_for_test("node-0".to_string());
    instance.main_ip = "10.0.0.1".to_string();
    let monitor = Monitor::new(instance, vec![], vec![]);
    assert_eq!(monitor.grafana_address(), "http://10.0.0.1:3000");
}
