use raytop::metrics::{
    extract_label, gpu_order, gpu_slot, keeps_shown_metrics, parse_metric_line, parse_metrics_text,
    replaces_metrics, MetricUpdate,
};

fn s(x: &str) -> Option<String> {
    Some(x.to_string())
}

#[test]
fn label_values() {
    let line = r#"ray_node_cpu_utilization{ip="10.0.0.1",SessionName="session_x"} 12.5"#;
    assert_eq!(extract_label(line, "ip"), s("10.0.0.1"));
    assert_eq!(extract_label(line, "SessionName"), s("session_x"));
    assert_eq!(extract_label(line, "GpuIndex"), None);
    assert_eq!(extract_label(r#"m{ip="unterminated} 1"#, "ip"), None);
    // the first occurrence of `key="` counts, even inside a longer key
    assert_eq!(extract_label(r#"m{xip="a",ip="b"} 1"#, "ip"), s("a"));
}

#[test]
fn gpu_utilization_line() {
    let line = r#"ray_node_gpus_utilization{ip="10.0.0.1",GpuIndex="3",GpuDeviceName="NVIDIA A100"} 87.5"#;
    match parse_metric_line(line) {
        MetricUpdate::GpuUtilization { gpu, name, value } => {
            assert_eq!(gpu, 3);
            assert_eq!(name, "NVIDIA A100");
            assert_eq!(value, s("87.5"));
        }
        other => panic!("unexpected {:?}", other),
    }
}

#[test]
fn gpu_index_defaults_to_zero() {
    match parse_metric_line(r#"ray_node_gram_used{ip="x",GpuIndex="-1"} 5"#) {
        MetricUpdate::GramUsed { gpu, value } => {
            assert_eq!(gpu, 0);
            assert_eq!(value, s("5"));
        }
        other => panic!("unexpected {:?}", other),
    }
    match parse_metric_line(r#"ray_node_gram_available{ip="x",GpuIndex="4294967296"} 7"#) {
        MetricUpdate::GramAvailable { gpu, .. } => assert_eq!(gpu, 0),
        other => panic!("unexpected {:?}", other),
    }
    match parse_metric_line(r#"ray_node_gram_available{ip="x",GpuIndex="+7"} 7"#) {
        MetricUpdate::GramAvailable { gpu, .. } => assert_eq!(gpu, 7),
        other => panic!("unexpected {:?}", other),
    }
}

#[test]
fn node_figure_lines() {
    match parse_metric_line(r#"ray_node_cpu_utilization{ip="x"}   3.0  "#) {
        MetricUpdate::CpuUtilization { session, value } => {
            assert_eq!(session, "");
            assert_eq!(value, s("3.0"));
        }
        other => panic!("unexpected {:?}", other),
    }
    assert!(matches!(parse_metric_line(r#"ray_node_mem_used{ip="x"} 1e9"#), MetricUpdate::MemUsed { value } if value == s("1e9")));
    assert!(matches!(parse_metric_line(r#"ray_node_mem_total{ip="x"} 2"#), MetricUpdate::MemTotal { .. }));
    assert!(matches!(parse_metric_line(r#"ray_node_disk_usage{ip="x"} 2"#), MetricUpdate::DiskUsage { .. }));
    assert!(matches!(parse_metric_line(r#"ray_node_disk_free{ip="x"} 2"#), MetricUpdate::DiskFree { .. }));
    assert!(matches!(parse_metric_line(r#"ray_node_network_receive_speed{ip="x"} 2"#), MetricUpdate::NetworkReceiveSpeed { .. }));
    assert!(matches!(parse_metric_line(r#"ray_node_network_send_speed{ip="x"} 2"#), MetricUpdate::NetworkSendSpeed { .. }));
}

#[test]
fn unrecognized_and_valueless_lines() {
    assert!(matches!(parse_metric_line(r#"ray_node_cpu_count{ip="x"} 8"#), MetricUpdate::Unrecognized));
    // without a `{` the whole line is the metric name
    assert!(matches!(parse_metric_line("ray_node_mem_used 5"), MetricUpdate::Unrecognized));
    assert!(matches!(parse_metric_line(r#"ray_node_mem_used{ip="x" 5"#), MetricUpdate::MemUsed { value: None }));
    assert!(matches!(parse_metric_line(r#"ray_node_mem_used{ip="x"}"#), MetricUpdate::MemUsed { value } if value == s("")));
}

#[test]
fn metrics_text_keeps_sample_lines() {
    let text = "# HELP ray_node_cpu_utilization CPU\n\
                # TYPE ray_node_cpu_utilization gauge\n\
                ray_node_cpu_utilization{ip=\"10.0.0.1\",SessionName=\"session_a\"} 12\r\n\
                \n\
                ray_node_mem_used{instance=\"x\"} 4\n\
                ray_node_cpu_count{ip=\"10.0.0.2\"} 8\n\
                ray_node_mem_used{ip=\"10.0.0.1\"} 1024";
    let out = parse_metrics_text(text);
    assert_eq!(out.len(), 3);
    assert_eq!(out[0].ip, "10.0.0.1");
    assert!(matches!(&out[0].update, MetricUpdate::CpuUtilization { session, value } if session == "session_a" && *value == s("12")));
    assert_eq!(out[1].ip, "10.0.0.2");
    assert!(matches!(out[1].update, MetricUpdate::Unrecognized));
    assert_eq!(out[2].ip, "10.0.0.1");
    assert!(matches!(&out[2].update, MetricUpdate::MemUsed { value } if *value == s("1024")));
}

#[test]
fn metrics_text_empty() {
    assert!(parse_metrics_text("").is_empty());
    assert!(parse_metrics_text("\n\n# only comments\n").is_empty());
}

#[test]
fn merge_rule_for_endpoints() {
    assert!(replaces_metrics(0, 0));
    assert!(replaces_metrics(0, 4));
    assert!(replaces_metrics(2, 4));
    assert!(!replaces_metrics(4, 4));
    assert!(!replaces_metrics(4, 0));
}

#[test]
fn merge_keeps_reading_with_most_gpus() {
    // readings of one node from four endpoints, in order
    let counts = [0usize, 2, 8, 4];
    let mut kept = 0usize;
    for c in counts {
        if replaces_metrics(kept, c) {
            kept = c;
        }
    }
    assert_eq!(kept, 8);
}

#[test]
fn shown_reading_rule() {
    assert!(keeps_shown_metrics(Some(4), 0));
    assert!(!keeps_shown_metrics(Some(4), 2));
    assert!(!keeps_shown_metrics(Some(0), 0));
    assert!(!keeps_shown_metrics(None, 0));
}

#[test]
fn gpu_slots() {
    assert_eq!(gpu_slot(&[3, 1, 2, 1], 1), Some(1));
    assert_eq!(gpu_slot(&[3, 1, 2], 7), None);
    assert_eq!(gpu_slot(&[], 0), None);
}

#[test]
fn gpus_sorted_by_index_stably() {
    assert_eq!(gpu_order(&[3, 1, 2, 1, 0]), vec![4, 1, 3, 2, 0]);
    assert_eq!(gpu_order(&[]), Vec::<usize>::new());
}

#[test]
fn value_text_is_trimmed_of_unicode_whitespace() {
    let line = "ray_node_disk_free{ip=\"x\"}\u{A0}42\u{3000}";
    assert!(matches!(parse_metric_line(line), MetricUpdate::DiskFree { value } if value == s("42")));
}

#[test]
fn value_text_follows_the_last_brace() {
    let line = r#"ray_node_disk_free{ip="x",note="}"} 7"#;
    assert!(matches!(parse_metric_line(line), MetricUpdate::DiskFree { value } if value == s("7")));
}
