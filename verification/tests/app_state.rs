use raytop::app::{App, Focus, Key, Snapshot, MAX_VISIBLE_JOBS};
use raytop::dashboard::{
    actors_url, cluster_status_url, jobs_url, metrics_targets, metrics_url, nodes_url,
    prometheus_sd_url, Json,
};
use raytop::ray::{ActorInfo, JobInfo, NodeInfo};
use raytop::theme::Theme;
use raytop::ui::{centered_rect, nodes_summary, short_id, Area};

fn node(id: &str) -> NodeInfo {
    NodeInfo { node_id: id.to_string(), node_ip: format!("ip-{id}"), is_head_node: false, state: "ALIVE".to_string() }
}

fn numbered_job(id: usize, status: &str) -> JobInfo {
    JobInfo {
        job_id: format!("{id:08}"),
        status: status.to_string(),
        entrypoint: String::new(),
        start_time: 0,
        end_time: 0,
        driver_info: None,
    }
}

fn actor(class: &str, state: &str, node: &str) -> ActorInfo {
    ActorInfo { class_name: class.to_string(), state: state.to_string(), node_id: node.to_string() }
}

fn snapshot(nodes: usize, running: usize) -> Snapshot {
    Snapshot {
        nodes: Some((0..nodes).map(|i| node(&format!("n{i}"))).collect()),
        jobs: (0..running).map(|i| numbered_job(i, "RUNNING")).chain([numbered_job(999, "SUCCEEDED")]).collect(),
        actors: Vec::new(),
        error: None,
    }
}

#[test]
fn new_app_state() {
    let a = App::new("http://127.0.0.1:8265".to_string());
    assert_eq!(a.master, "http://127.0.0.1:8265");
    assert!(!a.should_quit && !a.show_detail && !a.show_help);
    assert_eq!(a.focus, Focus::Nodes);
    assert_eq!(a.theme, Theme::Default);
    assert!(a.nodes().is_empty());
    assert!(a.selected_node().is_none());
    assert_eq!(a.jobs_height(), 3);
}

#[test]
fn navigation_stays_on_nodes() {
    let mut a = App::new(String::new());
    a.update(snapshot(3, 0));
    a.dispatch(Key::Up);
    assert_eq!(a.selected_row, 0);
    for _ in 0..5 {
        a.dispatch(Key::Down);
    }
    assert_eq!(a.selected_row, 2);
    assert_eq!(a.selected_node().unwrap().node_id, "n2");
    a.dispatch(Key::Char('k'));
    assert_eq!(a.selected_row, 1);
    a.dispatch(Key::Char('j'));
    assert_eq!(a.selected_row, 2);
}

#[test]
fn snapshot_pulls_selection_back() {
    let mut a = App::new(String::new());
    a.update(snapshot(5, 40));
    a.selected_row = 4;
    a.job_offset = 24;
    a.update(snapshot(2, 20));
    assert_eq!(a.selected_row, 1);
    assert_eq!(a.job_offset, 4);
    // with no nodes the selection is left as it is
    a.update(Snapshot { nodes: None, jobs: Vec::new(), actors: Vec::new(), error: Some("down".to_string()) });
    assert_eq!(a.selected_row, 1);
    assert_eq!(a.error.as_deref(), Some("down"));
    assert!(a.nodes().is_empty());
}

#[test]
fn job_paging() {
    let mut a = App::new(String::new());
    a.update(snapshot(1, 20));
    assert_eq!(a.running_job_count(), 20);
    assert_eq!(a.running_jobs().len(), 20);
    assert_eq!(a.visible_jobs().len(), MAX_VISIBLE_JOBS);
    assert_eq!(a.jobs_height(), 19);
    assert_eq!(a.jobs_title(), " Jobs (1/20) ");
    a.dispatch(Key::Tab);
    assert_eq!(a.focus, Focus::Jobs);
    for _ in 0..10 {
        a.dispatch(Key::Down);
    }
    assert_eq!(a.job_offset, 4);
    assert_eq!(a.visible_jobs()[0].job_id, "00000004");
    assert_eq!(a.jobs_title(), " Jobs (5/20) ");
    a.dispatch(Key::Up);
    assert_eq!(a.job_offset, 3);
}

#[test]
fn few_jobs_fit() {
    let mut a = App::new(String::new());
    a.update(snapshot(1, 3));
    assert_eq!(a.visible_jobs().len(), 3);
    assert_eq!(a.jobs_height(), 6);
    assert_eq!(a.jobs_title(), " Jobs ");
    a.dispatch(Key::Tab);
    a.dispatch(Key::Down);
    assert_eq!(a.job_offset, 0);
}

#[test]
fn help_swallows_keys() {
    let mut a = App::new(String::new());
    a.dispatch(Key::Char('h'));
    assert!(a.show_help);
    a.dispatch(Key::Char('q'));
    a.dispatch(Key::Enter);
    a.dispatch(Key::Char('t'));
    assert!(!a.should_quit && !a.show_detail);
    assert_eq!(a.theme, Theme::Default);
    a.dispatch(Key::Esc);
    assert!(!a.show_help);
    a.dispatch(Key::Char('h'));
    a.dispatch(Key::Char('h'));
    assert!(!a.show_help);
}

#[test]
fn quit_and_detail_keys() {
    let mut a = App::new(String::new());
    a.dispatch(Key::Enter);
    assert!(a.show_detail);
    a.dispatch(Key::Esc);
    assert!(!a.show_detail && !a.should_quit);
    a.dispatch(Key::Enter);
    a.dispatch(Key::Char('q'));
    assert!(!a.show_detail && !a.should_quit);
    a.dispatch(Key::Char('q'));
    assert!(a.should_quit);
}

#[test]
fn theme_key_cycles() {
    let mut a = App::new(String::new());
    a.dispatch(Key::Char('t'));
    assert_eq!(a.theme, Theme::Dracula);
    assert_eq!(a.theme.label(), "Dracula");
    a.dispatch(Key::Char('t'));
    assert_eq!(a.theme, Theme::Nord);
    a.dispatch(Key::Char('t'));
    assert_eq!(a.theme, Theme::Default);
    assert_eq!(Theme::Default.label(), "Default");
    assert_eq!(Theme::Nord.label(), "Nord");
    assert_eq!(Theme::Nord.next(), Theme::Default);
}

#[test]
fn other_keys_change_nothing() {
    let mut a = App::new(String::new());
    a.update(snapshot(2, 1));
    a.dispatch(Key::Other);
    a.dispatch(Key::Char('x'));
    assert_eq!(a.selected_row, 0);
    assert!(!a.should_quit && !a.show_detail && !a.show_help);
    a.dispatch(Key::Tab);
    a.dispatch(Key::Tab);
    assert_eq!(a.focus, Focus::Nodes);
}

#[test]
fn actors_on_node() {
    let mut a = App::new(String::new());
    a.actors = vec![
        actor("Worker", "ALIVE", "n1"),
        actor("Trainer", "ALIVE", "n1"),
        actor("Worker", "DEAD", "n1"),
        actor("Worker", "ALIVE", "n2"),
        actor("Worker", "ALIVE", "n1"),
        actor("Actor", "ALIVE", "n1"),
    ];
    assert_eq!(a.alive_actors_on_node("n1").len(), 4);
    assert_eq!(a.alive_actors_on_node("n3").len(), 0);
    let counts = a.actor_class_counts("n1");
    assert_eq!(
        counts,
        vec![("Actor".to_string(), 1), ("Trainer".to_string(), 1), ("Worker".to_string(), 2)]
    );
    assert!(a.actor_class_counts("n3").is_empty());
}

#[test]
fn assembled_snapshot() {
    let s = Snapshot::assemble(
        Ok(vec![node("a")]),
        Ok(vec![numbered_job(1, "RUNNING"), numbered_job(3, "RUNNING"), numbered_job(2, "FAILED")]),
        Err("timeout".to_string()),
    );
    assert_eq!(s.nodes.as_ref().map(|n| n.len()), Some(1));
    assert!(s.error.is_none());
    let ids: Vec<&str> = s.jobs.iter().map(|j| j.job_id.as_str()).collect();
    assert_eq!(ids, vec!["00000003", "00000002", "00000001"]);
    assert!(s.actors.is_empty());
    let e = Snapshot::assemble(Err("refused".to_string()), Err("x".to_string()), Ok(vec![actor("A", "ALIVE", "n")]));
    assert!(e.nodes.is_none());
    assert_eq!(e.error.as_deref(), Some("refused"));
    assert!(e.jobs.is_empty());
    assert_eq!(e.actors.len(), 1);
}

#[test]
fn dashboard_addresses() {
    let b = "http://127.0.0.1:8265";
    assert_eq!(nodes_url(b), "http://127.0.0.1:8265/api/v0/nodes?view=summary");
    assert_eq!(cluster_status_url(b), "http://127.0.0.1:8265/api/cluster_status");
    assert_eq!(jobs_url(b), "http://127.0.0.1:8265/api/jobs/");
    assert_eq!(actors_url(b), "http://127.0.0.1:8265/api/v0/actors?view=summary");
    assert_eq!(prometheus_sd_url(b), "http://127.0.0.1:8265/api/prometheus/sd");
    assert_eq!(metrics_url("10.0.0.1:8080"), "http://10.0.0.1:8080/metrics");
}

#[test]
fn targets_of_service_discovery() {
    let sd = Json::Array(vec![
        Json::Object(vec![
            ("labels".to_string(), Json::Object(Vec::new())),
            (
                "targets".to_string(),
                Json::Array(vec![Json::Str("10.0.0.1:8080".to_string()), Json::Number("5".to_string()), Json::Str("10.0.0.2:8080".to_string())]),
            ),
        ]),
        Json::Object(vec![("targets".to_string(), Json::Array(vec![Json::Str("ignored".to_string())]))]),
    ]);
    assert_eq!(metrics_targets(&sd), vec!["10.0.0.1:8080".to_string(), "10.0.0.2:8080".to_string()]);
    assert!(metrics_targets(&Json::Null).is_empty());
    assert!(metrics_targets(&Json::Array(Vec::new())).is_empty());
    assert!(metrics_targets(&Json::Array(vec![Json::Object(vec![("targets".to_string(), Json::Bool(true))])])).is_empty());
}

#[test]
fn short_ids() {
    assert_eq!(short_id("0123456789abcdef"), "01234567");
    assert_eq!(short_id("01234567"), "01234567");
    assert_eq!(short_id("abc"), "abc");
}

#[test]
fn nodes_figure() {
    assert_eq!(nodes_summary(4, ""), "4");
    assert_eq!(nodes_summary(12, "2d 3h 4m"), "12  up 2d 3h 4m");
}

#[test]
fn popup_area() {
    assert_eq!(centered_rect(40, 11, 100, 30), Area { x: 30, y: 9, width: 40, height: 11 });
    assert_eq!(centered_rect(40, 11, 20, 10), Area { x: 2, y: 2, width: 16, height: 6 });
    assert_eq!(centered_rect(40, 11, 3, 2), Area { x: 1, y: 1, width: 0, height: 0 });
}
