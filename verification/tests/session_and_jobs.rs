use raytop::ray::{order_jobs, ActorInfo, DriverInfo, JobInfo, NodeInfo};
use raytop::session::{day_of_year, format_uptime, format_uptime_at, parse_session_start};

fn job(id: &str, status: &str) -> JobInfo {
    JobInfo {
        job_id: id.to_string(),
        status: status.to_string(),
        entrypoint: String::new(),
        start_time: 0,
        end_time: 0,
        driver_info: None,
    }
}

const SESSION: &str = "session_2026-03-14_23-19-19_186273_1";
const SESSION_START: u64 = 20526 * 86400 + 23 * 3600 + 19 * 60 + 19;

#[test]
fn session_start_of_documented_name() {
    assert_eq!(parse_session_start(SESSION), Some(SESSION_START));
    assert_eq!(SESSION_START, 1_773_530_359);
}

#[test]
fn session_start_epoch_day() {
    assert_eq!(parse_session_start("session_1970-01-01_00-00-00_0"), Some(0));
    assert_eq!(parse_session_start("session_1970-01-02_00-00-01"), Some(86401));
}

#[test]
fn session_start_rejects_other_names() {
    assert_eq!(parse_session_start("2026-03-14_23-19-19_186273_1"), None);
    assert_eq!(parse_session_start("session_2026-03-14"), None);
    assert_eq!(parse_session_start("session_2026-03-14T23-19-19"), None);
    assert_eq!(parse_session_start("session_2026-03_14-23-19-1"), None);
    assert_eq!(parse_session_start(""), None);
}

#[test]
fn session_start_skips_pieces_that_are_not_numbers() {
    // "2026--03-14" splits into "2026", "", "03", "14": the empty piece is skipped.
    assert_eq!(parse_session_start("session_2026--3-14_23-19-10"), Some(SESSION_START - 9));
}

#[test]
fn session_start_needs_byte_boundary_after_nineteen_bytes() {
    // 18 ASCII bytes then a two-byte character straddling byte 19.
    assert_eq!(parse_session_start("session_2026-03-14_23-19-1é"), None);
}

#[test]
fn day_of_year_values() {
    assert_eq!(day_of_year(1, 1), 1);
    assert_eq!(day_of_year(3, 14), 73);
    assert_eq!(day_of_year(12, 31), 365);
    assert_eq!(day_of_year(13, 5), 5);
}

#[test]
fn uptime_over_a_day() {
    let now = SESSION_START + 2 * 86400 + 3 * 3600 + 4 * 60 + 5;
    assert_eq!(format_uptime_at(SESSION, now), "2d 3h 4m");
}

#[test]
fn uptime_within_a_day() {
    assert_eq!(format_uptime_at(SESSION, SESSION_START + 86400), "24h 0m");
    assert_eq!(format_uptime_at(SESSION, SESSION_START + 5 * 3600 + 59 * 60 + 59), "5h 59m");
    assert_eq!(format_uptime_at(SESSION, SESSION_START - 10), "0h 0m");
}

#[test]
fn uptime_of_unparsable_name_is_empty() {
    assert_eq!(format_uptime_at("driver", 1_000_000), "");
    assert_eq!(format_uptime("driver"), "");
}

#[test]
fn uptime_against_clock_is_well_formed() {
    let s = format_uptime(SESSION);
    assert!(s.ends_with('m'));
    assert!(s.contains("h "));
}

#[test]
fn duration_of_unstarted_job() {
    let j = job("01000000", "PENDING");
    assert_eq!(j.duration_str_at(123_456), "-");
    assert_eq!(j.duration_str(), "-");
}

#[test]
fn duration_of_finished_job() {
    let mut j = job("01000000", "SUCCEEDED");
    j.start_time = 1_000;
    j.end_time = 1_000 + 3_725_999;
    assert_eq!(j.duration_str_at(0), "1:02:05");
    assert_eq!(j.duration_str(), "1:02:05");
}

#[test]
fn duration_of_running_job_uses_now() {
    let mut j = job("01000000", "RUNNING");
    j.start_time = 10_000;
    assert_eq!(j.duration_str_at(10_000 + 59_000), "0:00:59");
    assert_eq!(j.duration_str_at(10_000 + 100 * 3600 * 1000), "100:00:00");
    assert_eq!(j.duration_str_at(5_000), "0:00:00");
}

#[test]
fn duration_of_running_job_against_clock() {
    let mut j = job("01000000", "RUNNING");
    j.start_time = 1;
    let d = j.duration_str();
    assert_ne!(d, "-");
    assert_ne!(d, "0:00:00");
}

#[test]
fn short_entrypoint_cuts_bytes() {
    let mut j = job("01000000", "RUNNING");
    j.entrypoint = "python train.py --epochs 3".to_string();
    assert_eq!(j.short_entrypoint(6), "python…");
    assert_eq!(j.short_entrypoint(26), "python train.py --epochs 3");
    assert_eq!(j.short_entrypoint(100), "python train.py --epochs 3");
    j.entrypoint = "héllo".to_string();
    assert_eq!(j.short_entrypoint(3), "hé…");
}

#[test]
fn pid_of_job() {
    let mut j = job("01000000", "RUNNING");
    assert_eq!(j.pid(), "-");
    j.driver_info = Some(DriverInfo { pid: "4242".to_string() });
    assert_eq!(j.pid(), "4242");
}

#[test]
fn role_of_node() {
    let mut n = NodeInfo {
        node_id: "abc".to_string(),
        node_ip: "10.0.0.1".to_string(),
        is_head_node: true,
        state: "ALIVE".to_string(),
    };
    assert_eq!(n.role(), "head");
    n.is_head_node = false;
    assert_eq!(n.role(), "worker");
}

#[test]
fn jobs_newest_first() {
    let jobs = vec![job("02000000", "RUNNING"), job("04000000", "SUCCEEDED"), job("03000000", "RUNNING")];
    let ids: Vec<String> = order_jobs(jobs).into_iter().map(|j| j.job_id).collect();
    assert_eq!(ids, vec!["04000000", "03000000", "02000000"]);
}

#[test]
fn jobs_with_equal_ids_keep_their_order() {
    let jobs = vec![job("a", "FIRST"), job("b", "X"), job("a", "SECOND"), job("", "E")];
    let out: Vec<(String, String)> = order_jobs(jobs).into_iter().map(|j| (j.job_id, j.status)).collect();
    assert_eq!(
        out,
        vec![
            ("b".to_string(), "X".to_string()),
            ("a".to_string(), "FIRST".to_string()),
            ("a".to_string(), "SECOND".to_string()),
            ("".to_string(), "E".to_string()),
        ]
    );
}

#[test]
fn jobs_order_of_empty_list() {
    assert!(order_jobs(Vec::new()).is_empty());
}

#[test]
fn actor_record_fields() {
    let a = ActorInfo { class_name: "Worker".to_string(), state: "ALIVE".to_string(), node_id: "n1".to_string() };
    assert_eq!(a.class_name, "Worker");
}

#[test]
fn session_numbers_that_overflow_are_skipped() {
    // the year does not parse as a u64, so only two date numbers remain
    assert_eq!(parse_session_start("session_99999999999999999999"), None);
}

#[test]
fn session_start_is_defined_for_ordinary_names() {
    assert!(raytop::session::session_start_is_defined(SESSION));
    assert!(raytop::session::session_start_is_defined("no session here"));
    assert!(!raytop::session::session_start_is_defined("session_1969-12-31_00-00-00"));
    assert!(!raytop::session::session_start_is_defined("session_2000-00-01_00-00-00"));
    assert!(!raytop::session::session_start_is_defined("session_1970-01-00_00-00-00"));
}
