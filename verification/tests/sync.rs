use edu_sync_cli::model::{AccountConfig, Config, CourseConfig};
use edu_sync_cli::sync::{
    course_summary_line, enable_course_sync, has_active_courses, next_fetch_step, plan_downloads,
    sum_sizes, sync_targets, total_summary_line, DownloadItem, DownloadKind, FetchOutcome, FetchStep,
};

fn account(key: &str, courses: Vec<(u64, &str, bool)>) -> AccountConfig {
    AccountConfig {
        key: key.to_string(),
        user: String::new(),
        site: String::new(),
        site_url: String::new(),
        path: String::new(),
        courses: courses
            .into_iter()
            .map(|(id, name, sync)| CourseConfig { id, name: name.to_string(), sync })
            .collect(),
    }
}

#[test]
fn enabling_a_course_makes_it_active() {
    let mut config = Config { accounts: vec![account("a", vec![(1, "A", false), (2, "B", false)])] };
    assert!(!has_active_courses(&config));
    enable_course_sync(&mut config, 2);
    assert!(has_active_courses(&config));
    assert!(config.accounts[0].courses[1].sync);
    assert!(!config.accounts[0].courses[0].sync);
}

#[test]
fn sync_targets_reverse_order_per_account() {
    let config = Config {
        accounts: vec![
            account("a", vec![(1, "A", true), (2, "B", false), (3, "C", true)]),
            account("b", vec![(4, "D", true)]),
        ],
    };
    let ids: Vec<(usize, u64)> = sync_targets(&config).iter().map(|t| (t.account, t.course_id)).collect();
    assert_eq!(ids, vec![(0, 3), (0, 1), (1, 4)]);
}

#[test]
fn fetch_retries_only_http_errors_up_to_five_fetches() {
    assert_eq!(next_fetch_step(1, FetchOutcome::Fetched), FetchStep::Accept);
    assert_eq!(next_fetch_step(1, FetchOutcome::HttpError), FetchStep::Retry);
    assert_eq!(next_fetch_step(4, FetchOutcome::HttpError), FetchStep::Retry);
    assert_eq!(next_fetch_step(5, FetchOutcome::HttpError), FetchStep::GiveUp);
    assert_eq!(next_fetch_step(2, FetchOutcome::OtherError), FetchStep::GiveUp);
}

#[test]
fn plan_downloads_partitions() {
    let items = vec![
        DownloadItem { kind: DownloadKind::File, size: 10 },
        DownloadItem { kind: DownloadKind::Url, size: 1 },
        DownloadItem { kind: DownloadKind::File, size: 5 },
        DownloadItem { kind: DownloadKind::Content, size: 2 },
    ];
    let plan = plan_downloads(&items);
    assert_eq!(plan.files, vec![0, 2]);
    assert_eq!(plan.others, vec![1, 3]);
    assert_eq!(plan.file_bytes, 15);
}

#[test]
fn summary_lines() {
    assert_eq!(sum_sizes(&vec![1, 2, 3]), 6);
    let line = course_summary_line("Algebra", 3, 1536);
    assert_eq!(
        line,
        format!(
            "{} {:>4} items, totalling {}",
            dialoguer::console::pad_str("Algebra", 48, dialoguer::console::Alignment::Left, Some("...")),
            3,
            dialoguer::console::pad_str("1.50 KiB", 9, dialoguer::console::Alignment::Right, None)
        )
    );
    assert!(line.starts_with("Algebra "));
    assert!(line.ends_with(" items, totalling  1.50 KiB"));
    assert_eq!(course_summary_line("X", 12345, 0).len(), 48 + 1 + 5 + 18 + 9);
    assert_eq!(total_summary_line(4, 0), "Total: 4 items, totalling N/A");
    assert_eq!(total_summary_line(4, 2048), "Total: 4 items, totalling 2.00 KiB");
}
