use edu_sync_cli::model::{AccountConfig, Config, CourseConfig};
use edu_sync_cli::status::build_status;
use edu_sync_cli::Render;

fn config() -> Config {
    Config {
        accounts: vec![AccountConfig {
            key: "ada@moodle.example.com".to_string(),
            user: "Ada".to_string(),
            site: "Uni".to_string(),
            site_url: "https://moodle.example.com/".to_string(),
            path: "/home/ada/Moodle".to_string(),
            courses: vec![
                CourseConfig { id: 1, name: "A".to_string(), sync: true },
                CourseConfig { id: 2, name: "B".to_string(), sync: false },
                CourseConfig { id: 3, name: "C".to_string(), sync: true },
            ],
        }],
    }
}

#[test]
fn status_counts_courses() {
    let s = build_status(&config(), "/home/ada/.config/edu-sync/config.toml");
    assert!(s.configured);
    assert_eq!(s.accounts[0].total_courses, 3);
    assert_eq!(s.accounts[0].synced_courses, 2);
}

#[test]
fn status_markdown() {
    let s = build_status(&config(), "/c.toml");
    assert_eq!(
        s.to_markdown(),
        "## Moodle Status\n\n**Config file**: `/c.toml`\n\n### Accounts\n\n#### ada@moodle.example.com\n- **User**: Ada\n- **Site**: Uni\n- **URL**: https://moodle.example.com/\n- **Download path**: `/home/ada/Moodle`\n- **Courses**: 3 total, 2 synced\n\n"
    );
}

#[test]
fn status_not_configured() {
    let s = build_status(&Config { accounts: vec![] }, "/c.toml");
    assert!(!s.configured);
    assert_eq!(
        s.to_markdown(),
        "**Not configured**\n\nRun `moodle configure` to set up a Moodle connection.\n\nConfig file: `/c.toml`"
    );
}
