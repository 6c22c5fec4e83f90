use edu_sync_cli::courses::{course_slots_of, find_course_slot, list_courses, CoursesResult};
use edu_sync_cli::find_course;
use edu_sync_cli::model::{AccountConfig, Config, CourseConfig};
use edu_sync_cli::Render;

fn course(id: u64, name: &str, sync: bool) -> CourseConfig {
    CourseConfig { id, name: name.to_string(), sync }
}

fn account(key: &str, courses: Vec<CourseConfig>) -> AccountConfig {
    AccountConfig {
        key: key.to_string(),
        user: "Ada".to_string(),
        site: "Uni".to_string(),
        site_url: "https://moodle.example.com/".to_string(),
        path: "/home/ada/Moodle".to_string(),
        courses,
    }
}

fn sample() -> Config {
    Config {
        accounts: vec![
            account(
                "a1",
                vec![
                    course(10, "Analyse Numérique", true),
                    course(11, "Mécanique des fluides", false),
                    course(12, "Mécanique", false),
                ],
            ),
            account("a2", vec![course(20, "Physique", false), course(21, "physique", true)]),
        ],
    }
}

#[test]
fn find_course_by_id() {
    let config = sample();
    let (id, name, acct) = find_course(&config, "21").unwrap();
    assert_eq!((id, name, acct.key.as_str()), (21, "physique", "a2"));
}

#[test]
fn find_course_exact_name_ignoring_case() {
    let config = sample();
    let (id, _, _) = find_course(&config, "PHYSIQUE").unwrap();
    assert_eq!(id, 20);
}

#[test]
fn find_course_prefers_shortest_partial_match() {
    let config = sample();
    let (id, name, _) = find_course(&config, "mécan").unwrap();
    assert_eq!(id, 12);
    assert_eq!(name, "Mécanique");
}

#[test]
fn find_course_exact_wins_over_earlier_partial() {
    let config = Config {
        accounts: vec![account("a", vec![course(1, "Algebra II", false), course(2, "algebra", false)])],
    };
    assert_eq!(find_course(&config, "Algebra").unwrap().0, 2);
}

#[test]
fn find_course_unknown_id_falls_back_to_names() {
    let config = Config {
        accounts: vec![account("a", vec![course(1, "Course 99", false)])],
    };
    assert_eq!(find_course(&config, "99").unwrap().0, 1);
    assert!(find_course(&config, "100").is_none());
}

#[test]
fn find_course_none_when_nothing_matches() {
    let config = sample();
    assert!(find_course(&config, "chimie").is_none());
    assert!(find_course_slot(&config, "chimie").is_none());
}

#[test]
fn course_slots_in_configuration_order() {
    let config = sample();
    assert_eq!(course_slots_of(&config), vec![(0, 0), (0, 1), (0, 2), (1, 0), (1, 1)]);
}

#[test]
fn list_courses_sorted_by_name_stably() {
    let config = sample();
    let r = list_courses(&config, None, false);
    assert_eq!(r.total, 5);
    let names: Vec<&str> = r.courses.iter().map(|c| c.name.as_str()).collect();
    assert_eq!(
        names,
        vec!["Analyse Numérique", "Mécanique", "Mécanique des fluides", "Physique", "physique"]
    );
    let mut sorted = names.clone();
    sorted.sort();
    assert_eq!(names, sorted);
    assert_eq!(r.courses[4].account, "a2");
    assert!(r.courses[4].sync_enabled);
}

#[test]
fn list_courses_stable_for_equal_names() {
    let config = Config {
        accounts: vec![
            account("x", vec![course(5, "Same", false)]),
            account("y", vec![course(3, "Same", true)]),
        ],
    };
    let r = list_courses(&config, None, true);
    assert_eq!(r.courses[0].account, "x");
    assert_eq!(r.courses[1].account, "y");
}

#[test]
fn list_courses_filtered() {
    let config = sample();
    let r = list_courses(&config, Some("PHYS"), false);
    assert_eq!(r.total, 2);
    assert!(r.courses.iter().all(|c| c.name.to_lowercase().contains("phys")));
}

#[test]
fn courses_markdown_table() {
    let config = Config {
        accounts: vec![account("a", vec![course(7, "Algebra", true), course(3, "Chemistry", false)])],
    };
    let r = list_courses(&config, None, false);
    assert_eq!(
        r.to_markdown(),
        "## Your Courses (2 total)\n\n| ID | Name | Sync | Last Access |\n|----|------|------|-------------|\n| 7 | Algebra | yes | N/A |\n| 3 | Chemistry | no | N/A |\n"
    );
}

#[test]
fn courses_markdown_empty() {
    let r = CoursesResult { total: 0, courses: vec![] };
    assert_eq!(
        r.to_markdown(),
        "No courses found.\n\nRun `moodle courses --refresh` to fetch courses from the server."
    );
}

#[test]
fn find_course_ignores_ascii_case_of_the_query() {
    let config = sample();
    for query in ["analyse", "Fluides", "phys", "numer", "x1"] {
        let found = find_course_slot(&config, query);
        assert_eq!(find_course_slot(&config, &query.to_ascii_uppercase()), found);
        assert_eq!(find_course_slot(&config, &query.to_ascii_lowercase()), found);
    }
    assert_eq!(find_course_slot(&config, "ANALYSE"), Some((0, 0)));
    assert_eq!(find_course_slot(&config, "FLUIDES"), Some((0, 1)));
}
