use edu_sync_cli::courses::find_course;
use edu_sync_cli::model::{AccountConfig, Config, CourseConfig, FileInfo, ModuleInfo, SectionInfo};
use edu_sync_cli::search::{courses_to_search, search_contents, CourseContents, SearchResults};
use edu_sync_cli::Render;

fn file(name: &str, ty: &str, size: u64) -> FileInfo {
    FileInfo { name: name.to_string(), file_type: ty.to_string(), size, path: "/".to_string(), url: None }
}

fn contents() -> Vec<CourseContents> {
    vec![
        CourseContents {
            course_id: 1,
            course_name: "Maths".to_string(),
            sections: vec![SectionInfo {
                id: 0,
                name: "TD".to_string(),
                summary: String::new(),
                modules: vec![
                    ModuleInfo {
                        id: 1,
                        name: "TD2 Exercices".to_string(),
                        module_type: "resource".to_string(),
                        files: vec![file("td2.pdf", "File", 1500), file("notes", "Url", 0)],
                    },
                    ModuleInfo {
                        id: 2,
                        name: "Cours".to_string(),
                        module_type: "resource".to_string(),
                        files: vec![file("exo-td2.pdf", "File", 10)],
                    },
                ],
            }],
        },
        CourseContents {
            course_id: 2,
            course_name: "Physique".to_string(),
            sections: vec![SectionInfo {
                id: 0,
                name: "S".to_string(),
                summary: String::new(),
                modules: vec![ModuleInfo {
                    id: 3,
                    name: "M".to_string(),
                    module_type: "folder".to_string(),
                    files: vec![file("TD2-phys.pdf", "File", 0)],
                }],
            }],
        },
    ]
}

#[test]
fn search_finds_by_module_or_file_name() {
    let r = search_contents("td2", None, &contents());
    assert_eq!(r.total, 4);
    let names: Vec<&str> = r.results.iter().map(|x| x.name.as_str()).collect();
    assert_eq!(names, vec!["td2.pdf", "notes", "exo-td2.pdf", "TD2-phys.pdf"]);
    assert_eq!(r.results[0].path, "Maths/TD/TD2 Exercices/td2.pdf");
}

#[test]
fn search_type_filter() {
    let r = search_contents("td2", Some("URL"), &contents());
    assert_eq!(r.total, 1);
    assert_eq!(r.results[0].name, "notes");
    assert_eq!(r.results[0].content_type, "Url");
}

#[test]
fn search_markdown_groups_by_course() {
    let r = search_contents("td2", Some("file"), &contents());
    assert_eq!(
        r.to_markdown(),
        "## Search Results for 'td2' (3 found)\n\n### Maths\n\n- **TD** > **TD2 Exercices** > `td2.pdf` [1.5 KB]\n- **TD** > **Cours** > `exo-td2.pdf` [10 B]\n### Physique\n\n- **S** > **M** > `TD2-phys.pdf`\n"
    );
}

#[test]
fn search_markdown_no_results() {
    let r = SearchResults { query: "zzz".to_string(), total: 0, results: vec![] };
    assert_eq!(r.to_markdown(), "No results found for 'zzz'.\n");
}

#[test]
fn search_targets_all_or_one() {
    let config = Config {
        accounts: vec![AccountConfig {
            key: "k".to_string(),
            user: String::new(),
            site: String::new(),
            site_url: String::new(),
            path: String::new(),
            courses: vec![
                CourseConfig { id: 4, name: "Maths".to_string(), sync: false },
                CourseConfig { id: 9, name: "Physique".to_string(), sync: false },
            ],
        }],
    };
    let all = courses_to_search(&config, None).unwrap();
    assert_eq!(all.len(), 2);
    assert_eq!(all[1].course_id, 9);
    let one = courses_to_search(&config, Some("phys")).unwrap();
    assert_eq!(one.len(), 1);
    assert_eq!(one[0].course_name, "Physique");
    assert!(courses_to_search(&config, Some("chimie")).is_none());
    assert!(find_course(&config, "9").is_some());
}
