use edu_sync_cli::get::{download_file_name, file_request, find_file, split_path, GetResult};
use edu_sync_cli::model::{FileInfo, ModuleInfo, SectionInfo};
use edu_sync_cli::Render;

fn file(name: &str, url: bool) -> FileInfo {
    FileInfo {
        name: name.to_string(),
        file_type: "File".to_string(),
        size: 1,
        path: "/".to_string(),
        url: if url { Some("https://x/y".to_string()) } else { None },
    }
}

fn sections() -> Vec<SectionInfo> {
    vec![
        SectionInfo {
            id: 0,
            name: "Général".to_string(),
            summary: String::new(),
            modules: vec![ModuleInfo {
                id: 1,
                name: "Annonces".to_string(),
                module_type: "forum".to_string(),
                files: vec![file("td1.pdf", true)],
            }],
        },
        SectionInfo {
            id: 1,
            name: "TD".to_string(),
            summary: String::new(),
            modules: vec![ModuleInfo {
                id: 2,
                name: "Feuilles".to_string(),
                module_type: "resource".to_string(),
                files: vec![file("TD1.pdf", false), file("td1-corrige.pdf", true)],
            }],
        },
    ]
}

#[test]
fn split_path_pieces() {
    assert_eq!(split_path("a/b/c"), vec!["a", "b", "c"]);
    assert_eq!(split_path("a//"), vec!["a", "", ""]);
    assert_eq!(split_path(""), vec![""]);
}

#[test]
fn file_request_needs_two_pieces() {
    assert!(file_request("file.pdf", None).is_none());
    let r = file_request("Maths/TD/td1.pdf", None).unwrap();
    assert_eq!(r.course_query, "Maths");
    assert_eq!(r.parts.len(), 3);
    let r = file_request("TD/td1.pdf", Some("Maths")).unwrap();
    assert_eq!(r.course_query, "Maths");
}

#[test]
fn find_file_first_match_with_url() {
    let parts = split_path("Maths/TD/td1");
    // "Général/Annonces" mentions no piece; in "TD", TD1.pdf has no address.
    assert_eq!(find_file(&parts, &sections()), Some((1, 0, 1)));
}

#[test]
fn find_file_none() {
    let parts = split_path("Maths/TD/exam");
    assert_eq!(find_file(&parts, &sections()), None);
}

#[test]
fn download_file_name_from_address() {
    assert_eq!(
        download_file_name("https://moodle.example.com/pluginfile.php/12/notes.pdf").as_deref(),
        Some("notes.pdf")
    );
    assert_eq!(download_file_name("https://moodle.example.com").as_deref(), Some(""));
    assert_eq!(download_file_name("data:text/plain,hello").as_deref(), Some("downloaded_file"));
    assert_eq!(download_file_name("not a url"), None);
}

#[test]
fn get_markdown() {
    let r = GetResult {
        status: "downloaded".to_string(),
        file_name: "a.pdf".to_string(),
        local_path: "/tmp/a.pdf".to_string(),
        size: 3 * 1024 * 1024,
    };
    assert_eq!(r.to_markdown(), "Downloaded: `a.pdf`\nLocal path: `/tmp/a.pdf`\nSize: 3.0 MB");
}
