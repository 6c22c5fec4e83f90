use edu_sync_cli::content::{build_content_result, ContentResult};
use edu_sync_cli::model::{FileInfo, ModuleInfo, SectionInfo};
use edu_sync_cli::Render;

fn file(name: &str, size: u64) -> FileInfo {
    FileInfo {
        name: name.to_string(),
        file_type: "File".to_string(),
        size,
        path: "/".to_string(),
        url: Some(format!("https://moodle.example.com/{}", name)),
    }
}

fn sections() -> Vec<SectionInfo> {
    vec![
        SectionInfo {
            id: 1,
            name: "Week 1".to_string(),
            summary: "<p> Intro <b>notes</b> </p>".to_string(),
            modules: vec![ModuleInfo {
                id: 5,
                name: "Slides".to_string(),
                module_type: "resource".to_string(),
                files: vec![file("slides.pdf", 2048), file("empty.txt", 0)],
            }],
        },
        SectionInfo { id: 2, name: "Week 2".to_string(), summary: "<p></p>".to_string(), modules: vec![] },
    ]
}

#[test]
fn content_markdown_full() {
    let r = build_content_result(42, "Algebra", sections(), None);
    assert_eq!(
        r.to_markdown(),
        "## Algebra (ID: 42)\n\n### Week 1\n\nIntro notes\n\n- **Slides** (resource)\n  - `slides.pdf` [2.0 KB]\n  - `empty.txt`\n\n### Week 2\n\n*No content*\n\n"
    );
}

#[test]
fn content_section_filter_ignores_case() {
    let r = build_content_result(42, "Algebra", sections(), Some("WEEK 2"));
    assert_eq!(r.sections.len(), 1);
    assert_eq!(r.sections[0].id, 2);
}

#[test]
fn content_markdown_no_sections() {
    let r = ContentResult { course_id: 1, course_name: "X".to_string(), sections: vec![] };
    assert_eq!(r.to_markdown(), "## X (ID: 1)\n\nNo content found.\n");
}
