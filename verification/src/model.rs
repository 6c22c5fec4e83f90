//! The data the tool works on: the accounts and courses of its
//! configuration, and the sections, modules and files of a course as the
//! Moodle web service lists them.

use vstd::prelude::*;

verus! {

// ---------------------------------------------------------------------
// Course content
// ---------------------------------------------------------------------

/// A file (or other content item) of a module.
#[derive(Debug)]
pub struct FileInfo {
    /// File name.
    pub name: String,
    /// Kind of content ("File", "Url", ...).
    pub file_type: String,
    /// Size in bytes (0 when unknown).
    pub size: u64,
    /// Path of the file within the module.
    pub path: String,
    /// Download address, when the item has one.
    pub url: Option<String>,
}

/// A module (activity or resource) of a section.
#[derive(Debug)]
pub struct ModuleInfo {
    /// Module id.
    pub id: u64,
    /// Module name.
    pub name: String,
    /// Module kind ("resource", "folder", ...).
    pub module_type: String,
    /// The module's content items, in order.
    pub files: Vec<FileInfo>,
}

/// A section of a course.
#[derive(Debug)]
pub struct SectionInfo {
    /// Section id.
    pub id: i64,
    /// Section name.
    pub name: String,
    /// Section summary (HTML).
    pub summary: String,
    /// The section's modules, in order.
    pub modules: Vec<ModuleInfo>,
}

/// The model of a [`FileInfo`].
pub struct FileView {
    pub name: Seq<char>,
    pub file_type: Seq<char>,
    pub size: u64,
    pub path: Seq<char>,
    pub url: Option<Seq<char>>,
}

/// The model of a [`ModuleInfo`].
pub struct ModuleView {
    pub id: u64,
    pub name: Seq<char>,
    pub module_type: Seq<char>,
    pub files: Seq<FileView>,
}

/// The model of a [`SectionInfo`].
pub struct SectionView {
    pub id: i64,
    pub name: Seq<char>,
    pub summary: Seq<char>,
    pub modules: Seq<ModuleView>,
}

/// The view of an optional string.
pub open spec fn opt_view(o: Option<String>) -> Option<Seq<char>> {
    match o {
        Some(s) => Some(s@),
        None => None,
    }
}

impl View for FileInfo {
    type V = FileView;

    open spec fn view(&self) -> FileView {
        FileView {
            name: self.name@,
            file_type: self.file_type@,
            size: self.size,
            path: self.path@,
            url: opt_view(self.url),
        }
    }
}

impl View for ModuleInfo {
    type V = ModuleView;

    open spec fn view(&self) -> ModuleView {
        ModuleView {
            id: self.id,
            name: self.name@,
            module_type: self.module_type@,
            files: self.files@.map_values(|f: FileInfo| f@),
        }
    }
}

impl View for SectionInfo {
    type V = SectionView;

    open spec fn view(&self) -> SectionView {
        SectionView {
            id: self.id,
            name: self.name@,
            summary: self.summary@,
            modules: self.modules@.map_values(|m: ModuleInfo| m@),
        }
    }
}

/// The models of a list of sections.
pub open spec fn sections_view(s: Seq<SectionInfo>) -> Seq<SectionView> {
    s.map_values(|x: SectionInfo| x@)
}

// ---------------------------------------------------------------------
// Configuration
// ---------------------------------------------------------------------

/// A course as the configuration records it.
#[derive(Debug)]
pub struct CourseConfig {
    /// Course id on the Moodle site.
    pub id: u64,
    /// Full course name.
    pub name: String,
    /// Whether the course is synchronised.
    pub sync: bool,
}

/// A configured account.
#[derive(Debug)]
pub struct AccountConfig {
    /// The key under which the configuration stores the account.
    pub key: String,
    /// Name of the user.
    pub user: String,
    /// Name of the site.
    pub site: String,
    /// Address of the site.
    pub site_url: String,
    /// Local directory that downloads go to.
    pub path: String,
    /// The account's courses, in the configuration's order.
    pub courses: Vec<CourseConfig>,
}

/// The configuration: the accounts, in the configuration's order.
#[derive(Debug)]
pub struct Config {
    pub accounts: Vec<AccountConfig>,
}

/// The model of a [`CourseConfig`].
pub struct CourseView {
    pub id: u64,
    pub name: Seq<char>,
    pub sync: bool,
}

/// The model of an [`AccountConfig`].
pub struct AccountView {
    pub key: Seq<char>,
    pub user: Seq<char>,
    pub site: Seq<char>,
    pub site_url: Seq<char>,
    pub path: Seq<char>,
    pub courses: Seq<CourseView>,
}

impl View for CourseConfig {
    type V = CourseView;

    open spec fn view(&self) -> CourseView {
        CourseView { id: self.id, name: self.name@, sync: self.sync }
    }
}

impl View for AccountConfig {
    type V = AccountView;

    open spec fn view(&self) -> AccountView {
        AccountView {
            key: self.key@,
            user: self.user@,
            site: self.site@,
            site_url: self.site_url@,
            path: self.path@,
            courses: self.courses@.map_values(|c: CourseConfig| c@),
        }
    }
}

impl View for Config {
    type V = Seq<AccountView>;

    open spec fn view(&self) -> Seq<AccountView> {
        self.accounts@.map_values(|a: AccountConfig| a@)
    }
}

} // verus!
