//! Searching the content of courses by name.

use vstd::prelude::*;
use vstd::string::*;
use crate::content::size_suffix;
use crate::courses::{course_at, course_slots, course_slots_of, found_course, find_course_slot, lemma_slots_valid, opt_str_view, pairs_view, valid_slot};
use crate::model::{opt_view, FileInfo, FileView, ModuleInfo, ModuleView, SectionInfo, SectionView, sections_view, Config};
use crate::output::Render;
use crate::select::{flat_map, lemma_flat_map_all, lemma_flat_map_contains, lemma_flat_map_take};
use crate::size::format_size;
use crate::text::{contains_ignore_case, contains_ignoring_case, decimal, push_decimal};

verus! {

// ---------------------------------------------------------------------
// The courses to search
// ---------------------------------------------------------------------

/// A course to search: its id, its name and the index of its account.
#[derive(Debug)]
pub struct SearchTarget {
    pub course_id: u64,
    pub course_name: String,
    pub account: usize,
}

/// The model of a list of search targets.
pub open spec fn targets_view(v: Seq<SearchTarget>) -> Seq<(u64, Seq<char>, int)> {
    v.map_values(|t: SearchTarget| (t.course_id, t.course_name@, t.account as int))
}

/// The target of the course at a position.
pub open spec fn target_at(accounts: Seq<crate::model::AccountView>, slot: (int, int)) -> (u64, Seq<char>, int) {
    (course_at(accounts, slot).id, course_at(accounts, slot).name, slot.0)
}

/// The courses that a search covers: the one that `course` names (see
/// [`found_course`]) when given, `None` when it names none, and otherwise
/// every course of the configuration in order.
pub fn courses_to_search(config: &Config, course: Option<&str>) -> (r: Option<Vec<SearchTarget>>)
    ensures
        match course {
            Some(q) => match found_course(config@, q@) {
                None => r is None,
                Some(slot) => r matches Some(v) && targets_view(v@) == seq![target_at(config@, slot)],
            },
            None => r matches Some(v) && targets_view(v@) == course_slots(config@).map_values(
                |s: (int, int)| target_at(config@, s),
            ),
        },
{
    match course {
        Some(q) => {
            match find_course_slot(config, q) {
                None => None,
                Some((a, c)) => {
                    let ghost slot = found_course(config@, q@)->0;
                    let course = &config.accounts[a].courses[c];
                    let mut v: Vec<SearchTarget> = Vec::new();
                    v.push(SearchTarget { course_id: course.id, course_name: course.name.clone(), account: a });
                    assert(targets_view(v@) =~= seq![target_at(config@, slot)]);
                    Some(v)
                },
            }
        },
        None => {
            let ghost accts = config@;
            let slots = course_slots_of(config);
            let ghost ss = course_slots(accts);
            proof {
                lemma_slots_valid(accts, accts.len() as int);
            }
            let mut v: Vec<SearchTarget> = Vec::new();
            let mut i: usize = 0;
            while i < slots.len()
                invariant
                    i <= slots@.len(),
                    accts == config@,
                    ss == course_slots(accts),
                    pairs_view(slots@) == ss,
                    forall|j: int| 0 <= j < ss.len() ==> #[trigger] valid_slot(accts, ss[j]),
                    targets_view(v@) == ss.take(i as int).map_values(|s: (int, int)| target_at(accts, s)),
                decreases slots@.len() - i,
            {
                let (a, c) = slots[i];
                assert(ss[i as int] == (a as int, c as int));
                assert(valid_slot(accts, ss[i as int]));
                let course = &config.accounts[a].courses[c];
                let ghost before = targets_view(v@);
                v.push(SearchTarget { course_id: course.id, course_name: course.name.clone(), account: a });
                assert(targets_view(v@) =~= before.push(target_at(accts, ss[i as int])));
                assert(ss.take(i + 1).map_values(|s: (int, int)| target_at(accts, s)) =~= ss.take(
                    i as int,
                ).map_values(|s: (int, int)| target_at(accts, s)).push(target_at(accts, ss[i as int])));
                i = i + 1;
            }
            assert(ss.take(ss.len() as int) == ss);
            Some(v)
        },
    }
}

// ---------------------------------------------------------------------
// Search results
// ---------------------------------------------------------------------

/// A content item found by a search.
#[derive(Debug)]
pub struct SearchResult {
    pub course_id: u64,
    pub course_name: String,
    pub section: String,
    pub module: String,
    pub name: String,
    pub content_type: String,
    /// `course/section/module/name`.
    pub path: String,
    pub size: u64,
    pub url: Option<String>,
}

/// The model of a [`SearchResult`].
pub struct SearchResultView {
    pub course_id: u64,
    pub course_name: Seq<char>,
    pub section: Seq<char>,
    pub module: Seq<char>,
    pub name: Seq<char>,
    pub content_type: Seq<char>,
    pub path: Seq<char>,
    pub size: u64,
    pub url: Option<Seq<char>>,
}

impl View for SearchResult {
    type V = SearchResultView;

    open spec fn view(&self) -> SearchResultView {
        SearchResultView {
            course_id: self.course_id,
            course_name: self.course_name@,
            section: self.section@,
            module: self.module@,
            name: self.name@,
            content_type: self.content_type@,
            path: self.path@,
            size: self.size,
            url: opt_view(self.url),
        }
    }
}

/// The models of a list of results.
pub open spec fn results_view(v: Seq<SearchResult>) -> Seq<SearchResultView> {
    v.map_values(|r: SearchResult| r@)
}

/// The content of a course, as fetched for a search.
#[derive(Debug)]
pub struct CourseContents {
    pub course_id: u64,
    pub course_name: String,
    pub sections: Vec<SectionInfo>,
}

/// The model of a [`CourseContents`].
pub struct CourseContentsView {
    pub course_id: u64,
    pub course_name: Seq<char>,
    pub sections: Seq<SectionView>,
}

impl View for CourseContents {
    type V = CourseContentsView;

    open spec fn view(&self) -> CourseContentsView {
        CourseContentsView {
            course_id: self.course_id,
            course_name: self.course_name@,
            sections: sections_view(self.sections@),
        }
    }
}

/// A file is found when its name or its module's name contains the query,
/// ignoring case, and, when a type is asked for, its type contains that
/// type, ignoring case.
pub open spec fn is_hit(
    query: Seq<char>,
    content_type: Option<Seq<char>>,
    m: ModuleView,
    f: FileView,
) -> bool {
    (contains_ignoring_case(m.name, query) || contains_ignoring_case(f.name, query)) && match content_type {
        Some(t) => contains_ignoring_case(f.file_type, t),
        None => true,
    }
}

/// The result for a file found in a module of a section of a course.
pub open spec fn hit_result(
    course_id: u64,
    course_name: Seq<char>,
    s: SectionView,
    m: ModuleView,
    f: FileView,
) -> SearchResultView {
    SearchResultView {
        course_id,
        course_name,
        section: s.name,
        module: m.name,
        name: f.name,
        content_type: f.file_type,
        path: course_name + "/"@ + s.name + "/"@ + m.name + "/"@ + f.name,
        size: f.size,
        url: f.url,
    }
}

/// The results for the files of a module: one per file found.
pub open spec fn file_hits(
    query: Seq<char>,
    content_type: Option<Seq<char>>,
    course_id: u64,
    course_name: Seq<char>,
    s: SectionView,
    m: ModuleView,
) -> spec_fn(FileView) -> Seq<SearchResultView> {
    |f: FileView|
        if is_hit(query, content_type, m, f) {
            seq![hit_result(course_id, course_name, s, m, f)]
        } else {
            Seq::empty()
        }
}

/// The results for the modules of a section, in order.
pub open spec fn module_hits(
    query: Seq<char>,
    content_type: Option<Seq<char>>,
    course_id: u64,
    course_name: Seq<char>,
    s: SectionView,
) -> spec_fn(ModuleView) -> Seq<SearchResultView> {
    |m: ModuleView| flat_map(m.files, file_hits(query, content_type, course_id, course_name, s, m))
}

/// The results for the sections of a course, in order.
pub open spec fn section_hits(
    query: Seq<char>,
    content_type: Option<Seq<char>>,
    course_id: u64,
    course_name: Seq<char>,
) -> spec_fn(SectionView) -> Seq<SearchResultView> {
    |s: SectionView| flat_map(s.modules, module_hits(query, content_type, course_id, course_name, s))
}

/// The results for the courses, in order.
pub open spec fn course_hits(query: Seq<char>, content_type: Option<Seq<char>>) -> spec_fn(
    CourseContentsView,
) -> Seq<SearchResultView> {
    |c: CourseContentsView|
        flat_map(c.sections, section_hits(query, content_type, c.course_id, c.course_name))
}

fn push_module_hits(
    out: &mut Vec<SearchResult>,
    query: &str,
    content_type: Option<&str>,
    course_id: u64,
    course_name: &str,
    s: &SectionInfo,
    m: &ModuleInfo,
)
    ensures
        results_view(final(out)@) == results_view(old(out)@) + module_hits(
            query@,
            opt_str_view(content_type),
            course_id,
            course_name@,
            s@,
        )(m@),
{
    let ghost f = file_hits(query@, opt_str_view(content_type), course_id, course_name@, s@, m@);
    let ghost files = m@.files;
    let ghost start = results_view(out@);
    let mut i: usize = 0;
    while i < m.files.len()
        invariant
            i <= m.files@.len(),
            files == m.files@.map_values(|x: FileInfo| x@),
            f == file_hits(query@, opt_str_view(content_type), course_id, course_name@, s@, m@),
            results_view(out@) == start + flat_map(files.take(i as int), f),
        decreases m.files@.len() - i,
    {
        let file = &m.files[i];
        assert(files[i as int] == file@);
        let name_hit = contains_ignore_case(m.name.as_str(), query) || contains_ignore_case(
            file.name.as_str(),
            query,
        );
        let type_ok = match content_type {
            Some(t) => contains_ignore_case(file.file_type.as_str(), t),
            None => true,
        };
        proof {
            lemma_flat_map_take(files, f, i as int);
        }
        if name_hit && type_ok {
            let mut path = course_name.to_string();
            path.append("/");
            path.append(s.name.as_str());
            path.append("/");
            path.append(m.name.as_str());
            path.append("/");
            path.append(file.name.as_str());
            let url = match &file.url {
                Some(u) => Some(u.clone()),
                None => None,
            };
            let r = SearchResult {
                course_id,
                course_name: course_name.to_string(),
                section: s.name.clone(),
                module: m.name.clone(),
                name: file.name.clone(),
                content_type: file.file_type.clone(),
                path,
                size: file.size,
                url,
            };
            assert(r@ == hit_result(course_id, course_name@, s@, m@, file@));
            let ghost before = results_view(out@);
            out.push(r);
            assert(results_view(out@) =~= before + seq![r@]);
        }
        i = i + 1;
    }
    proof {
        assert(files.take(files.len() as int) == files);
    }
}

fn push_section_hits(
    out: &mut Vec<SearchResult>,
    query: &str,
    content_type: Option<&str>,
    course_id: u64,
    course_name: &str,
    s: &SectionInfo,
)
    ensures
        results_view(final(out)@) == results_view(old(out)@) + section_hits(
            query@,
            opt_str_view(content_type),
            course_id,
            course_name@,
        )(s@),
{
    let ghost f = module_hits(query@, opt_str_view(content_type), course_id, course_name@, s@);
    let ghost mods = s@.modules;
    let ghost start = results_view(out@);
    let mut i: usize = 0;
    while i < s.modules.len()
        invariant
            i <= s.modules@.len(),
            mods == s.modules@.map_values(|x: ModuleInfo| x@),
            f == module_hits(query@, opt_str_view(content_type), course_id, course_name@, s@),
            results_view(out@) == start + flat_map(mods.take(i as int), f),
        decreases s.modules@.len() - i,
    {
        assert(mods[i as int] == s.modules@[i as int]@);
        push_module_hits(out, query, content_type, course_id, course_name, s, &s.modules[i]);
        proof {
            lemma_flat_map_take(mods, f, i as int);
        }
        i = i + 1;
    }
    proof {
        assert(mods.take(mods.len() as int) == mods);
    }
}

fn push_course_hits(
    out: &mut Vec<SearchResult>,
    query: &str,
    content_type: Option<&str>,
    c: &CourseContents,
)
    ensures
        results_view(final(out)@) == results_view(old(out)@) + course_hits(
            query@,
            opt_str_view(content_type),
        )(c@),
{
    let ghost f = section_hits(query@, opt_str_view(content_type), c.course_id, c.course_name@);
    let ghost secs = c@.sections;
    let ghost start = results_view(out@);
    let mut i: usize = 0;
    while i < c.sections.len()
        invariant
            i <= c.sections@.len(),
            secs == sections_view(c.sections@),
            f == section_hits(query@, opt_str_view(content_type), c.course_id, c.course_name@),
            results_view(out@) == start + flat_map(secs.take(i as int), f),
        decreases c.sections@.len() - i,
    {
        assert(secs[i as int] == c.sections@[i as int]@);
        push_section_hits(out, query, content_type, c.course_id, c.course_name.as_str(), &c.sections[i]);
        proof {
            lemma_flat_map_take(secs, f, i as int);
        }
        i = i + 1;
    }
    proof {
        assert(secs.take(secs.len() as int) == secs);
    }
}

/// The results of a search, and the query.
#[derive(Debug)]
pub struct SearchResults {
    pub query: String,
    pub total: usize,
    pub results: Vec<SearchResult>,
}

/// The models of a list of course contents.
pub open spec fn contents_view(v: Seq<CourseContents>) -> Seq<CourseContentsView> {
    v.map_values(|c: CourseContents| c@)
}

/// Searches the given course contents: every file whose name or module name
/// contains `query` (ignoring case) and, when `content_type` is given, whose
/// type contains it (ignoring case), in course, section, module and file
/// order.
pub fn search_contents(query: &str, content_type: Option<&str>, courses: &Vec<CourseContents>) -> (r: SearchResults)
    ensures
        r.query@ == query@,
        results_view(r.results@) == flat_map(contents_view(courses@), course_hits(query@, opt_str_view(content_type))),
        r.total == r.results@.len(),
{
    let ghost f = course_hits(query@, opt_str_view(content_type));
    let ghost cs = contents_view(courses@);
    let mut out: Vec<SearchResult> = Vec::new();
    assert(results_view(out@) =~= Seq::<SearchResultView>::empty());
    let mut i: usize = 0;
    while i < courses.len()
        invariant
            i <= courses@.len(),
            cs == contents_view(courses@),
            f == course_hits(query@, opt_str_view(content_type)),
            results_view(out@) == flat_map(cs.take(i as int), f),
        decreases courses@.len() - i,
    {
        assert(cs[i as int] == courses@[i as int]@);
        push_course_hits(&mut out, query, content_type, &courses[i]);
        proof {
            lemma_flat_map_take(cs, f, i as int);
        }
        i = i + 1;
    }
    proof {
        assert(cs.take(cs.len() as int) == cs);
    }
    let total = out.len();
    SearchResults { query: query.to_string(), total, results: out }
}

/// A result answers a search: its file's name or its module's name holds
/// the query, ignoring case, and, when a type is asked for, its type holds
/// that type, ignoring case.
pub open spec fn answers_search(query: Seq<char>, content_type: Option<Seq<char>>) -> spec_fn(
    SearchResultView,
) -> bool {
    |r: SearchResultView|
        (contains_ignoring_case(r.module, query) || contains_ignoring_case(r.name, query)) && match content_type {
            Some(t) => contains_ignoring_case(r.content_type, t),
            None => true,
        }
}

/// Every result of a search answers it.
pub proof fn lemma_results_answer_search(
    query: Seq<char>,
    content_type: Option<Seq<char>>,
    courses: Seq<CourseContentsView>,
)
    ensures
        forall|i: int|
            0 <= i < flat_map(courses, course_hits(query, content_type)).len() ==> answers_search(
                query,
                content_type,
            )(#[trigger] flat_map(courses, course_hits(query, content_type))[i]),
{
    let q = answers_search(query, content_type);
    let ch = course_hits(query, content_type);
    assert forall|j: int, k: int| 0 <= j < courses.len() && 0 <= k < ch(courses[j]).len() implies q(
        #[trigger] ch(courses[j])[k],
    ) by {
        let c = courses[j];
        let sh = section_hits(query, content_type, c.course_id, c.course_name);
        assert forall|j2: int, k2: int| 0 <= j2 < c.sections.len() && 0 <= k2 < sh(c.sections[j2]).len()
            implies q(#[trigger] sh(c.sections[j2])[k2]) by {
            let sec = c.sections[j2];
            let mh = module_hits(query, content_type, c.course_id, c.course_name, sec);
            assert forall|j3: int, k3: int| 0 <= j3 < sec.modules.len() && 0 <= k3 < mh(
                sec.modules[j3],
            ).len() implies q(#[trigger] mh(sec.modules[j3])[k3]) by {
                let m = sec.modules[j3];
                let fh = file_hits(query, content_type, c.course_id, c.course_name, sec, m);
                assert forall|j4: int, k4: int| 0 <= j4 < m.files.len() && 0 <= k4 < fh(m.files[j4]).len()
                    implies q(#[trigger] fh(m.files[j4])[k4]) by {
                    let f = m.files[j4];
                    assert(is_hit(query, content_type, m, f));
                    assert(fh(f)[k4] == hit_result(c.course_id, c.course_name, sec, m, f));
                }
                lemma_flat_map_all(m.files, fh, q);
            }
            lemma_flat_map_all(sec.modules, mh, q);
        }
        lemma_flat_map_all(c.sections, sh, q);
    }
    lemma_flat_map_all(courses, ch, q);
}

/// The search misses nothing: every file of every section and module of
/// every searched course whose own name or whose module's name holds the
/// query, and whose type holds the type asked for (all ignoring case), is
/// among the results, with its course, section, module, name, type, path
/// `course/section/module/name`, size and address.
pub proof fn lemma_search_finds_every_answer(
    query: Seq<char>,
    content_type: Option<Seq<char>>,
    courses: Seq<CourseContentsView>,
    ci: int,
    si: int,
    mi: int,
    fi: int,
)
    requires
        0 <= ci < courses.len(),
        0 <= si < courses[ci].sections.len(),
        0 <= mi < courses[ci].sections[si].modules.len(),
        0 <= fi < courses[ci].sections[si].modules[mi].files.len(),
        contains_ignoring_case(courses[ci].sections[si].modules[mi].name, query)
            || contains_ignoring_case(courses[ci].sections[si].modules[mi].files[fi].name, query),
        match content_type {
            Some(t) => contains_ignoring_case(courses[ci].sections[si].modules[mi].files[fi].file_type, t),
            None => true,
        },
    ensures
        ({
            let c = courses[ci];
            let s = c.sections[si];
            let m = s.modules[mi];
            let f = m.files[fi];
            flat_map(courses, course_hits(query, content_type)).contains(
                SearchResultView {
                    course_id: c.course_id,
                    course_name: c.course_name,
                    section: s.name,
                    module: m.name,
                    name: f.name,
                    content_type: f.file_type,
                    path: c.course_name + "/"@ + s.name + "/"@ + m.name + "/"@ + f.name,
                    size: f.size,
                    url: f.url,
                },
            )
        }),
{
    let c = courses[ci];
    let s = c.sections[si];
    let m = s.modules[mi];
    let f = m.files[fi];
    let x = hit_result(c.course_id, c.course_name, s, m, f);
    let fh = file_hits(query, content_type, c.course_id, c.course_name, s, m);
    let mh = module_hits(query, content_type, c.course_id, c.course_name, s);
    let sh = section_hits(query, content_type, c.course_id, c.course_name);
    let ch = course_hits(query, content_type);
    assert(is_hit(query, content_type, m, f));
    assert(fh(f)[0] == x);
    lemma_flat_map_contains(m.files, fh, fi, x);
    assert(mh(m) == flat_map(m.files, fh));
    lemma_flat_map_contains(s.modules, mh, mi, x);
    assert(sh(s) == flat_map(s.modules, mh));
    lemma_flat_map_contains(c.sections, sh, si, x);
    assert(ch(c) == flat_map(c.sections, sh));
    lemma_flat_map_contains(courses, ch, ci, x);
}

// ---------------------------------------------------------------------
// Markdown
// ---------------------------------------------------------------------

/// The line of a result.
pub open spec fn result_line(r: SearchResultView) -> Seq<char> {
    "- **"@ + r.section + "** > **"@ + r.module + "** > `"@ + r.name + "`"@ + size_suffix(r.size)
        + "\n"@
}

/// The lines of the results, each course's name written as a heading
/// before its first result and again whenever the course changes.
pub open spec fn result_lines(rs: Seq<SearchResultView>) -> Seq<char>
    decreases rs.len(),
{
    if rs.len() == 0 {
        Seq::empty()
    } else {
        let last = rs.last();
        let heading = if rs.len() == 1 || rs[rs.len() - 2].course_name != last.course_name {
            "### "@ + last.course_name + "\n\n"@
        } else {
            Seq::empty()
        };
        result_lines(rs.drop_last()) + heading + result_line(last)
    }
}

/// The markdown of the search results.
pub open spec fn search_markdown(query: Seq<char>, total: usize, rs: Seq<SearchResultView>) -> Seq<char> {
    if rs.len() == 0 {
        "No results found for '"@ + query + "'.\n"@
    } else {
        "## Search Results for '"@ + query + "' ("@ + decimal(total as nat) + " found)\n\n"@
            + result_lines(rs)
    }
}

fn push_result_line(out: &mut String, r: &SearchResult)
    ensures
        final(out)@ == old(out)@ + result_line(r@),
{
    out.append("- **");
    out.append(r.section.as_str());
    out.append("** > **");
    out.append(r.module.as_str());
    out.append("** > `");
    out.append(r.name.as_str());
    out.append("`");
    if r.size > 0 {
        out.append(" [");
        let sz = format_size(r.size);
        out.append(sz.as_str());
        out.append("]");
    }
    out.append("\n");
}

impl Render for SearchResults {
    open spec fn markdown(&self) -> Seq<char> {
        search_markdown(self.query@, self.total, results_view(self.results@))
    }

    fn to_markdown(&self) -> (res: String) {
        if self.results.len() == 0 {
            let mut out = "No results found for '".to_string();
            out.append(self.query.as_str());
            out.append("'.\n");
            return out;
        }
        let mut out = "## Search Results for '".to_string();
        out.append(self.query.as_str());
        out.append("' (");
        push_decimal(&mut out, self.total as u64);
        out.append(" found)\n\n");
        let ghost start = out@;
        let ghost rs = results_view(self.results@);
        let mut i: usize = 0;
        while i < self.results.len()
            invariant
                i <= self.results@.len(),
                rs == results_view(self.results@),
                out@ == start + result_lines(rs.take(i as int)),
            decreases self.results@.len() - i,
        {
            let r = &self.results[i];
            assert(rs[i as int] == r@);
            assert(rs.take(i + 1).drop_last() == rs.take(i as int));
            assert(rs.take(i + 1).last() == r@);
            if i > 0 {
                assert(rs.take(i + 1)[i - 1] == rs[i - 1]);
            }
            let same = i > 0 && self.results[i - 1].course_name == r.course_name;
            if i > 0 {
                assert(rs[i - 1] == self.results@[i - 1]@);
            }
            if !same {
                out.append("### ");
                out.append(r.course_name.as_str());
                out.append("\n\n");
            }
            push_result_line(&mut out, r);
            i = i + 1;
        }
        proof {
            assert(rs.take(rs.len() as int) == rs);
        }
        out
    }
}

} // verus!
