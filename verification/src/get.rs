//! Locating a file to download: by a path through a course's structure, or
//! by its address.

use vstd::prelude::*;
use vstd::string::*;
use crate::model::{FileInfo, FileView, ModuleInfo, ModuleView, SectionInfo, SectionView, sections_view};
use crate::output::Render;
use crate::size::{format_size, size_text};
use crate::text::{chars_of, contains_ignore_case, contains_ignoring_case, push_char, string_of_chars};

verus! {

// ---------------------------------------------------------------------
// Trusted items
// ---------------------------------------------------------------------

/// What `url::Url::parse` followed by `Url::path` gives for a text: the
/// percent-encoded path of the address, or `None` where parsing fails.  A
/// function of the text alone.
pub uninterp spec fn parsed_url_path(text: Seq<char>) -> Option<Seq<char>>;

/// Calls `url::Url::parse` and reads the path of the parsed address with
/// `Url::path`; the outcome is named by [`parsed_url_path`].
#[verifier::external_body]
fn url_path(text: &str) -> (r: Option<String>)
    ensures
        r matches Some(p) ==> parsed_url_path(text@) == Some(p@),
        r is None ==> parsed_url_path(text@) is None,
{
    match url::Url::parse(text) {
        Ok(u) => Some(u.path().to_string()),
        Err(_) => None,
    }
}

// ---------------------------------------------------------------------
// Splitting a path
// ---------------------------------------------------------------------

/// The pieces of `s.split(c)`: the texts between the occurrences of `c`.
pub open spec fn pieces(s: Seq<char>, c: char) -> Seq<Seq<char>>
    decreases s.len(),
{
    if s.len() == 0 {
        seq![Seq::empty()]
    } else {
        let p = pieces(s.drop_last(), c);
        if s.last() == c {
            p.push(Seq::empty())
        } else {
            p.update(p.len() - 1, p.last().push(s.last()))
        }
    }
}

proof fn lemma_pieces_nonempty(s: Seq<char>, c: char)
    ensures
        pieces(s, c).len() >= 1,
    decreases s.len(),
{
    if s.len() > 0 {
        lemma_pieces_nonempty(s.drop_last(), c);
    }
}

/// The model of a list of strings.
pub open spec fn strings_view(v: Seq<String>) -> Seq<Seq<char>> {
    v.map_values(|s: String| s@)
}

/// The pieces of `path` between slashes, as [`pieces`] says.
pub fn split_path(path: &str) -> (r: Vec<String>)
    ensures
        strings_view(r@) == pieces(path@, '/'),
{
    let cs = chars_of(path);
    let mut done: Vec<String> = Vec::new();
    let mut cur = String::new();
    let mut i: usize = 0;
    assert(cs@.take(0) == Seq::<char>::empty());
    assert(strings_view(done@).push(cur@) =~= pieces(cs@.take(0), '/'));
    while i < cs.len()
        invariant
            i <= cs@.len(),
            strings_view(done@).push(cur@) == pieces(cs@.take(i as int), '/'),
        decreases cs@.len() - i,
    {
        let c = cs[i];
        assert(cs@.take(i + 1).drop_last() == cs@.take(i as int));
        assert(cs@.take(i + 1).last() == c);
        let ghost before = strings_view(done@);
        let ghost cur0 = cur@;
        if c == '/' {
            let piece = cur;
            done.push(piece);
            cur = String::new();
            assert(strings_view(done@) =~= before.push(cur0));
        } else {
            push_char(&mut cur, c);
            assert(before.push(cur0).update(before.len() as int, cur0.push(c)) =~= before.push(cur@));
        }
        i = i + 1;
    }
    assert(cs@.take(cs@.len() as int) == cs@);
    let ghost before = strings_view(done@);
    done.push(cur);
    assert(strings_view(done@) =~= before.push(cur@));
    done
}

// ---------------------------------------------------------------------
// Finding the file
// ---------------------------------------------------------------------

/// Some piece of the path occurs in `name`, ignoring case.
pub open spec fn mentions_a_part(parts: Seq<Seq<char>>, name: Seq<char>) -> bool {
    exists|i: int| 0 <= i < parts.len() && contains_ignoring_case(name, parts[i])
}

/// The file that a path asks for: it has an address, its name contains the
/// last piece of the path (ignoring case), and its section's or module's
/// name contains some piece of the path (ignoring case) unless the path
/// has a single piece.
pub open spec fn is_wanted(parts: Seq<Seq<char>>, s: SectionView, m: ModuleView, f: FileView) -> bool {
    &&& f.url is Some
    &&& contains_ignoring_case(f.name, parts.last())
    &&& (mentions_a_part(parts, s.name) || mentions_a_part(parts, m.name) || parts.len() == 1)
}

/// A position (section, module, file) exists in the sections.
pub open spec fn valid_position(secs: Seq<SectionView>, p: (int, int, int)) -> bool {
    &&& 0 <= p.0 < secs.len()
    &&& 0 <= p.1 < secs[p.0].modules.len()
    &&& 0 <= p.2 < secs[p.0].modules[p.1].files.len()
}

/// The file at a valid position is wanted.
pub open spec fn wanted_at(parts: Seq<Seq<char>>, secs: Seq<SectionView>, p: (int, int, int)) -> bool {
    is_wanted(parts, secs[p.0], secs[p.0].modules[p.1], secs[p.0].modules[p.1].files[p.2])
}

/// `p` comes before `q` in document order.
pub open spec fn before(p: (int, int, int), q: (int, int, int)) -> bool {
    p.0 < q.0 || (p.0 == q.0 && (p.1 < q.1 || (p.1 == q.1 && p.2 < q.2)))
}

fn mentions_part(parts: &Vec<String>, name: &str) -> (b: bool)
    ensures
        b == mentions_a_part(strings_view(parts@), name@),
{
    let ghost ps = strings_view(parts@);
    let mut i: usize = 0;
    while i < parts.len()
        invariant
            i <= parts@.len(),
            ps == strings_view(parts@),
            forall|j: int| 0 <= j < i ==> !contains_ignoring_case(name@, ps[j]),
        decreases parts@.len() - i,
    {
        assert(ps[i as int] == parts@[i as int]@);
        if contains_ignore_case(name, parts[i].as_str()) {
            return true;
        }
        i = i + 1;
    }
    false
}

/// The position of the first wanted file in document order (sections, then
/// modules, then files, each in order).
pub fn find_file(parts: &Vec<String>, sections: &Vec<SectionInfo>) -> (r: Option<(usize, usize, usize)>)
    requires
        parts@.len() >= 1,
    ensures
        r matches Some(p) ==> {
            let q = (p.0 as int, p.1 as int, p.2 as int);
            &&& valid_position(sections_view(sections@), q)
            &&& wanted_at(strings_view(parts@), sections_view(sections@), q)
            &&& forall|o: (int, int, int)|
                valid_position(sections_view(sections@), o) && before(o, q) ==> !wanted_at(
                    strings_view(parts@),
                    sections_view(sections@),
                    o,
                )
        },
        r is None ==> forall|o: (int, int, int)|
            valid_position(sections_view(sections@), o) ==> !wanted_at(
                strings_view(parts@),
                sections_view(sections@),
                o,
            ),
{
    let ghost ps = strings_view(parts@);
    let ghost secs = sections_view(sections@);
    let last = &parts[parts.len() - 1];
    assert(ps.last() == last@);
    let mut i: usize = 0;
    while i < sections.len()
        invariant
            i <= sections@.len(),
            ps == strings_view(parts@),
            secs == sections_view(sections@),
            ps.len() >= 1,
            ps.last() == last@,
            forall|o: (int, int, int)| valid_position(secs, o) && o.0 < i ==> !wanted_at(ps, secs, o),
        decreases sections@.len() - i,
    {
        let s = &sections[i];
        assert(secs[i as int] == s@);
        let sm = mentions_part(parts, s.name.as_str());
        let mut j: usize = 0;
        while j < s.modules.len()
            invariant
                i < sections@.len(),
                j <= s.modules@.len(),
                ps == strings_view(parts@),
                secs == sections_view(sections@),
                secs[i as int] == s@,
                ps.len() >= 1,
                ps.last() == last@,
                sm == mentions_a_part(ps, s@.name),
                forall|o: (int, int, int)|
                    valid_position(secs, o) && (o.0 < i || (o.0 == i && o.1 < j)) ==> !wanted_at(
                        ps,
                        secs,
                        o,
                    ),
            decreases s.modules@.len() - j,
        {
            let m = &s.modules[j];
            assert(s@.modules[j as int] == m@);
            let mm = mentions_part(parts, m.name.as_str());
            let mut k: usize = 0;
            while k < m.files.len()
                invariant
                    i < sections@.len(),
                    j < s.modules@.len(),
                    k <= m.files@.len(),
                    ps == strings_view(parts@),
                    secs == sections_view(sections@),
                    secs[i as int] == s@,
                    s@.modules[j as int] == m@,
                    ps.len() >= 1,
                    ps.last() == last@,
                    sm == mentions_a_part(ps, s@.name),
                    mm == mentions_a_part(ps, m@.name),
                    forall|o: (int, int, int)|
                        valid_position(secs, o) && (o.0 < i || (o.0 == i && (o.1 < j || (o.1 == j
                            && o.2 < k)))) ==> !wanted_at(ps, secs, o),
                decreases m.files@.len() - k,
            {
                let f = &m.files[k];
                assert(m@.files[k as int] == f@);
                let wanted = f.url.is_some() && contains_ignore_case(f.name.as_str(), last.as_str()) && (
                sm || mm || parts.len() == 1);
                if wanted {
                    return Some((i, j, k));
                }
                k = k + 1;
            }
            j = j + 1;
        }
        i = i + 1;
    }
    None
}

/// Which files a path asks for, said without the helper predicates: the
/// file at a position is wanted exactly when it has an address, its name
/// holds the last piece of the path, and its section's name or its
/// module's name holds some piece of the path (all ignoring case), or the
/// path has a single piece.  In particular a file whose module matches is
/// wanted whatever its section is called, so [`find_file`] finds a file
/// whenever such a file exists.
pub proof fn lemma_wanted_files(parts: Seq<Seq<char>>, secs: Seq<SectionView>, p: (int, int, int))
    requires
        parts.len() >= 1,
        valid_position(secs, p),
    ensures
        wanted_at(parts, secs, p) <==> {
            let s = secs[p.0];
            let m = s.modules[p.1];
            let f = m.files[p.2];
            &&& f.url is Some
            &&& contains_ignoring_case(f.name, parts[parts.len() - 1])
            &&& (parts.len() == 1 || exists|k: int|
                0 <= k < parts.len() && (contains_ignoring_case(s.name, parts[k])
                    || contains_ignoring_case(m.name, parts[k])))
        },
{
    let s = secs[p.0];
    let m = s.modules[p.1];
    if exists|k: int|
        0 <= k < parts.len() && (contains_ignoring_case(s.name, parts[k]) || contains_ignoring_case(
            m.name,
            parts[k],
        )) {
        let k = choose|k: int|
            0 <= k < parts.len() && (contains_ignoring_case(s.name, parts[k]) || contains_ignoring_case(
                m.name,
                parts[k],
            ));
        if contains_ignoring_case(s.name, parts[k]) {
            assert(mentions_a_part(parts, s.name));
        } else {
            assert(mentions_a_part(parts, m.name));
        }
    }
}

/// A path that has a matching file is never reported as not found: when
/// some position holds a file with an address, whose name holds the last
/// piece of the path and whose module's or section's name holds some piece
/// of it (ignoring case), every answer that [`find_file`] may give (one
/// meeting its contract) is a position.
pub proof fn lemma_matching_file_is_found(
    parts: Seq<Seq<char>>,
    secs: Seq<SectionView>,
    p: (int, int, int),
    k: int,
    r: Option<(int, int, int)>,
)
    requires
        parts.len() >= 1,
        valid_position(secs, p),
        0 <= k < parts.len(),
        secs[p.0].modules[p.1].files[p.2].url is Some,
        contains_ignoring_case(secs[p.0].modules[p.1].files[p.2].name, parts[parts.len() - 1]),
        contains_ignoring_case(secs[p.0].name, parts[k]) || contains_ignoring_case(
            secs[p.0].modules[p.1].name,
            parts[k],
        ),
        r is None ==> forall|o: (int, int, int)| valid_position(secs, o) ==> !wanted_at(parts, secs, o),
    ensures
        r is Some,
{
    lemma_wanted_files(parts, secs, p);
}

// ---------------------------------------------------------------------
// What a request for a file asks
// ---------------------------------------------------------------------

/// A request for a file by path: the course to look in and the pieces of the
/// path.
#[derive(Debug)]
pub struct FileRequest {
    pub course_query: String,
    pub parts: Vec<String>,
}

/// Reads a request for a file by path: the path must have at least two
/// pieces; the course is the one given, or else the first piece.
pub fn file_request(path: &str, course: Option<&str>) -> (r: Option<FileRequest>)
    ensures
        r is Some <==> pieces(path@, '/').len() >= 2,
        r matches Some(q) ==> strings_view(q.parts@) == pieces(path@, '/') && q.course_query@
            == match course {
            Some(c) => c@,
            None => pieces(path@, '/')[0],
        },
{
    let parts = split_path(path);
    if parts.len() < 2 {
        return None;
    }
    assert(strings_view(parts@)[0] == parts@[0]@);
    let course_query = match course {
        Some(c) => c.to_string(),
        None => parts[0].clone(),
    };
    Some(FileRequest { course_query, parts })
}

// ---------------------------------------------------------------------
// Downloads by address
// ---------------------------------------------------------------------

/// The text after the last `/` of `s` (all of `s` when it has none).
pub open spec fn after_last_slash(s: Seq<char>) -> Seq<char>
    decreases s.len(),
{
    if s.len() == 0 {
        s
    } else if s.last() == '/' {
        Seq::empty()
    } else {
        after_last_slash(s.drop_last()).push(s.last())
    }
}

/// The name under which a file downloaded from an address with path `path`
/// is saved: the last segment of the path, or `downloaded_file` when the
/// address has no segments.
pub open spec fn file_name_for_path(path: Seq<char>) -> Seq<char> {
    if path.len() > 0 && path[0] == '/' {
        after_last_slash(path.drop_first())
    } else {
        "downloaded_file"@
    }
}

/// The name under which the file at address `url` is saved, as
/// [`file_name_for_path`] says of its path; `None` when the address does
/// not parse.
pub fn download_file_name(url: &str) -> (r: Option<String>)
    ensures
        match parsed_url_path(url@) {
            None => r is None,
            Some(p) => r matches Some(n) && n@ == file_name_for_path(p),
        },
{
    let path = match url_path(url) {
        Some(p) => p,
        None => {
            return None;
        },
    };
    let cs = chars_of(path.as_str());
    if cs.len() > 0 && cs[0] == '/' {
        let mut start: usize = 1;
        let mut i: usize = 1;
        let ghost rest = cs@.drop_first();
        while i < cs.len()
            invariant
                1 <= start <= i <= cs@.len(),
                rest == cs@.drop_first(),
                after_last_slash(rest.take(i - 1)) == cs@.subrange(start as int, i as int),
            decreases cs@.len() - i,
        {
            assert(rest.take(i as int).drop_last() == rest.take(i - 1));
            assert(rest.take(i as int).last() == cs@[i as int]);
            if cs[i] == '/' {
                start = i + 1;
                assert(cs@.subrange(start as int, i + 1) == Seq::<char>::empty());
            } else {
                assert(cs@.subrange(start as int, i + 1) == cs@.subrange(start as int, i as int).push(
                    cs@[i as int],
                ));
            }
            i = i + 1;
        }
        assert(rest.take(cs@.len() - 1) == rest);
        Some(string_of_chars(&cs, start, cs.len()))
    } else {
        Some("downloaded_file".to_string())
    }
}

// ---------------------------------------------------------------------
// The result of a download
// ---------------------------------------------------------------------

/// The result of the get command.
#[derive(Debug)]
pub struct GetResult {
    /// "downloaded", or "cached" when the file was there already.
    pub status: String,
    pub file_name: String,
    pub local_path: String,
    pub size: u64,
}

/// The markdown of a download's result.
pub open spec fn get_markdown(file_name: Seq<char>, local_path: Seq<char>, size: u64) -> Seq<char> {
    "Downloaded: `"@ + file_name + "`\nLocal path: `"@ + local_path + "`\nSize: "@ + size_text(size)
}

impl Render for GetResult {
    open spec fn markdown(&self) -> Seq<char> {
        get_markdown(self.file_name@, self.local_path@, self.size)
    }

    fn to_markdown(&self) -> (res: String) {
        let mut out = "Downloaded: `".to_string();
        out.append(self.file_name.as_str());
        out.append("`\nLocal path: `");
        out.append(self.local_path.as_str());
        out.append("`\nSize: ");
        let s = format_size(self.size);
        out.append(s.as_str());
        out
    }
}

} // verus!
