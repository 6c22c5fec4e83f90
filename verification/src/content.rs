//! The structure of a course: sections, their modules and their files,
//! filtered by section and rendered as markdown.

use vstd::prelude::*;
use vstd::string::*;
use crate::model::{FileInfo, FileView, ModuleInfo, ModuleView, SectionInfo, SectionView, sections_view};
use crate::output::Render;
use crate::size::{format_size, size_text};
use crate::text::{
    chars_of, concat_map, contains_ignore_case, contains_ignoring_case, decimal, lemma_concat_map_take,
    lemma_take_full, push_char, push_chars, push_decimal, trim, trim_chars,
};

verus! {

// ---------------------------------------------------------------------
// Stripping HTML tags
// ---------------------------------------------------------------------

/// The characters of `s` outside tags, starting inside a tag when `in_tag`:
/// `<` opens a tag, `>` closes one, and neither is kept.
pub open spec fn strip_tags_from(s: Seq<char>, in_tag: bool) -> Seq<char>
    decreases s.len(),
{
    if s.len() == 0 {
        Seq::empty()
    } else if s[0] == '<' {
        strip_tags_from(s.drop_first(), true)
    } else if s[0] == '>' {
        strip_tags_from(s.drop_first(), false)
    } else if !in_tag {
        seq![s[0]] + strip_tags_from(s.drop_first(), in_tag)
    } else {
        strip_tags_from(s.drop_first(), in_tag)
    }
}

/// The text of `html` with its tags removed.
pub open spec fn stripped(html: Seq<char>) -> Seq<char> {
    strip_tags_from(html, false)
}

/// Removes HTML tags: every `<` up to the next `>` is dropped, and so is a
/// lone `>`.
pub fn strip_html_tags(html: &str) -> (result: String)
    ensures
        result@ == stripped(html@),
{
    let cs = chars_of(html);
    let mut result = String::new();
    let mut in_tag = false;
    let mut i: usize = 0;
    assert(cs@.skip(0) == cs@);
    assert(result@ + stripped(cs@) == stripped(cs@));
    while i < cs.len()
        invariant
            i <= cs@.len(),
            result@ + strip_tags_from(cs@.skip(i as int), in_tag) == stripped(cs@),
        decreases cs@.len() - i,
    {
        let c = cs[i];
        assert(cs@.skip(i as int).drop_first() == cs@.skip(i + 1));
        assert(cs@.skip(i as int)[0] == c);
        if c == '<' {
            in_tag = true;
        } else if c == '>' {
            in_tag = false;
        } else if !in_tag {
            push_char(&mut result, c);
        }
        i = i + 1;
    }
    assert(cs@.skip(i as int) == Seq::<char>::empty());
    result
}

/// No tag character survives stripping.
pub proof fn lemma_stripped_has_no_brackets(s: Seq<char>, in_tag: bool)
    ensures
        forall|i: int|
            0 <= i < strip_tags_from(s, in_tag).len() ==> strip_tags_from(s, in_tag)[i] != '<'
                && strip_tags_from(s, in_tag)[i] != '>',
    decreases s.len(),
{
    if s.len() > 0 {
        lemma_stripped_has_no_brackets(s.drop_first(), true);
        lemma_stripped_has_no_brackets(s.drop_first(), false);
        if s[0] != '<' && s[0] != '>' && !in_tag {
            let rest = strip_tags_from(s.drop_first(), in_tag);
            let r = strip_tags_from(s, in_tag);
            assert(r == seq![s[0]] + rest);
            assert forall|i: int| 0 <= i < r.len() implies r[i] != '<' && r[i] != '>' by {
                if i > 0 {
                    assert(r[i] == rest[i - 1]);
                }
            }
        } else {
            let next = if s[0] == '<' {
                true
            } else if s[0] == '>' {
                false
            } else {
                in_tag
            };
            let r = strip_tags_from(s, in_tag);
            assert(r == strip_tags_from(s.drop_first(), next));
            assert forall|i: int| 0 <= i < r.len() implies r[i] != '<' && r[i] != '>' by {
                assert(r[i] == strip_tags_from(s.drop_first(), next)[i]);
            }
        }
    }
}

/// Text without `<` and `>` is left as it is (outside a tag).
pub proof fn lemma_strip_plain_text(s: Seq<char>)
    requires
        forall|i: int| 0 <= i < s.len() ==> s[i] != '<' && s[i] != '>',
    ensures
        stripped(s) == s,
    decreases s.len(),
{
    if s.len() > 0 {
        assert forall|i: int| 0 <= i < s.drop_first().len() implies s.drop_first()[i] != '<'
            && s.drop_first()[i] != '>' by {
            assert(s.drop_first()[i] == s[i + 1]);
        }
        lemma_strip_plain_text(s.drop_first());
        assert(seq![s[0]] + s.drop_first() == s);
    }
}

/// Stripping twice strips nothing more than stripping once.
pub proof fn lemma_strip_idempotent(s: Seq<char>)
    ensures
        stripped(stripped(s)) == stripped(s),
{
    lemma_stripped_has_no_brackets(s, false);
    lemma_strip_plain_text(stripped(s));
}

/// Text without brackets in front, outside a tag, is kept as it is.
proof fn lemma_strip_keeps_plain_prefix(a: Seq<char>, x: Seq<char>)
    requires
        forall|i: int| 0 <= i < a.len() ==> a[i] != '<' && a[i] != '>',
    ensures
        strip_tags_from(a + x, false) == a + strip_tags_from(x, false),
    decreases a.len(),
{
    if a.len() == 0 {
        assert(a + x =~= x);
        assert(a + strip_tags_from(x, false) =~= strip_tags_from(x, false));
    } else {
        let t = a.drop_first();
        assert forall|i: int| 0 <= i < t.len() implies t[i] != '<' && t[i] != '>' by {
            assert(t[i] == a[i + 1]);
        }
        lemma_strip_keeps_plain_prefix(t, x);
        assert((a + x)[0] == a[0]);
        assert((a + x).drop_first() =~= t + x);
        assert(seq![a[0]] + (t + strip_tags_from(x, false)) =~= a + strip_tags_from(x, false));
    }
}

/// Inside a tag, everything up to the closing `>` is dropped.
proof fn lemma_strip_drops_tag_text(t: Seq<char>, y: Seq<char>)
    requires
        forall|i: int| 0 <= i < t.len() ==> t[i] != '>',
    ensures
        strip_tags_from(t + y, true) == strip_tags_from(y, true),
    decreases t.len(),
{
    if t.len() == 0 {
        assert(t + y =~= y);
    } else {
        let r = t.drop_first();
        assert forall|i: int| 0 <= i < r.len() implies r[i] != '>' by {
            assert(r[i] == t[i + 1]);
        }
        lemma_strip_drops_tag_text(r, y);
        assert((t + y)[0] == t[0]);
        assert((t + y).drop_first() =~= r + y);
    }
}

/// Every character outside tags is kept, in order, and a tag goes with
/// nothing around it: for a text `a` without `<` and `>` and a tag text `t`
/// without `>`, stripping `a<t>b` gives `a` followed by the stripped `b`.
pub proof fn lemma_strip_removes_one_tag(a: Seq<char>, t: Seq<char>, b: Seq<char>)
    requires
        forall|i: int| 0 <= i < a.len() ==> a[i] != '<' && a[i] != '>',
        forall|i: int| 0 <= i < t.len() ==> t[i] != '>',
    ensures
        stripped(a + seq!['<'] + t + seq!['>'] + b) == a + stripped(b),
{
    let rest = seq!['<'] + t + seq!['>'] + b;
    assert(a + seq!['<'] + t + seq!['>'] + b =~= a + rest);
    lemma_strip_keeps_plain_prefix(a, rest);
    assert(rest[0] == '<');
    assert(rest.drop_first() =~= t + (seq!['>'] + b));
    lemma_strip_drops_tag_text(t, seq!['>'] + b);
    let gt = seq!['>'] + b;
    assert(gt[0] == '>');
    assert(gt.drop_first() =~= b);
}

// ---------------------------------------------------------------------
// Markdown of a course's content
// ---------------------------------------------------------------------

/// The result of the content command.
#[derive(Debug)]
pub struct ContentResult {
    pub course_id: u64,
    pub course_name: String,
    pub sections: Vec<SectionInfo>,
}

/// The size shown after a file: nothing for an empty or unknown size.
pub open spec fn size_suffix(size: u64) -> Seq<char> {
    if size > 0 {
        " ["@ + size_text(size) + "]"@
    } else {
        Seq::empty()
    }
}

/// The markdown line of a file.
pub open spec fn file_markdown(f: FileView) -> Seq<char> {
    "  - `"@ + f.name + "`"@ + size_suffix(f.size) + "\n"@
}

/// The markdown of a module: a line with its name and kind, then its files.
pub open spec fn module_markdown(m: ModuleView) -> Seq<char> {
    "- **"@ + m.name + "** ("@ + m.module_type + ")\n"@ + concat_map(
        m.files,
        |f: FileView| file_markdown(f),
    )
}

/// The summary paragraph of a section: the summary without tags and
/// surrounding white space, if anything is left of it.
pub open spec fn summary_markdown(summary: Seq<char>) -> Seq<char> {
    let clean = trim(stripped(summary));
    if clean.len() == 0 {
        Seq::empty()
    } else {
        clean + "\n\n"@
    }
}

/// The markdown of a section: its heading, its summary, then its modules or
/// a note that it has none.
pub open spec fn section_markdown(s: SectionView) -> Seq<char> {
    "### "@ + s.name + "\n\n"@ + summary_markdown(s.summary) + if s.modules.len() == 0 {
        "*No content*\n\n"@
    } else {
        concat_map(s.modules, |m: ModuleView| module_markdown(m)) + "\n"@
    }
}

/// The markdown of a course's content.
pub open spec fn content_markdown(id: u64, name: Seq<char>, sections: Seq<SectionView>) -> Seq<
    char,
> {
    let header = "## "@ + name + " (ID: "@ + decimal(id as nat) + ")\n\n"@;
    if sections.len() == 0 {
        header + "No content found.\n"@
    } else {
        header + concat_map(sections, |s: SectionView| section_markdown(s))
    }
}

fn push_size_suffix(out: &mut String, size: u64)
    ensures
        final(out)@ == old(out)@ + size_suffix(size),
{
    if size > 0 {
        out.append(" [");
        let s = format_size(size);
        out.append(s.as_str());
        out.append("]");
    }
}

fn push_file_markdown(out: &mut String, f: &FileInfo)
    ensures
        final(out)@ == old(out)@ + file_markdown(f@),
{
    out.append("  - `");
    out.append(f.name.as_str());
    out.append("`");
    push_size_suffix(out, f.size);
    out.append("\n");
}

fn push_module_markdown(out: &mut String, m: &ModuleInfo)
    ensures
        final(out)@ == old(out)@ + module_markdown(m@),
{
    out.append("- **");
    out.append(m.name.as_str());
    out.append("** (");
    out.append(m.module_type.as_str());
    out.append(")\n");
    let ghost start = out@;
    let ghost files = m@.files;
    let mut i: usize = 0;
    while i < m.files.len()
        invariant
            i <= m.files@.len(),
            files == m.files@.map_values(|f: FileInfo| f@),
            out@ == start + concat_map(files.take(i as int), |f: FileView| file_markdown(f)),
        decreases m.files@.len() - i,
    {
        push_file_markdown(out, &m.files[i]);
        proof {
            lemma_concat_map_take(files, |f: FileView| file_markdown(f), i as int);
        }
        i = i + 1;
    }
    proof {
        lemma_take_full(files);
    }
}

fn push_summary_markdown(out: &mut String, summary: &str)
    ensures
        final(out)@ == old(out)@ + summary_markdown(summary@),
{
    let clean = strip_html_tags(summary);
    let cs = chars_of(clean.as_str());
    let t = trim_chars(&cs);
    if t.len() > 0 {
        push_chars(out, &t, 0, t.len());
        out.append("\n\n");
        assert(t@.subrange(0, t@.len() as int) == t@);
    }
}

fn push_section_markdown(out: &mut String, s: &SectionInfo)
    ensures
        final(out)@ == old(out)@ + section_markdown(s@),
{
    out.append("### ");
    out.append(s.name.as_str());
    out.append("\n\n");
    if !s.summary.as_str().is_empty() {
        push_summary_markdown(out, s.summary.as_str());
    } else {
        assert(stripped(s.summary@) == Seq::<char>::empty());
        assert(trim(Seq::<char>::empty()) == Seq::<char>::empty());
    }
    if s.modules.len() == 0 {
        out.append("*No content*\n\n");
        return ;
    }
    let ghost start = out@;
    let ghost mods = s@.modules;
    let mut i: usize = 0;
    while i < s.modules.len()
        invariant
            i <= s.modules@.len(),
            mods == s.modules@.map_values(|m: ModuleInfo| m@),
            out@ == start + concat_map(mods.take(i as int), |m: ModuleView| module_markdown(m)),
        decreases s.modules@.len() - i,
    {
        push_module_markdown(out, &s.modules[i]);
        proof {
            lemma_concat_map_take(mods, |m: ModuleView| module_markdown(m), i as int);
        }
        i = i + 1;
    }
    proof {
        lemma_take_full(mods);
    }
    out.append("\n");
}

impl Render for ContentResult {
    open spec fn markdown(&self) -> Seq<char> {
        content_markdown(self.course_id, self.course_name@, sections_view(self.sections@))
    }

    fn to_markdown(&self) -> (res: String) {
        let mut out = "## ".to_string();
        out.append(self.course_name.as_str());
        out.append(" (ID: ");
        push_decimal(&mut out, self.course_id);
        out.append(")\n\n");
        if self.sections.len() == 0 {
            out.append("No content found.\n");
            return out;
        }
        let ghost start = out@;
        let ghost secs = sections_view(self.sections@);
        let mut i: usize = 0;
        while i < self.sections.len()
            invariant
                i <= self.sections@.len(),
                secs == sections_view(self.sections@),
                out@ == start + concat_map(secs.take(i as int), |s: SectionView| section_markdown(s)),
            decreases self.sections@.len() - i,
        {
            push_section_markdown(&mut out, &self.sections[i]);
            proof {
                lemma_concat_map_take(secs, |s: SectionView| section_markdown(s), i as int);
            }
            i = i + 1;
        }
        proof {
            lemma_take_full(secs);
        }
        out
    }
}

// ---------------------------------------------------------------------
// Building the result
// ---------------------------------------------------------------------

/// The sections whose name contains `filter`, ignoring case, in order.
pub open spec fn sections_matching(sections: Seq<SectionView>, filter: Seq<char>) -> Seq<SectionView>
    decreases sections.len(),
{
    if sections.len() == 0 {
        Seq::empty()
    } else {
        let rest = sections_matching(sections.drop_last(), filter);
        if contains_ignoring_case(sections.last().name, filter) {
            rest.push(sections.last())
        } else {
            rest
        }
    }
}

/// The section filter keeps exactly the sections whose name holds it,
/// ignoring case: each kept section is one of the course's and holds the
/// filter, and each section that holds it is kept.
pub proof fn lemma_sections_matching_members(sections: Seq<SectionView>, filter: Seq<char>)
    ensures
        forall|i: int|
            0 <= i < sections_matching(sections, filter).len() ==> contains_ignoring_case(
                (#[trigger] sections_matching(sections, filter)[i]).name,
                filter,
            ) && sections.contains(sections_matching(sections, filter)[i]),
        forall|j: int|
            0 <= j < sections.len() && contains_ignoring_case((#[trigger] sections[j]).name, filter)
                ==> sections_matching(sections, filter).contains(sections[j]),
    decreases sections.len(),
{
    if sections.len() > 0 {
        let t = sections.drop_last();
        lemma_sections_matching_members(t, filter);
        let k = sections_matching(sections, filter);
        let kt = sections_matching(t, filter);
        assert forall|i: int| 0 <= i < k.len() implies contains_ignoring_case((#[trigger] k[i]).name, filter)
            && sections.contains(k[i]) by {
            if i < kt.len() {
                assert(k[i] == kt[i]);
                let m = choose|m: int| 0 <= m < t.len() && t[m] == kt[i];
                assert(sections[m] == t[m]);
            } else {
                assert(k[i] == sections.last());
                assert(sections[sections.len() - 1] == sections.last());
            }
        }
        assert forall|j: int| 0 <= j < sections.len() && contains_ignoring_case((#[trigger] sections[j]).name, filter)
            implies k.contains(sections[j]) by {
            if j < t.len() {
                assert(t[j] == sections[j]);
                let m = choose|m: int| 0 <= m < kt.len() && kt[m] == t[j];
                assert(k[m] == kt[m]);
            } else {
                assert(k[k.len() - 1] == sections.last());
            }
        }
    }
}

/// The content result of a course: its sections, reduced to those whose
/// name contains `section_filter` (ignoring case) when one is given.
pub fn build_content_result(
    course_id: u64,
    course_name: &str,
    sections: Vec<SectionInfo>,
    section_filter: Option<&str>,
) -> (r: ContentResult)
    ensures
        r.course_id == course_id,
        r.course_name@ == course_name@,
        sections_view(r.sections@) == match section_filter {
            Some(f) => sections_matching(sections_view(sections@), f@),
            None => sections_view(sections@),
        },
{
    let kept = match section_filter {
        Some(filter) => {
            let ghost all = sections_view(sections@);
            let ghost orig = sections@;
            let mut kept: Vec<SectionInfo> = Vec::new();
            for s in it: sections.into_iter()
                invariant
                    it.seq() == orig,
                    all == sections_view(orig),
                    sections_view(kept@) == sections_matching(all.take(it.index() as int), filter@),
            {
                let ghost i = it.index();
                assert(all.take(i + 1).drop_last() == all.take(i as int));
                assert(all[i] == s@);
                if contains_ignore_case(s.name.as_str(), filter) {
                    kept.push(s);
                    assert(sections_view(kept@) == sections_view(kept@.drop_last()).push(all[i]));
                }
            }
            proof {
                lemma_take_full(all);
            }
            kept
        },
        None => sections,
    };
    ContentResult { course_id, course_name: course_name.to_string(), sections: kept }
}

} // verus!
