//! The decisions of a synchronisation: which courses take part, when to
//! fetch a course's contents again, what the summary before downloading
//! says, and how a course's downloads are split.

use vstd::prelude::*;
use vstd::string::*;
use crate::courses::{course_at, course_slots};
use crate::model::{AccountView, Config, CourseView};
use crate::text::{decimal, push_decimal, push_right_aligned, right_aligned_decimal};

verus! {

// ---------------------------------------------------------------------
// Trusted items
// ---------------------------------------------------------------------

/// What `console::pad_str` (reached through `dialoguer::console`) returns:
/// `text` padded with spaces to `width` columns, on the right or (when
/// `right`) on the left, or cut to `width` columns ending with `truncation`
/// when it is wider and a truncation marker is given.  A function of its
/// arguments alone.
pub uninterp spec fn padded_text(
    text: Seq<char>,
    width: nat,
    right: bool,
    truncation: Option<Seq<char>>,
) -> Seq<char>;

/// Calls `console::pad_str` with left alignment, or right alignment when
/// `right`; the result is named by [`padded_text`].  When the text is cut,
/// `pad_str` subtracts the marker's width (and, in one build, its length in
/// bytes) from `width`, so the marker must fit: at most four bytes and two
/// columns per character.
#[verifier::external_body]
fn pad_text(text: &str, width: usize, right: bool, truncation: Option<&str>) -> (r: String)
    requires
        truncation matches Some(t) ==> 4 * t@.len() <= width,
    ensures
        r@ == padded_text(
            text@,
            width as nat,
            right,
            match truncation {
                Some(t) => Some(t@),
                None => None,
            },
        ),
{
    let align = if right {
        dialoguer::console::Alignment::Right
    } else {
        dialoguer::console::Alignment::Left
    };
    dialoguer::console::pad_str(text, width, align, truncation).into_owned()
}

/// What the `Display` of `indicatif::BinaryBytes` writes for a number of
/// bytes (such as "1.46 KiB"); a function of the number alone.
pub uninterp spec fn binary_bytes_text(n: u64) -> Seq<char>;

/// Formats `indicatif::BinaryBytes(n)`; the result is named by
/// [`binary_bytes_text`].
#[verifier::external_body]
fn binary_bytes(n: u64) -> (r: String)
    ensures
        r@ == binary_bytes_text(n),
{
    indicatif::BinaryBytes(n).to_string()
}

// ---------------------------------------------------------------------
// Which courses take part
// ---------------------------------------------------------------------

/// Every course with id `id` is marked for synchronisation; nothing else
/// changes.
pub open spec fn with_sync_enabled(accounts: Seq<AccountView>, id: u64) -> Seq<AccountView> {
    accounts.map_values(
        |a: AccountView|
            AccountView {
                courses: a.courses.map_values(
                    |c: CourseView|
                        if c.id == id {
                            CourseView { sync: true, ..c }
                        } else {
                            c
                        },
                ),
                ..a
            },
    )
}

/// Marks every course with id `id` for synchronisation.
pub fn enable_course_sync(config: &mut Config, id: u64)
    ensures
        final(config)@ == with_sync_enabled(old(config)@, id),
{
    let ghost old_accts = config@;
    let mut a: usize = 0;
    while a < config.accounts.len()
        invariant
            a <= config.accounts@.len(),
            config.accounts@.len() == old_accts.len(),
            forall|k: int| 0 <= k < a ==> config@[k] == #[trigger] with_sync_enabled(old_accts, id)[k],
            forall|k: int| a <= k < old_accts.len() ==> config@[k] == #[trigger] old_accts[k],
        decreases config.accounts@.len() - a,
    {
        let mut c: usize = 0;
        let ghost acct0 = old_accts[a as int];
        while c < config.accounts[a].courses.len()
            invariant
                a < config.accounts@.len(),
                c <= config.accounts@[a as int].courses@.len(),
                config.accounts@.len() == old_accts.len(),
                acct0 == old_accts[a as int],
                config@[a as int].courses.len() == acct0.courses.len(),
                config@[a as int].key == acct0.key,
                config@[a as int].user == acct0.user,
                config@[a as int].site == acct0.site,
                config@[a as int].site_url == acct0.site_url,
                config@[a as int].path == acct0.path,
                forall|j: int| 0 <= j < c ==> config@[a as int].courses[j] == #[trigger] with_sync_enabled(old_accts, id)[a as int].courses[j],
                forall|j: int| c <= j < acct0.courses.len() ==> config@[a as int].courses[j] == #[trigger] acct0.courses[j],
                forall|k: int| 0 <= k < a ==> config@[k] == #[trigger] with_sync_enabled(old_accts, id)[k],
                forall|k: int| a < k < old_accts.len() ==> config@[k] == #[trigger] old_accts[k],
            decreases config.accounts@[a as int].courses@.len() - c,
        {
            if config.accounts[a].courses[c].id == id {
                config.accounts[a].courses[c].sync = true;
            }
            c = c + 1;
        }
        assert(config@[a as int].courses =~= with_sync_enabled(old_accts, id)[a as int].courses);
        assert(config@[a as int] == with_sync_enabled(old_accts, id)[a as int]);
        a = a + 1;
    }
    assert(config@ =~= with_sync_enabled(old_accts, id));
}

/// Some course of some account is marked for synchronisation.
pub open spec fn has_active(accounts: Seq<AccountView>) -> bool {
    exists|a: int, c: int|
        0 <= a < accounts.len() && 0 <= c < accounts[a].courses.len() && #[trigger] accounts[a].courses[c].sync
}

/// Whether some course is marked for synchronisation.
pub fn has_active_courses(config: &Config) -> (b: bool)
    ensures
        b == has_active(config@),
{
    let mut a: usize = 0;
    while a < config.accounts.len()
        invariant
            a <= config.accounts@.len(),
            forall|k: int, c: int|
                0 <= k < a && 0 <= c < config@[k].courses.len() ==> !#[trigger] config@[k].courses[c].sync,
        decreases config.accounts@.len() - a,
    {
        let mut c: usize = 0;
        while c < config.accounts[a].courses.len()
            invariant
                a < config.accounts@.len(),
                c <= config@[a as int].courses.len(),
                forall|j: int| 0 <= j < c ==> !#[trigger] config@[a as int].courses[j].sync,
                forall|k: int, j: int|
                    0 <= k < a && 0 <= j < config@[k].courses.len() ==> !#[trigger] config@[k].courses[j].sync,
            decreases config@[a as int].courses.len() - c,
        {
            if config.accounts[a].courses[c].sync {
                assert(config@[a as int].courses[c as int].sync);
                return true;
            }
            c = c + 1;
        }
        a = a + 1;
    }
    false
}

/// Enabling a course of the configuration leaves a course to synchronise:
/// once the course with id `id` at position (`a`, `c`) is enabled, some
/// course is marked.
pub proof fn lemma_enabled_course_is_active(accounts: Seq<AccountView>, id: u64, a: int, c: int)
    requires
        0 <= a < accounts.len(),
        0 <= c < accounts[a].courses.len(),
        accounts[a].courses[c].id == id,
    ensures
        has_active(with_sync_enabled(accounts, id)),
        with_sync_enabled(accounts, id)[a].courses[c].sync,
{
    let e = with_sync_enabled(accounts, id);
    assert(e[a].courses[c].sync);
}

/// A course to synchronise: its account's index, its id and its name.
#[derive(Debug)]
pub struct SyncTarget {
    pub account: usize,
    pub course_id: u64,
    pub course_name: String,
}

/// The models of a list of targets.
pub open spec fn sync_targets_view(v: Seq<SyncTarget>) -> Seq<(int, u64, Seq<char>)> {
    v.map_values(|t: SyncTarget| (t.account as int, t.course_id, t.course_name@))
}

/// The marked courses among the first `n` of an account, from the `n`-th
/// back to the first.
pub open spec fn marked_backwards(a: int, cs: Seq<CourseView>, n: int) -> Seq<(int, u64, Seq<char>)>
    decreases n,
{
    if n <= 0 {
        Seq::empty()
    } else {
        (if cs[n - 1].sync {
            seq![(a, cs[n - 1].id, cs[n - 1].name)]
        } else {
            Seq::empty()
        }) + marked_backwards(a, cs, n - 1)
    }
}

/// The courses to synchronise: account by account, each account's marked
/// courses in reverse order.
pub open spec fn sync_order(accounts: Seq<AccountView>, k: int) -> Seq<(int, u64, Seq<char>)>
    decreases k,
{
    if k <= 0 {
        Seq::empty()
    } else {
        sync_order(accounts, k - 1) + marked_backwards(
            k - 1,
            accounts[k - 1].courses,
            accounts[k - 1].courses.len() as int,
        )
    }
}

/// What [`marked_backwards`] holds: the marked courses of the account,
/// and only those.
proof fn lemma_marked_backwards_members(a: int, cs: Seq<CourseView>, n: int, t: (int, u64, Seq<char>))
    requires
        0 <= n <= cs.len(),
    ensures
        marked_backwards(a, cs, n).contains(t) <==> exists|c: int|
            0 <= c < n && #[trigger] cs[c].sync && t == (a, cs[c].id, cs[c].name),
    decreases n,
{
    if n > 0 {
        lemma_marked_backwards_members(a, cs, n - 1, t);
        let head: Seq<(int, u64, Seq<char>)> = if cs[n - 1].sync {
            seq![(a, cs[n - 1].id, cs[n - 1].name)]
        } else {
            Seq::empty()
        };
        let rest = marked_backwards(a, cs, n - 1);
        let all = marked_backwards(a, cs, n);
        assert(all == head + rest);
        if all.contains(t) {
            let m = choose|m: int| 0 <= m < all.len() && all[m] == t;
            if m < head.len() {
                assert(cs[n - 1].sync && t == (a, cs[n - 1].id, cs[n - 1].name));
            } else {
                assert(rest[m - head.len()] == t);
            }
        }
        if exists|c: int| 0 <= c < n && #[trigger] cs[c].sync && t == (a, cs[c].id, cs[c].name) {
            let c = choose|c: int| 0 <= c < n && #[trigger] cs[c].sync && t == (a, cs[c].id, cs[c].name);
            if c == n - 1 {
                assert(all[0] == t);
            } else {
                assert(rest.contains(t));
                let m = choose|m: int| 0 <= m < rest.len() && rest[m] == t;
                assert(all[head.len() + m] == t);
            }
        }
    }
}

/// What [`sync_order`] holds: the marked courses of the first `k`
/// accounts, and only those.
proof fn lemma_sync_order_members(accounts: Seq<AccountView>, k: int, t: (int, u64, Seq<char>))
    requires
        0 <= k <= accounts.len(),
    ensures
        sync_order(accounts, k).contains(t) <==> exists|a: int, c: int|
            0 <= a < k && 0 <= c < accounts[a].courses.len() && #[trigger] accounts[a].courses[c].sync
                && t == (a, accounts[a].courses[c].id, accounts[a].courses[c].name),
    decreases k,
{
    if k > 0 {
        lemma_sync_order_members(accounts, k - 1, t);
        let cs = accounts[k - 1].courses;
        lemma_marked_backwards_members(k - 1, cs, cs.len() as int, t);
        let prev = sync_order(accounts, k - 1);
        let last = marked_backwards(k - 1, cs, cs.len() as int);
        let all = sync_order(accounts, k);
        assert(all == prev + last);
        if all.contains(t) {
            let m = choose|m: int| 0 <= m < all.len() && all[m] == t;
            if m < prev.len() {
                assert(prev[m] == t);
            } else {
                assert(last[m - prev.len()] == t);
                let c = choose|c: int| 0 <= c < cs.len() && #[trigger] cs[c].sync && t == (
                    k - 1,
                    cs[c].id,
                    cs[c].name,
                );
                assert(accounts[k - 1].courses[c].sync);
            }
        }
        if exists|a: int, c: int|
            0 <= a < k && 0 <= c < accounts[a].courses.len() && #[trigger] accounts[a].courses[c].sync
                && t == (a, accounts[a].courses[c].id, accounts[a].courses[c].name) {
            let (a, c) = choose|a: int, c: int|
                0 <= a < k && 0 <= c < accounts[a].courses.len() && #[trigger] accounts[a].courses[c].sync
                    && t == (a, accounts[a].courses[c].id, accounts[a].courses[c].name);
            if a < k - 1 {
                assert(prev.contains(t));
                let m = choose|m: int| 0 <= m < prev.len() && prev[m] == t;
                assert(all[m] == t);
            } else {
                assert(cs[c].sync);
                assert(last.contains(t));
                let m = choose|m: int| 0 <= m < last.len() && last[m] == t;
                assert(all[prev.len() + m] == t);
            }
        }
    }
}

/// The courses to synchronise are exactly the marked courses: a course is a
/// target (with its account's index, its id and its name) exactly when it
/// is marked for synchronisation.
pub proof fn lemma_targets_are_marked_courses(accounts: Seq<AccountView>, t: (int, u64, Seq<char>))
    ensures
        sync_order(accounts, accounts.len() as int).contains(t) <==> exists|a: int, c: int|
            0 <= a < accounts.len() && 0 <= c < accounts[a].courses.len()
                && #[trigger] accounts[a].courses[c].sync && t == (
                a,
                accounts[a].courses[c].id,
                accounts[a].courses[c].name,
            ),
{
    lemma_sync_order_members(accounts, accounts.len() as int, t);
}

/// The courses to synchronise, as [`sync_order`] says.
pub fn sync_targets(config: &Config) -> (r: Vec<SyncTarget>)
    ensures
        sync_targets_view(r@) == sync_order(config@, config@.len() as int),
{
    let ghost accts = config@;
    let mut out: Vec<SyncTarget> = Vec::new();
    let mut a: usize = 0;
    while a < config.accounts.len()
        invariant
            a <= config.accounts@.len(),
            accts == config@,
            sync_targets_view(out@) == sync_order(accts, a as int),
        decreases config.accounts@.len() - a,
    {
        let ghost cs = accts[a as int].courses;
        let ghost base = sync_targets_view(out@);
        let n = config.accounts[a].courses.len();
        let mut c: usize = n;
        while c > 0
            invariant
                c <= n,
                a < config.accounts@.len(),
                accts == config@,
                cs == accts[a as int].courses,
                n == cs.len(),
                sync_targets_view(out@) + marked_backwards(a as int, cs, c as int) == base
                    + marked_backwards(a as int, cs, n as int),
            decreases c,
        {
            let course = &config.accounts[a].courses[c - 1];
            assert(cs[c - 1] == course@);
            if course.sync {
                let ghost before = sync_targets_view(out@);
                out.push(SyncTarget { account: a, course_id: course.id, course_name: course.name.clone() });
                assert(sync_targets_view(out@) =~= before.push((a as int, course.id, course.name@)));
                assert(before + marked_backwards(a as int, cs, c as int) =~= before.push(
                    (a as int, course.id, course.name@),
                ) + marked_backwards(a as int, cs, c - 1));
            } else {
                assert(marked_backwards(a as int, cs, c as int) =~= marked_backwards(a as int, cs, c - 1));
            }
            c = c - 1;
        }
        assert(sync_targets_view(out@) =~= sync_targets_view(out@) + marked_backwards(a as int, cs, 0));
        a = a + 1;
    }
    out
}

// ---------------------------------------------------------------------
// Fetching a course's contents
// ---------------------------------------------------------------------

/// How many times the contents of a course are fetched at most.
pub const MAX_FETCHES: u32 = 5;

/// What became of one fetch of a course's contents.
#[derive(Debug, Clone, Copy, PartialEq, Eq, Structural)]
pub enum FetchOutcome {
    /// The contents came back.
    Fetched,
    /// The request failed on the way (an HTTP error).
    HttpError,
    /// Any other error.
    OtherError,
}

/// What to do after a fetch.
#[derive(Debug, Clone, Copy, PartialEq, Eq, Structural)]
pub enum FetchStep {
    /// Use the contents.
    Accept,
    /// Wait a moment and fetch again.
    Retry,
    /// Report the error and leave the course out.
    GiveUp,
}

/// The step after the `fetches`-th fetch of a course's contents: contents
/// are used; an HTTP error is retried until five fetches have been made;
/// any other error, or an HTTP error on the fifth fetch, gives up.
pub fn next_fetch_step(fetches: u32, outcome: FetchOutcome) -> (step: FetchStep)
    requires
        1 <= fetches <= MAX_FETCHES,
    ensures
        step == match outcome {
            FetchOutcome::Fetched => FetchStep::Accept,
            FetchOutcome::HttpError => if fetches < MAX_FETCHES {
                FetchStep::Retry
            } else {
                FetchStep::GiveUp
            },
            FetchOutcome::OtherError => FetchStep::GiveUp,
        },
        step == FetchStep::Retry ==> fetches < MAX_FETCHES,
{
    match outcome {
        FetchOutcome::Fetched => FetchStep::Accept,
        FetchOutcome::HttpError => if fetches < MAX_FETCHES {
            FetchStep::Retry
        } else {
            FetchStep::GiveUp
        },
        FetchOutcome::OtherError => FetchStep::GiveUp,
    }
}

// ---------------------------------------------------------------------
// The summary before downloading
// ---------------------------------------------------------------------

/// The sum of the sizes.
pub open spec fn total_size(s: Seq<u64>) -> nat
    decreases s.len(),
{
    if s.len() == 0 {
        0
    } else {
        total_size(s.drop_last()) + s.last() as nat
    }
}

/// The sum of the sizes, which must fit in 64 bits.
pub fn sum_sizes(sizes: &Vec<u64>) -> (t: u64)
    requires
        total_size(sizes@) <= u64::MAX,
    ensures
        t == total_size(sizes@),
{
    let mut t: u64 = 0;
    let mut i: usize = 0;
    while i < sizes.len()
        invariant
            i <= sizes@.len(),
            t == total_size(sizes@.take(i as int)),
            total_size(sizes@) <= u64::MAX,
        decreases sizes@.len() - i,
    {
        assert(sizes@.take(i + 1).drop_last() == sizes@.take(i as int));
        proof {
            lemma_total_size_prefix(sizes@, i + 1);
        }
        t = t + sizes[i];
        i = i + 1;
    }
    assert(sizes@.take(sizes@.len() as int) == sizes@);
    t
}

/// A prefix sums to no more than the whole.
pub proof fn lemma_total_size_prefix(s: Seq<u64>, k: int)
    requires
        0 <= k <= s.len(),
    ensures
        total_size(s.take(k)) <= total_size(s),
    decreases s.len(),
{
    if k < s.len() {
        assert(s.drop_last().take(k) == s.take(k));
        lemma_total_size_prefix(s.drop_last(), k);
    } else {
        assert(s.take(k) == s);
    }
}

/// The width of the size column.
pub const SIZE_WIDTH: usize = 9;

/// The width of the course name column: a line of 80 columns less the size
/// column and the rest of the line.
pub const NAME_WIDTH: usize = 48;

/// A size as the summary shows it: in binary units, or "N/A" for nothing.
pub open spec fn size_label(size: u64) -> Seq<char> {
    if size > 0 {
        binary_bytes_text(size)
    } else {
        "N/A"@
    }
}

/// The summary line of a course: its name padded (or cut, ending with
/// "...") to the name column, its number of items right-aligned in four
/// columns, and its total size right-aligned in the size column.
pub open spec fn course_summary_text(name: Seq<char>, count: u64, size: u64) -> Seq<char> {
    padded_text(name, NAME_WIDTH as nat, false, Some("..."@)) + " "@ + right_aligned_decimal(
        count as nat,
        4,
    ) + " items, totalling "@ + padded_text(size_label(size), SIZE_WIDTH as nat, true, None)
}

/// The summary line of all courses.
pub open spec fn total_summary_text(count: u64, size: u64) -> Seq<char> {
    "Total: "@ + decimal(count as nat) + " items, totalling "@ + size_label(size)
}

fn size_label_string(size: u64) -> (s: String)
    ensures
        s@ == size_label(size),
{
    if size > 0 {
        binary_bytes(size)
    } else {
        "N/A".to_string()
    }
}

/// The summary line of a course, as [`course_summary_text`] says.
pub fn course_summary_line(name: &str, count: u64, size: u64) -> (line: String)
    ensures
        line@ == course_summary_text(name@, count, size),
{
    proof {
        reveal_strlit("...");
    }
    let mut line = pad_text(name, NAME_WIDTH, false, Some("..."));
    line.append(" ");
    push_right_aligned(&mut line, count, 4);
    line.append(" items, totalling ");
    let label = size_label_string(size);
    let padded = pad_text(label.as_str(), SIZE_WIDTH, true, None);
    line.append(padded.as_str());
    line
}

/// The summary line of all courses, as [`total_summary_text`] says.
pub fn total_summary_line(count: u64, size: u64) -> (line: String)
    ensures
        line@ == total_summary_text(count, size),
{
    let mut line = "Total: ".to_string();
    push_decimal(&mut line, count);
    line.append(" items, totalling ");
    let label = size_label_string(size);
    line.append(label.as_str());
    line
}

// ---------------------------------------------------------------------
// A course's downloads
// ---------------------------------------------------------------------

/// The kind of a pending download.
#[derive(Debug, Clone, Copy, PartialEq, Eq, Structural)]
pub enum DownloadKind {
    /// A file, fetched in parallel with a progress bar of its own.
    File,
    /// A link, saved as a shortcut.
    Url,
    /// Content written from the course page.
    Content,
}

/// A pending download: its kind and size.
#[derive(Debug, Clone, Copy)]
pub struct DownloadItem {
    pub kind: DownloadKind,
    pub size: u64,
}

/// The indices below `n` whose item satisfies `p`, in order.
pub open spec fn indices_where(items: Seq<DownloadItem>, p: spec_fn(DownloadItem) -> bool, n: int) -> Seq<int>
    decreases n,
{
    if n <= 0 {
        Seq::empty()
    } else if p(items[n - 1]) {
        indices_where(items, p, n - 1).push(n - 1)
    } else {
        indices_where(items, p, n - 1)
    }
}

/// The item is a file.
pub open spec fn is_file() -> spec_fn(DownloadItem) -> bool {
    |d: DownloadItem| d.kind == DownloadKind::File
}

/// The item is not a file.
pub open spec fn is_not_file() -> spec_fn(DownloadItem) -> bool {
    |d: DownloadItem| d.kind != DownloadKind::File
}

/// The sizes of the files among the first `n` items.
pub open spec fn file_bytes(items: Seq<DownloadItem>, n: int) -> nat
    decreases n,
{
    if n <= 0 {
        0
    } else {
        file_bytes(items, n - 1) + if items[n - 1].kind == DownloadKind::File {
            items[n - 1].size as nat
        } else {
            0
        }
    }
}

/// How a course's downloads are carried out: the files (by index, in
/// order), the other downloads (by index, in order), and the bytes of the
/// files.
#[derive(Debug)]
pub struct DownloadPlan {
    pub files: Vec<usize>,
    pub others: Vec<usize>,
    pub file_bytes: u64,
}

/// The model of a list of indices.
pub open spec fn indices_view(v: Seq<usize>) -> Seq<int> {
    v.map_values(|i: usize| i as int)
}

proof fn lemma_file_bytes_grow(items: Seq<DownloadItem>, k: int, n: int)
    requires
        0 <= k <= n,
    ensures
        file_bytes(items, k) <= file_bytes(items, n),
    decreases n - k,
{
    if k < n {
        lemma_file_bytes_grow(items, k, n - 1);
    }
}

/// Every download is either a file or another download, never both: the
/// two lists of a plan together have one entry per download.
pub proof fn lemma_plan_covers_every_download(items: Seq<DownloadItem>, n: int)
    requires
        0 <= n <= items.len(),
    ensures
        indices_where(items, is_file(), n).len() + indices_where(items, is_not_file(), n).len() == n,
    decreases n,
{
    if n > 0 {
        lemma_plan_covers_every_download(items, n - 1);
    }
}

/// Splits a course's downloads into files and the rest, keeping their
/// order, and adds up the bytes of the files (which must fit in 64 bits).
pub fn plan_downloads(items: &Vec<DownloadItem>) -> (r: DownloadPlan)
    requires
        file_bytes(items@, items@.len() as int) <= u64::MAX,
    ensures
        indices_view(r.files@) == indices_where(items@, is_file(), items@.len() as int),
        indices_view(r.others@) == indices_where(items@, is_not_file(), items@.len() as int),
        r.file_bytes == file_bytes(items@, items@.len() as int),
{
    let mut files: Vec<usize> = Vec::new();
    let mut others: Vec<usize> = Vec::new();
    let mut bytes: u64 = 0;
    let mut i: usize = 0;
    while i < items.len()
        invariant
            i <= items@.len(),
            file_bytes(items@, items@.len() as int) <= u64::MAX,
            indices_view(files@) == indices_where(items@, is_file(), i as int),
            indices_view(others@) == indices_where(items@, is_not_file(), i as int),
            bytes == file_bytes(items@, i as int),
        decreases items@.len() - i,
    {
        let d = items[i];
        proof {
            lemma_file_bytes_grow(items@, i + 1, items@.len() as int);
        }
        if d.kind == DownloadKind::File {
            let ghost before = indices_view(files@);
            files.push(i);
            assert(indices_view(files@) =~= before.push(i as int));
            bytes = bytes + d.size;
        } else {
            let ghost before = indices_view(others@);
            others.push(i);
            assert(indices_view(others@) =~= before.push(i as int));
        }
        i = i + 1;
    }
    DownloadPlan { files, others, file_bytes: bytes }
}

} // verus!
