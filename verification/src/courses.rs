//! The courses of the configuration: finding a course by id or name, and
//! the course list.

use vstd::prelude::*;
use vstd::string::*;
use vstd::utf8::{encode_utf8, is_ascii_chars};
use crate::model::{AccountConfig, AccountView, Config, CourseConfig, CourseView};
use crate::output::Render;
use crate::select::{best_index, first_index, lemma_best_index, lemma_first_index};
use crate::text::{
    chars_of, concat_map, match_at, decimal, lemma_concat_map_take, lemma_take_full, push_decimal, contains, contains_ignore_case, contains_ignoring_case, lemma_lex_antisym, lemma_lex_total,
    lemma_lex_trans, lex_le, lex_le_chars, lowercase, ascii_lowercase, ascii_uppercase,
    lemma_ascii_case_keeps_number, lemma_ascii_lowering_forgets_case, parse_u64, parsed_u64, str_contains, to_lowercase,
};

verus! {

// ---------------------------------------------------------------------
// The courses in configuration order
// ---------------------------------------------------------------------

/// The positions of the courses of the account at index `a`, which has `n`.
pub open spec fn account_slots(a: int, n: nat) -> Seq<(int, int)> {
    Seq::new(n, |c: int| (a, c))
}

/// The positions (account index, course index) of the courses of the
/// first `k` accounts, account by account, each in its own order.
pub open spec fn slots_upto(accounts: Seq<AccountView>, k: int) -> Seq<(int, int)>
    decreases k,
{
    if k <= 0 {
        Seq::empty()
    } else {
        slots_upto(accounts, k - 1) + account_slots(k - 1, accounts[k - 1].courses.len())
    }
}

/// The positions of all courses of the configuration, in order.
pub open spec fn course_slots(accounts: Seq<AccountView>) -> Seq<(int, int)> {
    slots_upto(accounts, accounts.len() as int)
}

/// The course at a position.
pub open spec fn course_at(accounts: Seq<AccountView>, slot: (int, int)) -> CourseView {
    accounts[slot.0].courses[slot.1]
}

/// A position names an existing course.
pub open spec fn valid_slot(accounts: Seq<AccountView>, slot: (int, int)) -> bool {
    0 <= slot.0 < accounts.len() && 0 <= slot.1 < accounts[slot.0].courses.len()
}

/// Every position names an existing course.
pub proof fn lemma_slots_valid(accounts: Seq<AccountView>, k: int)
    requires
        0 <= k <= accounts.len(),
    ensures
        forall|i: int|
            0 <= i < slots_upto(accounts, k).len() ==> #[trigger] valid_slot(
                accounts,
                slots_upto(accounts, k)[i],
            ) && slots_upto(accounts, k)[i].0 < k,
    decreases k,
{
    if k > 0 {
        lemma_slots_valid(accounts, k - 1);
        let prev = slots_upto(accounts, k - 1);
        let s = slots_upto(accounts, k);
        assert forall|i: int| 0 <= i < s.len() implies #[trigger] valid_slot(accounts, s[i]) && s[i].0
            < k by {
            if i < prev.len() {
                assert(s[i] == prev[i]);
            }
        }
    }
}

/// The view of a list of index pairs.
pub open spec fn pairs_view(v: Seq<(usize, usize)>) -> Seq<(int, int)> {
    v.map_values(|p: (usize, usize)| (p.0 as int, p.1 as int))
}

/// The positions of all courses of `config`, in order.
pub fn course_slots_of(config: &Config) -> (v: Vec<(usize, usize)>)
    ensures
        pairs_view(v@) == course_slots(config@),
{
    let ghost accts = config@;
    let mut v: Vec<(usize, usize)> = Vec::new();
    let mut a: usize = 0;
    while a < config.accounts.len()
        invariant
            a <= config.accounts@.len(),
            accts == config@,
            pairs_view(v@) == slots_upto(accts, a as int),
        decreases config.accounts@.len() - a,
    {
        let n = config.accounts[a].courses.len();
        assert(accts[a as int].courses.len() == n);
        let mut c: usize = 0;
        while c < n
            invariant
                c <= n,
                a < config.accounts@.len(),
                accts == config@,
                n == accts[a as int].courses.len(),
                pairs_view(v@) == slots_upto(accts, a as int) + account_slots(a as int, n as nat).take(
                    c as int,
                ),
            decreases n - c,
        {
            let ghost before = pairs_view(v@);
            v.push((a, c));
            assert(account_slots(a as int, n as nat).take(c + 1) =~= account_slots(
                a as int,
                n as nat,
            ).take(c as int).push((a as int, c as int)));
            assert(pairs_view(v@) =~= before.push((a as int, c as int)));
            assert(before.push((a as int, c as int)) =~= slots_upto(accts, a as int) + account_slots(
                a as int,
                n as nat,
            ).take(c + 1));
            c = c + 1;
        }
        assert(account_slots(a as int, n as nat).take(n as int) == account_slots(a as int, n as nat));
        a = a + 1;
    }
    v
}

// ---------------------------------------------------------------------
// Finding a course
// ---------------------------------------------------------------------

/// The course at a position has the id `id`.
pub open spec fn has_id(accounts: Seq<AccountView>, id: u64) -> spec_fn((int, int)) -> bool {
    |s: (int, int)| course_at(accounts, s).id == id
}

/// The name of the course at a position, lowercased.
pub open spec fn lower_name(accounts: Seq<AccountView>, s: (int, int)) -> Seq<char> {
    lowercase(course_at(accounts, s).name)
}

/// The course at a position is named `query`, ignoring case.
pub open spec fn named_exactly(accounts: Seq<AccountView>, query: Seq<char>) -> spec_fn(
    (int, int),
) -> bool {
    |s: (int, int)| lower_name(accounts, s) == lowercase(query)
}

/// The name of the course at a position contains `query`, ignoring case.
pub open spec fn named_partly(accounts: Seq<AccountView>, query: Seq<char>) -> spec_fn(
    (int, int),
) -> bool {
    |s: (int, int)| contains(lower_name(accounts, s), lowercase(query))
}

/// The length in bytes of the lowercased name of the course at a position.
pub open spec fn name_length(accounts: Seq<AccountView>) -> spec_fn((int, int)) -> nat {
    |s: (int, int)| encode_utf8(lower_name(accounts, s)).len()
}

/// The course that a query names: when the query is a number, the first
/// course with that id; otherwise (or when no course has it) the first
/// course named exactly the query, ignoring case; otherwise the course of
/// shortest name (in bytes, lowercased) that contains the query, ignoring
/// case, the first one among equals.
pub open spec fn found_course(accounts: Seq<AccountView>, query: Seq<char>) -> Option<(int, int)> {
    let slots = course_slots(accounts);
    let by_id = match parsed_u64(query) {
        Some(id) => first_index(slots, has_id(accounts, id), 0),
        None => None,
    };
    match by_id {
        Some(i) => Some(slots[i]),
        None => match first_index(slots, named_exactly(accounts, query), 0) {
            Some(i) => Some(slots[i]),
            None => match best_index(slots, named_partly(accounts, query), name_length(accounts)) {
                Some(i) => Some(slots[i]),
                None => None,
            },
        },
    }
}

/// The position of the course that a query names, as [`found_course`]
/// says.
pub fn find_course_slot(config: &Config, query: &str) -> (r: Option<(usize, usize)>)
    ensures
        match found_course(config@, query@) {
            None => r is None,
            Some(slot) => r matches Some(t) && t.0 as int == slot.0 && t.1 as int == slot.1
                && valid_slot(config@, slot),
        },
{
    let ghost accts = config@;
    let slots = course_slots_of(config);
    let ghost ss = course_slots(accts);
    proof {
        lemma_slots_valid(accts, accts.len() as int);
    }
    // By id.
    let by_id: Option<usize> = match parse_u64(query) {
        Some(id) => {
            let mut found: Option<usize> = None;
            let mut i: usize = 0;
            while i < slots.len()
                invariant
                    i <= slots@.len(),
                    accts == config@,
                    ss == course_slots(accts),
                    pairs_view(slots@) == ss,
                    forall|j: int| 0 <= j < ss.len() ==> #[trigger] valid_slot(accts, ss[j]),
                    found is None ==> first_index(ss, has_id(accts, id), 0) == first_index(
                        ss,
                        has_id(accts, id),
                        i as int,
                    ),
                    found matches Some(k) ==> first_index(ss, has_id(accts, id), 0) == Some(
                        k as int,
                    ) && k < slots@.len(),
                decreases slots@.len() - i,
            {
                if found.is_none() {
                    let (a, c) = slots[i];
                    assert(ss[i as int] == (a as int, c as int));
                    assert(valid_slot(accts, ss[i as int]));
                    if config.accounts[a].courses[c].id == id {
                        found = Some(i);
                    }
                }
                i = i + 1;
            }
            found
        },
        None => None,
    };
    if let Some(k) = by_id {
        let (a, c) = slots[k];
        assert(ss[k as int] == (a as int, c as int));
        assert(valid_slot(accts, ss[k as int]));
        return Some((a, c));
    }
    assert(found_course(accts, query@) == match first_index(
        ss,
        named_exactly(accts, query@),
        0,
    ) {
        Some(i) => Some(ss[i]),
        None => match best_index(ss, named_partly(accts, query@), name_length(accts)) {
            Some(i) => Some(ss[i]),
            None => None,
        },
    });
    // By name.
    let q = to_lowercase(query);
    let mut exact: Option<usize> = None;
    let mut best: Option<(usize, usize)> = None;
    let mut i: usize = 0;
    while i < slots.len()
        invariant
            i <= slots@.len(),
            accts == config@,
            ss == course_slots(accts),
            pairs_view(slots@) == ss,
            q@ == lowercase(query@),
            forall|j: int| 0 <= j < ss.len() ==> #[trigger] valid_slot(accts, ss[j]),
            exact is None ==> first_index(ss, named_exactly(accts, query@), 0) == first_index(
                ss,
                named_exactly(accts, query@),
                i as int,
            ),
            exact matches Some(k) ==> first_index(ss, named_exactly(accts, query@), 0) == Some(
                k as int,
            ) && k < slots@.len(),
            exact is None ==> match best {
                None => best_index(ss.take(i as int), named_partly(accts, query@), name_length(accts))
                    is None,
                Some((k, score)) => best_index(
                    ss.take(i as int),
                    named_partly(accts, query@),
                    name_length(accts),
                ) == Some(k as int) && score == name_length(accts)(ss[k as int]) && k < i,
            },
        decreases slots@.len() - i,
    {
        if exact.is_none() {
            let (a, c) = slots[i];
            assert(ss[i as int] == (a as int, c as int));
            assert(valid_slot(accts, ss[i as int]));
            let name = to_lowercase(config.accounts[a].courses[c].name.as_str());
            assert(name@ == lower_name(accts, ss[i as int]));
            assert(ss.take(i + 1).drop_last() == ss.take(i as int));
            assert(ss.take(i + 1)[i as int] == ss[i as int]);
            if name == q {
                exact = Some(i);
            } else if str_contains(name.as_str(), q.as_str()) {
                let score = name.as_str().as_bytes().len();
                let better = match best {
                    None => true,
                    Some((_, s)) => score < s,
                };
                if better {
                    best = Some((i, score));
                }
            }
        }
        i = i + 1;
    }
    if let Some(k) = exact {
        let (a, c) = slots[k];
        assert(ss[k as int] == (a as int, c as int));
        assert(valid_slot(accts, ss[k as int]));
        return Some((a, c));
    }
    assert(ss.take(ss.len() as int) == ss);
    match best {
        Some((k, _)) => {
            let (a, c) = slots[k];
            assert(ss[k as int] == (a as int, c as int));
            assert(valid_slot(accts, ss[k as int]));
            Some((a, c))
        },
        None => None,
    }
}

/// Finds a course by id or name, as [`found_course`] says: its id, its name
/// and its account.
pub fn find_course<'a>(config: &'a Config, query: &str) -> (r: Option<
    (u64, &'a str, &'a AccountConfig),
>)
    ensures
        match found_course(config@, query@) {
            None => r is None,
            Some(slot) => r matches Some(t) && t.0 == course_at(config@, slot).id && t.1@
                == course_at(config@, slot).name && t.2@ == config@[slot.0] && valid_slot(
                config@,
                slot,
            ),
        },
{
    match find_course_slot(config, query) {
        Some((a, c)) => {
            let acct = &config.accounts[a];
            let course = &acct.courses[c];
            Some((course.id, course.name.as_str(), acct))
        },
        None => None,
    }
}

/// Every existing course has a position among [`course_slots`].
proof fn lemma_slots_complete(accounts: Seq<AccountView>, k: int)
    requires
        0 <= k <= accounts.len(),
    ensures
        forall|slot: (int, int)|
            #![trigger valid_slot(accounts, slot)]
            valid_slot(accounts, slot) && slot.0 < k ==> exists|i: int|
                0 <= i < slots_upto(accounts, k).len() && #[trigger] slots_upto(accounts, k)[i] == slot,
    decreases k,
{
    if k > 0 {
        lemma_slots_complete(accounts, k - 1);
        let prev = slots_upto(accounts, k - 1);
        let s = slots_upto(accounts, k);
        assert forall|slot: (int, int)| valid_slot(accounts, slot) && slot.0 < k implies exists|i: int|
            0 <= i < s.len() && #[trigger] s[i] == slot by {
            if slot.0 == k - 1 {
                let i = prev.len() + slot.1;
                assert(s[i] == slot);
            } else {
                let i = choose|i: int| 0 <= i < prev.len() && #[trigger] prev[i] == slot;
                assert(s[i] == prev[i]);
            }
        }
    }
}

/// The course at a position has the id that the query spells as a number.
pub open spec fn has_query_id(accounts: Seq<AccountView>, query: Seq<char>, slot: (int, int)) -> bool {
    parsed_u64(query) matches Some(id) && course_at(accounts, slot).id == id
}

/// The course at a position answers a query: it has the id that the query
/// spells, or its name holds the query, ignoring case.
pub open spec fn answers_query(accounts: Seq<AccountView>, query: Seq<char>, slot: (int, int)) -> bool {
    has_query_id(accounts, query, slot) || contains_ignoring_case(course_at(accounts, slot).name, query)
}

/// A name equal to the query, ignoring case, holds it.
proof fn lemma_exact_holds(accounts: Seq<AccountView>, query: Seq<char>, slot: (int, int))
    requires
        lower_name(accounts, slot) == lowercase(query),
    ensures
        contains(lower_name(accounts, slot), lowercase(query)),
{
    let h = lower_name(accounts, slot);
    assert(h.subrange(0, h.len() as int) =~= h);
    assert(match_at(h, lowercase(query), 0));
}

/// The course found answers the query.
proof fn lemma_found_answers(accounts: Seq<AccountView>, query: Seq<char>)
    ensures
        found_course(accounts, query) matches Some(slot) ==> valid_slot(accounts, slot)
            && answers_query(accounts, query, slot),
{
    let ss = course_slots(accounts);
    lemma_slots_valid(accounts, accounts.len() as int);
    let by_id = match parsed_u64(query) {
        Some(id) => first_index(ss, has_id(accounts, id), 0),
        None => None,
    };
    if let Some(id) = parsed_u64(query) {
        lemma_first_index(ss, has_id(accounts, id), 0);
    }
    if let Some(j) = by_id {
        assert(valid_slot(accounts, ss[j]));
    } else if let Some(j) = first_index(ss, named_exactly(accounts, query), 0) {
        lemma_first_index(ss, named_exactly(accounts, query), 0);
        assert(valid_slot(accounts, ss[j]));
        lemma_exact_holds(accounts, query, ss[j]);
    } else if let Some(j) = best_index(ss, named_partly(accounts, query), name_length(accounts)) {
        lemma_best_index(ss, named_partly(accounts, query), name_length(accounts));
        assert(valid_slot(accounts, ss[j]));
    }
}

/// When a query finds nothing, no course answers it.
proof fn lemma_nothing_answers(accounts: Seq<AccountView>, query: Seq<char>, slot: (int, int))
    requires
        found_course(accounts, query) is None,
        valid_slot(accounts, slot),
    ensures
        !answers_query(accounts, query, slot),
{
    let ss = course_slots(accounts);
    lemma_slots_complete(accounts, accounts.len() as int);
    assert(valid_slot(accounts, slot));
    let i = choose|i: int| 0 <= i < ss.len() && #[trigger] ss[i] == slot;
    if let Some(id) = parsed_u64(query) {
        lemma_first_index(ss, has_id(accounts, id), 0);
        assert(!has_id(accounts, id)(ss[i]));
    }
    lemma_best_index(ss, named_partly(accounts, query), name_length(accounts));
    assert(!named_partly(accounts, query)(ss[i]));
}

/// A query finds a course exactly when some course answers it (has the
/// number the query spells as id, or holds the query in its name, ignoring
/// case), and the course found is one that answers it.
pub proof fn lemma_found_course_answers(accounts: Seq<AccountView>, query: Seq<char>)
    ensures
        found_course(accounts, query) matches Some(slot) ==> valid_slot(accounts, slot)
            && answers_query(accounts, query, slot),
        found_course(accounts, query) is None <==> forall|slot: (int, int)|
            #![trigger valid_slot(accounts, slot)]
            valid_slot(accounts, slot) ==> !answers_query(accounts, query, slot),
{
    lemma_found_answers(accounts, query);
    if found_course(accounts, query) is None {
        assert forall|slot: (int, int)| valid_slot(accounts, slot) implies !answers_query(
            accounts,
            query,
            slot,
        ) by {
            lemma_nothing_answers(accounts, query, slot);
        }
    }
}

/// Which course a query finds: a course with the number the query spells as
/// id wins over any match by name; a course whose name equals the query,
/// ignoring case, wins over one whose name only holds it; and among those
/// that only hold it, the one found has the shortest lowercased name.
pub proof fn lemma_found_course_prefers(accounts: Seq<AccountView>, query: Seq<char>, other: (int, int))
    requires
        valid_slot(accounts, other),
    ensures
        has_query_id(accounts, query, other) ==> (found_course(accounts, query) matches Some(slot)
            && has_query_id(accounts, query, slot)),
        lower_name(accounts, other) == lowercase(query) ==> (found_course(accounts, query) matches Some(
            slot,
        ) && (has_query_id(accounts, query, slot) || lower_name(accounts, slot) == lowercase(query))),
        contains(lower_name(accounts, other), lowercase(query)) ==> (found_course(
            accounts,
            query,
        ) matches Some(slot) && (has_query_id(accounts, query, slot) || lower_name(accounts, slot)
            == lowercase(query) || name_length(accounts)(slot) <= name_length(accounts)(other))),
{
    let ss = course_slots(accounts);
    lemma_slots_valid(accounts, accounts.len() as int);
    lemma_slots_complete(accounts, accounts.len() as int);
    assert(valid_slot(accounts, other));
    let i = choose|i: int| 0 <= i < ss.len() && #[trigger] ss[i] == other;
    lemma_first_index(ss, named_exactly(accounts, query), 0);
    lemma_best_index(ss, named_partly(accounts, query), name_length(accounts));
    if let Some(id) = parsed_u64(query) {
        lemma_first_index(ss, has_id(accounts, id), 0);
        if course_at(accounts, other).id == id {
            assert(has_id(accounts, id)(ss[i]));
        }
    }
    if lower_name(accounts, other) == lowercase(query) {
        assert(named_exactly(accounts, query)(ss[i]));
    }
    if contains(lower_name(accounts, other), lowercase(query)) {
        assert(named_partly(accounts, query)(ss[i]));
    }
}

/// Name matching ignores case: two queries that lowercase alike (as
/// `str::to_lowercase` lowercases) and spell the same number, or none, find
/// the same course.
pub proof fn lemma_found_course_ignores_case(accounts: Seq<AccountView>, q1: Seq<char>, q2: Seq<char>)
    requires
        lowercase(q1) == lowercase(q2),
        parsed_u64(q1) == parsed_u64(q2),
    ensures
        found_course(accounts, q1) == found_course(accounts, q2),
{
    assert(named_exactly(accounts, q1) =~= named_exactly(accounts, q2));
    assert(named_partly(accounts, q1) =~= named_partly(accounts, q2));
}

/// Changing the ASCII case of an ASCII query, to upper or to lower case,
/// does not change the course it finds, given what [`to_lowercase`]
/// states of `str::to_lowercase` on ASCII texts: that it lowers them as
/// `str::to_ascii_lowercase` does.
pub proof fn lemma_found_course_ignores_ascii_case(accounts: Seq<AccountView>, query: Seq<char>)
    requires
        is_ascii_chars(query),
        forall|t: Seq<char>| is_ascii_chars(t) ==> #[trigger] lowercase(t) == ascii_lowercase(t),
    ensures
        found_course(accounts, ascii_uppercase(query)) == found_course(accounts, query),
        found_course(accounts, ascii_lowercase(query)) == found_course(accounts, query),
{
    lemma_ascii_case_keeps_number(query);
    lemma_ascii_lowering_forgets_case(query);
    assert(lowercase(ascii_uppercase(query)) == lowercase(query));
    assert(lowercase(ascii_lowercase(query)) == lowercase(query));
    lemma_found_course_ignores_case(accounts, ascii_uppercase(query), query);
    lemma_found_course_ignores_case(accounts, ascii_lowercase(query), query);
}

// ---------------------------------------------------------------------
// The course list
// ---------------------------------------------------------------------

/// A course in the course list.
#[derive(Debug)]
pub struct CourseInfo {
    pub id: u64,
    pub name: String,
    pub short_name: String,
    pub visible: bool,
    pub sync_enabled: bool,
    pub last_access: Option<String>,
    /// The key of the account the course belongs to.
    pub account: String,
}

/// The model of a [`CourseInfo`].
pub struct CourseInfoView {
    pub id: u64,
    pub name: Seq<char>,
    pub short_name: Seq<char>,
    pub visible: bool,
    pub sync_enabled: bool,
    pub last_access: Option<Seq<char>>,
    pub account: Seq<char>,
}

impl View for CourseInfo {
    type V = CourseInfoView;

    open spec fn view(&self) -> CourseInfoView {
        CourseInfoView {
            id: self.id,
            name: self.name@,
            short_name: self.short_name@,
            visible: self.visible,
            sync_enabled: self.sync_enabled,
            last_access: crate::model::opt_view(self.last_access),
            account: self.account@,
        }
    }
}

/// The models of a list of courses.
pub open spec fn infos_view(s: Seq<CourseInfo>) -> Seq<CourseInfoView> {
    s.map_values(|c: CourseInfo| c@)
}

/// The list entry of the course at a position: its id and name, shown and
/// with the account's key; the configuration records neither a short name
/// nor a last access, so the name stands for the one and the other is absent.
pub open spec fn course_entry(accounts: Seq<AccountView>, slot: (int, int)) -> CourseInfoView {
    let c = course_at(accounts, slot);
    CourseInfoView {
        id: c.id,
        name: c.name,
        short_name: c.name,
        visible: true,
        sync_enabled: c.sync,
        last_access: None,
        account: accounts[slot.0].key,
    }
}

/// The entries of all courses of the configuration, in order.
pub open spec fn all_entries(accounts: Seq<AccountView>) -> Seq<CourseInfoView> {
    course_slots(accounts).map_values(|s: (int, int)| course_entry(accounts, s))
}

/// An entry passes the name filter (case-insensitive substring) and, unless
/// hidden courses are included, is visible.
pub open spec fn entry_kept(e: CourseInfoView, filter: Option<Seq<char>>, include_hidden: bool) -> bool {
    (match filter {
        Some(f) => contains_ignoring_case(e.name, f),
        None => true,
    }) && (include_hidden || e.visible)
}

/// The entries that pass, in order.
pub open spec fn kept_entries(
    s: Seq<CourseInfoView>,
    filter: Option<Seq<char>>,
    include_hidden: bool,
) -> Seq<CourseInfoView>
    decreases s.len(),
{
    if s.len() == 0 {
        Seq::empty()
    } else {
        let rest = kept_entries(s.drop_last(), filter, include_hidden);
        if entry_kept(s.last(), filter, include_hidden) {
            rest.push(s.last())
        } else {
            rest
        }
    }
}

/// The entries named `k`, in order.
pub open spec fn with_name(s: Seq<CourseInfoView>, k: Seq<char>) -> Seq<CourseInfoView>
    decreases s.len(),
{
    if s.len() == 0 {
        Seq::empty()
    } else {
        let rest = with_name(s.drop_last(), k);
        if s.last().name == k {
            rest.push(s.last())
        } else {
            rest
        }
    }
}

/// The entries are in order of name.
pub open spec fn sorted_by_name(s: Seq<CourseInfoView>) -> bool {
    forall|i: int, j: int| 0 <= i < j < s.len() ==> lex_le(s[i].name, s[j].name)
}

/// `out` is `inp` sorted by name, keeping the order of equal names (what a
/// stable sort by name gives).
pub open spec fn stably_sorted(out: Seq<CourseInfoView>, inp: Seq<CourseInfoView>) -> bool {
    &&& sorted_by_name(out)
    &&& forall|k: Seq<char>| with_name(out, k) == with_name(inp, k)
}

proof fn lemma_with_name_concat(a: Seq<CourseInfoView>, b: Seq<CourseInfoView>, k: Seq<char>)
    ensures
        with_name(a + b, k) == with_name(a, k) + with_name(b, k),
    decreases b.len(),
{
    if b.len() == 0 {
        assert(a + b == a);
    } else {
        assert((a + b).drop_last() == a + b.drop_last());
        lemma_with_name_concat(a, b.drop_last(), k);
    }
}

proof fn lemma_with_name_absent(s: Seq<CourseInfoView>, k: Seq<char>)
    requires
        forall|i: int| 0 <= i < s.len() ==> s[i].name != k,
    ensures
        with_name(s, k) == Seq::<CourseInfoView>::empty(),
    decreases s.len(),
{
    if s.len() > 0 {
        lemma_with_name_absent(s.drop_last(), k);
    }
}

/// Inserting `x` before the first entry whose name comes after its own
/// keeps a stably sorted list stably sorted.
proof fn lemma_insert_sorted(out: Seq<CourseInfoView>, inp: Seq<CourseInfoView>, x: CourseInfoView, p: int)
    requires
        stably_sorted(out, inp),
        0 <= p <= out.len(),
        forall|i: int| 0 <= i < p ==> lex_le(out[i].name, x.name),
        p < out.len() ==> !lex_le(out[p].name, x.name),
    ensures
        stably_sorted(out.insert(p, x), inp.push(x)),
{
    let n = out.insert(p, x);
    assert forall|i: int| p <= i < out.len() implies !lex_le(out[i].name, x.name) && lex_le(
        x.name,
        out[i].name,
    ) && out[i].name != x.name by {
        if lex_le(out[i].name, x.name) {
            lemma_lex_trans(out[p].name, out[i].name, x.name);
        }
        lemma_lex_total(out[i].name, x.name);
    }
    assert forall|i: int, j: int| 0 <= i < j < n.len() implies lex_le(n[i].name, n[j].name) by {
        if j < p {
        } else if j == p {
        } else if i < p {
            lemma_lex_trans(out[i].name, x.name, out[j - 1].name);
        } else if i == p {
        } else {
        }
    }
    assert(n == out.take(p) + seq![x] + out.skip(p));
    assert(out == out.take(p) + out.skip(p));
    assert forall|k: Seq<char>| with_name(n, k) == with_name(inp.push(x), k) by {
        let a = out.take(p);
        let b = out.skip(p);
        lemma_with_name_concat(a + seq![x], b, k);
        lemma_with_name_concat(a, seq![x], k);
        lemma_with_name_concat(a, b, k);
        assert(seq![x].drop_last() == Seq::<CourseInfoView>::empty());
        assert(with_name(Seq::<CourseInfoView>::empty(), k) == Seq::<CourseInfoView>::empty());
        assert(seq![x].last() == x);
        assert(Seq::<CourseInfoView>::empty().push(x) =~= seq![x]);
        assert(inp.push(x).drop_last() == inp);
        assert(with_name(out, k) == with_name(inp, k));
        if k == x.name {
            lemma_with_name_absent(b, k);
            assert(with_name(seq![x], k) == seq![x]);
            assert(with_name(n, k) =~= with_name(a, k) + seq![x] + with_name(b, k));
            assert(with_name(out, k) =~= with_name(a, k) + with_name(b, k));
            assert(with_name(inp.push(x), k) == with_name(inp, k).push(x));
            assert(with_name(n, k) =~= with_name(inp.push(x), k));
        } else {
            assert(with_name(seq![x], k) == Seq::<CourseInfoView>::empty());
            assert(with_name(n, k) =~= with_name(a, k) + with_name(b, k));
            assert(with_name(inp.push(x), k) == with_name(inp, k));
        }
    }
}

/// The course list: every course of every account, those whose name
/// contains `filter` (ignoring case) when one is given, and only visible
/// ones unless `include_hidden`; sorted by name, stably.
#[derive(Debug)]
pub struct CoursesResult {
    pub total: usize,
    pub courses: Vec<CourseInfo>,
}

/// Builds the course list of `config` as [`CoursesResult`] says.
pub fn list_courses(config: &Config, filter: Option<&str>, include_hidden: bool) -> (r: CoursesResult)
    ensures
        stably_sorted(
            infos_view(r.courses@),
            kept_entries(all_entries(config@), opt_str_view(filter), include_hidden),
        ),
        r.total == r.courses@.len(),
{
    let ghost accts = config@;
    let slots = course_slots_of(config);
    let ghost ss = course_slots(accts);
    let ghost all = all_entries(accts);
    proof {
        lemma_slots_valid(accts, accts.len() as int);
    }
    let mut out: Vec<CourseInfo> = Vec::new();
    let mut i: usize = 0;
    while i < slots.len()
        invariant
            i <= slots@.len(),
            accts == config@,
            ss == course_slots(accts),
            all == all_entries(accts),
            pairs_view(slots@) == ss,
            forall|j: int| 0 <= j < ss.len() ==> #[trigger] valid_slot(accts, ss[j]),
            stably_sorted(
                infos_view(out@),
                kept_entries(all.take(i as int), opt_str_view(filter), include_hidden),
            ),
        decreases slots@.len() - i,
    {
        let (a, c) = slots[i];
        assert(ss[i as int] == (a as int, c as int));
        assert(valid_slot(accts, ss[i as int]));
        let acct = &config.accounts[a];
        let course = &acct.courses[c];
        let entry = CourseInfo {
            id: course.id,
            name: course.name.clone(),
            short_name: course.name.clone(),
            visible: true,
            sync_enabled: course.sync,
            last_access: None,
            account: acct.key.clone(),
        };
        assert(entry@ == all[i as int]);
        assert(all.take(i + 1).drop_last() == all.take(i as int));
        assert(all.take(i + 1).last() == all[i as int]);
        let passes_filter = match filter {
            Some(f) => contains_ignore_case(entry.name.as_str(), f),
            None => true,
        };
        if passes_filter && (include_hidden || entry.visible) {
            let ghost before = infos_view(out@);
            let ghost inp = kept_entries(all.take(i as int), opt_str_view(filter), include_hidden);
            let xname = chars_of(entry.name.as_str());
            let mut p: usize = 0;
            let mut going = true;
            while going && p < out.len()
                invariant
                    p <= out@.len(),
                    before == infos_view(out@),
                    xname@ == entry@.name,
                    forall|j: int| 0 <= j < p ==> lex_le(before[j].name, entry@.name),
                    !going ==> p < out@.len() && !lex_le(before[p as int].name, entry@.name),
                decreases out@.len() - p, if going { 1int } else { 0int },
            {
                let pname = chars_of(out[p].name.as_str());
                assert(before[p as int] == out@[p as int]@);
                if lex_le_chars(&pname, &xname) {
                    p = p + 1;
                } else {
                    going = false;
                }
            }
            proof {
                lemma_insert_sorted(before, inp, entry@, p as int);
            }
            out.insert(p, entry);
            assert(infos_view(out@) == before.insert(p as int, all[i as int]));
        }
        i = i + 1;
    }
    assert(all.take(all.len() as int) == all);
    assert(all.len() == slots@.len());
    let total = out.len();
    CoursesResult { total, courses: out }
}

/// What [`kept_entries`] keeps: entries that pass, and every one that does.
proof fn lemma_kept_members(s: Seq<CourseInfoView>, filter: Option<Seq<char>>, include_hidden: bool)
    ensures
        forall|i: int|
            0 <= i < kept_entries(s, filter, include_hidden).len() ==> entry_kept(
                #[trigger] kept_entries(s, filter, include_hidden)[i],
                filter,
                include_hidden,
            ) && s.contains(kept_entries(s, filter, include_hidden)[i]),
        forall|j: int|
            0 <= j < s.len() && entry_kept(#[trigger] s[j], filter, include_hidden) ==> kept_entries(
                s,
                filter,
                include_hidden,
            ).contains(s[j]),
    decreases s.len(),
{
    if s.len() > 0 {
        let t = s.drop_last();
        lemma_kept_members(t, filter, include_hidden);
        let k = kept_entries(s, filter, include_hidden);
        let kt = kept_entries(t, filter, include_hidden);
        assert forall|i: int| 0 <= i < k.len() implies entry_kept(#[trigger] k[i], filter, include_hidden)
            && s.contains(k[i]) by {
            if i < kt.len() {
                assert(k[i] == kt[i]);
                let m = choose|m: int| 0 <= m < t.len() && t[m] == kt[i];
                assert(s[m] == t[m]);
            } else {
                assert(k[i] == s.last());
                assert(s[s.len() - 1] == s.last());
            }
        }
        assert forall|j: int| 0 <= j < s.len() && entry_kept(#[trigger] s[j], filter, include_hidden)
            implies k.contains(s[j]) by {
            if j < t.len() {
                assert(t[j] == s[j]);
                let m = choose|m: int| 0 <= m < kt.len() && kt[m] == t[j];
                assert(k[m] == kt[m]);
            } else {
                assert(k[k.len() - 1] == s.last());
            }
        }
    }
}

/// What [`with_name`] keeps: the entries of the name, and every one of it.
proof fn lemma_with_name_members(s: Seq<CourseInfoView>, x: CourseInfoView)
    ensures
        with_name(s, x.name).contains(x) <==> s.contains(x),
    decreases s.len(),
{
    if s.len() > 0 {
        let t = s.drop_last();
        lemma_with_name_members(t, x);
        let w = with_name(s, x.name);
        let wt = with_name(t, x.name);
        if wt.contains(x) {
            let m = choose|m: int| 0 <= m < wt.len() && wt[m] == x;
            assert(w[m] == wt[m]);
        }
        if t.contains(x) {
            let m = choose|m: int| 0 <= m < t.len() && t[m] == x;
            assert(s[m] == t[m]);
        }
        if s.contains(x) {
            let m = choose|m: int| 0 <= m < s.len() && s[m] == x;
            if m < t.len() {
                assert(t[m] == s[m]);
            } else {
                assert(w[w.len() - 1] == x);
            }
        }
        if w.contains(x) {
            let m = choose|m: int| 0 <= m < w.len() && w[m] == x;
            if m < wt.len() {
                assert(w[m] == wt[m]);
            } else {
                assert(s[s.len() - 1] == x);
            }
        }
    }
}

/// The course list holds exactly the courses of the configuration that
/// pass its filters: each listed course is a course of the configuration
/// that passes them, and each course that passes them is listed.
pub proof fn lemma_listed_courses(
    out: Seq<CourseInfoView>,
    accounts: Seq<AccountView>,
    filter: Option<Seq<char>>,
    include_hidden: bool,
)
    requires
        stably_sorted(out, kept_entries(all_entries(accounts), filter, include_hidden)),
    ensures
        forall|i: int|
            0 <= i < out.len() ==> entry_kept(#[trigger] out[i], filter, include_hidden)
                && all_entries(accounts).contains(out[i]),
        forall|j: int|
            0 <= j < all_entries(accounts).len() && entry_kept(
                #[trigger] all_entries(accounts)[j],
                filter,
                include_hidden,
            ) ==> out.contains(all_entries(accounts)[j]),
{
    let all = all_entries(accounts);
    let kept = kept_entries(all, filter, include_hidden);
    lemma_kept_members(all, filter, include_hidden);
    assert forall|i: int| 0 <= i < out.len() implies entry_kept(#[trigger] out[i], filter, include_hidden)
        && all.contains(out[i]) by {
        let x = out[i];
        assert(out.contains(x));
        lemma_with_name_members(out, x);
        assert(with_name(out, x.name) == with_name(kept, x.name));
        lemma_with_name_members(kept, x);
        let m = choose|m: int| 0 <= m < kept.len() && kept[m] == x;
        assert(entry_kept(kept[m], filter, include_hidden));
    }
    assert forall|j: int| 0 <= j < all.len() && entry_kept(#[trigger] all[j], filter, include_hidden)
        implies out.contains(all[j]) by {
        let x = all[j];
        assert(kept.contains(x));
        lemma_with_name_members(kept, x);
        assert(with_name(out, x.name) == with_name(kept, x.name));
        lemma_with_name_members(out, x);
    }
}

/// The name filter is a case-insensitive substring test: with a filter
/// `f`, every listed course's name holds `f` somewhere, ignoring case, and
/// every course of the configuration whose name holds `f` somewhere,
/// ignoring case, is listed (hidden or not, since the configuration records
/// every course as visible).
pub proof fn lemma_listed_courses_by_name(
    out: Seq<CourseInfoView>,
    accounts: Seq<AccountView>,
    f: Seq<char>,
    include_hidden: bool,
)
    requires
        stably_sorted(out, kept_entries(all_entries(accounts), Some(f), include_hidden)),
    ensures
        forall|i: int|
            0 <= i < out.len() ==> contains_ignoring_case((#[trigger] out[i]).name, f)
                && all_entries(accounts).contains(out[i]),
        forall|j: int|
            0 <= j < all_entries(accounts).len() && contains_ignoring_case(
                (#[trigger] all_entries(accounts)[j]).name,
                f,
            ) ==> out.contains(all_entries(accounts)[j]),
{
    let all = all_entries(accounts);
    lemma_listed_courses(out, accounts, Some(f), include_hidden);
    assert forall|i: int| 0 <= i < out.len() implies contains_ignoring_case((#[trigger] out[i]).name, f)
        && all.contains(out[i]) by {
        assert(entry_kept(out[i], Some(f), include_hidden));
    }
    assert forall|j: int| 0 <= j < all.len() && contains_ignoring_case((#[trigger] all[j]).name, f)
        implies out.contains(all[j]) by {
        assert(all[j] == course_entry(accounts, course_slots(accounts)[j]));
        assert(all[j].visible);
        assert(entry_kept(all[j], Some(f), include_hidden));
    }
}

/// The view of an optional text.
pub open spec fn opt_str_view(o: Option<&str>) -> Option<Seq<char>> {
    match o {
        Some(s) => Some(s@),
        None => None,
    }
}

/// The table row of a course.
pub open spec fn course_row(c: CourseInfoView) -> Seq<char> {
    "| "@ + decimal(c.id as nat) + " | "@ + c.name + " | "@ + (if c.sync_enabled {
        "yes"@
    } else {
        "no"@
    }) + " | "@ + (match c.last_access {
        Some(a) => a,
        None => "N/A"@,
    }) + " |\n"@
}

/// The markdown of the course list: a table of the courses, or a hint to
/// refresh the list when it is empty.
pub open spec fn courses_markdown(total: usize, courses: Seq<CourseInfoView>) -> Seq<char> {
    if courses.len() == 0 {
        "No courses found.\n\nRun `moodle courses --refresh` to fetch courses from the server."@
    } else {
        "## Your Courses ("@ + decimal(total as nat) + " total)\n\n"@
            + "| ID | Name | Sync | Last Access |\n"@ + "|----|------|------|-------------|\n"@
            + concat_map(courses, |c: CourseInfoView| course_row(c))
    }
}

fn push_course_row(out: &mut String, c: &CourseInfo)
    ensures
        final(out)@ == old(out)@ + course_row(c@),
{
    out.append("| ");
    push_decimal(out, c.id);
    out.append(" | ");
    out.append(c.name.as_str());
    out.append(" | ");
    if c.sync_enabled {
        out.append("yes");
    } else {
        out.append("no");
    }
    out.append(" | ");
    match &c.last_access {
        Some(a) => out.append(a.as_str()),
        None => out.append("N/A"),
    }
    out.append(" |\n");
}

impl Render for CoursesResult {
    open spec fn markdown(&self) -> Seq<char> {
        courses_markdown(self.total, infos_view(self.courses@))
    }

    fn to_markdown(&self) -> (res: String) {
        if self.courses.len() == 0 {
            return "No courses found.\n\nRun `moodle courses --refresh` to fetch courses from the server.".to_string();
        }
        let mut out = "## Your Courses (".to_string();
        push_decimal(&mut out, self.total as u64);
        out.append(" total)\n\n");
        out.append("| ID | Name | Sync | Last Access |\n");
        out.append("|----|------|------|-------------|\n");
        let ghost start = out@;
        let ghost cs = infos_view(self.courses@);
        let mut i: usize = 0;
        while i < self.courses.len()
            invariant
                i <= self.courses@.len(),
                cs == infos_view(self.courses@),
                out@ == start + concat_map(cs.take(i as int), |c: CourseInfoView| course_row(c)),
            decreases self.courses@.len() - i,
        {
            push_course_row(&mut out, &self.courses[i]);
            proof {
                lemma_concat_map_take(cs, |c: CourseInfoView| course_row(c), i as int);
            }
            i = i + 1;
        }
        proof {
            lemma_take_full(cs);
        }
        out
    }
}

} // verus!
