//! The status of the configuration: its accounts and how many of their
//! courses are synchronised.

use vstd::prelude::*;
use vstd::string::*;
use crate::model::{AccountConfig, AccountView, Config, CourseView};
use crate::output::Render;
use crate::text::{
    concat_map, contains, decimal, lemma_concat_map_split, lemma_concat_map_take, lemma_contains_middle,
    lemma_contains_within, lemma_take_full, push_decimal,
};

verus! {

/// The status of an account.
#[derive(Debug)]
pub struct AccountStatus {
    pub id: String,
    pub user: String,
    pub site: String,
    pub site_url: String,
    pub download_path: String,
    pub total_courses: usize,
    pub synced_courses: usize,
}

/// The model of an [`AccountStatus`].
pub struct AccountStatusView {
    pub id: Seq<char>,
    pub user: Seq<char>,
    pub site: Seq<char>,
    pub site_url: Seq<char>,
    pub download_path: Seq<char>,
    pub total_courses: nat,
    pub synced_courses: nat,
}

impl View for AccountStatus {
    type V = AccountStatusView;

    open spec fn view(&self) -> AccountStatusView {
        AccountStatusView {
            id: self.id@,
            user: self.user@,
            site: self.site@,
            site_url: self.site_url@,
            download_path: self.download_path@,
            total_courses: self.total_courses as nat,
            synced_courses: self.synced_courses as nat,
        }
    }
}

/// The models of a list of account statuses.
pub open spec fn statuses_view(v: Seq<AccountStatus>) -> Seq<AccountStatusView> {
    v.map_values(|a: AccountStatus| a@)
}

/// The status of the configuration.
#[derive(Debug)]
pub struct StatusResult {
    pub configured: bool,
    pub config_path: String,
    pub accounts: Vec<AccountStatus>,
}

/// How many of the courses are synchronised.
pub open spec fn synced_count(cs: Seq<CourseView>) -> nat
    decreases cs.len(),
{
    if cs.len() == 0 {
        0
    } else {
        synced_count(cs.drop_last()) + if cs.last().sync {
            1nat
        } else {
            0nat
        }
    }
}

/// An account never has more synchronised courses than courses.
pub proof fn lemma_synced_at_most_total(cs: Seq<CourseView>)
    ensures
        synced_count(cs) <= cs.len(),
    decreases cs.len(),
{
    if cs.len() > 0 {
        lemma_synced_at_most_total(cs.drop_last());
    }
}

/// The status of an account: its key, user, site and directory, and the
/// number of its courses and of its synchronised ones.
pub open spec fn account_status(a: AccountView) -> AccountStatusView {
    AccountStatusView {
        id: a.key,
        user: a.user,
        site: a.site,
        site_url: a.site_url,
        download_path: a.path,
        total_courses: a.courses.len(),
        synced_courses: synced_count(a.courses),
    }
}

fn status_of(a: &AccountConfig) -> (r: AccountStatus)
    ensures
        r@ == account_status(a@),
{
    let ghost cs = a@.courses;
    let mut synced: usize = 0;
    let mut i: usize = 0;
    while i < a.courses.len()
        invariant
            i <= a.courses@.len(),
            cs == a@.courses,
            synced == synced_count(cs.take(i as int)),
            synced <= i,
        decreases a.courses@.len() - i,
    {
        assert(cs.take(i + 1).drop_last() == cs.take(i as int));
        assert(cs.take(i + 1).last() == a.courses@[i as int]@);
        if a.courses[i].sync {
            synced = synced + 1;
        }
        i = i + 1;
    }
    assert(cs.take(cs.len() as int) == cs);
    AccountStatus {
        id: a.key.clone(),
        user: a.user.clone(),
        site: a.site.clone(),
        site_url: a.site_url.clone(),
        download_path: a.path.clone(),
        total_courses: a.courses.len(),
        synced_courses: synced,
    }
}

/// The status of `config`, read from `config_path`: configured when it has
/// an account, and the status of each account in order.
pub fn build_status(config: &Config, config_path: &str) -> (r: StatusResult)
    ensures
        r.configured == (config@.len() > 0),
        r.config_path@ == config_path@,
        statuses_view(r.accounts@) == config@.map_values(|a: AccountView| account_status(a)),
{
    let ghost accts = config@;
    let mut out: Vec<AccountStatus> = Vec::new();
    let mut i: usize = 0;
    while i < config.accounts.len()
        invariant
            i <= config.accounts@.len(),
            accts == config@,
            statuses_view(out@) == accts.take(i as int).map_values(|a: AccountView| account_status(a)),
        decreases config.accounts@.len() - i,
    {
        let s = status_of(&config.accounts[i]);
        let ghost before = statuses_view(out@);
        out.push(s);
        assert(statuses_view(out@) =~= before.push(s@));
        assert(accts[i as int] == config.accounts@[i as int]@);
        assert(accts.take(i + 1).map_values(|a: AccountView| account_status(a)) =~= accts.take(
            i as int,
        ).map_values(|a: AccountView| account_status(a)).push(account_status(accts[i as int])));
        i = i + 1;
    }
    assert(accts.take(accts.len() as int) == accts);
    StatusResult {
        configured: config.accounts.len() > 0,
        config_path: config_path.to_string(),
        accounts: out,
    }
}

/// The markdown of an account's status.
pub open spec fn account_markdown(a: AccountStatusView) -> Seq<char> {
    "#### "@ + a.id + "\n- **User**: "@ + a.user + "\n- **Site**: "@ + a.site + "\n- **URL**: "@
        + a.site_url + "\n- **Download path**: `"@ + a.download_path + "`\n- **Courses**: "@
        + decimal(a.total_courses) + " total, "@ + decimal(a.synced_courses) + " synced\n\n"@
}

/// The markdown of the status.
pub open spec fn status_markdown(configured: bool, config_path: Seq<char>, accounts: Seq<AccountStatusView>) -> Seq<
    char,
> {
    if !configured {
        "**Not configured**\n\nRun `moodle configure` to set up a Moodle connection.\n\nConfig file: `"@
            + config_path + "`"@
    } else {
        "## Moodle Status\n\n**Config file**: `"@ + config_path + "`\n\n"@ + if accounts.len() == 0 {
            "No accounts configured.\n"@
        } else {
            "### Accounts\n\n"@ + concat_map(accounts, |a: AccountStatusView| account_markdown(a))
        }
    }
}

/// Each further account adds its own block after the blocks of the
/// accounts before it: the status of some accounts and one more is the
/// status of those accounts followed by the block of the new one.
pub proof fn lemma_status_adds_account_block(
    config_path: Seq<char>,
    accounts: Seq<AccountStatusView>,
    a: AccountStatusView,
)
    requires
        accounts.len() > 0,
    ensures
        status_markdown(true, config_path, accounts.push(a)) == status_markdown(true, config_path, accounts)
            + account_markdown(a),
{
    let f = |x: AccountStatusView| account_markdown(x);
    assert(accounts.push(a).drop_last() =~= accounts);
    assert(concat_map(accounts.push(a), f) == concat_map(accounts, f) + f(a));
    let head = "## Moodle Status\n\n**Config file**: `"@ + config_path + "`\n\n"@ + "### Accounts\n\n"@;
    assert(status_markdown(true, config_path, accounts.push(a)) =~= head + concat_map(accounts.push(a), f));
    assert(status_markdown(true, config_path, accounts) =~= head + concat_map(accounts, f));
    assert(head + (concat_map(accounts, f) + f(a)) =~= head + concat_map(accounts, f) + f(a));
}

/// The heading line of an account's block, with its user.
spec fn heading_of(a: AccountStatusView) -> Seq<char> {
    "#### "@ + a.id + "\n- **User**: "@ + a.user
}

/// The line of an account's block that counts its courses.
spec fn course_count_of(a: AccountStatusView) -> Seq<char> {
    "- **Courses**: "@ + decimal(a.total_courses) + " total, "@ + decimal(a.synced_courses) + " synced"@
}

proof fn lemma_block_holds_lines(a: AccountStatusView)
    ensures
        contains(account_markdown(a), heading_of(a)),
        contains(account_markdown(a), course_count_of(a)),
{
    let r1 = "\n- **Site**: "@ + a.site + "\n- **URL**: "@ + a.site_url + "\n- **Download path**: `"@
        + a.download_path + "`\n- **Courses**: "@ + decimal(a.total_courses) + " total, "@ + decimal(
        a.synced_courses,
    ) + " synced\n\n"@;
    assert(account_markdown(a) =~= Seq::<char>::empty() + heading_of(a) + r1);
    lemma_contains_middle(Seq::<char>::empty(), heading_of(a), r1);
    let l2 = "#### "@ + a.id + "\n- **User**: "@ + a.user + "\n- **Site**: "@ + a.site + "\n- **URL**: "@
        + a.site_url + "\n- **Download path**: `"@ + a.download_path + "`\n"@;
    reveal_strlit("`\n- **Courses**: ");
    reveal_strlit("`\n");
    reveal_strlit("- **Courses**: ");
    reveal_strlit(" synced\n\n");
    reveal_strlit(" synced");
    reveal_strlit("\n\n");
    assert("`\n- **Courses**: "@ =~= "`\n"@ + "- **Courses**: "@);
    assert(" synced\n\n"@ =~= " synced"@ + "\n\n"@);
    assert(account_markdown(a) =~= l2 + course_count_of(a) + "\n\n"@);
    lemma_contains_middle(l2, course_count_of(a), "\n\n"@);
}

/// Every account is reported: the status of a configuration names each of
/// its accounts under a heading of its own, with its user, and gives its
/// number of courses and of synchronised courses.
pub proof fn lemma_status_reports_every_account(
    config_path: Seq<char>,
    accounts: Seq<AccountStatusView>,
    i: int,
)
    requires
        0 <= i < accounts.len(),
    ensures
        contains(
            status_markdown(true, config_path, accounts),
            "#### "@ + accounts[i].id + "\n- **User**: "@ + accounts[i].user,
        ),
        contains(
            status_markdown(true, config_path, accounts),
            "- **Courses**: "@ + decimal(accounts[i].total_courses) + " total, "@ + decimal(
                accounts[i].synced_courses,
            ) + " synced"@,
        ),
{
    let f = |x: AccountStatusView| account_markdown(x);
    let a = accounts[i];
    let head = "## Moodle Status\n\n**Config file**: `"@ + config_path + "`\n\n"@ + "### Accounts\n\n"@;
    lemma_concat_map_split(accounts, f, i);
    let before = head + concat_map(accounts.take(i), f);
    let after = concat_map(accounts.skip(i + 1), f);
    assert(status_markdown(true, config_path, accounts) =~= before + account_markdown(a) + after);
    lemma_block_holds_lines(a);
    lemma_contains_within(before, account_markdown(a), after, heading_of(a));
    lemma_contains_within(before, account_markdown(a), after, course_count_of(a));
}

fn push_account_markdown(out: &mut String, a: &AccountStatus)
    ensures
        final(out)@ == old(out)@ + account_markdown(a@),
{
    out.append("#### ");
    out.append(a.id.as_str());
    out.append("\n- **User**: ");
    out.append(a.user.as_str());
    out.append("\n- **Site**: ");
    out.append(a.site.as_str());
    out.append("\n- **URL**: ");
    out.append(a.site_url.as_str());
    out.append("\n- **Download path**: `");
    out.append(a.download_path.as_str());
    out.append("`\n- **Courses**: ");
    push_decimal(out, a.total_courses as u64);
    out.append(" total, ");
    push_decimal(out, a.synced_courses as u64);
    out.append(" synced\n\n");
}

impl Render for StatusResult {
    open spec fn markdown(&self) -> Seq<char> {
        status_markdown(self.configured, self.config_path@, statuses_view(self.accounts@))
    }

    fn to_markdown(&self) -> (res: String) {
        if !self.configured {
            let mut out =
                "**Not configured**\n\nRun `moodle configure` to set up a Moodle connection.\n\nConfig file: `".to_string();
            out.append(self.config_path.as_str());
            out.append("`");
            return out;
        }
        let mut out = "## Moodle Status\n\n**Config file**: `".to_string();
        out.append(self.config_path.as_str());
        out.append("`\n\n");
        if self.accounts.len() == 0 {
            out.append("No accounts configured.\n");
            return out;
        }
        out.append("### Accounts\n\n");
        let ghost start = out@;
        let ghost accs = statuses_view(self.accounts@);
        let mut i: usize = 0;
        while i < self.accounts.len()
            invariant
                i <= self.accounts@.len(),
                accs == statuses_view(self.accounts@),
                out@ == start + concat_map(accs.take(i as int), |a: AccountStatusView| account_markdown(a)),
            decreases self.accounts@.len() - i,
        {
            push_account_markdown(&mut out, &self.accounts[i]);
            proof {
                lemma_concat_map_take(accs, |a: AccountStatusView| account_markdown(a), i as int);
            }
            i = i + 1;
        }
        proof {
            lemma_take_full(accs);
        }
        out
    }
}

} // verus!
