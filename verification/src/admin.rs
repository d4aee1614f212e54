use vstd::prelude::*;

use crate::monitor::{decimal, decimal_chars};
use crate::text::{chars_of, slice_chars, split_chars, split_on, string_of, views_of, lemma_split_on_len};
use crate::words::{trim, trim_chars, words, words_of};

verus! {

/// Settings of the administration console.
pub struct AdminConfig {
    /// Where the console listens.
    pub listen: String,
    /// The password of the `admin` account created on first start.
    pub default_password: String,
    /// Where the console's web pages are served from.
    pub static_dir: String,
}

/// `127.0.0.1:8091`, where the console listens by default.
pub fn default_admin_listen() -> (s: String)
    ensures
        s@ == "127.0.0.1:8091"@,
{
    String::from_str("127.0.0.1:8091")
}

/// `admin123`, the default password of the first administrator.
pub fn default_admin_password() -> (s: String)
    ensures
        s@ == "admin123"@,
{
    String::from_str("admin123")
}

/// `admin-web/dist`, where the console's pages are served from by default.
pub fn default_static_dir() -> (s: String)
    ensures
        s@ == "admin-web/dist"@,
{
    String::from_str("admin-web/dist")
}

impl Default for AdminConfig {
    fn default() -> (c: Self)
        ensures
            c.listen@ == "127.0.0.1:8091"@,
            c.default_password@ == "admin123"@,
            c.static_dir@ == "admin-web/dist"@,
    {
        AdminConfig {
            listen: default_admin_listen(),
            default_password: default_admin_password(),
            static_dir: default_static_dir(),
        }
    }
}

/// New accounts are enabled unless the request says otherwise.
pub fn default_enabled() -> (b: bool)
    ensures
        b,
{
    true
}

/// The default topics and rules are applied unless the request says otherwise.
pub fn default_true() -> (b: bool)
    ensures
        b,
{
    true
}

/// A line without its trailing carriage return, if it has one.
pub open spec fn strip_cr(s: Seq<char>) -> Seq<char> {
    if s.len() > 0 && s.last() == '\r' {
        s.drop_last()
    } else {
        s
    }
}

/// The lines of a text, as `str::lines` gives them: split at `\n`, a `\r`
/// before the `\n` removed, and no empty line after a final `\n`.
pub open spec fn text_lines(s: Seq<char>) -> Seq<Seq<char>> {
    let parts = split_on(s, '\n');
    let n = parts.len();
    let count: int = if parts.last().len() == 0 { n - 1 } else { n as int };
    Seq::new(count as nat, |i: int| if i < n - 1 { strip_cr(parts[i]) } else { parts[i] })
}

/// One entry of a batch of accounts, as the logic reads it.
pub enum BatchEntry {
    /// A user name and a password, found on the given line (counted from 1).
    Account { line: int, username: Seq<char>, password: Seq<char> },
    /// A line that holds fewer than two words; `text` is the trimmed line.
    Malformed { line: int, text: Seq<char> },
}

/// One entry of a batch of accounts.
pub enum BatchLine {
    /// A user name and a password, found on the given line (counted from 1).
    Account { line: usize, username: String, password: String },
    /// A line that holds fewer than two words; `text` is the trimmed line.
    Malformed { line: usize, text: String },
}

impl View for BatchLine {
    type V = BatchEntry;

    open spec fn view(&self) -> BatchEntry {
        match self {
            BatchLine::Account { line, username, password } => BatchEntry::Account {
                line: *line as int,
                username: username@,
                password: password@,
            },
            BatchLine::Malformed { line, text } => BatchEntry::Malformed { line: *line as int, text: text@ },
        }
    }
}

/// What one line of the batch gives: nothing when it is blank or a comment
/// (starts with `#` once trimmed), an account from its first two words, or a
/// malformed entry when it has fewer than two words.
pub open spec fn entry_of(line_no: int, raw: Seq<char>) -> Seq<BatchEntry> {
    let t = trim(raw);
    if t.len() == 0 || t[0] == '#' {
        Seq::empty()
    } else {
        let w = words(t);
        if w.len() < 2 {
            seq![BatchEntry::Malformed { line: line_no, text: t }]
        } else {
            seq![BatchEntry::Account { line: line_no, username: w[0], password: w[1] }]
        }
    }
}

/// The entries of the lines, in order; line numbers count from 1.
pub open spec fn batch_entries(lines: Seq<Seq<char>>) -> Seq<BatchEntry>
    decreases lines.len(),
{
    if lines.len() == 0 {
        Seq::empty()
    } else {
        batch_entries(lines.drop_last()) + entry_of(lines.len() as int, lines.last())
    }
}

/// The entries of the batch, viewed.
pub open spec fn entry_views(v: Seq<BatchLine>) -> Seq<BatchEntry> {
    v.map_values(|b: BatchLine| b@)
}

/// The entry of one line, if any.
fn parse_batch_line(line_no: usize, raw: &Vec<char>) -> (r: Option<BatchLine>)
    ensures
        match r {
            Some(b) => entry_of(line_no as int, raw@) == seq![b@],
            None => entry_of(line_no as int, raw@) == Seq::<BatchEntry>::empty(),
        },
{
    let t = trim_chars(raw);
    if t.len() == 0 || t[0] == '#' {
        return None;
    }
    let w = words_of(&t);
    assert(views_of(w@).len() == w@.len());
    if w.len() < 2 {
        let text = string_of(&t);
        let b = BatchLine::Malformed { line: line_no, text };
        assert(entry_of(line_no as int, raw@) =~= seq![b@]);
        Some(b)
    } else {
        let username = string_of(&w[0]);
        let password = string_of(&w[1]);
        assert(views_of(w@)[0] == w@[0]@);
        assert(views_of(w@)[1] == w@[1]@);
        let b = BatchLine::Account { line: line_no, username, password };
        assert(entry_of(line_no as int, raw@) =~= seq![b@]);
        Some(b)
    }
}

/// Reads a batch of accounts, one per line: a user name and a password
/// separated by white space. Blank lines and lines starting with `#` are
/// skipped; a line with fewer than two words is reported as malformed.
pub fn parse_batch_users(text: &str) -> (entries: Vec<BatchLine>)
    ensures
        entry_views(entries@) == batch_entries(text_lines(text@)),
{
    let chars = chars_of(text);
    let parts = split_chars(&chars, '\n');
    let ghost pv = split_on(text@, '\n');
    proof {
        lemma_split_on_len(text@, '\n');
    }
    let n = parts.len();
    assert(views_of(parts@)[n - 1] == parts@[n - 1]@);
    let count = if parts[n - 1].len() == 0 { n - 1 } else { n };
    let ghost lines = text_lines(text@);
    assert(lines.len() == count);
    let mut out: Vec<BatchLine> = Vec::new();
    let mut i: usize = 0;
    assert(lines.take(0) =~= Seq::<Seq<char>>::empty());
    assert(entry_views(out@) =~= Seq::<BatchEntry>::empty());
    while i < count
        invariant
            n == parts@.len(),
            n >= 1,
            views_of(parts@) == pv,
            pv == split_on(text@, '\n'),
            lines == text_lines(text@),
            count == lines.len(),
            count <= n,
            i <= count,
            entry_views(out@) == batch_entries(lines.take(i as int)),
        decreases count - i,
    {
        assert(views_of(parts@)[i as int] == parts@[i as int]@);
        let line: Vec<char> = if i + 1 < n {
            let p = &parts[i];
            if p.len() > 0 && p[p.len() - 1] == '\r' {
                let l = slice_chars(p, 0, p.len() - 1);
                assert(l@ =~= p@.drop_last());
                l
            } else {
                slice_chars(p, 0, p.len())
            }
        } else {
            slice_chars(&parts[i], 0, parts[i].len())
        };
        assert(line@ =~= lines[i as int]);
        assert(lines.take(i + 1).drop_last() =~= lines.take(i as int));
        assert(lines.take(i + 1).last() == lines[i as int]);
        let ghost old_out = out@;
        match parse_batch_line(i + 1, &line) {
            Some(b) => {
                out.push(b);
                assert(entry_views(out@) =~= entry_views(old_out) + seq![b@]);
            },
            None => {
                assert(entry_views(old_out) + Seq::<BatchEntry>::empty() =~= entry_views(old_out));
            },
        }
        i = i + 1;
    }
    assert(lines.take(count as int) =~= lines);
    out
}

/// What became of one account of a batch.
pub enum AccountOutcome {
    /// The account was created, and the default topics and rules applied if asked.
    Created,
    /// The account was created, but applying the defaults failed for the given cause.
    CreatedDefaultsFailed { cause: String },
    /// The account could not be created (the name is taken, or the database refused it).
    NotCreated,
    /// The password could not be hashed.
    HashFailed,
}

/// What a batch of accounts came to: how many were created, the user names
/// that could not be created, and the problems met, in order.
pub struct BatchReport {
    pub created: usize,
    pub skipped: Vec<String>,
    pub errors: Vec<String>,
}

/// The part of a report that counts accounts: how many were created and,
/// in order, the names that could not be.
pub open spec fn tally_step(t: (int, Seq<Seq<char>>), username: Seq<char>, outcome: AccountOutcome) -> (int, Seq<Seq<char>>) {
    match outcome {
        AccountOutcome::Created => (t.0 + 1, t.1),
        AccountOutcome::CreatedDefaultsFailed { .. } => (t.0 + 1, t.1),
        AccountOutcome::NotCreated => (t.0, t.1.push(username)),
        AccountOutcome::HashFailed => t,
    }
}

impl BatchReport {
    /// How many accounts were created, and the names skipped, in order.
    pub open spec fn tally(&self) -> (int, Seq<Seq<char>>) {
        (self.created as int, self.skipped@.map_values(|n: String| n@))
    }

    /// Nothing done yet.
    pub fn new() -> (r: Self)
        ensures
            r.created == 0,
            r.skipped@.len() == 0,
            r.errors@.len() == 0,
            r.tally() == (0int, Seq::<Seq<char>>::empty()),
    {
        let r = BatchReport { created: 0, skipped: Vec::new(), errors: Vec::new() };
        assert(r.tally().1 =~= Seq::<Seq<char>>::empty());
        r
    }

    /// Notes a malformed line.
    pub fn record_malformed(&mut self, line: usize, text: &str)
        ensures
            final(self).created == old(self).created,
            final(self).skipped@ == old(self).skipped@,
            final(self).tally() == old(self).tally(),
            final(self).errors@.len() == old(self).errors@.len() + 1,
            final(self).errors@.take(old(self).errors@.len() as int) == old(self).errors@,
            final(self).errors@.last()@ == "第 "@ + decimal(line as nat) + " 行格式错误: "@ + text@,
    {
        let m = malformed_line_message(line, text);
        self.errors.push(m);
        assert(self.errors@.take(old(self).errors@.len() as int) =~= old(self).errors@);
    }

    /// Notes what became of the account of `username`: a created account is
    /// counted (and a failure to apply its defaults reported), an account
    /// that could not be created is skipped, a password that could not be
    /// hashed is reported.
    pub fn record_account(&mut self, username: &str, outcome: AccountOutcome)
        requires
            old(self).created < usize::MAX,
        ensures
            final(self).tally() == tally_step(old(self).tally(), username@, outcome),
            final(self).created == old(self).created + if outcome is Created || outcome is CreatedDefaultsFailed { 1int } else { 0 },
            outcome is NotCreated ==> final(self).skipped@.len() == old(self).skipped@.len() + 1
                && final(self).skipped@.take(old(self).skipped@.len() as int) == old(self).skipped@
                && final(self).skipped@.last()@ == username@,
            !(outcome is NotCreated) ==> final(self).skipped@ == old(self).skipped@,
            outcome is Created || outcome is NotCreated ==> final(self).errors@ == old(self).errors@,
            outcome is HashFailed ==> final(self).errors@.len() == old(self).errors@.len() + 1
                && final(self).errors@.take(old(self).errors@.len() as int) == old(self).errors@
                && final(self).errors@.last()@ == "用户 "@ + username@ + " 密码哈希失败"@,
            outcome matches AccountOutcome::CreatedDefaultsFailed { cause } ==> final(self).errors@.len()
                == old(self).errors@.len() + 1
                && final(self).errors@.take(old(self).errors@.len() as int) == old(self).errors@
                && final(self).errors@.last()@ == "用户 "@ + username@ + " 应用默认规则失败: "@ + cause@,
    {
        match outcome {
            AccountOutcome::Created => {
                self.created = self.created + 1;
            },
            AccountOutcome::CreatedDefaultsFailed { cause } => {
                self.created = self.created + 1;
                self.errors.push(defaults_failure_message(username, cause.as_str()));
                assert(self.errors@.take(old(self).errors@.len() as int) =~= old(self).errors@);
            },
            AccountOutcome::NotCreated => {
                self.skipped.push(String::from_str(username));
                assert(self.skipped@.take(old(self).skipped@.len() as int) =~= old(self).skipped@);
                assert(self.tally().1 =~= old(self).tally().1.push(username@));
            },
            AccountOutcome::HashFailed => {
                self.errors.push(hash_failure_message(username));
                assert(self.errors@.take(old(self).errors@.len() as int) =~= old(self).errors@);
            },
        }
    }
}

/// The problem reported for a malformed line: `第 N 行格式错误: <line>`.
pub fn malformed_line_message(line: usize, text: &str) -> (m: String)
    ensures
        m@ == "第 "@ + decimal(line as nat) + " 行格式错误: "@ + text@,
{
    let mut m = String::from_str("第 ");
    let digits = decimal_chars(line);
    let number = string_of(&digits);
    m.append(number.as_str());
    m.append(" 行格式错误: ");
    m.append(text);
    m
}

/// The problem reported when a password could not be hashed: `用户 <name> 密码哈希失败`.
pub fn hash_failure_message(username: &str) -> (m: String)
    ensures
        m@ == "用户 "@ + username@ + " 密码哈希失败"@,
{
    let mut m = String::from_str("用户 ");
    m.append(username);
    m.append(" 密码哈希失败");
    m
}

/// The problem reported when the default topics and rules could not be
/// applied to a new account: `用户 <name> 应用默认规则失败: <cause>`.
pub fn defaults_failure_message(username: &str, cause: &str) -> (m: String)
    ensures
        m@ == "用户 "@ + username@ + " 应用默认规则失败: "@ + cause@,
{
    let mut m = String::from_str("用户 ");
    m.append(username);
    m.append(" 应用默认规则失败: ");
    m.append(cause);
    m
}

/// The accounts of the entries, in order: user name and password.
pub open spec fn batch_accounts(entries: Seq<BatchEntry>) -> Seq<(Seq<char>, Seq<char>)>
    decreases entries.len(),
{
    if entries.len() == 0 {
        Seq::empty()
    } else {
        let prev = batch_accounts(entries.drop_last());
        match entries.last() {
            BatchEntry::Account { username, password, .. } => prev.push((username, password)),
            BatchEntry::Malformed { .. } => prev,
        }
    }
}

/// A line that names an account: once trimmed, not blank, not a comment,
/// and with at least two words.
pub open spec fn is_account_line(raw: Seq<char>) -> bool {
    let t = trim(raw);
    t.len() > 0 && t[0] != '#' && words(t).len() >= 2
}

/// The first two words of each account line, in order.
pub open spec fn account_lines(lines: Seq<Seq<char>>) -> Seq<(Seq<char>, Seq<char>)>
    decreases lines.len(),
{
    if lines.len() == 0 {
        Seq::empty()
    } else {
        let prev = account_lines(lines.drop_last());
        let l = lines.last();
        if is_account_line(l) {
            prev.push((words(trim(l))[0], words(trim(l))[1]))
        } else {
            prev
        }
    }
}

/// The accounts read from a batch are the account lines, in order, each
/// with its first two words (further words are ignored).
pub proof fn lemma_batch_accounts_are_account_lines(lines: Seq<Seq<char>>)
    ensures
        batch_accounts(batch_entries(lines)) == account_lines(lines),
    decreases lines.len(),
{
    if lines.len() > 0 {
        let init = lines.drop_last();
        lemma_batch_accounts_are_account_lines(init);
        lemma_batch_accounts_concat(batch_entries(init), entry_of(lines.len() as int, lines.last()));
        let e = entry_of(lines.len() as int, lines.last());
        if e.len() == 1 {
            assert(e.drop_last() =~= Seq::<BatchEntry>::empty());
            assert(batch_accounts(e.drop_last()) =~= Seq::<(Seq<char>, Seq<char>)>::empty());
        }
    }
}

/// The accounts of two stretches of entries, one after the other.
proof fn lemma_batch_accounts_concat(a: Seq<BatchEntry>, b: Seq<BatchEntry>)
    ensures
        batch_accounts(a + b) == batch_accounts(a) + batch_accounts(b),
    decreases b.len(),
{
    if b.len() == 0 {
        assert(a + b =~= a);
        assert(batch_accounts(a) + batch_accounts(b) =~= batch_accounts(a));
    } else {
        lemma_batch_accounts_concat(a, b.drop_last());
        assert((a + b).drop_last() =~= a + b.drop_last());
        assert((a + b).last() == b.last());
        match b.last() {
            BatchEntry::Account { username, password, .. } => {
                assert(batch_accounts(a) + batch_accounts(b) =~= (batch_accounts(a) + batch_accounts(b.drop_last())).push(
                    (username, password),
                ));
            },
            BatchEntry::Malformed { .. } => {},
        }
    }
}

/// The names of the accounts that could not be created, in order.
pub open spec fn not_created_names(names: Seq<Seq<char>>, outcomes: Seq<AccountOutcome>) -> Seq<Seq<char>>
    decreases names.len(),
{
    if names.len() == 0 || outcomes.len() == 0 {
        Seq::empty()
    } else {
        let prev = not_created_names(names.drop_last(), outcomes.drop_last());
        if outcomes.last() is NotCreated {
            prev.push(names.last())
        } else {
            prev
        }
    }
}

/// Accounting of a batch: when a new report records the outcome of each
/// account in turn (`tallies[k + 1]` being what `record_account` leaves of
/// `tallies[k]`) and every password could be hashed, the names skipped are
/// exactly those whose account could not be created, in order, and created
/// plus skipped is the number of accounts.
pub proof fn lemma_batch_tally(
    names: Seq<Seq<char>>,
    outcomes: Seq<AccountOutcome>,
    tallies: Seq<(int, Seq<Seq<char>>)>,
)
    requires
        outcomes.len() == names.len(),
        tallies.len() == names.len() + 1,
        tallies[0] == (0int, Seq::<Seq<char>>::empty()),
        forall|k: int| 0 <= k < names.len() ==> tallies[k + 1] == tally_step(#[trigger] tallies[k], names[k], outcomes[k]),
        forall|k: int| 0 <= k < outcomes.len() ==> !((#[trigger] outcomes[k]) is HashFailed),
    ensures
        tallies.last().1 == not_created_names(names, outcomes),
        tallies.last().0 + tallies.last().1.len() == names.len(),
    decreases names.len(),
{
    if names.len() > 0 {
        let n = names.len() as int;
        lemma_batch_tally(names.drop_last(), outcomes.drop_last(), tallies.drop_last());
        assert(tallies.drop_last().last() == tallies[n - 1]);
        assert(tallies[n] == tally_step(tallies[n - 1], names[n - 1], outcomes[n - 1]));
        assert(!(outcomes[n - 1] is HashFailed));
    }
}

} // verus!
