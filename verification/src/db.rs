//! Database selection and the transaction that runs SQL on one database.
//!
//! The connection pool and the queries belong to the MySQL client; what is
//! decided here is which databases a listing keeps, which port a connection
//! uses, and how the stages of the per-database transaction follow one another.

use vstd::prelude::*;

use crate::config::ConnectionConfig;
use crate::text::{chars_of, decimal, span_ends_with, span_starts_with, str_eq, trim, trimmed_chars};

verus! {

broadcast use vstd::string::group_string_axioms;

// ── System databases ──────────────────────────────────────────────

/// The MySQL system databases, which listings leave out (names compared exactly).
pub open spec fn is_system_name(name: Seq<char>) -> bool {
    ||| name == "information_schema"@
    ||| name == "mysql"@
    ||| name == "performance_schema"@
    ||| name == "sys"@
}

/// Whether `name` is a MySQL system database.
pub fn is_system_db(name: &str) -> (r: bool)
    ensures
        r == is_system_name(name@),
{
    str_eq(name, "information_schema") || str_eq(name, "mysql") || str_eq(name,
        "performance_schema") || str_eq(name, "sys")
}

// ── Filter ────────────────────────────────────────────────────────

/// Whether `name` begins with `prefix` and ends with `suffix`, both trimmed of
/// white space. An empty (or blank) filter restricts nothing.
pub open spec fn filter_matches(name: Seq<char>, prefix: Seq<char>, suffix: Seq<char>) -> bool {
    trim(prefix).is_prefix_of(name) && trim(suffix).is_suffix_of(name)
}

/// Checks whether `db_name` matches the given prefix AND suffix: when both are
/// given (non-empty after trimming) the name must match both; when only one is
/// given only that one is checked; blank filters match everything.
pub fn match_filter(db_name: &str, prefix: &str, suffix: &str) -> (r: bool)
    ensures
        r == filter_matches(db_name@, prefix@, suffix@),
{
    let p = trimmed_chars(prefix);
    let q = trimmed_chars(suffix);
    let name = chars_of(db_name);
    assert(name@.subrange(0, name@.len() as int) =~= name@);
    span_starts_with(&name, 0, name.len(), &p) && span_ends_with(&name, 0, name.len(), &q)
}

/// The names as character sequences.
pub open spec fn names_of(names: Seq<String>) -> Seq<Seq<char>> {
    names.map_values(|s: String| s@)
}

/// Whether a listing keeps a database: not a system database, and matching
/// the prefix and suffix filters.
pub open spec fn keeps(name: Seq<char>, prefix: Seq<char>, suffix: Seq<char>) -> bool {
    !is_system_name(name) && filter_matches(name, prefix, suffix)
}

/// The databases a listing keeps out of `names`, in their order.
pub open spec fn kept_names(names: Seq<Seq<char>>, prefix: Seq<char>, suffix: Seq<char>) -> Seq<
    Seq<char>,
> {
    names.filter(|n: Seq<char>| keeps(n, prefix, suffix))
}

/// Of the database names a server reports, those that are not system
/// databases and pass the prefix AND suffix filter, in their order.
pub fn filter_databases(names: Vec<String>, prefix: &str, suffix: &str) -> (r: Vec<String>)
    ensures
        names_of(r@) == kept_names(names_of(names@), prefix@, suffix@),
{
    let ghost pred = |n: Seq<char>| keeps(n, prefix@, suffix@);
    let mut r: Vec<String> = Vec::new();
    let mut i: usize = 0;
    while i < names.len()
        invariant
            i <= names@.len(),
            pred == (|n: Seq<char>| keeps(n, prefix@, suffix@)),
            names_of(r@) == names_of(names@.take(i as int)).filter(pred),
        decreases names@.len() - i,
    {
        let name = &names[i];
        let keep = !is_system_db(name.as_str()) && match_filter(name.as_str(), prefix, suffix);
        proof {
            let before = names_of(names@.take(i as int));
            let after = names_of(names@.take(i + 1));
            assert(after =~= before.push(names@[i as int]@));
            assert(after.drop_last() =~= before);
            reveal_with_fuel(Seq::filter, 1);
        }
        if keep {
            let ghost old_r = r@;
            r.push(name.clone());
            assert(names_of(r@) =~= names_of(old_r).push(name@));
        }
        i = i + 1;
    }
    assert(names@.take(names@.len() as int) =~= names@);
    r
}

// ── Port ──────────────────────────────────────────────────────────

/// The value of a sequence of decimal digits.
pub open spec fn digits_value(d: Seq<char>) -> nat
    decreases d.len(),
{
    if d.len() == 0 {
        0
    } else {
        digits_value(d.drop_last()) * 10 + ((d.last() as int) - 48) as nat
    }
}

/// Whether every character is an ASCII decimal digit.
pub open spec fn all_digits(d: Seq<char>) -> bool {
    forall|i: int| 0 <= i < d.len() ==> '0' <= #[trigger] d[i] && d[i] <= '9'
}

/// The `u16` that a text denotes as `str::parse` reads it: an optional `+`,
/// then one or more decimal digits, of value at most 65535.
pub open spec fn parsed_u16(s: Seq<char>) -> Option<u16> {
    let d = if s.len() > 0 && s[0] == '+' {
        s.drop_first()
    } else {
        s
    };
    if d.len() > 0 && all_digits(d) && digits_value(d) <= 65535 {
        Some(digits_value(d) as u16)
    } else {
        None
    }
}

/// The port a connection uses when the configuration does not name a valid one.
pub open spec fn default_port_number() -> u16 {
    3306
}

/// The port that a connection configuration names, or 3306.
pub open spec fn port_of(port: Seq<char>) -> u16 {
    match parsed_u16(port) {
        Some(p) => p,
        None => default_port_number(),
    }
}

/// Extending a run of digits never lowers its value.
proof fn lemma_digits_value_monotone(d: Seq<char>, j: int)
    requires
        0 <= j <= d.len(),
        all_digits(d),
    ensures
        digits_value(d.take(j)) <= digits_value(d),
    decreases d.len() - j,
{
    if j < d.len() {
        let e = d.take(j + 1);
        assert(e.drop_last() =~= d.take(j));
        assert('0' <= e.last());
        lemma_digits_value_monotone(d, j + 1);
    } else {
        assert(d.take(j) =~= d);
    }
}

/// Parses a port number as `str::parse::<u16>` does.
pub fn parse_port(port: &str) -> (r: Option<u16>)
    ensures
        r == parsed_u16(port@),
{
    let v = chars_of(port);
    let start: usize = if v.len() > 0 && v[0] == '+' {
        1
    } else {
        0
    };
    let ghost d = v@.skip(start as int);
    assert(d =~= (if v@.len() > 0 && v@[0] == '+' {
        v@.drop_first()
    } else {
        v@
    }));
    if start == v.len() {
        return None;
    }
    let mut value: u32 = 0;
    let mut i = start;
    while i < v.len()
        invariant
            start <= i <= v@.len(),
            start < v@.len(),
            v@ == port@,
            d == v@.skip(start as int),
            d == (if v@.len() > 0 && v@[0] == '+' {
                v@.drop_first()
            } else {
                v@
            }),
            all_digits(d.take(i - start)),
            value as nat == digits_value(d.take(i - start)),
            value <= 65535,
        decreases v@.len() - i,
    {
        let c = v[i];
        let ghost e = d.take(i - start + 1);
        assert(e.drop_last() =~= d.take(i - start));
        assert(e.last() == c);
        if !('0' <= c && c <= '9') {
            assert(!all_digits(d)) by {
                assert(d[i - start] == c);
            }
            return None;
        }
        value = value * 10 + ((c as u32) - 48);
        if value > 65535 {
            proof {
                if all_digits(d) {
                    lemma_digits_value_monotone(d, i - start + 1);
                }
            }
            return None;
        }
        i = i + 1;
    }
    assert(d.take(i - start) =~= d);
    Some(value as u16)
}

/// The port used to reach a configured server: the configured one, or 3306
/// when it is empty or not a valid port number.
pub fn connection_port(cfg: &ConnectionConfig) -> (r: u16)
    ensures
        r == port_of(cfg.port@),
{
    match parse_port(cfg.port.as_str()) {
        Some(p) => p,
        None => 3306,
    }
}

// ── The per-database transaction ──────────────────────────────────

/// The stages of running SQL on one database, in order:
/// connection → START TRANSACTION → SET NAMES utf8mb4 → USE `db` → the SQL → COMMIT.
#[derive(Debug, Clone, Copy, PartialEq, Eq, Structural)]
pub enum ExecStage {
    Connect,
    StartTransaction,
    SetNames,
    UseDatabase,
    ExecuteSql,
    Commit,
}

/// The position of a stage in the sequence.
pub open spec fn stage_index(stage: ExecStage) -> int {
    match stage {
        ExecStage::Connect => 0,
        ExecStage::StartTransaction => 1,
        ExecStage::SetNames => 2,
        ExecStage::UseDatabase => 3,
        ExecStage::ExecuteSql => 4,
        ExecStage::Commit => 5,
    }
}

/// What to do after a stage has been attempted.
#[derive(Debug, Clone, PartialEq)]
pub enum ExecStep {
    /// Attempt this stage next.
    Next(ExecStage),
    /// Every stage succeeded: the SQL is committed.
    Succeeded,
    /// A stage failed. `rollback` tells whether the open transaction must be
    /// rolled back before the connection is given up.
    Failed { error: String, rollback: bool },
}

/// The statement a stage runs on the connection; none for acquiring it.
pub open spec fn stage_sql(stage: ExecStage, db_name: Seq<char>, sql: Seq<char>) -> Option<
    Seq<char>,
> {
    match stage {
        ExecStage::Connect => None,
        ExecStage::StartTransaction => Some("START TRANSACTION"@),
        ExecStage::SetNames => Some("SET NAMES utf8mb4"@),
        ExecStage::UseDatabase => Some("USE `"@ + db_name + "`"@),
        ExecStage::ExecuteSql => Some(sql),
        ExecStage::Commit => Some("COMMIT"@),
    }
}

/// The error recorded when a stage fails with `err`.
pub open spec fn failure_message(stage: ExecStage, db_name: Seq<char>, err: Seq<char>) -> Seq<
    char,
> {
    match stage {
        ExecStage::Connect => "获取数据库连接失败: "@ + err,
        ExecStage::StartTransaction => "开始事务失败: "@ + err,
        ExecStage::SetNames => "设置字符集失败: "@ + err,
        ExecStage::UseDatabase => "切换数据库 `"@ + db_name + "` 失败: "@ + err,
        ExecStage::ExecuteSql => "执行 SQL 失败: "@ + err,
        ExecStage::Commit => "提交事务失败: "@ + err,
    }
}

/// The stage after `stage`, if there is one.
pub open spec fn next_stage(stage: ExecStage) -> Option<ExecStage> {
    match stage {
        ExecStage::Connect => Some(ExecStage::StartTransaction),
        ExecStage::StartTransaction => Some(ExecStage::SetNames),
        ExecStage::SetNames => Some(ExecStage::UseDatabase),
        ExecStage::UseDatabase => Some(ExecStage::ExecuteSql),
        ExecStage::ExecuteSql => Some(ExecStage::Commit),
        ExecStage::Commit => None,
    }
}

/// The first stage of a run.
pub fn first_stage() -> (s: ExecStage)
    ensures
        s == ExecStage::Connect,
{
    ExecStage::Connect
}

/// The statement that `stage` runs on the connection (none for `Connect`).
pub fn stage_statement(stage: ExecStage, db_name: &str, sql: &str) -> (r: Option<String>)
    ensures
        r.deep_view() == stage_sql(stage, db_name@, sql@),
{
    match stage {
        ExecStage::Connect => None,
        ExecStage::StartTransaction => Some(String::from_str("START TRANSACTION")),
        ExecStage::SetNames => Some(String::from_str("SET NAMES utf8mb4")),
        ExecStage::UseDatabase => {
            let mut s = String::from_str("USE `");
            s.append(db_name);
            s.append("`");
            Some(s)
        },
        ExecStage::ExecuteSql => Some(String::from_str(sql)),
        ExecStage::Commit => Some(String::from_str("COMMIT")),
    }
}

/// The statement that undoes an open transaction.
pub fn rollback_statement() -> (s: String)
    ensures
        s@ == "ROLLBACK"@,
{
    String::from_str("ROLLBACK")
}

/// The transition after attempting `stage` on database `db_name`: on success
/// the next stage (or `Succeeded` after `Commit`); on failure `Failed` with the
/// stage's message, and a rollback exactly when the transaction was already
/// started (a failure of `SetNames`, `UseDatabase`, `ExecuteSql` or `Commit`).
pub fn after_stage(stage: ExecStage, db_name: &str, outcome: Result<(), String>) -> (r: ExecStep)
    ensures
        match outcome {
            Ok(_) => match next_stage(stage) {
                Some(n) => r == ExecStep::Next(n),
                None => r == ExecStep::Succeeded,
            },
            Err(e) => match r {
                ExecStep::Failed { error, rollback } => {
                    &&& error@ == failure_message(stage, db_name@, e@)
                    &&& rollback == (stage_index(stage) >= 2)
                },
                _ => false,
            },
        },
{
    match outcome {
        Ok(_) => match stage {
            ExecStage::Connect => ExecStep::Next(ExecStage::StartTransaction),
            ExecStage::StartTransaction => ExecStep::Next(ExecStage::SetNames),
            ExecStage::SetNames => ExecStep::Next(ExecStage::UseDatabase),
            ExecStage::UseDatabase => ExecStep::Next(ExecStage::ExecuteSql),
            ExecStage::ExecuteSql => ExecStep::Next(ExecStage::Commit),
            ExecStage::Commit => ExecStep::Succeeded,
        },
        Err(e) => {
            let (mut error, rollback) = match stage {
                ExecStage::Connect => (String::from_str("获取数据库连接失败: "), false),
                ExecStage::StartTransaction => (String::from_str("开始事务失败: "), false),
                ExecStage::SetNames => (String::from_str("设置字符集失败: "), true),
                ExecStage::UseDatabase => {
                    let mut m = String::from_str("切换数据库 `");
                    m.append(db_name);
                    m.append("` 失败: ");
                    (m, true)
                },
                ExecStage::ExecuteSql => (String::from_str("执行 SQL 失败: "), true),
                ExecStage::Commit => (String::from_str("提交事务失败: "), true),
            };
            error.append(e.as_str());
            ExecStep::Failed { error, rollback }
        },
    }
}

/// The outcome of running SQL on one database (the time it took is measured
/// by the caller).
#[derive(Debug, Clone, PartialEq)]
pub struct ExecOutcome {
    pub database: String,
    pub success: bool,
    pub error: String,
}

/// The outcome that a finished run records: the database's name, whether the
/// run succeeded, and the failure's message (empty on success).
pub fn finish_outcome(db_name: &str, step: ExecStep) -> (r: ExecOutcome)
    requires
        !(step is Next),
    ensures
        r.database@ == db_name@,
        r.success == (step is Succeeded),
        match step {
            ExecStep::Failed { error, .. } => r.error@ == error@,
            _ => r.error@ == Seq::<char>::empty(),
        },
{
    match step {
        ExecStep::Failed { error, .. } => ExecOutcome {
            database: String::from_str(db_name),
            success: false,
            error,
        },
        _ => ExecOutcome { database: String::from_str(db_name), success: true, error: String::new() },
    }
}

// ── Laws ──────────────────────────────────────────────────────────

proof fn lemma_trim_empty()
    ensures
        trim(Seq::<char>::empty()) == Seq::<char>::empty(),
{
    reveal_with_fuel(crate::text::trim_start, 1);
    reveal_with_fuel(crate::text::trim_end, 1);
}

/// The filter is an AND of its two halves: a name matches prefix and suffix
/// together exactly when it matches the prefix alone and the suffix alone.
pub proof fn law_filter_is_and(name: Seq<char>, prefix: Seq<char>, suffix: Seq<char>)
    ensures
        filter_matches(name, prefix, suffix) == (filter_matches(name, prefix, Seq::empty())
            && filter_matches(name, Seq::empty(), suffix)),
{
    lemma_trim_empty();
    assert(Seq::<char>::empty().is_prefix_of(name));
    assert(Seq::<char>::empty() =~= name.subrange(name.len() as int, name.len() as int));
    assert(Seq::<char>::empty().is_suffix_of(name));
}

/// Blank filters (empty or white space only) match every name.
pub proof fn law_blank_filters_match_all(name: Seq<char>, prefix: Seq<char>, suffix: Seq<char>)
    requires
        trim(prefix).len() == 0,
        trim(suffix).len() == 0,
    ensures
        filter_matches(name, prefix, suffix),
{
    assert(trim(prefix) =~= name.subrange(0, 0));
    assert(trim(suffix) =~= name.subrange(name.len() as int, name.len() as int));
}

/// A listing keeps exactly the names that are no system database and pass
/// the filter: each kept name does, and each reported name that does is kept.
pub proof fn law_listing_keeps_exactly(names: Seq<Seq<char>>, prefix: Seq<char>, suffix: Seq<char>)
    ensures
        forall|i: int|
            0 <= i < kept_names(names, prefix, suffix).len() ==> keeps(
                #[trigger] kept_names(names, prefix, suffix)[i],
                prefix,
                suffix,
            ),
        forall|i: int|
            0 <= i < names.len() && keeps(names[i], prefix, suffix) ==> #[trigger] kept_names(
                names,
                prefix,
                suffix,
            ).contains(names[i]),
        kept_names(names, prefix, suffix).len() <= names.len(),
{
    broadcast use vstd::seq_lib::group_filter_ensures;

    let pred = |n: Seq<char>| keeps(n, prefix, suffix);
    assert forall|i: int|
        0 <= i < kept_names(names, prefix, suffix).len() implies keeps(
        #[trigger] kept_names(names, prefix, suffix)[i],
        prefix,
        suffix,
    ) by {
        names.lemma_filter_pred(pred, i);
    }
    assert forall|i: int|
        0 <= i < names.len() && keeps(names[i], prefix, suffix) implies #[trigger] kept_names(
        names,
        prefix,
        suffix,
    ).contains(names[i]) by {
        names.lemma_filter_contains(pred, i);
    }
    names.lemma_filter_len(pred);
}

/// The digits of a decimal notation, and their value.
proof fn lemma_decimal_digits(n: nat)
    ensures
        all_digits(decimal(n)),
        digits_value(decimal(n)) == n,
        decimal(n).len() > 0,
    decreases n,
{
    let d = decimal(n);
    let r = (n % 10) as int;
    assert(0 <= r < 10);
    assert(((r + 48) as char) as int == r + 48);
    assert(d.last() == crate::text::digit_char(r));
    assert((d.last() as int) - 48 == r);
    assert(digits_value(d) == digits_value(d.drop_last()) * 10 + r);
    if n < 10 {
        assert(d.drop_last() =~= Seq::<char>::empty());
        assert(n % 10 == n);
    } else {
        lemma_decimal_digits(n / 10);
        assert(d.drop_last() =~= decimal(n / 10));
        assert((n / 10) * 10 + n % 10 == n) by (nonlinear_arith);
        assert forall|i: int| 0 <= i < d.len() implies '0' <= #[trigger] d[i] && d[i] <= '9' by {
            if i < d.len() - 1 {
                assert(d[i] == decimal(n / 10)[i]);
            }
        }
    }
}

/// A port number written in decimal is read back as that number.
pub proof fn law_decimal_port_read_back(n: u16)
    ensures
        parsed_u16(decimal(n as nat)) == Some(n),
        port_of(decimal(n as nat)) == n,
{
    lemma_decimal_digits(n as nat);
    let d = decimal(n as nat);
    assert('0' <= d[0] && d[0] <= '9');
}

/// A port is read as `str::parse` reads a `u16`: a `+` may stand before the
/// digits, and a number above 65535 is no port.
pub proof fn law_port_text(n: nat)
    ensures
        n <= 65535 ==> parsed_u16(seq!['+'] + decimal(n)) == Some(n as u16),
        n > 65535 ==> parsed_u16(decimal(n)) is None,
{
    lemma_decimal_digits(n);
    let d = decimal(n);
    assert((seq!['+'] + d).drop_first() =~= d);
    assert((seq!['+'] + d)[0] == '+');
    assert('0' <= d[0] && d[0] <= '9');
}

/// A text holding any other character than decimal digits, after an
/// optional leading `+`, is no port.
pub proof fn law_port_rejects_other_characters(s: Seq<char>, i: int)
    requires
        0 <= i < s.len(),
        !('0' <= s[i] && s[i] <= '9'),
        i > 0 || s[i] != '+',
    ensures
        parsed_u16(s) is None,
{
    if s[0] == '+' {
        assert(s.drop_first()[i - 1] == s[i]);
    }
}

/// An empty or invalid port falls back to 3306.
pub proof fn law_invalid_port_defaults(port: Seq<char>)
    requires
        parsed_u16(port) is None,
    ensures
        port_of(port) == 3306,
{
}

/// The stages advance one at a time, and a run ends after `Commit`: a run
/// attempts at most six stages.
pub proof fn law_stages_advance(stage: ExecStage)
    ensures
        match next_stage(stage) {
            Some(n) => stage_index(n) == stage_index(stage) + 1,
            None => stage == ExecStage::Commit,
        },
        0 <= stage_index(stage) < 6,
{
}

/// The filter compares characters at the ends of the name: the trimmed
/// prefix must be the name's first characters, one for one, and the trimmed
/// suffix its last characters; a prefix found later in the name, or a suffix
/// found earlier, does not match.
pub proof fn law_filter_compares_ends(name: Seq<char>, prefix: Seq<char>, suffix: Seq<char>)
    ensures
        filter_matches(name, prefix, suffix) == ({
            let p = trim(prefix);
            let q = trim(suffix);
            &&& p.len() <= name.len()
            &&& forall|i: int| 0 <= i < p.len() ==> #[trigger] name[i] == p[i]
            &&& q.len() <= name.len()
            &&& forall|i: int| 0 <= i < q.len() ==> name[name.len() - q.len() + i] == #[trigger] q[i]
        }),
{
    let p = trim(prefix);
    let q = trim(suffix);
    if p.len() <= name.len() && (forall|i: int| 0 <= i < p.len() ==> #[trigger] name[i] == p[i]) {
        assert(p =~= name.subrange(0, p.len() as int));
    }
    if p.is_prefix_of(name) {
        assert forall|i: int| 0 <= i < p.len() implies #[trigger] name[i] == p[i] by {
            assert(p[i] == name.subrange(0, p.len() as int)[i]);
        }
    }
    if q.len() <= name.len() && (forall|i: int|
        0 <= i < q.len() ==> name[name.len() - q.len() + i] == #[trigger] q[i]) {
        assert(q =~= name.subrange(name.len() - q.len(), name.len() as int));
    }
    if q.is_suffix_of(name) {
        assert forall|i: int| 0 <= i < q.len() implies name[name.len() - q.len() + i]
            == #[trigger] q[i] by {
            assert(q[i] == name.subrange(name.len() - q.len(), name.len() as int)[i]);
        }
    }
}

/// Only the four system databases themselves are left out, compared as whole
/// names: `information_schema`, `mysql`, `performance_schema` and `sys`. A
/// name that merely begins or ends like one of them (`sys_user`, `my_mysql`)
/// is kept whenever it passes the filter.
pub proof fn law_system_names_exact(name: Seq<char>, prefix: Seq<char>, suffix: Seq<char>)
    ensures
        keeps(name, prefix, suffix) == (filter_matches(name, prefix, suffix) && name
            != "information_schema"@ && name != "mysql"@ && name != "performance_schema"@ && name
            != "sys"@),
{
}

/// A listing holds a name exactly when the server reported it, it passes
/// the filter, and it is none of the four system database names.
pub proof fn law_listing_drops_only_system_names(
    names: Seq<Seq<char>>,
    prefix: Seq<char>,
    suffix: Seq<char>,
)
    ensures
        forall|n: Seq<char>|
            #[trigger] kept_names(names, prefix, suffix).contains(n) == (names.contains(n)
                && filter_matches(n, prefix, suffix) && n != "information_schema"@ && n
                != "mysql"@ && n != "performance_schema"@ && n != "sys"@),
{
    broadcast use vstd::seq_lib::group_filter_ensures;

    let pred = |n: Seq<char>| keeps(n, prefix, suffix);
    let out = kept_names(names, prefix, suffix);
    assert forall|n: Seq<char>|
        #[trigger] out.contains(n) == (names.contains(n) && filter_matches(n, prefix, suffix) && n
            != "information_schema"@ && n != "mysql"@ && n != "performance_schema"@ && n
            != "sys"@) by {
        if out.contains(n) {
            let i = choose|i: int| 0 <= i < out.len() && out[i] == n;
            names.lemma_filter_pred(pred, i);
            names.lemma_filter_contains_rev(pred, n);
        }
        if names.contains(n) && keeps(n, prefix, suffix) {
            let i = choose|i: int| 0 <= i < names.len() && names[i] == n;
            names.lemma_filter_contains(pred, i);
        }
    }
}

/// The statements of the transaction, stage by stage: the SQL stage sends
/// the given SQL exactly as it is (every statement in it, whatever `;` it
/// holds), the database is selected by name between backquotes, and
/// acquiring the connection sends nothing.
pub proof fn law_stage_statements(db_name: Seq<char>, sql: Seq<char>)
    ensures
        stage_sql(ExecStage::ExecuteSql, db_name, sql) == Some(sql),
        stage_sql(ExecStage::Connect, db_name, sql) is None,
        stage_sql(ExecStage::StartTransaction, db_name, sql) == Some("START TRANSACTION"@),
        stage_sql(ExecStage::SetNames, db_name, sql) == Some("SET NAMES utf8mb4"@),
        stage_sql(ExecStage::UseDatabase, db_name, sql) == Some("USE `"@ + db_name + "`"@),
        stage_sql(ExecStage::Commit, db_name, sql) == Some("COMMIT"@),
{
}

} // verus!
