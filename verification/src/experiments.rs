//! Experiment bookkeeping: the run registry's backends and queries, sweep
//! scheduling, and the per-job seeds of sweeps and ablations.
use vstd::prelude::*;
use crate::ids::copy_raw;
use crate::order::{lex_lt, lex_lt_from};

verus! {

/// Supported registry backends, each with the path of its store.
#[derive(Debug, Clone, PartialEq, Eq)]
pub enum Registry {
    Csv(String),
    Sqlite(String),
}

/// Whether `ext`, preceded by a dot, occurs somewhere in `path`.
pub open spec fn contains_dotted(path: Seq<char>, ext: Seq<char>) -> bool {
    exists|i: int| 0 <= i && i + ext.len() + 1 <= path.len() && #[trigger] path.subrange(i, i + ext.len() + 1)
        == seq!['.'].add(ext)
}

/// A path whose separators are the same on every platform: it holds no `\\`
/// and no `:` (which Windows prefixes need) and does not start with `//`
/// (which Windows reads as a network or device prefix), so `/` is its only
/// separator.
pub open spec fn portable_path(p: Seq<char>) -> bool {
    &&& !p.contains('\\')
    &&& !p.contains(':')
    &&& !(p.len() >= 2 && p[0] == '/' && p[1] == '/')
}

/// `p` without trailing separators and trailing `/.` components, which path
/// parsing skips.
pub open spec fn trim_tail(p: Seq<char>) -> Seq<char>
    decreases p.len(),
{
    if p.len() > 0 && p.last() == '/' {
        trim_tail(p.drop_last())
    } else if p.len() >= 2 && p.last() == '.' && p[p.len() - 2] == '/' {
        trim_tail(p.subrange(0, p.len() - 2))
    } else {
        p
    }
}

/// The index of the last `/` of `p`, or -1 when there is none.
pub open spec fn last_slash(p: Seq<char>) -> int
    decreases p.len(),
{
    if p.len() == 0 {
        -1
    } else if p.last() == '/' {
        p.len() - 1
    } else {
        last_slash(p.drop_last())
    }
}

/// The file name of a portable path: its last component, unless that is
/// empty, `.` or `..`.
pub open spec fn file_name_of(p: Seq<char>) -> Option<Seq<char>> {
    let q = trim_tail(p);
    let name = q.subrange(last_slash(q) + 1, q.len() as int);
    if name.len() == 0 || name == seq!['.'] || name == seq!['.', '.'] {
        None
    } else {
        Some(name)
    }
}

/// The extension of a portable path: that of its file name, if it has one.
pub open spec fn path_extension_of(p: Seq<char>) -> Option<Seq<char>> {
    match file_name_of(p) {
        Some(name) => file_extension(name),
        None => None,
    }
}

/// The index of the last dot of `p`, or -1 when there is none.
pub open spec fn last_dot(p: Seq<char>) -> int
    decreases p.len(),
{
    if p.len() == 0 {
        -1
    } else if p.last() == '.' {
        p.len() - 1
    } else {
        last_dot(p.drop_last())
    }
}

/// The extension of a file name: what follows its last dot, unless that dot
/// is its first character or there is none.
pub open spec fn file_extension(p: Seq<char>) -> Option<Seq<char>> {
    let i = last_dot(p);
    if i <= 0 {
        None
    } else {
        Some(p.subrange(i + 1, p.len() as int))
    }
}

/// `Path::extension` read as UTF-8: the part of the path's file name after
/// its last dot. The file name is a piece of the path, so an extension holds
/// no dot and stands in the path behind a dot, and a path without a dot has
/// none. For a path without `\\` the file name holds no `/` on any platform,
/// and for a portable path it is [`file_name_of`], so the extension is
/// [`path_extension_of`]. Other paths are read by the platform's own rules
/// (Windows prefixes), and their extension is not stated further.
#[verifier::external_body]
fn path_extension(path: &str) -> (e: Option<String>)
    ensures
        e matches Some(x) ==> !x@.contains('.') && contains_dotted(path@, x@),
        e matches Some(x) ==> (!path@.contains('\\') ==> !x@.contains('/')),
        !path@.contains('.') ==> e is None,
        portable_path(path@) ==> (e is None <==> path_extension_of(path@) is None),
        portable_path(path@) ==> (e matches Some(x) ==> path_extension_of(path@) == Some(x@)),
{
    std::path::Path::new(path).extension().and_then(|ext| ext.to_str()).map(|ext| ext.to_string())
}

/// Whether an extension selects the SQLite backend.
pub open spec fn is_sqlite_extension(ext: Option<String>) -> bool {
    match ext {
        Some(e) => e@ == "sqlite"@ || e@ == "db"@,
        None => false,
    }
}

impl Registry {
    /// The backend for a store at `path` whose file extension is `extension`:
    /// SQLite for `sqlite` and `db`, CSV otherwise.
    pub fn for_extension(path: String, extension: Option<String>) -> (r: Registry)
        ensures
            r == if is_sqlite_extension(extension) {
                Registry::Sqlite(path)
            } else {
                Registry::Csv(path)
            },
    {
        let sqlite = match &extension {
            Some(e) => *e == String::from_str("sqlite") || *e == String::from_str("db"),
            None => false,
        };
        if sqlite {
            Registry::Sqlite(path)
        } else {
            Registry::Csv(path)
        }
    }

    /// Construct a registry handle from a filesystem path, choosing the
    /// backend by the path's extension (see [`Registry::for_extension`]):
    /// for a portable path, SQLite exactly when the extension of its file
    /// name is `sqlite` or `db`.
    pub fn from_path(path: String) -> (r: Registry)
        ensures
            r == Registry::Sqlite(path) || r == Registry::Csv(path),
            r == Registry::Sqlite(path) ==> contains_dotted(path@, "sqlite"@) || contains_dotted(path@, "db"@),
            !path@.contains('.') ==> r == Registry::Csv(path),
            portable_path(path@) ==> r == if path_extension_of(path@) == Some("sqlite"@) || path_extension_of(path@)
                == Some("db"@) {
                Registry::Sqlite(path)
            } else {
                Registry::Csv(path)
            },
    {
        let extension = path_extension(path.as_str());
        Registry::for_extension(path, extension)
    }
}

/// Query descriptor for registry lookups.
#[derive(Debug, Clone, PartialEq, Eq)]
pub struct Query {
    pub plan_name: Option<String>,
    pub limit: Option<usize>,
}

impl Default for Query {
    fn default() -> (q: Query)
        ensures
            q.plan_name is None,
            q.limit is None,
    {
        Query { plan_name: None, limit: None }
    }
}

/// Table representation returned from registry queries.
#[derive(Debug, Clone, PartialEq, Eq)]
pub struct Table {
    pub columns: Vec<String>,
    pub rows: Vec<Vec<String>>,
}

/// The text of each string in a list.
pub open spec fn texts(v: Seq<String>) -> Seq<Seq<char>> {
    v.map_values(|s: String| s@)
}

/// The registry's columns, in order.
pub open spec fn registry_columns() -> Seq<Seq<char>> {
    seq!["date"@, "commit"@, "plan_name"@, "plan_hash"@, "job_id"@, "params"@, "metrics"@]
}

/// The column names of the registry table.
pub fn table_columns() -> (c: Vec<String>)
    ensures
        texts(c@) == registry_columns(),
{
    let c = vec![
        String::from_str("date"),
        String::from_str("commit"),
        String::from_str("plan_name"),
        String::from_str("plan_hash"),
        String::from_str("job_id"),
        String::from_str("params"),
        String::from_str("metrics"),
    ];
    assert(texts(c@) =~= registry_columns());
    c
}

/// A table with the registry's columns and no rows.
pub fn empty_table() -> (t: Table)
    ensures
        texts(t.columns@) == registry_columns(),
        t.rows@.len() == 0,
{
    Table { columns: table_columns(), rows: Vec::new() }
}

/// Whether a stored record belongs to the queried plan (its third field).
pub open spec fn record_matches(record: Seq<String>, plan: Option<String>) -> bool {
    match plan {
        Some(p) => record.len() > 2 && record[2]@ == p@,
        None => true,
    }
}

/// Scanning the first `n` records: the rows kept so far and whether the
/// scan has stopped. A matching record is kept, and the scan stops as soon
/// as the kept rows reach the limit.
pub open spec fn scan_records(records: Seq<Seq<String>>, plan: Option<String>, limit: Option<usize>, n: nat) -> (Seq<Seq<String>>, bool)
    decreases n,
{
    if n == 0 {
        (Seq::empty(), false)
    } else {
        let (rows, stopped) = scan_records(records, plan, limit, (n - 1) as nat);
        if stopped || n > records.len() || !record_matches(records[n - 1], plan) {
            (rows, stopped)
        } else {
            let kept = rows.push(records[n - 1]);
            (kept, limit is Some && kept.len() >= limit->0)
        }
    }
}

/// The rows a query returns from the stored records, in stored order: on the
/// CSV backend the records of the queried plan; on SQLite the store has
/// already filtered and ordered them. Both stop once the limit is reached.
pub open spec fn query_rows(registry: Registry, query: Query, records: Seq<Seq<String>>) -> Seq<Seq<String>> {
    match registry {
        Registry::Csv(_) => scan_records(records, query.plan_name, query.limit, records.len()).0,
        Registry::Sqlite(_) => scan_records(records, None, query.limit, records.len()).0,
    }
}

/// Whether the record's third field is the plan's name.
fn record_is_for(record: &Vec<String>, plan: &String) -> (b: bool)
    ensures
        b == (record@.len() > 2 && record@[2]@ == plan@),
{
    if record.len() > 2 {
        record[2] == *plan
    } else {
        false
    }
}

/// A copy of a record.
fn copy_record(record: &Vec<String>) -> (out: Vec<String>)
    ensures
        out@ == record@,
{
    let mut out: Vec<String> = Vec::new();
    let mut i: usize = 0;
    while i < record.len()
        invariant
            i <= record@.len(),
            out@ == record@.take(i as int),
        decreases record@.len() - i,
    {
        out.push(record[i].clone());
        proof {
            assert(record@.take(i + 1) =~= record@.take(i as int).push(record@[i as int]));
        }
        i = i + 1;
    }
    proof {
        assert(record@.take(record@.len() as int) =~= record@);
    }
    out
}

/// The fields of each record.
pub open spec fn rows_view(v: Seq<Vec<String>>) -> Seq<Seq<String>> {
    v.map_values(|r: Vec<String>| r@)
}

/// Query the registry: `stored` holds the records read from the backend's
/// store, or `None` when the store does not exist yet (an empty table).
pub fn registry_query(registry: &Registry, query: &Query, stored: Option<Vec<Vec<String>>>) -> (t: Table)
    ensures
        texts(t.columns@) == registry_columns(),
        rows_view(t.rows@) == match stored {
            Some(records) => query_rows(*registry, *query, rows_view(records@)),
            None => Seq::empty(),
        },
{
    let records = match stored {
        Some(r) => r,
        None => return empty_table(),
    };
    let plan: Option<String> = match registry {
        Registry::Csv(_) => match &query.plan_name {
            Some(p) => Some(p.clone()),
            None => None,
        },
        Registry::Sqlite(_) => None,
    };
    let ghost want = match registry {
        Registry::Csv(_) => query.plan_name,
        Registry::Sqlite(_) => None,
    };
    let mut rows: Vec<Vec<String>> = Vec::new();
    let mut i: usize = 0;
    while i < records.len()
        invariant
            i <= records@.len(),
            plan == want,
            stored == Some(records),
            query_rows(*registry, *query, rows_view(records@)) == scan_records(rows_view(records@), want, query.limit, records@.len() as nat).0,
            scan_records(rows_view(records@), want, query.limit, i as nat) == (rows_view(rows@), false),
        decreases records@.len() - i,
    {
        let keep = match &plan {
            Some(p) => record_is_for(&records[i], p),
            None => true,
        };
        if keep {
            rows.push(copy_record(&records[i]));
            if let Some(limit) = query.limit {
                if rows.len() >= limit {
                    proof {
                        assert(scan_records(rows_view(records@), want, query.limit, (i + 1) as nat) == (rows_view(rows@), true));
                        lemma_scan_stopped(rows_view(records@), want, query.limit, (i + 1) as nat, records@.len());
                    }
                    return Table { columns: table_columns(), rows };
                }
            }
        }
        i = i + 1;
    }
    Table { columns: table_columns(), rows }
}

/// Once a scan has stopped, later records change nothing.
proof fn lemma_scan_stopped(records: Seq<Seq<String>>, plan: Option<String>, limit: Option<usize>, n: nat, m: nat)
    requires
        n <= m,
        scan_records(records, plan, limit, n).1,
    ensures
        scan_records(records, plan, limit, m) == scan_records(records, plan, limit, n),
    decreases m - n,
{
    if n < m {
        lemma_scan_stopped(records, plan, limit, n, (m - 1) as nat);
    }
}

/// Decimal digits of a number, most significant first.
pub open spec fn decimal_chars(n: nat) -> Seq<char>
    decreases n,
{
    if n < 10 {
        seq![(n + 48) as char]
    } else {
        decimal_chars(n / 10).push(((n % 10) + 48) as char)
    }
}

/// The decimal digit `d` as a one-character string.
fn digit_str(d: usize) -> (s: &'static str)
    requires
        d < 10,
    ensures
        s@ == seq![(d + 48) as char],
{
    match d {
        0 => {
            proof {
                reveal_strlit("0");
            }
            "0"
        },
        1 => {
            proof {
                reveal_strlit("1");
            }
            "1"
        },
        2 => {
            proof {
                reveal_strlit("2");
            }
            "2"
        },
        3 => {
            proof {
                reveal_strlit("3");
            }
            "3"
        },
        4 => {
            proof {
                reveal_strlit("4");
            }
            "4"
        },
        5 => {
            proof {
                reveal_strlit("5");
            }
            "5"
        },
        6 => {
            proof {
                reveal_strlit("6");
            }
            "6"
        },
        7 => {
            proof {
                reveal_strlit("7");
            }
            "7"
        },
        8 => {
            proof {
                reveal_strlit("8");
            }
            "8"
        },
        _ => {
            proof {
                reveal_strlit("9");
            }
            "9"
        },
    }
}

/// Appends the decimal digits of `n`, most significant first.
fn append_decimal(s: &mut String, n: usize)
    ensures
        final(s)@ == old(s)@ + decimal_chars(n as nat),
    decreases n,
{
    if n >= 10 {
        append_decimal(s, n / 10);
    }
    s.append(digit_str(n % 10));
    proof {
        if n >= 10 {
            assert(decimal_chars(n as nat) == decimal_chars((n / 10) as nat).push(((n % 10) + 48) as char));
        }
    }
}

/// The SQL that reads a query's rows from the SQLite store: all columns of
/// `runs`, filtered by plan name (bound as `?1`) when the query names a plan,
/// ordered by date, plan name and job id, limited when the query has a limit.
pub open spec fn sqlite_select_text(query: Query) -> Seq<char> {
    "SELECT date, \"commit\", plan_name, plan_hash, job_id, params, metrics FROM runs"@ + (if query.plan_name is Some {
        " WHERE plan_name = ?1"@
    } else {
        Seq::empty()
    }) + " ORDER BY date, plan_name, job_id"@ + match query.limit {
        Some(l) => " LIMIT "@ + decimal_chars(l as nat),
        None => Seq::empty(),
    }
}

/// The SQL statement for a query on the SQLite backend.
pub fn sqlite_select_sql(query: &Query) -> (sql: String)
    ensures
        sql@ == sqlite_select_text(*query),
{
    let mut sql = String::from_str("SELECT date, \"commit\", plan_name, plan_hash, job_id, params, metrics FROM runs");
    if query.plan_name.is_some() {
        sql.append(" WHERE plan_name = ?1");
    }
    sql.append(" ORDER BY date, plan_name, job_id");
    if let Some(limit) = query.limit {
        sql.append(" LIMIT ");
        append_decimal(&mut sql, limit);
    }
    proof {
        assert(sql@ =~= sqlite_select_text(*query));
    }
    sql
}

/// Scheduler configuration controlling sweep execution ordering.
#[derive(Debug, Clone, Copy, PartialEq, Eq)]
pub struct Scheduler {
    pub parallelism: usize,
}

impl Scheduler {
    /// The parallelism used when none is configured: one job at a time.
    pub fn default_parallelism() -> (p: usize)
        ensures
            p == 1,
    {
        1
    }
}

impl Default for Scheduler {
    fn default() -> (s: Scheduler)
        ensures
            s.parallelism == 1,
    {
        Scheduler { parallelism: Scheduler::default_parallelism() }
    }
}

/// Execution mode for ablation plans.
#[derive(Debug, Clone, Copy, PartialEq, Eq)]
pub enum AblationMode {
    /// Exhaustive grid over the provided factor lists.
    Grid,
    /// Latin hypercube sampling across numeric ranges.
    Lhs,
}

/// Supported deterministic gap estimation methods.
#[derive(Debug, Clone, Copy, PartialEq, Eq)]
pub enum GapMethod {
    Dispersion,
    Spectral,
}

/// The seed stride of sweep jobs.
pub const SWEEP_SEED_STRIDE: u64 = 0x9e37_79b1_85eb_ca87;

/// The seed stride of ablation jobs.
pub const ABLATION_SEED_STRIDE: u64 = 0x6a09_e667_f3bc_c908;

/// The seed of job `index` of a run seeded with `seed`: the seed XOR the
/// job's one-based number times the stride, modulo 2^64.
pub open spec fn job_seed_of(seed: u64, index: nat, stride: u64) -> u64 {
    seed ^ (((index + 1) * stride) % 0x1_0000_0000_0000_0000) as u64
}

/// The seed of job `index` of a run seeded with `seed`.
pub fn job_seed(seed: u64, index: usize, stride: u64) -> (s: u64)
    requires
        index < u64::MAX,
    ensures
        s == job_seed_of(seed, index as nat, stride),
{
    seed ^ (index as u64 + 1).wrapping_mul(stride)
}


/// `t` picks a value index below the parameter's value count for every
/// parameter, in order.
pub open spec fn in_grid(t: Seq<u64>, sizes: Seq<u64>) -> bool {
    t.len() == sizes.len() && forall|k: int| 0 <= k < t.len() ==> #[trigger] t[k] < sizes[k]
}

/// `t` starts with `prefix`.
pub open spec fn extends(t: Seq<u64>, prefix: Seq<u64>) -> bool {
    prefix.len() <= t.len() && t.take(prefix.len() as int) == prefix
}

/// Every earlier index tuple comes before every later one in lexicographic order.
pub open spec fn lex_increasing(s: Seq<Seq<u64>>) -> bool {
    forall|i: int, j: int| 0 <= i < j < s.len() ==> lex_lt(#[trigger] s[i], #[trigger] s[j])
}

/// The contents of each index tuple.
pub open spec fn tuple_views(v: Seq<Vec<u64>>) -> Seq<Seq<u64>> {
    v.map_values(|t: Vec<u64>| t@)
}

/// Two tuples that agree up to position `n` and differ there are ordered by
/// that position.
proof fn lemma_lex_at(a: Seq<u64>, b: Seq<u64>, k: int, n: int)
    requires
        0 <= k <= n,
        n < a.len(),
        n < b.len(),
        forall|i: int| k <= i < n ==> a[i] == b[i],
        a[n] < b[n],
    ensures
        lex_lt_from(a, b, k),
    decreases n - k,
{
    if k < n {
        lemma_lex_at(a, b, k + 1, n);
    }
}

/// Appends, in lexicographic order, every index tuple of the grid that
/// starts with `prefix`.
fn expand_grid(sizes: &[u64], prefix: &Vec<u64>, outputs: &mut Vec<Vec<u64>>)
    requires
        prefix@.len() <= sizes@.len(),
        forall|k: int| 0 <= k < prefix@.len() ==> #[trigger] prefix@[k] < sizes@[k],
    ensures
        old(outputs)@.len() <= final(outputs)@.len(),
        final(outputs)@.take(old(outputs)@.len() as int) == old(outputs)@,
        lex_increasing(tuple_views(final(outputs)@.skip(old(outputs)@.len() as int))),
        forall|i: int|
            0 <= i < final(outputs)@.len() - old(outputs)@.len() ==> extends(
                #[trigger] tuple_views(final(outputs)@.skip(old(outputs)@.len() as int))[i],
                prefix@,
            ) && in_grid(tuple_views(final(outputs)@.skip(old(outputs)@.len() as int))[i], sizes@),
        forall|t: Seq<u64>|
            in_grid(t, sizes@) && extends(t, prefix@) ==> #[trigger] tuple_views(
                final(outputs)@.skip(old(outputs)@.len() as int),
            ).contains(t),
    decreases sizes@.len() - prefix@.len(),
{
    let ghost start = outputs@.len() as int;
    let ghost before = outputs@;
    if prefix.len() == sizes.len() {
        outputs.push(copy_raw(prefix));
        proof {
            let added = tuple_views(outputs@.skip(start));
            assert(added =~= seq![prefix@]);
            assert(outputs@.take(start) =~= before);
            assert(prefix@.take(prefix@.len() as int) =~= prefix@);
            assert forall|t: Seq<u64>| in_grid(t, sizes@) && extends(t, prefix@) implies #[trigger] added.contains(t) by {
                assert(t =~= prefix@);
                assert(added[0] == t);
            }
        }
        return;
    }
    let idx = prefix.len();
    let count = sizes[idx];
    let mut v: u64 = 0;
    proof {
        assert(outputs@.skip(start) =~= Seq::<Vec<u64>>::empty());
        assert(outputs@.take(start) =~= before);
    }
    while v < count
        invariant
            idx == prefix@.len(),
            idx < sizes@.len(),
            count == sizes@[idx as int],
            v <= count,
            forall|k: int| 0 <= k < prefix@.len() ==> #[trigger] prefix@[k] < sizes@[k],
            0 <= start <= outputs@.len(),
            outputs@.take(start) == before,
            lex_increasing(tuple_views(outputs@.skip(start))),
            forall|i: int|
                0 <= i < outputs@.len() - start ==> extends(#[trigger] tuple_views(outputs@.skip(start))[i], prefix@)
                    && in_grid(tuple_views(outputs@.skip(start))[i], sizes@) && tuple_views(outputs@.skip(start))[i][idx as int]
                    < v,
            forall|t: Seq<u64>|
                in_grid(t, sizes@) && extends(t, prefix@) && t[idx as int] < v ==> #[trigger] tuple_views(
                    outputs@.skip(start),
                ).contains(t),
        decreases count - v,
    {
        let mut next = copy_raw(prefix);
        next.push(v);
        let ghost mid = outputs@;
        let ghost old_added = tuple_views(mid.skip(start));
        proof {
            assert forall|k: int| 0 <= k < next@.len() implies #[trigger] next@[k] < sizes@[k] by {
                if k < idx {
                    assert(next@[k] == prefix@[k]);
                }
            }
        }
        expand_grid(sizes, &next, outputs);
        proof {
            let mlen = mid.len() as int;
            let block = tuple_views(outputs@.skip(mlen));
            let added = tuple_views(outputs@.skip(start));
            assert(outputs@.take(mlen) == mid);
            assert(old_added.len() == mlen - start);
            assert(added.len() == outputs@.len() - start);
            assert(block.len() == outputs@.len() - mlen);
            assert(added =~= old_added + block) by {
                assert forall|i: int| 0 <= i < added.len() implies added[i] == (old_added + block)[i] by {
                    assert(added[i] == outputs@[start + i]@);
                    if i < old_added.len() {
                        assert(outputs@.take(mlen)[start + i] == mid[start + i]);
                        assert(old_added[i] == mid[start + i]@);
                    } else {
                        assert(block[i - old_added.len()] == outputs@[mlen + (i - old_added.len())]@);
                    }
                }
            }
            assert(outputs@.take(start) =~= before) by {
                assert forall|i: int| 0 <= i < start implies outputs@[i] == before[i] by {
                    assert(outputs@.take(mlen)[i] == mid[i]);
                    assert(mid.take(start)[i] == before[i]);
                }
            }
            assert forall|i: int| 0 <= i < block.len() implies extends(#[trigger] block[i], prefix@) && block[i][idx as int] == v by {
                assert(extends(block[i], next@));
                assert(block[i].take(next@.len() as int) == next@);
                assert(block[i][idx as int] == block[i].take(next@.len() as int)[idx as int]);
                assert(block[i].take(idx as int) =~= next@.take(idx as int));
                assert(next@.take(idx as int) =~= prefix@);
            }
            assert forall|i: int, j: int| 0 <= i < j < added.len() implies lex_lt(#[trigger] added[i], #[trigger] added[j]) by {
                if i < old_added.len() && j >= old_added.len() {
                    let a = added[i];
                    let b = added[j];
                    assert(a == old_added[i]);
                    assert(b == block[j - old_added.len()]);
                    assert(a.take(idx as int) == prefix@ && b.take(idx as int) == prefix@);
                    assert forall|q: int| 0 <= q < idx implies a[q] == b[q] by {
                        assert(a.take(idx as int)[q] == b.take(idx as int)[q]);
                    }
                    lemma_lex_at(a, b, 0, idx as int);
                } else if i < old_added.len() {
                    assert(added[i] == old_added[i] && added[j] == old_added[j]);
                } else {
                    assert(added[i] == block[i - old_added.len()] && added[j] == block[j - old_added.len()]);
                }
            }
            assert forall|i: int| 0 <= i < outputs@.len() - start implies extends(#[trigger] added[i], prefix@)
                && in_grid(added[i], sizes@) && added[i][idx as int] < v + 1 by {
                if i >= old_added.len() {
                    assert(added[i] == block[i - old_added.len()]);
                } else {
                    assert(added[i] == old_added[i]);
                }
            }
            assert forall|t: Seq<u64>| in_grid(t, sizes@) && extends(t, prefix@) && t[idx as int] < v + 1 implies #[trigger] added.contains(t) by {
                if t[idx as int] < v {
                    assert(old_added.contains(t));
                    let k = choose|k: int| 0 <= k < old_added.len() && old_added[k] == t;
                    assert(added[k] == t);
                } else {
                    assert(t.take(next@.len() as int) =~= next@) by {
                        assert forall|q: int| 0 <= q < next@.len() implies t.take(next@.len() as int)[q] == next@[q] by {
                            if q < idx {
                                assert(t.take(idx as int)[q] == prefix@[q]);
                            }
                        }
                    }
                    assert(extends(t, next@));
                    assert(block.contains(t));
                    let k = choose|k: int| 0 <= k < block.len() && block[k] == t;
                    assert(added[old_added.len() + k] == t);
                }
            }
        }
        v = v + 1;
    }
}

/// Every index tuple of a parameter grid, in lexicographic order: one value
/// index per parameter, the first parameter varying slowest. `sizes` gives
/// each parameter's number of values.
pub fn grid_combinations(sizes: &[u64]) -> (out: Vec<Vec<u64>>)
    ensures
        lex_increasing(tuple_views(out@)),
        forall|t: Seq<u64>| #[trigger] tuple_views(out@).contains(t) <==> in_grid(t, sizes@),
{
    let mut out: Vec<Vec<u64>> = Vec::new();
    let prefix: Vec<u64> = Vec::new();
    expand_grid(sizes, &prefix, &mut out);
    proof {
        assert(out@.skip(0) =~= out@);
        assert forall|t: Seq<u64>| #[trigger] tuple_views(out@).contains(t) <==> in_grid(t, sizes@) by {
            assert(prefix@ =~= Seq::<u64>::empty());
            if tuple_views(out@).contains(t) {
                let k = choose|k: int| 0 <= k < tuple_views(out@).len() && tuple_views(out@)[k] == t;
            }
            if in_grid(t, sizes@) {
                assert(t.take(0) =~= Seq::<u64>::empty());
            }
        }
    }
    out
}

} // verus!
