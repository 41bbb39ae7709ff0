//! Ingest decisions: what each source row contributes to the rollup facts,
//! and when it is held back until it settles.
use vstd::prelude::*;
use crate::stats::TokenTotals;
use crate::text::push_char;
use crate::cache::read::is_day_string;
use chrono::{TimeZone, Timelike};

verus! {

/// The local calendar day (`%Y-%m-%d`) and hour of an epoch-millisecond
/// instant, in the machine's time zone; those of the current time when the
/// instant cannot be represented there. The contract states the day's shape
/// and that the hour is one of 0 to 23, as chrono documents `hour`; which day
/// and hour depends on the time zone and is left unsaid.
#[verifier::external_body]
fn local_day_hour(ms: i64) -> (r: (String, u8))
    ensures
        is_day_string(r.0@),
        r.1 < 24,
{
    let dt = chrono::Local.timestamp_millis_opt(ms).single().unwrap_or_else(chrono::Local::now);
    (dt.format("%Y-%m-%d").to_string(), dt.hour() as u8)
}

/// `day` and `hour` are what `local_day_hour` can give for the instant `ms`.
pub closed spec fn local_day_hour_of(ms: i64, day: String, hour: u8) -> bool {
    call_ensures(local_day_hour, (ms,), (day, hour))
}

/// The decimal text of a number below 100.
pub open spec fn digit(d: int) -> char {
    if d == 0 {
        '0'
    } else if d == 1 {
        '1'
    } else if d == 2 {
        '2'
    } else if d == 3 {
        '3'
    } else if d == 4 {
        '4'
    } else if d == 5 {
        '5'
    } else if d == 6 {
        '6'
    } else if d == 7 {
        '7'
    } else if d == 8 {
        '8'
    } else {
        '9'
    }
}

pub open spec fn decimal_text(n: int) -> Seq<char> {
    if n < 10 {
        seq![digit(n)]
    } else {
        seq![digit(n / 10), digit(n % 10)]
    }
}

fn digit_char(d: u8) -> (c: char)
    requires
        d < 10,
    ensures
        c == digit(d as int),
{
    if d == 0 {
        '0'
    } else if d == 1 {
        '1'
    } else if d == 2 {
        '2'
    } else if d == 3 {
        '3'
    } else if d == 4 {
        '4'
    } else if d == 5 {
        '5'
    } else if d == 6 {
        '6'
    } else if d == 7 {
        '7'
    } else if d == 8 {
        '8'
    } else {
        '9'
    }
}

fn hour_text(h: u8) -> (t: String)
    requires
        h < 24,
    ensures
        t@ == decimal_text(h as int),
{
    let mut t = String::new();
    if h >= 10 {
        push_char(&mut t, digit_char(h / 10));
    }
    push_char(&mut t, digit_char(h % 10));
    proof {
        if h >= 10 {
            assert(t@ =~= seq![digit((h / 10) as int), digit((h % 10) as int)]);
        } else {
            assert(t@ =~= seq![digit(h as int)]);
        }
    }
    t
}

/// Where a row's counts are kept: its local day and hour, and the count keys
/// of the batch built from them, (day, project) for prompts and (day, hour,
/// project) for active hours, the hour in decimal.
pub struct RowKeys {
    pub day: String,
    pub hour: u8,
    pub prompt: Vec<String>,
    pub hourly: Vec<String>,
}

/// The day, hour and count keys of a row created at `ms` in `project`.
pub fn row_keys(ms: i64, project: &str) -> (r: RowKeys)
    ensures
        local_day_hour_of(ms, r.day, r.hour),
        is_day_string(r.day@),
        r.hour < 24,
        crate::sources::path_names(r.prompt@) == seq![r.day@, project@],
        crate::sources::path_names(r.hourly@) == seq![r.day@, decimal_text(r.hour as int), project@],
{
    let (day, hour) = local_day_hour(ms);
    let prompt = vec![day.clone(), project.to_owned()];
    let hourly = vec![day.clone(), hour_text(hour), project.to_owned()];
    proof {
        assert(crate::sources::path_names(prompt@) =~= seq![day@, project@]);
        assert(crate::sources::path_names(hourly@) =~= seq![day@, decimal_text(hour as int), project@]);
    }
    RowKeys { day, hour, prompt, hourly }
}

/// The count key of an event of `kind` on `day` in `project`.
pub fn event_key(day: &str, kind: &str, project: &str) -> (k: Vec<String>)
    ensures
        crate::sources::path_names(k@) == seq![day@, kind@, project@],
{
    let k = vec![day.to_owned(), kind.to_owned(), project.to_owned()];
    proof {
        assert(crate::sources::path_names(k@) =~= seq![day@, kind@, project@]);
    }
    k
}

/// A message or tool call still in flight after this long is ingested as it
/// stands rather than waited on any further.
pub const PENDING_MAX_AGE_MS: i64 = 86_400_000;

/// The project a session is attributed to: its own project, or, for sessions
/// in the shared `global` project, a synthetic per-directory project.
pub open spec fn session_project_of(project_id: Seq<char>, directory: Seq<char>) -> Seq<char> {
    if project_id == "global"@ {
        "dir:"@ + directory
    } else {
        project_id
    }
}

pub fn session_project(project_id: &str, directory: &str) -> (r: String)
    ensures
        r@ == session_project_of(project_id@, directory@),
{
    let id = project_id.to_owned();
    let global = "global".to_owned();
    if id == global {
        let mut r = "dir:".to_owned();
        r.append(directory);
        r
    } else {
        id
    }
}

/// Sessions by project, as `(session id, project)` pairs built from the
/// source's session rows `(id, project id, directory)`, together with the
/// distinct directories of `global` sessions in first-seen order.
pub struct ProjectAssignment {
    pub sessions: Vec<(String, String)>,
    pub directories: Vec<String>,
}

pub open spec fn pair_view(p: (String, String)) -> (Seq<char>, Seq<char>) {
    (p.0@, p.1@)
}

pub open spec fn row_view(r: (String, String, String)) -> (Seq<char>, Seq<char>, Seq<char>) {
    (r.0@, r.1@, r.2@)
}

/// Distinct `global` directories among the first `n` rows, first-seen order.
pub open spec fn global_dirs(rows: Seq<(Seq<char>, Seq<char>, Seq<char>)>, n: int) -> Seq<Seq<char>>
    decreases n,
{
    if n <= 0 {
        Seq::empty()
    } else {
        let prev = global_dirs(rows, n - 1);
        let r = rows[n - 1];
        if r.1 == "global"@ && !prev.contains(r.2) {
            prev.push(r.2)
        } else {
            prev
        }
    }
}

/// Assigns every session row its project.
pub fn assign_projects(rows: &Vec<(String, String, String)>) -> (r: ProjectAssignment)
    ensures
        r.sessions@.len() == rows@.len(),
        forall|i: int|
            0 <= i < rows@.len() ==> #[trigger] pair_view(r.sessions@[i]) == (
                rows@[i].0@,
                session_project_of(rows@[i].1@, rows@[i].2@),
            ),
        crate::sources::path_names(r.directories@) == global_dirs(
            rows@.map_values(|x: (String, String, String)| row_view(x)),
            rows@.len() as int,
        ),
{
    let ghost v = rows@.map_values(|x: (String, String, String)| row_view(x));
    let mut sessions: Vec<(String, String)> = Vec::new();
    let mut directories: Vec<String> = Vec::new();
    let global = "global".to_owned();
    let n: usize = rows.len();
    for i in 0..n
        invariant
            n == rows.len(),
            v == rows@.map_values(|x: (String, String, String)| row_view(x)),
            global@ == "global"@,
            sessions@.len() == i,
            forall|j: int|
                0 <= j < i ==> #[trigger] pair_view(sessions@[j]) == (
                    rows@[j].0@,
                    session_project_of(rows@[j].1@, rows@[j].2@),
                ),
            crate::sources::path_names(directories@) == global_dirs(v, i as int),
    {
        let row = &rows[i];
        proof {
            assert(v[i as int] == row_view(rows@[i as int]));
        }
        if row.1 == global {
            let mut seen = false;
            let mut k: usize = 0;
            while k < directories.len()
                invariant
                    0 <= k <= directories.len(),
                    seen == exists|j: int| 0 <= j < k && directories@[j]@ == row.2@,
                decreases directories.len() - k,
            {
                if directories[k] == row.2 {
                    seen = true;
                }
                k = k + 1;
            }
            proof {
                let names = crate::sources::path_names(directories@);
                if seen {
                    let j = choose|j: int| 0 <= j < directories@.len() && directories@[j]@ == row.2@;
                    assert(names[j] == row.2@);
                } else {
                    assert forall|j: int| 0 <= j < names.len() implies names[j] != row.2@ by {
                        assert(names[j] == directories@[j]@);
                    }
                }
            }
            if !seen {
                let ghost before = directories@;
                directories.push(row.2.clone());
                proof {
                    assert(crate::sources::path_names(directories@) =~= crate::sources::path_names(
                        before,
                    ).push(row.2@));
                }
            }
        }
        let ghost before = sessions@;
        sessions.push((row.0.clone(), session_project(row.1.as_str(), row.2.as_str())));
        proof {
            assert forall|j: int| 0 <= j < i + 1 implies #[trigger] pair_view(sessions@[j]) == (
                rows@[j].0@,
                session_project_of(rows@[j].1@, rows@[j].2@),
            ) by {
                if j < i {
                    assert(sessions@[j] == before[j]);
                }
            }
        }
    }
    ProjectAssignment { sessions, directories }
}

/// The project of a session, given what looking it up among the assigned
/// sessions found; sessions the source does not list count as `unknown`.
pub fn project_of(found: Option<&String>) -> (r: String)
    ensures
        r@ == (match found {
            Some(p) => p@,
            None => "unknown"@,
        }),
{
    match found {
        Some(p) => p.clone(),
        None => "unknown".to_owned(),
    }
}

/// A pending row found again in the source, by value: its id, and whether it
/// has settled and been ingested.
pub open spec fn found_view(f: (String, bool)) -> (Seq<char>, bool) {
    (f.0@, f.1)
}

/// The ids of the found rows that settled, in the order they were found.
pub open spec fn settled_ids(found: Seq<(Seq<char>, bool)>) -> Seq<Seq<char>>
    decreases found.len(),
{
    if found.len() == 0 {
        Seq::empty()
    } else {
        let prev = settled_ids(found.drop_last());
        if found.last().1 {
            prev.push(found.last().0)
        } else {
            prev
        }
    }
}

/// The ids of `ids` that the source no longer has, in order.
pub open spec fn missing_ids(ids: Seq<Seq<char>>, found: Seq<(Seq<char>, bool)>) -> Seq<Seq<char>>
    decreases ids.len(),
{
    if ids.len() == 0 {
        Seq::empty()
    } else {
        let prev = missing_ids(ids.drop_last(), found);
        if found.map_values(|f: (Seq<char>, bool)| f.0).contains(ids.last()) {
            prev
        } else {
            prev.push(ids.last())
        }
    }
}

/// The pending ids to clear after re-reading a chunk of them: those whose
/// rows have now settled, then those whose rows are gone from the source.
pub open spec fn cleared_ids(ids: Seq<Seq<char>>, found: Seq<(Seq<char>, bool)>) -> Seq<Seq<char>> {
    settled_ids(found) + missing_ids(ids, found)
}

proof fn lemma_settled_ids_contains(found: Seq<(Seq<char>, bool)>, x: Seq<char>)
    ensures
        settled_ids(found).contains(x) <==> found.contains((x, true)),
    decreases found.len(),
{
    if found.len() > 0 {
        let p = found.drop_last();
        lemma_settled_ids_contains(p, x);
        assert(found =~= p.push(found.last()));
        if p.contains((x, true)) {
            let i = choose|i: int| 0 <= i < p.len() && p[i] == (x, true);
            assert(found[i] == (x, true));
        }
        if found.contains((x, true)) {
            let i = choose|i: int| 0 <= i < found.len() && found[i] == (x, true);
            if i < p.len() {
                assert(p[i] == (x, true));
            }
        }
        if settled_ids(found).contains(x) && found.last().1 && !settled_ids(p).contains(x) {
            let j = choose|j: int| 0 <= j < settled_ids(found).len() && settled_ids(found)[j] == x;
            if j < settled_ids(p).len() {
                assert(settled_ids(p)[j] == x);
            }
        }
        if found.last().1 && found.last().0 == x {
            assert(settled_ids(found)[settled_ids(p).len() as int] == x);
        }
        if settled_ids(p).contains(x) {
            let j = choose|j: int| 0 <= j < settled_ids(p).len() && settled_ids(p)[j] == x;
            if found.last().1 {
                assert(settled_ids(found)[j] == x);
            }
        }
    }
}

proof fn lemma_missing_ids_contains(ids: Seq<Seq<char>>, found: Seq<(Seq<char>, bool)>, x: Seq<char>)
    ensures
        missing_ids(ids, found).contains(x) <==> ids.contains(x) && !found.map_values(
            |f: (Seq<char>, bool)| f.0,
        ).contains(x),
    decreases ids.len(),
{
    let fids = found.map_values(|f: (Seq<char>, bool)| f.0);
    if ids.len() > 0 {
        let p = ids.drop_last();
        lemma_missing_ids_contains(p, found, x);
        let m = missing_ids(ids, found);
        let mp = missing_ids(p, found);
        if ids.contains(x) && !fids.contains(x) {
            let i = choose|i: int| 0 <= i < ids.len() && ids[i] == x;
            if i < p.len() {
                assert(p[i] == x);
                let j = choose|j: int| 0 <= j < mp.len() && mp[j] == x;
                if !fids.contains(ids.last()) {
                    assert(m[j] == x);
                }
            } else {
                assert(m[mp.len() as int] == x);
            }
        }
        if m.contains(x) {
            let j = choose|j: int| 0 <= j < m.len() && m[j] == x;
            if j < mp.len() {
                assert(mp[j] == x);
                let i = choose|i: int| 0 <= i < p.len() && p[i] == x;
                assert(ids[i] == x);
            } else {
                assert(ids[ids.len() - 1] == x);
            }
        }
    }
}

/// A pending id of the chunk is cleared exactly when its row was found
/// settled or was not found at all; a row found only in flight stays pending.
pub proof fn law_pending_cleared_exactly(ids: Seq<Seq<char>>, found: Seq<(Seq<char>, bool)>, x: Seq<char>)
    requires
        ids.contains(x),
    ensures
        cleared_ids(ids, found).contains(x) <==> (found.contains((x, true)) || !found.map_values(
            |f: (Seq<char>, bool)| f.0,
        ).contains(x)),
{
    lemma_settled_ids_contains(found, x);
    lemma_missing_ids_contains(ids, found, x);
    let a = settled_ids(found);
    let b = missing_ids(ids, found);
    if a.contains(x) {
        let j = choose|j: int| 0 <= j < a.len() && a[j] == x;
        assert((a + b)[j] == x);
    }
    if b.contains(x) {
        let j = choose|j: int| 0 <= j < b.len() && b[j] == x;
        assert((a + b)[a.len() + j] == x);
    }
    if (a + b).contains(x) {
        let j = choose|j: int| 0 <= j < (a + b).len() && (a + b)[j] == x;
        if j < a.len() {
            assert(a[j] == x);
        } else {
            assert(b[j - a.len()] == x);
        }
    }
}

/// Which pending ids of `chunk` to clear, given the rows re-read for it as
/// (id, settled) in the order they came back. A row still in flight stays
/// pending; a row that settled, or that the source no longer has, is cleared.
pub fn pending_cleared(chunk: &Vec<String>, found: &Vec<(String, bool)>) -> (r: Vec<String>)
    ensures
        crate::sources::path_names(r@) == cleared_ids(
            crate::sources::path_names(chunk@),
            found@.map_values(|f: (String, bool)| found_view(f)),
        ),
{
    let ghost fv = found@.map_values(|f: (String, bool)| found_view(f));
    let ghost fids = fv.map_values(|f: (Seq<char>, bool)| f.0);
    let ghost cv = crate::sources::path_names(chunk@);
    let mut out: Vec<String> = Vec::new();
    let mut i: usize = 0;
    while i < found.len()
        invariant
            0 <= i <= found.len(),
            fv == found@.map_values(|f: (String, bool)| found_view(f)),
            crate::sources::path_names(out@) == settled_ids(fv.take(i as int)),
        decreases found.len() - i,
    {
        proof {
            assert(fv.take(i + 1).drop_last() =~= fv.take(i as int));
            assert(fv.take(i + 1).last() == found_view(found@[i as int]));
        }
        if found[i].1 {
            let ghost before = out@;
            out.push(found[i].0.clone());
            proof {
                assert(crate::sources::path_names(out@) =~= crate::sources::path_names(before).push(
                    found@[i as int].0@,
                ));
            }
        }
        i = i + 1;
    }
    proof {
        assert(fv.take(found.len() as int) =~= fv);
    }
    let ghost settled = out@;
    let mut k: usize = 0;
    while k < chunk.len()
        invariant
            0 <= k <= chunk.len(),
            fv == found@.map_values(|f: (String, bool)| found_view(f)),
            fids == fv.map_values(|f: (Seq<char>, bool)| f.0),
            cv == crate::sources::path_names(chunk@),
            crate::sources::path_names(settled) == settled_ids(fv),
            crate::sources::path_names(out@) == settled_ids(fv) + missing_ids(cv.take(k as int), fv),
        decreases chunk.len() - k,
    {
        let mut seen = false;
        let mut j: usize = 0;
        while j < found.len()
            invariant
                0 <= j <= found.len(),
                k < chunk.len(),
                fv == found@.map_values(|f: (String, bool)| found_view(f)),
                fids == fv.map_values(|f: (Seq<char>, bool)| f.0),
                seen == fids.take(j as int).contains(chunk@[k as int]@),
            decreases found.len() - j,
        {
            proof {
                assert(fids.take(j + 1) =~= fids.take(j as int).push(found@[j as int].0@));
            }
            if found[j].0 == chunk[k] {
                seen = true;
            }
            proof {
                if seen {
                    if !fids.take(j as int).contains(chunk@[k as int]@) {
                        assert(fids.take(j + 1)[j as int] == chunk@[k as int]@);
                    } else {
                        let w = choose|w: int| 0 <= w < j && #[trigger] fids.take(j as int)[w] == chunk@[k as int]@;
                        assert(fids.take(j + 1)[w] == chunk@[k as int]@);
                    }
                } else {
                    assert forall|w: int| 0 <= w < j + 1 implies #[trigger] fids.take(j + 1)[w] != chunk@[k as int]@ by {
                        if w < j {
                            assert(fids.take(j + 1)[w] == fids.take(j as int)[w]);
                        }
                    }
                }
            }
            j = j + 1;
        }
        proof {
            assert(fids.take(found.len() as int) =~= fids);
            assert(cv.take(k + 1).drop_last() =~= cv.take(k as int));
            assert(cv.take(k + 1).last() == chunk@[k as int]@);
        }
        if !seen {
            let ghost before = out@;
            out.push(chunk[k].clone());
            proof {
                assert(crate::sources::path_names(out@) =~= crate::sources::path_names(before).push(
                    chunk@[k as int]@,
                ));
            }
        }
        k = k + 1;
    }
    proof {
        assert(cv.take(chunk.len() as int) =~= cv);
    }
    out
}

/// Where an incremental scan of a source table stands: the id of the last
/// row read (ids grow with time, so only rows past it are new) and how many
/// rows have been read up to it.
#[derive(Debug)]
pub struct ScanCursor {
    pub watermark: String,
    pub scanned: i64,
}

/// What the scan does next: read the rows past `after`, or stop.
#[derive(Debug)]
pub enum ScanNext {
    Read { after: String },
    Done,
}

/// One step of the incremental scan, after a batch of `batch_len` rows past
/// the watermark has been read and ingested, `last_id` being the id of its
/// last row. An interrupted scan or an empty batch leaves the cursor as it
/// was and stops; otherwise the watermark moves to the last id read, the
/// count grows by the batch, and the scan goes on past it unless the batch
/// came back short.
pub fn scan_step(
    cur: &ScanCursor,
    interrupted: bool,
    batch_len: usize,
    last_id: Option<String>,
    batch_size: usize,
) -> (r: (ScanCursor, ScanNext))
    requires
        batch_len > 0 ==> last_id is Some,
        cur.scanned + batch_len <= i64::MAX,
    ensures
        (interrupted || batch_len == 0) ==> r.0 == *cur && r.1 is Done,
        !interrupted && batch_len > 0 ==> {
            &&& r.0.watermark@ == last_id->0@
            &&& r.0.scanned == cur.scanned + batch_len
            &&& (r.1 is Done <==> batch_len < batch_size)
            &&& (r.1 matches ScanNext::Read { after } ==> after@ == last_id->0@)
        },
{
    if interrupted || batch_len == 0 {
        return (ScanCursor { watermark: cur.watermark.clone(), scanned: cur.scanned }, ScanNext::Done);
    }
    let last = match last_id {
        Some(id) => id,
        None => cur.watermark.clone(),
    };
    let wide: i128 = cur.scanned as i128 + batch_len as i128;
    let scanned: i64 = wide as i64;
    let next = if batch_len < batch_size {
        ScanNext::Done
    } else {
        ScanNext::Read { after: last.clone() }
    };
    (ScanCursor { watermark: last, scanned }, next)
}

/// Whether a source still holds every row counted up to the watermark: the
/// scan has not started, or the rows with ids up to the watermark number
/// exactly as many as were scanned. When rows were deleted upstream the
/// counts differ and the source is rebuilt.
pub fn sentinel_ok(watermark: &str, scanned: i64, count_upto_watermark: i64) -> (ok: bool)
    ensures
        ok == (watermark@.len() == 0 || count_upto_watermark == scanned),
{
    watermark.unicode_len() == 0 || count_upto_watermark == scanned
}

/// A count key by value: its parts, such as (day, project).
pub type CountKey = Seq<Seq<char>>;

/// Keyed counts by value.
pub open spec fn counts_view(entries: Seq<(Vec<String>, i64)>) -> Seq<(CountKey, i64)> {
    entries.map_values(|e: (Vec<String>, i64)| (crate::sources::path_names(e.0@), e.1))
}

/// No key is listed twice.
pub open spec fn distinct_keys(v: Seq<(CountKey, i64)>) -> bool {
    forall|i: int, j: int| 0 <= i < j < v.len() ==> (#[trigger] v[i]).0 != (#[trigger] v[j]).0
}

/// The count held under `key`: the sum of its entries.
pub open spec fn count_for(v: Seq<(CountKey, i64)>, key: CountKey) -> int
    decreases v.len(),
{
    if v.len() == 0 {
        0
    } else {
        count_for(v.drop_last(), key) + if v.last().0 == key {
            v.last().1 as int
        } else {
            0
        }
    }
}

/// The entries after counting `n` more under `key`: added to the entry of
/// that key, or appended as a new entry when there is none.
pub open spec fn counted(v: Seq<(CountKey, i64)>, key: CountKey, n: i64) -> Seq<(CountKey, i64)> {
    if exists|i: int| 0 <= i < v.len() && (#[trigger] v[i]).0 == key {
        let i = choose|i: int| 0 <= i < v.len() && (#[trigger] v[i]).0 == key;
        v.update(i, (key, (v[i].1 + n) as i64))
    } else {
        v.push((key, n))
    }
}

/// The counts after one row under each key of `keys`, in order.
pub open spec fn counts_of_rows(keys: Seq<CountKey>) -> Seq<(CountKey, i64)>
    decreases keys.len(),
{
    if keys.len() == 0 {
        Seq::empty()
    } else {
        counted(counts_of_rows(keys.drop_last()), keys.last(), 1)
    }
}

/// How many of `keys` equal `key`.
pub open spec fn occurrences(keys: Seq<CountKey>, key: CountKey) -> int
    decreases keys.len(),
{
    if keys.len() == 0 {
        0
    } else {
        occurrences(keys.drop_last(), key) + if keys.last() == key {
            1int
        } else {
            0
        }
    }
}

proof fn lemma_count_for_update(v: Seq<(CountKey, i64)>, i: int, x: i64, k: CountKey)
    requires
        0 <= i < v.len(),
    ensures
        count_for(v.update(i, (v[i].0, x)), k) == count_for(v, k) + if v[i].0 == k {
            x - v[i].1
        } else {
            0
        },
    decreases v.len(),
{
    let u = v.update(i, (v[i].0, x));
    if i == v.len() - 1 {
        assert(u.drop_last() =~= v.drop_last());
    } else {
        assert(u.drop_last() =~= v.drop_last().update(i, (v[i].0, x)));
        lemma_count_for_update(v.drop_last(), i, x, k);
    }
}

proof fn lemma_count_for_absent(v: Seq<(CountKey, i64)>, k: CountKey)
    requires
        forall|i: int| 0 <= i < v.len() ==> (#[trigger] v[i]).0 != k,
    ensures
        count_for(v, k) == 0,
    decreases v.len(),
{
    if v.len() > 0 {
        lemma_count_for_absent(v.drop_last(), k);
    }
}

proof fn lemma_count_for_unique(v: Seq<(CountKey, i64)>, i: int)
    requires
        distinct_keys(v),
        0 <= i < v.len(),
    ensures
        count_for(v, v[i].0) == v[i].1,
    decreases v.len(),
{
    let k = v[i].0;
    if i == v.len() - 1 {
        assert forall|j: int| 0 <= j < v.drop_last().len() implies (#[trigger] v.drop_last()[j]).0 != k by {
            assert(v[j].0 != v[i].0);
        }
        lemma_count_for_absent(v.drop_last(), k);
    } else {
        assert(v[v.len() - 1].0 != v[i].0);
        lemma_count_for_unique(v.drop_last(), i);
    }
}

/// Counting under a key adds to that key's count alone, and keeps keys
/// distinct.
proof fn lemma_counted(v: Seq<(CountKey, i64)>, key: CountKey, n: i64, k: CountKey)
    requires
        distinct_keys(v),
        i64::MIN <= count_for(v, key) + n <= i64::MAX,
    ensures
        distinct_keys(counted(v, key, n)),
        count_for(counted(v, key, n), k) == count_for(v, k) + if k == key {
            n as int
        } else {
            0
        },
{
    if exists|i: int| 0 <= i < v.len() && (#[trigger] v[i]).0 == key {
        let i = choose|i: int| 0 <= i < v.len() && (#[trigger] v[i]).0 == key;
        lemma_count_for_unique(v, i);
        lemma_count_for_update(v, i, (v[i].1 + n) as i64, k);
        let u = counted(v, key, n);
        assert(u == v.update(i, (v[i].0, (v[i].1 + n) as i64)));
        assert forall|a: int, b: int| 0 <= a < b < u.len() implies (#[trigger] u[a]).0 != (
        #[trigger] u[b]).0 by {
            assert(u[a].0 == v[a].0 && u[b].0 == v[b].0);
        }
    } else {
        let u = counted(v, key, n);
        assert(u.drop_last() =~= v);
        assert forall|a: int, b: int| 0 <= a < b < u.len() implies (#[trigger] u[a]).0 != (
        #[trigger] u[b]).0 by {
            if b == v.len() {
                assert(u[a] == v[a]);
            } else {
                assert(u[a] == v[a] && u[b] == v[b]);
            }
        }
    }
}

/// Each row is counted once, under its own key: after one count per row,
/// every key holds the number of rows that carry it.
pub proof fn law_each_row_counted_once(keys: Seq<CountKey>, k: CountKey)
    requires
        keys.len() <= i64::MAX,
    ensures
        count_for(counts_of_rows(keys), k) == occurrences(keys, k),
        distinct_keys(counts_of_rows(keys)),
    decreases keys.len(),
{
    if keys.len() > 0 {
        let p = keys.drop_last();
        law_each_row_counted_once(p, k);
        law_each_row_counted_once(p, keys.last());
        lemma_occurrences_bound(p, keys.last());
        lemma_counted(counts_of_rows(p), keys.last(), 1, k);
    }
}

proof fn lemma_occurrences_bound(keys: Seq<CountKey>, k: CountKey)
    ensures
        0 <= occurrences(keys, k) <= keys.len(),
    decreases keys.len(),
{
    if keys.len() > 0 {
        lemma_occurrences_bound(keys.drop_last(), k);
    }
}

fn same_key(a: &Vec<String>, b: &Vec<String>) -> (r: bool)
    ensures
        r == (crate::sources::path_names(a@) == crate::sources::path_names(b@)),
{
    if a.len() != b.len() {
        proof {
            assert(crate::sources::path_names(a@).len() != crate::sources::path_names(b@).len());
        }
        return false;
    }
    let n: usize = a.len();
    let mut i: usize = 0;
    while i < n
        invariant
            n == a.len(),
            n == b.len(),
            0 <= i <= n,
            forall|j: int| 0 <= j < i ==> a@[j]@ == b@[j]@,
        decreases n - i,
    {
        if !(a[i] == b[i]) {
            proof {
                assert(crate::sources::path_names(a@)[i as int] != crate::sources::path_names(b@)[i as int]);
            }
            return false;
        }
        i = i + 1;
    }
    proof {
        assert(crate::sources::path_names(a@) =~= crate::sources::path_names(b@));
    }
    true
}

/// Counts held under keys made of several parts, such as (day, project): the
/// batch totals of prompts, active hours and events before they are written.
#[derive(Debug)]
pub struct KeyedCounts {
    pub entries: Vec<(Vec<String>, i64)>,
}

impl KeyedCounts {
    /// The counts by value.
    pub open spec fn counts(&self) -> Seq<(CountKey, i64)> {
        counts_view(self.entries@)
    }

    /// No key is held twice.
    pub open spec fn well_formed(&self) -> bool {
        distinct_keys(self.counts())
    }

    pub fn new() -> (c: Self)
        ensures
            c.well_formed(),
            c.counts() == Seq::<(CountKey, i64)>::empty(),
    {
        let c = KeyedCounts { entries: Vec::new() };
        proof {
            assert(c.counts() =~= Seq::<(CountKey, i64)>::empty());
        }
        c
    }

    /// Counts `n` more under `key`.
    pub fn add(&mut self, key: Vec<String>, n: i64)
        requires
            old(self).well_formed(),
            i64::MIN <= count_for(old(self).counts(), crate::sources::path_names(key@)) + n
                <= i64::MAX,
        ensures
            final(self).well_formed(),
            final(self).counts() == counted(old(self).counts(), crate::sources::path_names(key@), n),
            forall|k: CountKey|
                #[trigger] count_for(final(self).counts(), k) == count_for(old(self).counts(), k)
                    + if k == crate::sources::path_names(key@) {
                    n as int
                } else {
                    0
                },
    {
        let ghost kv = crate::sources::path_names(key@);
        let ghost v = self.counts();
        proof {
            assert forall|k: CountKey| #[trigger] count_for(counted(v, kv, n), k) == count_for(v, k)
                + if k == kv {
                n as int
            } else {
                0
            } by {
                lemma_counted(v, kv, n, k);
            }
            lemma_counted(v, kv, n, kv);
        }
        let len: usize = self.entries.len();
        let mut i: usize = 0;
        while i < len
            invariant
                len == self.entries.len(),
                v == old(self).counts(),
                v == self.counts(),
                v == counts_view(self.entries@),
                kv == crate::sources::path_names(key@),
                0 <= i <= len,
                forall|j: int| 0 <= j < i ==> (#[trigger] v[j]).0 != kv,
                distinct_keys(v),
                distinct_keys(counted(v, kv, n)),
                i64::MIN <= count_for(v, kv) + n <= i64::MAX,
                forall|k: CountKey| #[trigger] count_for(counted(v, kv, n), k) == count_for(v, k)
                    + if k == kv {
                    n as int
                } else {
                    0
                },
            decreases len - i,
        {
            proof {
                assert(v[i as int].0 == crate::sources::path_names(self.entries@[i as int].0@));
            }
            if same_key(&self.entries[i].0, &key) {
                proof {
                    assert(distinct_keys(v));
                    lemma_count_for_unique(v, i as int);
                    assert(exists|j: int| 0 <= j < v.len() && (#[trigger] v[j]).0 == kv) by {
                        assert(v[i as int].0 == kv);
                    }
                    let c = choose|j: int| 0 <= j < v.len() && (#[trigger] v[j]).0 == kv;
                    if c != i {
                        if c < i {
                            assert(v[c].0 != v[i as int].0);
                        } else {
                            assert(v[i as int].0 != v[c].0);
                        }
                    }
                    assert(c == i);
                }
                let value: i64 = self.entries[i].1 + n;
                self.entries.set(i, (key, value));
                proof {
                    assert(self.counts() =~= v.update(i as int, (kv, value)));
                    assert(self.counts() == counted(v, kv, n));
                }
                return;
            }
            i = i + 1;
        }
        proof {
            lemma_count_for_absent(v, kv);
        }
        self.entries.push((key, n));
        proof {
            assert(self.counts() =~= v.push((kv, n)));
        }
    }
}

/// What a message row contributes.
pub enum MessageEffect {
    /// A user message: one prompt for its day and project.
    Prompt,
    /// Neither a user nor an assistant message: nothing to record.
    Ignored,
    /// An assistant message still in flight: held back as pending.
    Deferred,
    /// A settled assistant message: aggregated into the message facts, counted
    /// in its hour, with an error event named `error_event` when it failed, and
    /// an output-rate sample over `rate_duration_ms` when it qualifies.
    Counted { error_event: Option<String>, rate_duration_ms: Option<i64> },
}

/// Whether a settled assistant message yields an output-rate sample: it
/// completed, produced at least 100 output tokens, did not stop to call tools,
/// and took a positive time.
pub open spec fn rate_duration_of(
    time_created: i64,
    completed: Option<i64>,
    output_tokens: i64,
    finish: Seq<char>,
) -> Option<i64> {
    match completed {
        Some(c) => {
            let d = c - time_created;
            if output_tokens >= 100 && finish != "tool-calls"@ && d > 0 {
                Some(d as i64)
            } else {
                None
            }
        },
        None => None,
    }
}

/// Output-rate samples: a reply that completed after a positive time with at
/// least 100 output tokens gives a sample of exactly its duration, whatever
/// its finish reason, unless it stopped to call tools; nothing else gives one.
pub proof fn law_rate_sample_of_timed_replies(
    time_created: i64,
    completed: Option<i64>,
    output_tokens: i64,
    finish: Seq<char>,
    other_finish: Seq<char>,
)
    requires
        completed matches Some(c) ==> i64::MIN <= c - time_created <= i64::MAX,
    ensures
        (completed is Some && output_tokens >= 100 && finish != "tool-calls"@ && completed->0
            - time_created > 0) ==> rate_duration_of(time_created, completed, output_tokens, finish)
            == Some((completed->0 - time_created) as i64),
        rate_duration_of(time_created, completed, output_tokens, finish) matches Some(d) ==> (
        completed is Some && d == completed->0 - time_created && d > 0 && output_tokens >= 100),
        finish == "tool-calls"@ ==> rate_duration_of(time_created, completed, output_tokens, finish)
            is None,
        finish != "tool-calls"@ && other_finish != "tool-calls"@ ==> rate_duration_of(
            time_created,
            completed,
            output_tokens,
            finish,
        ) == rate_duration_of(time_created, completed, output_tokens, other_finish),
{
}

/// Decides what a message row contributes. `force` ingests in-flight messages
/// as they stand.
pub fn message_effect(
    role: &str,
    time_created: i64,
    completed: Option<i64>,
    error_name: Option<&str>,
    output_tokens: i64,
    finish: &str,
    force: bool,
    now: i64,
) -> (r: MessageEffect)
    requires
        role@ == "assistant"@ ==> i64::MIN <= now - time_created <= i64::MAX,
        role@ == "assistant"@ ==> (completed matches Some(c) ==> i64::MIN <= c - time_created
            <= i64::MAX),
    ensures
        role@ == "user"@ ==> r is Prompt,
        role@ != "user"@ && role@ != "assistant"@ ==> r is Ignored,
        role@ == "assistant"@ ==> {
            let settled = completed is Some || error_name is Some || now - time_created
                > PENDING_MAX_AGE_MS || force;
            &&& (r is Deferred <==> !settled)
            &&& settled ==> r is Counted
        },
        r matches MessageEffect::Counted { error_event, rate_duration_ms } ==> {
            &&& (match error_name {
                Some(n) => error_event matches Some(e) && e@ == "error:"@ + n@,
                None => error_event is None,
            })
            &&& rate_duration_ms == rate_duration_of(time_created, completed, output_tokens, finish@)
            &&& rate_duration_ms == (if completed is Some && output_tokens >= 100 && finish@
                != "tool-calls"@ && completed->0 - time_created > 0 {
                Some((completed->0 - time_created) as i64)
            } else {
                None
            })
        },
{
    proof {
        reveal_strlit("user");
        reveal_strlit("assistant");
        assert("user"@.len() == 4);
        assert("assistant"@.len() == 9);
        assert("user"@ != "assistant"@);
    }
    let role_s = role.to_owned();
    if role_s == "user".to_owned() {
        return MessageEffect::Prompt;
    }
    if !(role_s == "assistant".to_owned()) {
        return MessageEffect::Ignored;
    }
    let terminal = completed.is_some() || error_name.is_some();
    let aged = now - time_created > PENDING_MAX_AGE_MS;
    if !terminal && !aged && !force {
        return MessageEffect::Deferred;
    }
    let error_event = match error_name {
        Some(name) => {
            let mut e = "error:".to_owned();
            e.append(name);
            Some(e)
        },
        None => None,
    };
    let rate_duration_ms = match completed {
        Some(c) => {
            let d = c - time_created;
            if output_tokens >= 100 && !(finish.to_owned() == "tool-calls".to_owned()) && d > 0 {
                Some(d)
            } else {
                None
            }
        },
        None => None,
    };
    MessageEffect::Counted { error_event, rate_duration_ms }
}

/// What a part row contributes.
pub enum PartEffect {
    /// Not a kind of part the facts record.
    Ignored,
    /// A tool call still running: held back as pending.
    Deferred,
    /// A tool call counted once, as completed or errored, with its duration
    /// when it completed with a sane start and end.
    ToolCall { completed: bool, errored: bool, duration_ms: Option<i64> },
    /// An event of the named kind: a compaction or a retry.
    Event { kind: String },
}

/// The event kind of a compaction part: overflow takes precedence over auto.
pub open spec fn compaction_kind(auto: i64, overflow: i64) -> Seq<char> {
    if overflow != 0 {
        "compaction_overflow"@
    } else if auto != 0 {
        "compaction_auto"@
    } else {
        "compaction_manual"@
    }
}

/// Decides what a part row contributes. `force` ingests running tool calls
/// as they stand.
pub fn part_effect(
    part_type: &str,
    status: &str,
    time_created: i64,
    start: Option<i64>,
    end: Option<i64>,
    auto: i64,
    overflow: i64,
    force: bool,
    now: i64,
) -> (r: PartEffect)
    requires
        part_type@ == "tool"@ ==> i64::MIN <= now - time_created <= i64::MAX,
        part_type@ == "tool"@ && status@ == "completed"@ ==> (start matches Some(s) ==> (
        end matches Some(e) ==> (e >= s ==> i64::MIN <= e - s <= i64::MAX))),
    ensures
        part_type@ == "tool"@ ==> {
            let done = status@ == "completed"@;
            let failed = status@ == "error"@;
            let settled = done || failed || now - time_created > PENDING_MAX_AGE_MS || force;
            &&& (r is Deferred <==> !settled)
            &&& settled ==> (r matches PartEffect::ToolCall { completed, errored, duration_ms }
                && completed == done && errored == failed && duration_ms == (match (start, end) {
                (Some(s), Some(e)) => if done && e >= s {
                    Some((e - s) as i64)
                } else {
                    None
                },
                _ => None,
            }))
        },
        part_type@ == "compaction"@ ==> (r matches PartEffect::Event { kind } && kind@
            == compaction_kind(auto, overflow)),
        part_type@ == "retry"@ ==> (r matches PartEffect::Event { kind } && kind@ == "retry"@),
        part_type@ != "tool"@ && part_type@ != "compaction"@ && part_type@ != "retry"@ ==> r is Ignored,
{
    proof {
        reveal_strlit("tool");
        reveal_strlit("compaction");
        reveal_strlit("retry");
        assert("tool"@.len() == 4 && "compaction"@.len() == 10 && "retry"@.len() == 5);
        assert("tool"@ != "compaction"@ && "tool"@ != "retry"@ && "compaction"@ != "retry"@);
    }
    let t = part_type.to_owned();
    if t == "tool".to_owned() {
        let st = status.to_owned();
        let done = st == "completed".to_owned();
        let failed = st == "error".to_owned();
        let aged = now - time_created > PENDING_MAX_AGE_MS;
        if !done && !failed && !aged && !force {
            return PartEffect::Deferred;
        }
        let duration_ms = match (start, end) {
            (Some(s), Some(e)) => if done && e >= s {
                Some(e - s)
            } else {
                None
            },
            _ => None,
        };
        return PartEffect::ToolCall { completed: done, errored: failed, duration_ms };
    }
    if t == "compaction".to_owned() {
        let kind = if overflow != 0 {
            "compaction_overflow".to_owned()
        } else if auto != 0 {
            "compaction_auto".to_owned()
        } else {
            "compaction_manual".to_owned()
        };
        return PartEffect::Event { kind };
    }
    if t == "retry".to_owned() {
        return PartEffect::Event { kind: "retry".to_owned() };
    }
    PartEffect::Ignored
}

/// The integer part of a message aggregate: the project of its first
/// message, token totals, message count and first and last timestamps.
#[derive(Debug)]
pub struct MessageTally {
    pub project_id: String,
    pub tokens: TokenTotals,
    pub msgs: i64,
    pub min_ts: i64,
    pub max_ts: i64,
}

pub open spec fn tokens_add_fit(a: TokenTotals, b: TokenTotals) -> bool {
    &&& i64::MIN <= a.input + b.input <= i64::MAX
    &&& i64::MIN <= a.output + b.output <= i64::MAX
    &&& i64::MIN <= a.reasoning + b.reasoning <= i64::MAX
    &&& i64::MIN <= a.cache_read + b.cache_read <= i64::MAX
    &&& i64::MIN <= a.cache_write + b.cache_write <= i64::MAX
}

pub open spec fn tokens_sum(a: TokenTotals, b: TokenTotals) -> TokenTotals {
    TokenTotals {
        input: (a.input + b.input) as i64,
        output: (a.output + b.output) as i64,
        reasoning: (a.reasoning + b.reasoning) as i64,
        cache_read: (a.cache_read + b.cache_read) as i64,
        cache_write: (a.cache_write + b.cache_write) as i64,
    }
}

/// A tally's time span is ordered once it holds a message.
pub open spec fn tally_ordered(t: MessageTally) -> bool {
    t.msgs > 0 ==> t.min_ts <= t.max_ts
}

impl MessageTally {
    pub fn new() -> (t: Self)
        ensures
            t.msgs == 0,
            t.project_id@ == Seq::<char>::empty(),
            t.tokens == (TokenTotals { input: 0, output: 0, reasoning: 0, cache_read: 0, cache_write: 0 }),
            t.min_ts == 0,
            t.max_ts == 0,
    {
        MessageTally {
            project_id: String::new(),
            tokens: TokenTotals { input: 0, output: 0, reasoning: 0, cache_read: 0, cache_write: 0 },
            msgs: 0,
            min_ts: 0,
            max_ts: 0,
        }
    }

    /// Adds one settled assistant message. The first message fixes the
    /// project and opens the time span; later ones widen it.
    pub fn absorb(&mut self, project: &str, time_created: i64, tokens: &TokenTotals)
        requires
            old(self).msgs < i64::MAX,
            tokens_add_fit(old(self).tokens, *tokens),
        ensures
            final(self).msgs == old(self).msgs + 1,
            final(self).tokens == tokens_sum(old(self).tokens, *tokens),
            old(self).msgs == 0 ==> final(self).project_id@ == project@ && final(self).min_ts
                == time_created && final(self).max_ts == time_created,
            old(self).msgs != 0 ==> final(self).project_id@ == old(self).project_id@ && final(self).min_ts == (if time_created < old(self).min_ts {
                time_created
            } else {
                old(self).min_ts
            }) && final(self).max_ts == (if time_created > old(self).max_ts {
                time_created
            } else {
                old(self).max_ts
            }),
            tally_ordered(*old(self)) ==> tally_ordered(*final(self)),
    {
        if self.msgs == 0 {
            self.project_id = project.to_owned();
            self.min_ts = time_created;
            self.max_ts = time_created;
        }
        self.tokens = TokenTotals {
            input: self.tokens.input + tokens.input,
            output: self.tokens.output + tokens.output,
            reasoning: self.tokens.reasoning + tokens.reasoning,
            cache_read: self.tokens.cache_read + tokens.cache_read,
            cache_write: self.tokens.cache_write + tokens.cache_write,
        };
        self.msgs = self.msgs + 1;
        if time_created < self.min_ts {
            self.min_ts = time_created;
        }
        if time_created > self.max_ts {
            self.max_ts = time_created;
        }
    }
}

/// The integer part of a tool aggregate.
#[derive(Debug)]
pub struct ToolTally {
    pub calls: i64,
    pub completed: i64,
    pub errors: i64,
}

impl ToolTally {
    pub fn new() -> (t: Self)
        ensures
            t.calls == 0 && t.completed == 0 && t.errors == 0,
    {
        ToolTally { calls: 0, completed: 0, errors: 0 }
    }

    /// Counts one settled tool call, as completed or as errored.
    pub fn record(&mut self, completed: bool, errored: bool)
        requires
            old(self).calls < i64::MAX,
            old(self).completed < i64::MAX,
            old(self).errors < i64::MAX,
        ensures
            final(self).calls == old(self).calls + 1,
            final(self).completed == old(self).completed + if completed { 1int } else { 0 },
            final(self).errors == old(self).errors + if !completed && errored { 1int } else { 0 },
    {
        self.calls = self.calls + 1;
        if completed {
            self.completed = self.completed + 1;
        } else if errored {
            self.errors = self.errors + 1;
        }
    }
}

} // verus!
