//! The cache schema: forward-only migrations and the plan that brings a cache
//! of any recorded version up to date.
use vstd::prelude::*;

verus! {

/// One schema step. `rebuild` marks steps that change ingest semantics, after
/// which every fact is wiped and the sources re-ingested.
pub struct Migration {
    pub version: i64,
    pub sql: &'static str,
    pub rebuild: bool,
}

pub const BASELINE_V1: &'static str = "
CREATE TABLE IF NOT EXISTS source (
  id INTEGER PRIMARY KEY,
  path TEXT NOT NULL UNIQUE,
  msg_watermark TEXT NOT NULL DEFAULT '',
  part_watermark TEXT NOT NULL DEFAULT '',
  msg_scanned INTEGER NOT NULL DEFAULT 0,
  part_scanned INTEGER NOT NULL DEFAULT 0,
  time_refreshed INTEGER
);
CREATE TABLE IF NOT EXISTS fact_messages (
  source_id INTEGER NOT NULL,
  day TEXT NOT NULL,
  session_id TEXT NOT NULL,
  model_key TEXT NOT NULL,
  agent TEXT NOT NULL,
  project_id TEXT NOT NULL,
  cost REAL NOT NULL DEFAULT 0,
  tok_input INTEGER NOT NULL DEFAULT 0,
  tok_output INTEGER NOT NULL DEFAULT 0,
  tok_reasoning INTEGER NOT NULL DEFAULT 0,
  tok_cache_read INTEGER NOT NULL DEFAULT 0,
  tok_cache_write INTEGER NOT NULL DEFAULT 0,
  msgs INTEGER NOT NULL DEFAULT 0,
  min_ts INTEGER NOT NULL,
  max_ts INTEGER NOT NULL,
  PRIMARY KEY (source_id, day, session_id, model_key, agent)
);
CREATE TABLE IF NOT EXISTS fact_prompts (
  source_id INTEGER NOT NULL,
  day TEXT NOT NULL,
  count INTEGER NOT NULL DEFAULT 0,
  PRIMARY KEY (source_id, day)
);
CREATE TABLE IF NOT EXISTS fact_hourly (
  source_id INTEGER NOT NULL,
  day TEXT NOT NULL,
  hour INTEGER NOT NULL,
  count INTEGER NOT NULL DEFAULT 0,
  PRIMARY KEY (source_id, day, hour)
);
CREATE TABLE IF NOT EXISTS fact_tools (
  source_id INTEGER NOT NULL,
  day TEXT NOT NULL,
  tool TEXT NOT NULL,
  calls INTEGER NOT NULL DEFAULT 0,
  completed INTEGER NOT NULL DEFAULT 0,
  errors INTEGER NOT NULL DEFAULT 0,
  total_duration_ms REAL NOT NULL DEFAULT 0,
  PRIMARY KEY (source_id, day, tool)
);
CREATE TABLE IF NOT EXISTS fact_events (
  source_id INTEGER NOT NULL,
  day TEXT NOT NULL,
  kind TEXT NOT NULL,
  count INTEGER NOT NULL DEFAULT 0,
  PRIMARY KEY (source_id, day, kind)
);
CREATE TABLE IF NOT EXISTS tool_durations (
  source_id INTEGER NOT NULL,
  day TEXT NOT NULL,
  tool TEXT NOT NULL,
  duration_ms REAL NOT NULL
);
CREATE INDEX IF NOT EXISTS tool_durations_idx ON tool_durations (source_id, day);
CREATE TABLE IF NOT EXISTS rate_samples (
  source_id INTEGER NOT NULL,
  day TEXT NOT NULL,
  model_key TEXT NOT NULL,
  tps REAL NOT NULL
);
CREATE INDEX IF NOT EXISTS rate_samples_idx ON rate_samples (source_id, day);
CREATE TABLE IF NOT EXISTS project_dim (
  source_id INTEGER NOT NULL,
  project_id TEXT NOT NULL,
  name TEXT NOT NULL DEFAULT '',
  worktree TEXT NOT NULL DEFAULT '',
  PRIMARY KEY (source_id, project_id)
);
CREATE TABLE IF NOT EXISTS pending (
  source_id INTEGER NOT NULL,
  kind TEXT NOT NULL,
  id TEXT NOT NULL,
  time_created INTEGER NOT NULL,
  PRIMARY KEY (source_id, kind, id)
);
";


/// v2: sessions in the shared `global` project are attributed to synthetic
/// per-directory projects; the SQL is a marker, the change is a re-ingest.
pub const V2_DIRECTORY_PROJECTS: &'static str = "-- v2: sessions in the 'global' project are re-attributed to synthetic per-directory projects (dir:<path>); requires full re-ingest";

/// v3: adds the project dimension to all part/prompt-derived facts so every
/// dashboard metric can be filtered by project. Primary keys change, so the
/// tables are recreated and data re-ingested.
pub const V3_PROJECT_DIMENSION: &'static str = "
DROP TABLE IF EXISTS fact_prompts;
DROP TABLE IF EXISTS fact_hourly;
DROP TABLE IF EXISTS fact_tools;
DROP TABLE IF EXISTS fact_events;
DROP TABLE IF EXISTS tool_durations;
DROP TABLE IF EXISTS rate_samples;
CREATE TABLE fact_prompts (
  source_id INTEGER NOT NULL,
  day TEXT NOT NULL,
  project_id TEXT NOT NULL,
  count INTEGER NOT NULL DEFAULT 0,
  PRIMARY KEY (source_id, day, project_id)
);
CREATE TABLE fact_hourly (
  source_id INTEGER NOT NULL,
  day TEXT NOT NULL,
  hour INTEGER NOT NULL,
  project_id TEXT NOT NULL,
  count INTEGER NOT NULL DEFAULT 0,
  PRIMARY KEY (source_id, day, hour, project_id)
);
CREATE TABLE fact_tools (
  source_id INTEGER NOT NULL,
  day TEXT NOT NULL,
  tool TEXT NOT NULL,
  project_id TEXT NOT NULL,
  calls INTEGER NOT NULL DEFAULT 0,
  completed INTEGER NOT NULL DEFAULT 0,
  errors INTEGER NOT NULL DEFAULT 0,
  total_duration_ms REAL NOT NULL DEFAULT 0,
  PRIMARY KEY (source_id, day, tool, project_id)
);
CREATE TABLE fact_events (
  source_id INTEGER NOT NULL,
  day TEXT NOT NULL,
  kind TEXT NOT NULL,
  project_id TEXT NOT NULL,
  count INTEGER NOT NULL DEFAULT 0,
  PRIMARY KEY (source_id, day, kind, project_id)
);
CREATE TABLE tool_durations (
  source_id INTEGER NOT NULL,
  day TEXT NOT NULL,
  tool TEXT NOT NULL,
  project_id TEXT NOT NULL,
  duration_ms REAL NOT NULL
);
CREATE INDEX tool_durations_idx ON tool_durations (source_id, day);
CREATE TABLE rate_samples (
  source_id INTEGER NOT NULL,
  day TEXT NOT NULL,
  model_key TEXT NOT NULL,
  project_id TEXT NOT NULL,
  tps REAL NOT NULL
);
CREATE INDEX rate_samples_idx ON rate_samples (source_id, day);
";

/// v4: splits the composite model key into separate provider, model and
/// variant dimensions on message facts and rate samples, so model stats can
/// be broken down (and later filtered) by provider and by reasoning-effort
/// variant. Primary keys change, so the tables are recreated and data
/// re-ingested.
pub const V4_MODEL_DIMENSIONS: &'static str = "
DROP TABLE IF EXISTS fact_messages;
DROP TABLE IF EXISTS rate_samples;
CREATE TABLE fact_messages (
  source_id INTEGER NOT NULL,
  day TEXT NOT NULL,
  session_id TEXT NOT NULL,
  provider TEXT NOT NULL,
  model_id TEXT NOT NULL,
  variant TEXT NOT NULL DEFAULT '',
  agent TEXT NOT NULL,
  project_id TEXT NOT NULL,
  cost REAL NOT NULL DEFAULT 0,
  tok_input INTEGER NOT NULL DEFAULT 0,
  tok_output INTEGER NOT NULL DEFAULT 0,
  tok_reasoning INTEGER NOT NULL DEFAULT 0,
  tok_cache_read INTEGER NOT NULL DEFAULT 0,
  tok_cache_write INTEGER NOT NULL DEFAULT 0,
  msgs INTEGER NOT NULL DEFAULT 0,
  min_ts INTEGER NOT NULL,
  max_ts INTEGER NOT NULL,
  PRIMARY KEY (source_id, day, session_id, provider, model_id, variant, agent)
);
CREATE TABLE rate_samples (
  source_id INTEGER NOT NULL,
  day TEXT NOT NULL,
  provider TEXT NOT NULL,
  model_id TEXT NOT NULL,
  variant TEXT NOT NULL DEFAULT '',
  project_id TEXT NOT NULL,
  tps REAL NOT NULL
);
CREATE INDEX rate_samples_idx ON rate_samples (source_id, day);
";

/// v5: opencode's message and part ids are not monotonic with insertion order
/// (measured: 2 of 145k rows agree between id-rank and time-rank), so an
/// id-keyed watermark both skipped new rows and made the deletion sentinel
/// mismatch on every cycle, forcing a full re-ingest on each refresh. SQLite
/// assigns rowid in insertion order, which is the property the incremental
/// scan actually needs. Watermarks change type, so the table is recreated and
/// the sources are re-ingested once.
pub const V5_ROWID_WATERMARKS: &'static str = "
CREATE TABLE source_v5 (
  id INTEGER PRIMARY KEY,
  path TEXT NOT NULL UNIQUE,
  msg_watermark INTEGER NOT NULL DEFAULT 0,
  part_watermark INTEGER NOT NULL DEFAULT 0,
  msg_scanned INTEGER NOT NULL DEFAULT 0,
  part_scanned INTEGER NOT NULL DEFAULT 0,
  time_refreshed INTEGER
);
INSERT INTO source_v5 (id, path, time_refreshed) SELECT id, path, time_refreshed FROM source;
DROP TABLE source;
ALTER TABLE source_v5 RENAME TO source;
";

/// v6: skills are not a first-class entity in opencode's schema — a skill use is
/// recorded inside a tool call's input: `task` carries a `load_skills` array of
/// preloaded skills, and the `skill` tool carries the single `name` it invoked.
/// This projects both into a day-grain fact so the Skills page can rank usage.
/// `skill_mcp` is deliberately excluded: its `mcp_name` names an MCP server
/// bundled with a skill, not the skill itself. Ingest semantics change, so the
/// sources are re-ingested once.
pub const V6_SKILL_FACTS: &'static str = "
CREATE TABLE fact_skills (
  source_id INTEGER NOT NULL,
  day TEXT NOT NULL,
  skill TEXT NOT NULL,
  session_id TEXT NOT NULL,
  project_id TEXT NOT NULL,
  via_task INTEGER NOT NULL DEFAULT 0,
  direct INTEGER NOT NULL DEFAULT 0,
  min_ts INTEGER NOT NULL,
  max_ts INTEGER NOT NULL,
  PRIMARY KEY (source_id, day, skill, session_id, project_id)
);
CREATE INDEX fact_skills_idx ON fact_skills (source_id, day);
";

/// v7: opencode only records a `cost` for metered API traffic — subscription and
/// OAuth-plan messages are stored with `cost = 0`, which on a real database hides
/// most of the usage from every cost metric. Token counts are always recorded, so
/// cost is also derived from models.dev rates.
///
/// The rates live in the cache rather than in the facts on purpose: cost is then
/// a join at read time, so refreshing the catalog (or correcting a rate) updates
/// every historical number without re-ingesting a single source. Prices are not
/// scoped to a source — they describe models, not databases — so this table is
/// deliberately absent from FACT_TABLES and survives a source wipe.
pub const V7_MODEL_PRICE: &'static str = "
CREATE TABLE IF NOT EXISTS model_price (
  provider TEXT NOT NULL,
  model_id TEXT NOT NULL,
  input REAL NOT NULL DEFAULT 0,
  output REAL NOT NULL DEFAULT 0,
  cache_read REAL NOT NULL DEFAULT 0,
  cache_write REAL NOT NULL DEFAULT 0,
  context INTEGER NOT NULL DEFAULT 0,
  PRIMARY KEY (provider, model_id)
);
";

/// v8: opencode stores `agent` as a free-text display name with no id, and agent
/// packs rename themselves between releases, so one agent can split across many
/// spellings (including zero-width-prefixed ones that look identical on screen).
///
/// Facts keep the raw name. Grouping is resolved through this table at read
/// time instead, which is what lets normalisation be a toggle rather than a
/// re-ingest. The table is derived — rebuilt from the facts on every startup —
/// so it is not a fact table and this migration needs no rebuild.
pub const V8_AGENT_IDENTITY: &'static str = "
CREATE TABLE IF NOT EXISTS agent_dim (
  source_id INTEGER NOT NULL,
  agent_raw TEXT NOT NULL,
  agent_key TEXT NOT NULL,
  display TEXT NOT NULL,
  PRIMARY KEY (source_id, agent_raw)
);
CREATE INDEX IF NOT EXISTS agent_dim_key_idx ON agent_dim (source_id, agent_key);
";

/// v9: rolling quota windows (the 5-hour blocks subscription plans bill against)
/// cannot be reconstructed from day-grain facts, so recent messages are also kept
/// at their exact timestamp.
///
/// Retention is what keeps this affordable: a quota view only ever looks back far
/// enough to cover a weekly limit, so samples older than that are pruned on every
/// ingest. A database with 133k messages holds under 10k samples.
///
/// Keyed by message id because the pending re-check path re-processes a message
/// once its cost settles, and a sample must not be counted twice.
pub const V9_USAGE_SAMPLES: &'static str = "
CREATE TABLE IF NOT EXISTS usage_sample (
  source_id INTEGER NOT NULL,
  msg_id TEXT NOT NULL,
  ts INTEGER NOT NULL,
  provider TEXT NOT NULL,
  model_id TEXT NOT NULL,
  cost REAL NOT NULL DEFAULT 0,
  tok_input INTEGER NOT NULL DEFAULT 0,
  tok_output INTEGER NOT NULL DEFAULT 0,
  tok_cache_read INTEGER NOT NULL DEFAULT 0,
  tok_cache_write INTEGER NOT NULL DEFAULT 0,
  PRIMARY KEY (source_id, msg_id)
);
CREATE INDEX IF NOT EXISTS usage_sample_ts_idx ON usage_sample (ts);
";

/// v10: three things opencode records that nothing surfaced.
///
/// `fact_errors` keeps the actual failure text, not just its class — the
/// Reliability page could say "232 APIError" but never what went wrong.
///
/// `fact_files` is the one attribution opencode makes possible and no comparable
/// tool offers: every read, edit and write carries its file path, so spend can be
/// traced below the project level.
///
/// `fact_tool_calls` counts identical calls per session, keyed by a hash of the
/// arguments. Repeats are the signal for an agent looping; storing the hash
/// rather than the arguments keeps the row narrow.
pub const V10_ERRORS_AND_FILES: &'static str = "
CREATE TABLE IF NOT EXISTS fact_errors (
  source_id INTEGER NOT NULL,
  day TEXT NOT NULL,
  scope TEXT NOT NULL,
  name TEXT NOT NULL,
  message TEXT NOT NULL,
  project_id TEXT NOT NULL,
  count INTEGER NOT NULL DEFAULT 0,
  PRIMARY KEY (source_id, day, scope, name, message, project_id)
);
CREATE TABLE IF NOT EXISTS fact_files (
  source_id INTEGER NOT NULL,
  day TEXT NOT NULL,
  path TEXT NOT NULL,
  project_id TEXT NOT NULL,
  reads INTEGER NOT NULL DEFAULT 0,
  edits INTEGER NOT NULL DEFAULT 0,
  writes INTEGER NOT NULL DEFAULT 0,
  PRIMARY KEY (source_id, day, path, project_id)
);
CREATE INDEX IF NOT EXISTS fact_files_idx ON fact_files (source_id, day);
CREATE TABLE IF NOT EXISTS fact_tool_calls (
  source_id INTEGER NOT NULL,
  session_id TEXT NOT NULL,
  tool TEXT NOT NULL,
  input_hash INTEGER NOT NULL,
  day TEXT NOT NULL,
  project_id TEXT NOT NULL,
  calls INTEGER NOT NULL DEFAULT 0,
  PRIMARY KEY (source_id, session_id, tool, input_hash)
);
CREATE INDEX IF NOT EXISTS fact_tool_calls_idx ON fact_tool_calls (source_id, day);
";


/// Every table holding facts derived from a source. Prices and the derived
/// agent dimension are deliberately absent: they survive a source wipe.
pub const FACT_TABLES: [&'static str; 14] = [
    "fact_messages",
    "fact_prompts",
    "fact_hourly",
    "fact_tools",
    "fact_skills",
    "fact_events",
    "tool_durations",
    "rate_samples",
    "usage_sample",
    "fact_errors",
    "fact_files",
    "fact_tool_calls",
    "project_dim",
    "pending",
];

/// The released schema steps as (version, SQL, rebuild), in order.
pub open spec fn schedule() -> Seq<(i64, Seq<char>, bool)> {
    seq![
        (1i64, BASELINE_V1@, false),
        (2i64, V2_DIRECTORY_PROJECTS@, true),
        (3i64, V3_PROJECT_DIMENSION@, true),
        (4i64, V4_MODEL_DIMENSIONS@, true),
        (5i64, V5_ROWID_WATERMARKS@, true),
        (6i64, V6_SKILL_FACTS@, true),
        (7i64, V7_MODEL_PRICE@, false),
        (8i64, V8_AGENT_IDENTITY@, false),
        (9i64, V9_USAGE_SAMPLES@, true),
        (10i64, V10_ERRORS_AND_FILES@, true),
    ]
}

/// A migration by value: (version, SQL, rebuild).
pub open spec fn step_of(m: Migration) -> (i64, Seq<char>, bool) {
    (m.version, m.sql@, m.rebuild)
}

/// Forward-only migrations, applied in order at startup. New entries are
/// appended with increasing versions; released entries never change.
pub fn migrations() -> (r: Vec<Migration>)
    ensures
        r@.map_values(|m: Migration| step_of(m)) == schedule(),
{
    let r = vec![
        Migration { version: 1, sql: BASELINE_V1, rebuild: false },
        Migration { version: 2, sql: V2_DIRECTORY_PROJECTS, rebuild: true },
        Migration { version: 3, sql: V3_PROJECT_DIMENSION, rebuild: true },
        Migration { version: 4, sql: V4_MODEL_DIMENSIONS, rebuild: true },
        Migration { version: 5, sql: V5_ROWID_WATERMARKS, rebuild: true },
        Migration { version: 6, sql: V6_SKILL_FACTS, rebuild: true },
        Migration { version: 7, sql: V7_MODEL_PRICE, rebuild: false },
        Migration { version: 8, sql: V8_AGENT_IDENTITY, rebuild: false },
        Migration { version: 9, sql: V9_USAGE_SAMPLES, rebuild: true },
        Migration { version: 10, sql: V10_ERRORS_AND_FILES, rebuild: true },
    ];
    assert(r@.map_values(|m: Migration| step_of(m)) =~= schedule());
    r
}

/// The newest schema version.
pub open spec fn latest() -> i64 {
    schedule().last().0
}

pub fn latest_version() -> (v: i64)
    ensures
        v == latest(),
        v == 10,
{
    let ms = migrations();
    let n: usize = ms.len();
    proof {
        assert(schedule().len() == 10);
        assert(ms@.map_values(|m: Migration| step_of(m)).len() == ms@.len());
        assert(ms@.map_values(|m: Migration| step_of(m))[n - 1] == step_of(ms@[n - 1]));
    }
    ms[n - 1].version
}

/// What startup has to do to a cache recorded at some schema version.
pub struct MigrationPlan {
    /// The cache is newer than this build understands and is dropped whole.
    pub drop_everything: bool,
    /// The steps to apply, in order.
    pub steps: Vec<Migration>,
}

/// The version the steps are counted from: 0 after dropping everything.
pub open spec fn base_version(current: i64) -> i64 {
    if current > latest() {
        0
    } else {
        current
    }
}

/// The released steps newer than `base`, in order.
pub open spec fn steps_after(base: i64) -> Seq<(i64, Seq<char>, bool)> {
    schedule().filter(|s: (i64, Seq<char>, bool)| s.0 > base)
}

/// Plans the migration of a cache whose recorded schema version is
/// `current` (0 when none is recorded).
pub fn plan_migrations(current: i64) -> (plan: MigrationPlan)
    ensures
        plan.drop_everything == (current > latest()),
        plan.steps@.map_values(|m: Migration| step_of(m)) == steps_after(base_version(current)),
{
    let latest_v = latest_version();
    let drop_everything = current > latest_v;
    let base: i64 = if drop_everything { 0 } else { current };
    let all = migrations();
    let ghost sched = schedule();
    let mut steps: Vec<Migration> = Vec::new();
    let n: usize = all.len();
    for i in 0..n
        invariant
            n == all.len(),
            sched == schedule(),
            all@.map_values(|m: Migration| step_of(m)) == sched,
            steps@.map_values(|m: Migration| step_of(m)) == sched.take(i as int).filter(
                |s: (i64, Seq<char>, bool)| s.0 > base,
            ),
    {
        proof {
            reveal_with_fuel(Seq::<_>::filter, 1);
            assert(sched.take(i as int + 1).drop_last() =~= sched.take(i as int));
            assert(all@.map_values(|m: Migration| step_of(m))[i as int] == step_of(all@[i as int]));
        }
        let m = &all[i];
        if m.version > base {
            let ghost before = steps@;
            steps.push(Migration { version: m.version, sql: m.sql, rebuild: m.rebuild });
            proof {
                assert(steps@.map_values(|m: Migration| step_of(m)) =~= before.map_values(
                    |m: Migration| step_of(m),
                ).push(step_of(all@[i as int])));
            }
        }
    }
    proof {
        assert(sched.take(n as int) =~= sched);
    }
    MigrationPlan { drop_everything, steps }
}

/// The version recorded after applying a plan's steps.
pub open spec fn version_after(current: i64) -> i64 {
    let steps = steps_after(base_version(current));
    if steps.len() == 0 {
        base_version(current)
    } else {
        steps.last().0
    }
}

proof fn lemma_filter_schedule(base: i64)
    ensures
        steps_after(base) == (if base < 1 {
            schedule()
        } else if base >= 10 {
            Seq::<(i64, Seq<char>, bool)>::empty()
        } else {
            schedule().subrange(base as int, 10)
        }),
{
    reveal_with_fuel(Seq::<_>::filter, 11);
    assert(schedule().len() == 10);
    let s = schedule();
    assert(s.drop_last().drop_last().drop_last().drop_last().drop_last().drop_last().drop_last().drop_last().drop_last().drop_last() =~= Seq::<(i64, Seq<char>, bool)>::empty());
    if base < 1 {
        assert(steps_after(base) =~= s);
    } else if base >= 10 {
        assert(steps_after(base) =~= Seq::<(i64, Seq<char>, bool)>::empty());
    } else {
        assert(steps_after(base) =~= s.subrange(base as int, 10));
    }
}

/// Migrating always ends at the latest schema version, whatever version the
/// cache recorded.
pub proof fn law_migration_reaches_latest(current: i64)
    ensures
        version_after(current) == latest(),
{
    lemma_filter_schedule(base_version(current));
}

/// A cache already at the latest version is left alone.
pub proof fn law_up_to_date_cache_untouched()
    ensures
        steps_after(base_version(latest())).len() == 0,
        !(latest() > latest()),
{
    lemma_filter_schedule(latest());
}

/// Steps run forward only: strictly increasing versions, all newer than the
/// version counted from.
pub proof fn law_steps_forward_only(current: i64)
    ensures
        forall|i: int, j: int|
            0 <= i < j < steps_after(base_version(current)).len() ==> #[trigger] steps_after(
                base_version(current),
            )[i].0 < #[trigger] steps_after(base_version(current))[j].0,
        forall|i: int|
            0 <= i < steps_after(base_version(current)).len() ==> #[trigger] steps_after(
                base_version(current),
            )[i].0 > base_version(current),
{
    lemma_filter_schedule(base_version(current));
}

} // verus!
