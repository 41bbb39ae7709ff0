//! Result rows for the tool, skill and reliability views.
use vstd::prelude::*;

verus! {

#[derive(Debug)]
pub struct SkillStat {
    pub skill: String,
    pub loads: i64,
    pub via_task: i64,
    pub direct: i64,
    pub sessions: i64,
    pub projects: i64,
    pub first_used: i64,
    pub last_used: i64,
}

#[derive(Debug)]
pub struct ReliabilityReport {
    pub errors: Vec<ErrorStat>,
    pub compactions_auto: i64,
    pub compactions_manual: i64,
    pub compactions_overflow: i64,
    pub retries: i64,
}

#[derive(Debug)]
pub struct ErrorStat {
    pub name: String,
    pub count: i64,
}

} // verus!
