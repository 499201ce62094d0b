//! The schema of the database, in steps.
//!
//! The database keeps the number of steps that were carried out in it. A step
//! that has shipped is never changed; a new one is appended.

use vstd::prelude::*;

verus! {

/// How many steps there are.
pub const MIGRATION_COUNT: usize = 1;

/// The first step: a row for each item, a row for each embedded unit, and the
/// vectors, by the ids of their units.
pub const CREATE_TABLES: &'static str = "
    CREATE TABLE files (
        id          INTEGER PRIMARY KEY,
        path        TEXT NOT NULL UNIQUE,
        kind        INTEGER NOT NULL,
        size        INTEGER NOT NULL,
        mtime       INTEGER NOT NULL,
        hash        BLOB,
        state       INTEGER NOT NULL,
        captured_at INTEGER,
        width       INTEGER NOT NULL,
        height      INTEGER NOT NULL,
        duration_s  REAL,
        folder      TEXT NOT NULL,
        gps_lat     REAL,
        gps_lng     REAL
    );

    CREATE TABLE units (
        id       INTEGER PRIMARY KEY,
        file_id  INTEGER NOT NULL REFERENCES files(id),
        frame_ts REAL
    );
    CREATE INDEX units_file_id_idx ON units(file_id);

    CREATE VIRTUAL TABLE vec_units USING vec0(embedding float[768]);
";

/// A step that is to be carried out, and the number to be kept after it.
#[derive(Clone, Copy, Debug, PartialEq, Eq)]
pub struct Migration {
    pub sql: &'static str,
    pub version: i64,
}

/// The text of a step.
pub open spec fn step_text(step: int) -> Seq<char>
    recommends
        0 <= step < MIGRATION_COUNT,
{
    CREATE_TABLES@
}

/// How many steps are done where the database keeps a number.
pub open spec fn steps_done(version: i64) -> int {
    if version < 0 {
        0
    } else {
        version as int
    }
}

/// How many steps are left where the database keeps a number.
pub open spec fn steps_left(version: i64) -> int {
    if steps_done(version) < MIGRATION_COUNT {
        MIGRATION_COUNT - steps_done(version)
    } else {
        0
    }
}

fn step_sql(step: usize) -> (sql: &'static str)
    requires
        step < MIGRATION_COUNT,
    ensures
        sql@ == step_text(step as int),
{
    CREATE_TABLES
}

/// The steps that are left where the database keeps a number, in their order.
pub fn apply(current_version: i64) -> (steps: Vec<Migration>)
    ensures
        steps@.len() == steps_left(current_version),
        forall|i: int|
            0 <= i < steps@.len() ==> (#[trigger] steps@[i]).sql@ == step_text(
                steps_done(current_version) + i,
            ) && steps@[i].version == steps_done(current_version) + i + 1,
{
    let mut steps: Vec<Migration> = Vec::new();
    let from: u64 = if current_version < 0 {
        0
    } else {
        current_version as u64
    };
    if from >= MIGRATION_COUNT as u64 {
        return steps;
    }
    let mut next: usize = from as usize;
    while next < MIGRATION_COUNT
        invariant
            from <= next <= MIGRATION_COUNT,
            from == steps_done(current_version),
            steps@.len() == next - from,
            forall|i: int|
                0 <= i < steps@.len() ==> (#[trigger] steps@[i]).sql@ == step_text(
                    steps_done(current_version) + i,
                ) && steps@[i].version == steps_done(current_version) + i + 1,
        decreases MIGRATION_COUNT - next,
    {
        steps.push(Migration { sql: step_sql(next), version: (next + 1) as i64 });
        next += 1;
    }
    steps
}

/// Once its steps are carried out, a database has none left: the last number kept
/// is that of all steps. A database that has them all keeps what it has.
pub proof fn lemma_apply_is_idempotent(version: i64, steps: Seq<Migration>)
    requires
        steps.len() == steps_left(version),
        forall|i: int|
            0 <= i < steps.len() ==> (#[trigger] steps[i]).version == steps_done(version) + i + 1,
    ensures
        steps.len() > 0 ==> steps_left(steps.last().version) == 0,
        steps.len() == 0 ==> steps_left(version) == 0,
{
}

/// A new database gets every step, in order and each once; a database gets the steps
/// after those that it has.
pub proof fn lemma_steps_in_order(version: i64, steps: Seq<Migration>)
    requires
        steps.len() == steps_left(version),
        forall|i: int|
            0 <= i < steps.len() ==> (#[trigger] steps[i]).version == steps_done(version) + i + 1,
    ensures
        version <= 0 ==> steps.len() == MIGRATION_COUNT,
        version >= MIGRATION_COUNT ==> steps.len() == 0,
        0 <= version <= MIGRATION_COUNT ==> steps.len() == MIGRATION_COUNT - version,
        forall|i: int|
            0 <= i < steps.len() && version >= 0 ==> (#[trigger] steps[i]).version == version + i + 1,
{
}

}
