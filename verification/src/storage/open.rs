//! What has to be done to open a database, given the version that it was written with.

use vstd::prelude::*;

verus! {

/// The last version in which the plain state was in the main environment.
pub const PRE_SPLIT_DB_VERSION: u64 = 2;

/// What the version file of a database says.
#[derive(Debug)]
pub enum VersionProbe<E> {
    /// The version that the database was written with.
    Version(u64),
    /// There is no version file.
    MissingFile {
        /// Whether there is an environment for the plain state.
        plain_state_present: bool,
    },
    /// The file could not be read.
    Failed(E),
}

/// What is at the path of a database.
#[derive(Debug)]
pub enum DatabaseProbe<E> {
    /// No database.
    Empty,
    /// A database.
    Present(VersionProbe<E>),
}

/// Why a database is not opened.
#[derive(Debug)]
pub enum OpenError<E> {
    /// There is no database.
    Missing,
    /// It was written with a version that cannot be migrated.
    VersionMismatch {
        /// That version.
        version: u64,
    },
    /// The version file could not be read.
    Version(E),
}

/// Something that is done to a database. Actions are done one after the other, and the first one
/// that fails ends it.
#[derive(Debug, Clone, Copy, PartialEq, Eq, Structural)]
pub enum DbAction {
    /// Create the directory.
    CreateDirectory,
    /// Move the plain state to an environment of its own.
    MigratePlainState,
    /// Write the version file with the present version.
    WriteVersion,
    /// Check that the version file has the present version.
    CheckVersion,
    /// Open for reading and writing.
    Open,
    /// Open for reading.
    OpenReadOnly,
    /// Create the tables that are missing.
    CreateTables,
    /// Record which client opened the database.
    RecordClientVersion,
}

/// What brings a database to the present version. The present version wins where it is also the
/// one before the split.
pub open spec fn upgrade<E>(db_version: u64, probe: VersionProbe<E>) -> Result<
    Seq<DbAction>,
    OpenError<E>,
> {
    match probe {
        VersionProbe::Version(version) => if version == db_version {
            Ok(seq![])
        } else if version == PRE_SPLIT_DB_VERSION {
            Ok(seq![DbAction::MigratePlainState, DbAction::WriteVersion])
        } else {
            Err(OpenError::VersionMismatch { version })
        },
        VersionProbe::MissingFile { plain_state_present } => if plain_state_present {
            Ok(seq![DbAction::WriteVersion])
        } else {
            Ok(seq![DbAction::MigratePlainState, DbAction::WriteVersion])
        },
        VersionProbe::Failed(err) => Err(OpenError::Version(err)),
    }
}

/// What opens a database for reading and writing.
pub open spec fn opening<E>(db_version: u64, probe: DatabaseProbe<E>) -> Result<
    Seq<DbAction>,
    OpenError<E>,
> {
    match probe {
        DatabaseProbe::Empty => Ok(
            seq![DbAction::CreateDirectory, DbAction::WriteVersion, DbAction::Open],
        ),
        DatabaseProbe::Present(version) => match upgrade(db_version, version) {
            Ok(actions) => Ok(actions.push(DbAction::Open)),
            Err(err) => Err(err),
        },
    }
}

/// The outcome holds these actions, or is this error.
pub open spec fn is_plan<E>(
    out: Result<Vec<DbAction>, OpenError<E>>,
    expected: Result<Seq<DbAction>, OpenError<E>>,
) -> bool {
    match expected {
        Ok(actions) => out is Ok && out->Ok_0@ == actions,
        Err(err) => out == Err::<Vec<DbAction>, OpenError<E>>(err),
    }
}

/// The actions, followed by more.
pub open spec fn extended<E>(
    plan: Result<Seq<DbAction>, OpenError<E>>,
    more: Seq<DbAction>,
) -> Result<Seq<DbAction>, OpenError<E>> {
    match plan {
        Ok(actions) => Ok(actions + more),
        Err(err) => Err(err),
    }
}

/// Migrates a legacy single-environment database to the split plain-state layout: what has to be
/// done.
pub fn migrate_db<E>(db_version: u64, probe: VersionProbe<E>) -> (plan: Result<
    Vec<DbAction>,
    OpenError<E>,
>)
    ensures
        is_plan(plan, upgrade(db_version, probe)),
{
    let mut actions: Vec<DbAction> = Vec::new();
    match probe {
        VersionProbe::Version(version) => {
            if version == db_version {
                return Ok(actions);
            }
            if version != PRE_SPLIT_DB_VERSION {
                return Err(OpenError::VersionMismatch { version });
            }
        },
        VersionProbe::MissingFile { plain_state_present } => {
            if plain_state_present {
                actions.push(DbAction::WriteVersion);
                assert(actions@ =~= seq![DbAction::WriteVersion]);
                return Ok(actions);
            }
        },
        VersionProbe::Failed(err) => {
            return Err(OpenError::Version(err));
        },
    }
    actions.push(DbAction::MigratePlainState);
    actions.push(DbAction::WriteVersion);
    assert(actions@ =~= seq![DbAction::MigratePlainState, DbAction::WriteVersion]);
    Ok(actions)
}

/// Creates a new database if it doesn't exist: what has to be done. Does NOT create tables. Check
/// [`init_db`].
pub fn create_db<E>(db_version: u64, probe: DatabaseProbe<E>) -> (plan: Result<
    Vec<DbAction>,
    OpenError<E>,
>)
    ensures
        is_plan(plan, opening(db_version, probe)),
{
    match probe {
        DatabaseProbe::Empty => {
            let mut actions: Vec<DbAction> = Vec::new();
            actions.push(DbAction::CreateDirectory);
            actions.push(DbAction::WriteVersion);
            actions.push(DbAction::Open);
            assert(actions@ =~= seq![
                DbAction::CreateDirectory,
                DbAction::WriteVersion,
                DbAction::Open,
            ]);
            Ok(actions)
        },
        DatabaseProbe::Present(version) => match migrate_db(db_version, version) {
            Ok(actions) => {
                let mut actions: Vec<DbAction> = actions;
                actions.push(DbAction::Open);
                Ok(actions)
            },
            Err(err) => Err(err),
        },
    }
}

/// Opens up an existing database or creates a new one, and creates the tables of the node that
/// are missing: what has to be done. Read/Write mode.
pub fn init_db<E>(db_version: u64, probe: DatabaseProbe<E>) -> (plan: Result<
    Vec<DbAction>,
    OpenError<E>,
>)
    ensures
        is_plan(
            plan,
            extended(
                opening(db_version, probe),
                seq![DbAction::CreateTables, DbAction::RecordClientVersion],
            ),
        ),
{
    init_db_for(db_version, probe)
}

/// Opens up an existing database or creates a new one, and creates those of the given tables that
/// are missing: what has to be done. Read/Write mode.
pub fn init_db_for<E>(db_version: u64, probe: DatabaseProbe<E>) -> (plan: Result<
    Vec<DbAction>,
    OpenError<E>,
>)
    ensures
        is_plan(
            plan,
            extended(
                opening(db_version, probe),
                seq![DbAction::CreateTables, DbAction::RecordClientVersion],
            ),
        ),
{
    match create_db(db_version, probe) {
        Ok(actions) => {
            let mut actions: Vec<DbAction> = actions;
            actions.push(DbAction::CreateTables);
            actions.push(DbAction::RecordClientVersion);
            assert(actions@ =~= opening(db_version, probe)->Ok_0 + seq![
                DbAction::CreateTables,
                DbAction::RecordClientVersion,
            ]);
            Ok(actions)
        },
        Err(err) => Err(err),
    }
}

/// What opens a database that is there for reading and writing.
pub open spec fn opening_existing<E>(db_version: u64, probe: DatabaseProbe<E>) -> Result<
    Seq<DbAction>,
    OpenError<E>,
> {
    match probe {
        DatabaseProbe::Empty => Err(OpenError::Missing),
        DatabaseProbe::Present(_) => extended(
            opening(db_version, probe),
            seq![DbAction::RecordClientVersion],
        ),
    }
}

/// Opens up an existing database: what has to be done. Read/Write mode. It doesn't create it or
/// create tables if missing.
pub fn open_db<E>(db_version: u64, probe: DatabaseProbe<E>) -> (plan: Result<
    Vec<DbAction>,
    OpenError<E>,
>)
    ensures
        is_plan(plan, opening_existing(db_version, probe)),
{
    if let DatabaseProbe::Empty = probe {
        return Err(OpenError::Missing);
    }
    match create_db(db_version, probe) {
        Ok(actions) => {
            let mut actions: Vec<DbAction> = actions;
            actions.push(DbAction::RecordClientVersion);
            assert(actions@ =~= opening(db_version, probe)->Ok_0 + seq![
                DbAction::RecordClientVersion,
            ]);
            Ok(actions)
        },
        Err(err) => Err(err),
    }
}

/// Opens up an existing database: what has to be done. Read only mode. It doesn't create it or
/// create tables if missing.
pub fn open_db_read_only() -> (actions: Vec<DbAction>)
    ensures
        actions@ == seq![DbAction::CheckVersion, DbAction::OpenReadOnly],
{
    let mut actions: Vec<DbAction> = Vec::new();
    actions.push(DbAction::CheckVersion);
    actions.push(DbAction::OpenReadOnly);
    assert(actions@ =~= seq![DbAction::CheckVersion, DbAction::OpenReadOnly]);
    actions
}

/// A database on disk: whether it has a version file and with which version, and whether its
/// plain state has an environment of its own.
pub struct DatabaseView {
    /// The version in the version file.
    pub version: Option<u64>,
    /// Whether there is an environment for the plain state.
    pub split: bool,
}

/// What is found out about a database.
pub open spec fn probed<E>(db: DatabaseView) -> VersionProbe<E> {
    match db.version {
        Some(version) => VersionProbe::Version(version),
        None => VersionProbe::MissingFile { plain_state_present: db.split },
    }
}

/// The database after an action that succeeds.
pub open spec fn done(db_version: u64, db: DatabaseView, action: DbAction) -> DatabaseView {
    match action {
        DbAction::MigratePlainState => DatabaseView { split: true, ..db },
        DbAction::WriteVersion => DatabaseView { version: Some(db_version), ..db },
        _ => db,
    }
}

/// The database after actions that all succeed.
pub open spec fn all_done(
    db_version: u64,
    db: DatabaseView,
    actions: Seq<DbAction>,
) -> DatabaseView
    decreases actions.len(),
{
    if actions.len() == 0 {
        db
    } else {
        done(db_version, all_done(db_version, db, actions.drop_last()), actions.last())
    }
}

/// A migration leaves a database of the present version, and one from before the split with an
/// environment for its plain state; migrating it again does nothing.
pub proof fn migrating_twice_is_migrating_once<E>(db_version: u64, db: DatabaseView)
    requires
        upgrade::<E>(db_version, probed(db)) is Ok,
    ensures
        ({
            let after = all_done(db_version, db, upgrade::<E>(db_version, probed(db))->Ok_0);
            &&& after.version == Some(db_version)
            &&& (db.version != Some(db_version) ==> after.split)
            &&& upgrade::<E>(db_version, probed(after)) == Ok::<Seq<DbAction>, OpenError<E>>(
                seq![],
            )
        }),
{
    reveal_with_fuel(all_done, 4);
    let both = seq![DbAction::MigratePlainState, DbAction::WriteVersion];
    assert(both.drop_last() =~= seq![DbAction::MigratePlainState]);
    assert(seq![DbAction::MigratePlainState].drop_last() =~= seq![]);
    assert(seq![DbAction::WriteVersion].drop_last() =~= seq![]);
}

/// Opening a database that is there accepts the versions that migrating it accepts, and does what
/// migrating it does before it opens it.
pub proof fn opening_migrates_first<E>(db_version: u64, probe: VersionProbe<E>)
    ensures
        opening(db_version, DatabaseProbe::Present(probe)) == extended(
            upgrade(db_version, probe),
            seq![DbAction::Open],
        ),
{
    if let Ok(actions) = upgrade(db_version, probe) {
        assert(actions.push(DbAction::Open) =~= actions + seq![DbAction::Open]);
    }
}

/// Opening an existing database never creates one, nor tables: on a path without a database it
/// fails, and on one with a database it creates nothing.
pub proof fn opening_existing_creates_nothing<E>(db_version: u64, probe: DatabaseProbe<E>)
    ensures
        probe is Empty ==> opening_existing(db_version, probe) == Err::<
            Seq<DbAction>,
            OpenError<E>,
        >(OpenError::Missing),
        match opening_existing(db_version, probe) {
            Ok(actions) => !actions.contains(DbAction::CreateDirectory) && !actions.contains(
                DbAction::CreateTables,
            ),
            Err(_) => true,
        },
{
}

/// The plan of a migration. A database of the present version needs nothing. One from before the
/// split, of version 2 or without a version file and without an environment for the plain state,
/// has its plain state moved before its version is written. One that only lacks the version file
/// gets it. Any other version is refused, by its number, and a failure to read it is handed on.
pub proof fn only_databases_from_before_the_split_are_migrated<E>(
    db_version: u64,
    probe: VersionProbe<E>,
    plan: Result<Vec<DbAction>, OpenError<E>>,
)
    requires
        call_ensures(migrate_db::<E>, (db_version, probe), plan),
    ensures
        match probe {
            VersionProbe::Version(version) => {
                &&& version == db_version ==> plan is Ok && plan->Ok_0@.len() == 0
                &&& version != db_version && version == 2 ==> {
                    &&& plan is Ok
                    &&& plan->Ok_0@.len() == 2
                    &&& plan->Ok_0@[0] == DbAction::MigratePlainState
                    &&& plan->Ok_0@[1] == DbAction::WriteVersion
                }
                &&& version != db_version && version != 2 ==> {
                    &&& plan is Err
                    &&& plan->Err_0 is VersionMismatch
                    &&& plan->Err_0->VersionMismatch_version == version
                }
            },
            VersionProbe::MissingFile { plain_state_present } => {
                &&& plan is Ok
                &&& plain_state_present ==> plan->Ok_0@.len() == 1 && plan->Ok_0@[0]
                    == DbAction::WriteVersion
                &&& !plain_state_present ==> {
                    &&& plan->Ok_0@.len() == 2
                    &&& plan->Ok_0@[0] == DbAction::MigratePlainState
                    &&& plan->Ok_0@[1] == DbAction::WriteVersion
                }
            },
            VersionProbe::Failed(err) => plan is Err && plan->Err_0 is Version
                && plan->Err_0->Version_0 == err,
        },
{
}

/// The ways to open a database go through the same beginning. Where there is none, a new one gets
/// a directory and a version file before it is opened, and only opening an existing one refuses.
/// Where there is one, it is migrated as far as it has to be and then opened, or refused for the
/// reason that a migration is. Initializing then creates the tables, and both ways record the
/// client at the very end.
pub proof fn opening_begins_with_creating_or_migrating<E>(
    db_version: u64,
    probe: DatabaseProbe<E>,
    migrated: Result<Vec<DbAction>, OpenError<E>>,
    created: Result<Vec<DbAction>, OpenError<E>>,
    initialized: Result<Vec<DbAction>, OpenError<E>>,
    initialized_for: Result<Vec<DbAction>, OpenError<E>>,
    opened: Result<Vec<DbAction>, OpenError<E>>,
)
    requires
        probe is Present ==> call_ensures(
            migrate_db::<E>,
            (db_version, probe->Present_0),
            migrated,
        ),
        call_ensures(create_db::<E>, (db_version, probe), created),
        call_ensures(init_db::<E>, (db_version, probe), initialized),
        call_ensures(init_db_for::<E>, (db_version, probe), initialized_for),
        call_ensures(open_db::<E>, (db_version, probe), opened),
    ensures
        probe is Empty ==> {
            &&& created is Ok
            &&& created->Ok_0@ == seq![
                DbAction::CreateDirectory,
                DbAction::WriteVersion,
                DbAction::Open,
            ]
            &&& opened is Err && opened->Err_0 is Missing
        },
        probe is Present ==> match migrated {
            Ok(actions) => created is Ok && created->Ok_0@ == actions@.push(DbAction::Open),
            Err(err) => created is Err && created->Err_0 == err,
        },
        probe is Present ==> match created {
            Ok(actions) => opened is Ok && opened->Ok_0@ == actions@.push(
                DbAction::RecordClientVersion,
            ),
            Err(err) => opened is Err && opened->Err_0 == err,
        },
        match created {
            Ok(actions) => {
                &&& initialized is Ok
                &&& initialized->Ok_0@ == actions@.push(DbAction::CreateTables).push(
                    DbAction::RecordClientVersion,
                )
                &&& initialized_for is Ok
                &&& initialized_for->Ok_0@ == initialized->Ok_0@
            },
            Err(err) => {
                &&& initialized is Err && initialized->Err_0 == err
                &&& initialized_for is Err && initialized_for->Err_0 == err
            },
        },
{
    if let Ok(actions) = created {
        let two = seq![DbAction::CreateTables, DbAction::RecordClientVersion];
        assert(actions@ + two =~= actions@.push(DbAction::CreateTables).push(
            DbAction::RecordClientVersion,
        ));
        assert(actions@ + seq![DbAction::RecordClientVersion] =~= actions@.push(
            DbAction::RecordClientVersion,
        ));
    }
}

/// Opening for reading only changes nothing: the version is checked, and then the database is
/// opened.
pub proof fn reading_only_checks_and_opens(actions: Vec<DbAction>)
    requires
        call_ensures(open_db_read_only, (), actions),
    ensures
        actions@.len() == 2,
        actions@[0] == DbAction::CheckVersion,
        actions@[1] == DbAction::OpenReadOnly,
{
}

} // verus!
