//! Copies the plain-state tables from the main environment of a database to one of their own.

use vstd::prelude::*;

verus! {

/// A table of the plain state.
#[derive(Debug)]
pub struct MigrationTable {
    /// Its name.
    pub name: String,
    /// Whether a key can have several values.
    pub dupsort: bool,
}

/// What the migration does next.
#[derive(Debug, Clone, Copy, PartialEq, Eq, Structural)]
pub enum Phase {
    /// Create the directory of the plain-state environment.
    CreateDirectory,
    /// Open the main environment.
    OpenMain,
    /// Open the plain-state environment.
    OpenPlain,
    /// Begin a read transaction in the main environment.
    BeginSource,
    /// Begin a write transaction in the plain-state environment.
    BeginDestination,
    /// Create the table in the plain-state environment, if it is not there.
    CreateTable,
    /// Empty the table in the plain-state environment.
    ClearTable,
    /// Open the table in the main environment.
    OpenSource,
    /// Open a cursor on the table in the main environment.
    OpenCursor,
    /// Read the next row.
    ReadRow,
    /// Write the row that was read.
    PutRow,
    /// Commit the read transaction.
    CommitSource,
    /// Commit the write transaction.
    CommitDestination,
    /// Lock the pages of the plain-state environment in memory.
    LockPages,
    /// Nothing: the migration is done.
    Finished,
    /// Nothing: the migration failed.
    Failed,
}

/// How what the migration did ended.
#[derive(Debug, Clone, Copy, PartialEq, Eq, Structural)]
pub enum MigrationEvent {
    /// It was done.
    Done,
    /// The main environment has no such table.
    SourceMissing,
    /// There was a row.
    Row,
    /// There was no row any more.
    NoMoreRows,
    /// It failed.
    Error,
}

/// The phase works on a table.
pub open spec fn works_on_table(phase: Phase) -> bool {
    match phase {
        Phase::BeginSource | Phase::BeginDestination | Phase::CreateTable | Phase::ClearTable
        | Phase::OpenSource | Phase::OpenCursor | Phase::ReadRow | Phase::PutRow
        | Phase::CommitSource | Phase::CommitDestination => true,
        _ => false,
    }
}

/// The phase can end like this.
pub open spec fn fits(phase: Phase, event: MigrationEvent) -> bool {
    match phase {
        Phase::Finished | Phase::Failed => false,
        Phase::OpenSource => event is Done || event is SourceMissing || event is Error,
        Phase::ReadRow => event is Row || event is NoMoreRows || event is Error,
        _ => event is Done || event is Error,
    }
}

/// A migration on the way.
#[derive(Debug)]
pub struct Migration {
    /// The tables that are copied, in this order.
    pub tables: Vec<MigrationTable>,
    /// Whether the pages are locked in memory at the end.
    pub lock_in_memory: bool,
    /// What is done next.
    pub phase: Phase,
    /// The table that is worked on.
    pub table: usize,
    /// The rows of that table that were copied.
    pub copied: usize,
}

/// The state of a migration without its tables.
pub struct MigrationView {
    /// What is done next.
    pub phase: Phase,
    /// The table that is worked on.
    pub table: int,
    /// The rows of that table that were copied.
    pub copied: int,
}

impl View for Migration {
    type V = MigrationView;

    open spec fn view(&self) -> MigrationView {
        MigrationView { phase: self.phase, table: self.table as int, copied: self.copied as int }
    }
}

/// The state in which a migration begins.
pub open spec fn at_start() -> MigrationView {
    MigrationView { phase: Phase::CreateDirectory, table: 0, copied: 0 }
}

/// What is done when all tables are copied.
pub open spec fn closing_phase(lock_in_memory: bool) -> Phase {
    if lock_in_memory {
        Phase::LockPages
    } else {
        Phase::Finished
    }
}

/// The state in which the work on a table begins, or on none where there is no such table.
pub open spec fn at_table(tables: int, lock_in_memory: bool, table: int) -> MigrationView {
    MigrationView {
        phase: if table < tables {
            Phase::BeginSource
        } else {
            closing_phase(lock_in_memory)
        },
        table,
        copied: 0,
    }
}

/// The state after an event. What fails ends the migration, but for the locking of the pages; a
/// table that is missing in the main environment stays empty.
pub open spec fn after_event(
    tables: int,
    lock_in_memory: bool,
    state: MigrationView,
    event: MigrationEvent,
) -> MigrationView {
    if event is Error && !(state.phase is LockPages) {
        MigrationView { phase: Phase::Failed, ..state }
    } else {
        match state.phase {
            Phase::CreateDirectory => MigrationView { phase: Phase::OpenMain, ..state },
            Phase::OpenMain => MigrationView { phase: Phase::OpenPlain, ..state },
            Phase::OpenPlain => at_table(tables, lock_in_memory, 0),
            Phase::BeginSource => MigrationView { phase: Phase::BeginDestination, ..state },
            Phase::BeginDestination => MigrationView { phase: Phase::CreateTable, ..state },
            Phase::CreateTable => MigrationView { phase: Phase::ClearTable, ..state },
            Phase::ClearTable => MigrationView { phase: Phase::OpenSource, ..state },
            Phase::OpenSource => if event is SourceMissing {
                MigrationView { phase: Phase::CommitSource, ..state }
            } else {
                MigrationView { phase: Phase::OpenCursor, ..state }
            },
            Phase::OpenCursor => MigrationView { phase: Phase::ReadRow, ..state },
            Phase::ReadRow => if event is Row {
                MigrationView { phase: Phase::PutRow, ..state }
            } else {
                MigrationView { phase: Phase::CommitSource, ..state }
            },
            Phase::PutRow => MigrationView {
                phase: Phase::ReadRow,
                copied: state.copied + 1,
                ..state
            },
            Phase::CommitSource => MigrationView { phase: Phase::CommitDestination, ..state },
            Phase::CommitDestination => at_table(tables, lock_in_memory, state.table + 1),
            Phase::LockPages => MigrationView { phase: Phase::Finished, ..state },
            Phase::Finished | Phase::Failed => state,
        }
    }
}

impl Migration {
    /// There is a table to work on.
    pub open spec fn well_formed(self) -> bool {
        works_on_table(self.phase) ==> self.table < self.tables@.len()
    }

    /// A migration that begins.
    pub fn new(tables: Vec<MigrationTable>, lock_in_memory: bool) -> (migration: Self)
        ensures
            migration.well_formed(),
            migration.tables == tables,
            migration.lock_in_memory == lock_in_memory,
            migration@ == at_start(),
    {
        Migration { tables, lock_in_memory, phase: Phase::CreateDirectory, table: 0, copied: 0 }
    }

    /// Begins the work on a table, or ends the work where there is no such table.
    fn go_to_table(&mut self, table: usize)
        ensures
            final(self).well_formed(),
            final(self).tables == old(self).tables,
            final(self).lock_in_memory == old(self).lock_in_memory,
            final(self)@ == at_table(
                old(self).tables@.len() as int,
                old(self).lock_in_memory,
                table as int,
            ),
    {
        self.table = table;
        self.copied = 0;
        if table < self.tables.len() {
            self.phase = Phase::BeginSource;
        } else if self.lock_in_memory {
            self.phase = Phase::LockPages;
        } else {
            self.phase = Phase::Finished;
        }
    }

    /// Goes on after an event.
    pub fn next(&mut self, event: MigrationEvent)
        requires
            old(self).well_formed(),
            fits(old(self).phase, event),
            old(self).phase is PutRow ==> old(self).copied < usize::MAX,
        ensures
            final(self).well_formed(),
            final(self).tables == old(self).tables,
            final(self).lock_in_memory == old(self).lock_in_memory,
            final(self)@ == after_event(
                old(self).tables@.len() as int,
                old(self).lock_in_memory,
                old(self)@,
                event,
            ),
    {
        match (self.phase, event) {
            (Phase::LockPages, _) => {
                self.phase = Phase::Finished;
            },
            (_, MigrationEvent::Error) => {
                self.phase = Phase::Failed;
            },
            (Phase::CreateDirectory, _) => {
                self.phase = Phase::OpenMain;
            },
            (Phase::OpenMain, _) => {
                self.phase = Phase::OpenPlain;
            },
            (Phase::OpenPlain, _) => {
                self.go_to_table(0);
            },
            (Phase::BeginSource, _) => {
                self.phase = Phase::BeginDestination;
            },
            (Phase::BeginDestination, _) => {
                self.phase = Phase::CreateTable;
            },
            (Phase::CreateTable, _) => {
                self.phase = Phase::ClearTable;
            },
            (Phase::ClearTable, _) => {
                self.phase = Phase::OpenSource;
            },
            (Phase::OpenSource, MigrationEvent::SourceMissing) => {
                self.phase = Phase::CommitSource;
            },
            (Phase::OpenSource, _) => {
                self.phase = Phase::OpenCursor;
            },
            (Phase::OpenCursor, _) => {
                self.phase = Phase::ReadRow;
            },
            (Phase::ReadRow, MigrationEvent::Row) => {
                self.phase = Phase::PutRow;
            },
            (Phase::ReadRow, _) => {
                self.phase = Phase::CommitSource;
            },
            (Phase::PutRow, _) => {
                self.copied += 1;
                self.phase = Phase::ReadRow;
            },
            (Phase::CommitSource, _) => {
                self.phase = Phase::CommitDestination;
            },
            (Phase::CommitDestination, _) => {
                assert(self.table < self.tables.len());
                let table: usize = self.table + 1;
                self.go_to_table(table);
            },
            (Phase::Finished, _) | (Phase::Failed, _) => {},
        }
    }

    /// The table that is worked on.
    pub fn current_table(&self) -> (table: Option<&MigrationTable>)
        requires
            self.well_formed(),
        ensures
            works_on_table(self.phase) ==> table == Some(&self.tables@[self.table as int]),
            !works_on_table(self.phase) ==> table is None,
    {
        match self.phase {
            Phase::BeginSource | Phase::BeginDestination | Phase::CreateTable | Phase::ClearTable
            | Phase::OpenSource | Phase::OpenCursor | Phase::ReadRow | Phase::PutRow
            | Phase::CommitSource | Phase::CommitDestination => Some(&self.tables[self.table]),
            _ => None,
        }
    }
}

/// A row: a key and a value.
pub type Row = (Seq<u8>, Seq<u8>);

/// A table while it is copied, in both environments.
pub struct TableCopy {
    /// Whether a key can have several values.
    pub dupsort: bool,
    /// The rows in the main environment, if the table is there.
    pub source: Option<Seq<Row>>,
    /// How many of them were read.
    pub read: int,
    /// The rows in the plain-state environment, as the write transaction sees them.
    pub destination: Seq<Row>,
    /// The rows in the plain-state environment after the last commit.
    pub committed: Seq<Row>,
    /// Whether the write transaction sees the table in the plain-state environment.
    pub created: bool,
    /// Whether the table was in the plain-state environment after the last commit.
    pub present: bool,
    /// Whether the table in the main environment is open.
    pub source_open: bool,
    /// Whether there is a cursor on it.
    pub cursor_open: bool,
    /// Whether a row was read and not written yet.
    pub row_read: bool,
}

/// The rows that are to be copied.
pub open spec fn rows_to_copy(copy: TableCopy) -> Seq<Row> {
    match copy.source {
        Some(rows) => rows,
        None => Seq::empty(),
    }
}

/// The second row takes the place of the first: it has the same key, and the same value too where
/// a key can have several values.
pub open spec fn replaces(dupsort: bool, row: Row, by: Row) -> bool {
    row.0 == by.0 && (dupsort ==> row.1 == by.1)
}

/// The rows are those of a table: none takes the place of another.
pub open spec fn are_rows_of_table(dupsort: bool, rows: Seq<Row>) -> bool {
    forall|i: int, j: int|
        0 <= i < j < rows.len() ==> !replaces(dupsort, #[trigger] rows[i], #[trigger] rows[j])
}

/// The table in the main environment is one.
pub open spec fn has_table_rows(copy: TableCopy) -> bool {
    are_rows_of_table(copy.dupsort, rows_to_copy(copy))
}

/// The rows after one was written, which comes last where it takes the place of none.
pub open spec fn with_row(dupsort: bool, rows: Seq<Row>, row: Row) -> Seq<Row> {
    if exists|i: int| 0 <= i < rows.len() && replaces(dupsort, #[trigger] rows[i], row) {
        let i = choose|i: int|
            0 <= i < rows.len() && replaces(dupsort, #[trigger] rows[i], row);
        rows.update(i, row)
    } else {
        rows.push(row)
    }
}

/// What a phase does to a table, and how it ends, where nothing fails.
pub open spec fn effect(copy: TableCopy, phase: Phase) -> (TableCopy, MigrationEvent) {
    match phase {
        Phase::BeginDestination => (
            TableCopy { destination: copy.committed, created: copy.present, ..copy },
            MigrationEvent::Done,
        ),
        Phase::CreateTable => (TableCopy { created: true, ..copy }, MigrationEvent::Done),
        Phase::ClearTable => (
            TableCopy { destination: Seq::empty(), ..copy },
            MigrationEvent::Done,
        ),
        Phase::OpenSource => (
            TableCopy { source_open: copy.source is Some, ..copy },
            if copy.source is Some {
                MigrationEvent::Done
            } else {
                MigrationEvent::SourceMissing
            },
        ),
        Phase::OpenCursor => (
            TableCopy { read: 0, cursor_open: true, row_read: false, ..copy },
            MigrationEvent::Done,
        ),
        Phase::ReadRow => if copy.read < rows_to_copy(copy).len() {
            (TableCopy { read: copy.read + 1, row_read: true, ..copy }, MigrationEvent::Row)
        } else {
            (TableCopy { row_read: false, ..copy }, MigrationEvent::NoMoreRows)
        },
        Phase::PutRow => (
            TableCopy {
                destination: with_row(
                    copy.dupsort,
                    copy.destination,
                    rows_to_copy(copy)[copy.read - 1],
                ),
                row_read: false,
                ..copy
            },
            MigrationEvent::Done,
        ),
        Phase::CommitSource => (
            TableCopy { source_open: false, cursor_open: false, ..copy },
            MigrationEvent::Done,
        ),
        Phase::CommitDestination => (
            TableCopy { committed: copy.destination, present: copy.created, ..copy },
            MigrationEvent::Done,
        ),
        _ => (copy, MigrationEvent::Done),
    }
}

/// What the phase needs of the table is there: a table has to be created before it is emptied,
/// opened before there is a cursor on it, and read from before a row of it is written.
pub open spec fn table_is_ready(copy: TableCopy, phase: Phase) -> bool {
    match phase {
        Phase::ClearTable => copy.created,
        Phase::OpenCursor => copy.source_open,
        Phase::ReadRow => copy.cursor_open,
        Phase::PutRow => copy.created && copy.row_read,
        _ => true,
    }
}

/// Both environments during a migration.
pub struct EnvironmentsView {
    /// Whether there is a directory for the plain-state environment.
    pub directory: bool,
    /// Whether the main environment is open.
    pub main_open: bool,
    /// Whether the plain-state environment is open.
    pub plain_open: bool,
    /// Whether there is a read transaction in the main environment.
    pub reading: bool,
    /// Whether there is a write transaction in the plain-state environment.
    pub writing: bool,
}

/// What the phase needs of the environments is there: each is opened before it is used, and used
/// within a transaction, of which there is one at a time.
pub open spec fn environments_are_ready(env: EnvironmentsView, phase: Phase) -> bool {
    match phase {
        Phase::CreateDirectory | Phase::OpenMain => true,
        Phase::OpenPlain => env.directory,
        Phase::BeginSource => env.main_open && !env.reading,
        Phase::BeginDestination => env.plain_open && !env.writing,
        Phase::CreateTable | Phase::ClearTable | Phase::CommitDestination => env.writing,
        Phase::OpenSource | Phase::OpenCursor | Phase::ReadRow | Phase::CommitSource => env.reading,
        Phase::PutRow => env.writing,
        Phase::LockPages => env.plain_open,
        Phase::Finished | Phase::Failed => true,
    }
}

/// The environments after a phase that succeeded.
pub open spec fn environments_after(env: EnvironmentsView, phase: Phase) -> EnvironmentsView {
    match phase {
        Phase::CreateDirectory => EnvironmentsView { directory: true, ..env },
        Phase::OpenMain => EnvironmentsView { main_open: true, ..env },
        Phase::OpenPlain => EnvironmentsView { plain_open: true, ..env },
        Phase::BeginSource => EnvironmentsView { reading: true, ..env },
        Phase::BeginDestination => EnvironmentsView { writing: true, ..env },
        Phase::CommitSource => EnvironmentsView { reading: false, ..env },
        Phase::CommitDestination => EnvironmentsView { writing: false, ..env },
        _ => env,
    }
}

/// The environments are as they have to be in a phase.
pub open spec fn environments_in_step(env: EnvironmentsView, phase: Phase) -> bool {
    match phase {
        Phase::CreateDirectory => !env.reading && !env.writing,
        Phase::OpenMain => env.directory && !env.reading && !env.writing,
        Phase::OpenPlain => env.directory && env.main_open && !env.reading && !env.writing,
        Phase::Failed => true,
        _ => {
            &&& env.directory && env.main_open && env.plain_open
            &&& env.reading == (works_on_table(phase) && !(phase is BeginSource)
                && !(phase is CommitDestination))
            &&& env.writing == (works_on_table(phase) && !(phase is BeginSource)
                && !(phase is BeginDestination))
        },
    }
}

/// The rows that were copied so far are the first ones of the source.
pub open spec fn is_in_step(copy: TableCopy, state: MigrationView) -> bool {
    let rows = rows_to_copy(copy);
    match state.phase {
        Phase::BeginSource | Phase::BeginDestination | Phase::CreateTable => state.copied == 0,
        Phase::ClearTable => state.copied == 0 && copy.created,
        Phase::OpenSource => state.copied == 0 && copy.created && copy.destination == Seq::<
            Row,
        >::empty(),
        Phase::OpenCursor => {
            &&& state.copied == 0
            &&& copy.created
            &&& copy.source is Some
            &&& copy.source_open
            &&& copy.destination == Seq::<Row>::empty()
        },
        Phase::ReadRow => {
            &&& copy.created
            &&& copy.cursor_open
            &&& copy.source is Some
            &&& 0 <= copy.read <= rows.len()
            &&& copy.destination == rows.take(copy.read)
            &&& state.copied == copy.read
        },
        Phase::PutRow => {
            &&& copy.created
            &&& copy.cursor_open
            &&& copy.row_read
            &&& copy.source is Some
            &&& 0 < copy.read <= rows.len()
            &&& copy.destination == rows.take(copy.read - 1)
            &&& state.copied == copy.read - 1
        },
        Phase::CommitSource | Phase::CommitDestination => {
            &&& copy.created
            &&& copy.destination == rows
            &&& state.copied == rows.len()
        },
        _ => true,
    }
}

/// Every step of a copy that does not fail keeps it in step, and the commit at its end makes the
/// table in the plain-state environment hold exactly the rows of the one in the main environment.
pub proof fn copies_stay_in_step(
    tables: int,
    lock_in_memory: bool,
    copy: TableCopy,
    state: MigrationView,
)
    requires
        works_on_table(state.phase),
        has_table_rows(copy),
        is_in_step(copy, state),
    ensures
        ({
            let (after, event) = effect(copy, state.phase);
            let next = after_event(tables, lock_in_memory, state, event);
            &&& fits(state.phase, event)
            &&& table_is_ready(copy, state.phase)
            &&& after.source == copy.source
            &&& after.dupsort == copy.dupsort
            &&& if state.phase is CommitDestination {
                after.committed == rows_to_copy(copy) && after.present && next == at_table(
                    tables,
                    lock_in_memory,
                    state.table + 1,
                )
            } else {
                is_in_step(after, next) && works_on_table(next.phase) && next.table == state.table
            }
        }),
{
    let rows = rows_to_copy(copy);
    if state.phase is OpenCursor {
        assert(rows.take(0) =~= Seq::<Row>::empty());
    } else if state.phase is ReadRow {
        if copy.read >= rows.len() {
            assert(rows.take(copy.read) =~= rows);
        }
    } else if state.phase is PutRow {
        let row = rows[copy.read - 1];
        assert forall|i: int| 0 <= i < copy.read - 1 implies !replaces(
            copy.dupsort,
            #[trigger] copy.destination[i],
            row,
        ) by {
            assert(copy.destination[i] == rows[i]);
        }
        assert(rows.take(copy.read - 1).push(row) =~= rows.take(copy.read));
    }
}

/// A copy of a table ends: each step works off a row or leads to a later phase.
pub open spec fn steps_left(copy: TableCopy, phase: Phase) -> int {
    let rows = rows_to_copy(copy).len() as int;
    match phase {
        Phase::BeginSource => 2 * rows + 9,
        Phase::BeginDestination => 2 * rows + 8,
        Phase::CreateTable => 2 * rows + 7,
        Phase::ClearTable => 2 * rows + 6,
        Phase::OpenSource => 2 * rows + 5,
        Phase::OpenCursor => 2 * rows + 4,
        Phase::ReadRow => 2 * (rows - copy.read) + 3,
        Phase::PutRow => 2 * (rows - copy.read) + 4,
        Phase::CommitSource => 2,
        Phase::CommitDestination => 1,
        _ => 0,
    }
}

/// Every step of a copy that does not fail brings it closer to its end.
pub proof fn copies_come_to_an_end(
    tables: int,
    lock_in_memory: bool,
    copy: TableCopy,
    state: MigrationView,
)
    requires
        works_on_table(state.phase),
        is_in_step(copy, state),
        !(state.phase is CommitDestination),
    ensures
        ({
            let (after, event) = effect(copy, state.phase);
            let next = after_event(tables, lock_in_memory, state, event);
            0 < steps_left(after, next.phase) < steps_left(copy, state.phase)
        }),
{
}

/// A migration on the way, with the tables that it copies.
pub struct MigrationRun {
    /// The tables, in the order in which they are copied.
    pub copies: Seq<TableCopy>,
    /// The state of the migration.
    pub state: MigrationView,
    /// The environments.
    pub env: EnvironmentsView,
}

/// Before a migration begins, nothing is open.
pub open spec fn nothing_open(directory: bool) -> EnvironmentsView {
    EnvironmentsView {
        directory,
        main_open: false,
        plain_open: false,
        reading: false,
        writing: false,
    }
}

/// What was to be done next can be done.
pub open spec fn can_be_done(run: MigrationRun) -> bool {
    &&& environments_are_ready(run.env, run.state.phase)
    &&& works_on_table(run.state.phase) ==> table_is_ready(
        run.copies[run.state.table],
        run.state.phase,
    )
}

/// What was to be done next was done, or failed, as it does where it cannot be done.
pub open spec fn after_step(run: MigrationRun, lock_in_memory: bool, fails: bool) -> MigrationRun {
    let tables = run.copies.len() as int;
    if run.state.phase is Finished || run.state.phase is Failed {
        run
    } else if fails || !can_be_done(run) {
        MigrationRun {
            copies: run.copies,
            state: after_event(tables, lock_in_memory, run.state, MigrationEvent::Error),
            env: run.env,
        }
    } else if works_on_table(run.state.phase) {
        let (after, event) = effect(run.copies[run.state.table], run.state.phase);
        MigrationRun {
            copies: run.copies.update(run.state.table, after),
            state: after_event(tables, lock_in_memory, run.state, event),
            env: environments_after(run.env, run.state.phase),
        }
    } else {
        MigrationRun {
            copies: run.copies,
            state: after_event(tables, lock_in_memory, run.state, MigrationEvent::Done),
            env: environments_after(run.env, run.state.phase),
        }
    }
}

/// A migration of the tables after so many steps, of which those fail that `fails` says.
pub open spec fn migration_run(
    copies: Seq<TableCopy>,
    lock_in_memory: bool,
    fails: spec_fn(nat) -> bool,
    steps: nat,
) -> MigrationRun
    decreases steps,
{
    if steps == 0 {
        MigrationRun { copies, state: at_start(), env: nothing_open(false) }
    } else {
        after_step(
            migration_run(copies, lock_in_memory, fails, (steps - 1) as nat),
            lock_in_memory,
            fails((steps - 1) as nat),
        )
    }
}

/// The tables in the main environment are tables.
pub open spec fn have_table_rows(copies: Seq<TableCopy>) -> bool {
    forall|i: int| 0 <= i < copies.len() ==> has_table_rows(#[trigger] copies[i])
}

/// The tables in the main environment are the same.
pub open spec fn same_sources(copies: Seq<TableCopy>, later: Seq<TableCopy>) -> bool {
    &&& later.len() == copies.len()
    &&& forall|i: int|
        0 <= i < copies.len() ==> #[trigger] later[i].source == copies[i].source
            && later[i].dupsort == copies[i].dupsort
}

/// The first tables are in the plain-state environment and hold what the main environment holds:
/// the same rows, or none where it has no such table.
pub open spec fn are_copied(copies: Seq<TableCopy>, count: int) -> bool {
    forall|i: int|
        0 <= i < count ==> (#[trigger] copies[i]).committed == rows_to_copy(copies[i])
            && copies[i].present
}

/// The tables before the one that is worked on are copied, and that one is in step.
pub open spec fn is_run_in_step(run: MigrationRun) -> bool {
    &&& environments_in_step(run.env, run.state.phase)
    &&& match run.state.phase {
        Phase::LockPages | Phase::Finished => are_copied(run.copies, run.copies.len() as int),
        _ => works_on_table(run.state.phase) ==> {
            &&& 0 <= run.state.table < run.copies.len()
            &&& is_in_step(run.copies[run.state.table], run.state)
            &&& are_copied(run.copies, run.state.table)
        },
    }
}

/// A step leaves the sources as they are and keeps the run in step.
proof fn lemma_step_keeps_step(run: MigrationRun, lock_in_memory: bool, fails: bool)
    requires
        have_table_rows(run.copies),
        is_run_in_step(run),
    ensures
        same_sources(run.copies, after_step(run, lock_in_memory, fails).copies),
        is_run_in_step(after_step(run, lock_in_memory, fails)),
{
    let tables = run.copies.len() as int;
    if !fails && works_on_table(run.state.phase) {
        copies_stay_in_step(tables, lock_in_memory, run.copies[run.state.table], run.state);
        let next = after_step(run, lock_in_memory, fails);
        assert forall|i: int| 0 <= i < run.state.table implies (#[trigger] next.copies[i]).committed
            == rows_to_copy(next.copies[i]) && next.copies[i].present by {
            assert(run.copies[i].committed == rows_to_copy(run.copies[i]));
        }
    }
}

/// A run is in step, and the sources are as they were.
proof fn lemma_run_in_step(
    copies: Seq<TableCopy>,
    lock_in_memory: bool,
    fails: spec_fn(nat) -> bool,
    steps: nat,
)
    requires
        have_table_rows(copies),
    ensures
        ({
            let run = migration_run(copies, lock_in_memory, fails, steps);
            same_sources(copies, run.copies) && have_table_rows(run.copies) && is_run_in_step(run)
        }),
    decreases steps,
{
    if steps > 0 {
        let before = (steps - 1) as nat;
        lemma_run_in_step(copies, lock_in_memory, fails, before);
        let run = migration_run(copies, lock_in_memory, fails, before);
        lemma_step_keeps_step(run, lock_in_memory, fails(before));
        let next = migration_run(copies, lock_in_memory, fails, steps);
        assert forall|i: int| 0 <= i < copies.len() implies #[trigger] next.copies[i].source
            == copies[i].source && next.copies[i].dupsort == copies[i].dupsort by {
            assert(run.copies[i].source == copies[i].source);
        }
        assert forall|i: int| 0 <= i < next.copies.len() implies has_table_rows(
            #[trigger] next.copies[i],
        ) by {
            assert(next.copies[i].source == copies[i].source);
            assert(has_table_rows(copies[i]));
        }
    }
}

/// A migration never changes the main environment, whatever fails. Where it finishes, every table
/// in the plain-state environment holds exactly the rows of the one in the main environment, all
/// the values of a key among them, or none where there is no such table: what it held before is
/// gone. Every one of the tables is there then, also where it was not there before, and no
/// transaction is left open.
pub proof fn finished_migration_copied_every_table(
    copies: Seq<TableCopy>,
    lock_in_memory: bool,
    fails: spec_fn(nat) -> bool,
    steps: nat,
)
    requires
        have_table_rows(copies),
    ensures
        ({
            let run = migration_run(copies, lock_in_memory, fails, steps);
            &&& same_sources(copies, run.copies)
            &&& run.state.phase is Finished ==> forall|i: int|
                0 <= i < copies.len() ==> (#[trigger] run.copies[i]).committed == rows_to_copy(
                    copies[i],
                ) && run.copies[i].present
            &&& run.state.phase is Finished ==> {
                &&& run.env.directory
                &&& !run.env.reading
                &&& !run.env.writing
            }
        }),
{
    lemma_run_in_step(copies, lock_in_memory, fails, steps);
    let run = migration_run(copies, lock_in_memory, fails, steps);
    if run.state.phase is Finished {
        assert forall|i: int| 0 <= i < copies.len() implies (#[trigger] run.copies[i]).committed
            == rows_to_copy(copies[i]) && run.copies[i].present by {
            assert(run.copies[i].source == copies[i].source);
        }
    }
}

/// The steps that the copies of the tables from `table` on take.
pub open spec fn table_steps(copies: Seq<TableCopy>, table: int) -> int
    decreases copies.len() - table,
{
    if 0 <= table < copies.len() {
        2 * rows_to_copy(copies[table]).len() + 9 + table_steps(copies, table + 1)
    } else {
        0
    }
}

/// The steps that are left of a run.
spec fn run_steps_left(run: MigrationRun) -> int {
    match run.state.phase {
        Phase::CreateDirectory => table_steps(run.copies, 0) + 4,
        Phase::OpenMain => table_steps(run.copies, 0) + 3,
        Phase::OpenPlain => table_steps(run.copies, 0) + 2,
        Phase::LockPages => 1,
        Phase::Finished | Phase::Failed => 0,
        _ => steps_left(run.copies[run.state.table], run.state.phase) + table_steps(
            run.copies,
            run.state.table + 1,
        ) + 1,
    }
}

/// The steps depend on the sources alone.
proof fn lemma_table_steps(copies: Seq<TableCopy>, later: Seq<TableCopy>, table: int)
    requires
        same_sources(copies, later),
        0 <= table,
    ensures
        table_steps(later, table) == table_steps(copies, table),
        table_steps(copies, table) >= 0,
    decreases copies.len() - table,
{
    if table < copies.len() {
        assert(later[table].source == copies[table].source);
        lemma_table_steps(copies, later, table + 1);
    }
}

/// A step brings a run closer to its end.
proof fn lemma_step_comes_closer(run: MigrationRun, lock_in_memory: bool, fails: bool)
    requires
        have_table_rows(run.copies),
        is_run_in_step(run),
    ensures
        ({
            let next = after_step(run, lock_in_memory, fails);
            &&& 0 <= run_steps_left(run)
            &&& 0 < run_steps_left(run) ==> run_steps_left(next) < run_steps_left(run)
            &&& run_steps_left(run) == 0 ==> next == run
        }),
{
    let tables = run.copies.len() as int;
    let next = after_step(run, lock_in_memory, fails);
    lemma_step_keeps_step(run, lock_in_memory, fails);
    lemma_table_steps(run.copies, next.copies, 0);
    if works_on_table(run.state.phase) {
        let table = run.state.table;
        let copy = run.copies[table];
        lemma_table_steps(run.copies, next.copies, table + 1);
        copies_stay_in_step(tables, lock_in_memory, copy, run.state);
        if run.state.phase is CommitDestination {
            reveal_with_fuel(table_steps, 2);
        } else {
            copies_come_to_an_end(tables, lock_in_memory, copy, run.state);
        }
    }
}

/// A run has as few steps left as were taken.
proof fn lemma_run_comes_closer(
    copies: Seq<TableCopy>,
    lock_in_memory: bool,
    fails: spec_fn(nat) -> bool,
    steps: nat,
)
    requires
        have_table_rows(copies),
    ensures
        ({
            let left = run_steps_left(migration_run(copies, lock_in_memory, fails, steps));
            0 <= left && (left == 0 || left <= table_steps(copies, 0) + 4 - steps)
        }),
    decreases steps,
{
    lemma_run_in_step(copies, lock_in_memory, fails, steps);
    let run = migration_run(copies, lock_in_memory, fails, steps);
    lemma_step_comes_closer(run, lock_in_memory, false);
    if steps > 0 {
        let before = (steps - 1) as nat;
        lemma_run_comes_closer(copies, lock_in_memory, fails, before);
        lemma_run_in_step(copies, lock_in_memory, fails, before);
        lemma_step_comes_closer(
            migration_run(copies, lock_in_memory, fails, before),
            lock_in_memory,
            fails(before),
        );
    }
}

/// Nothing fails but the locking of the pages.
pub open spec fn at_most_locking_fails(
    copies: Seq<TableCopy>,
    lock_in_memory: bool,
    fails: spec_fn(nat) -> bool,
) -> bool {
    forall|step: nat| #[trigger]
        fails(step) ==> {
            let phase = migration_run(copies, lock_in_memory, fails, step).state.phase;
            phase is LockPages || phase is Finished
        }
}

/// A step does not fail where it is not made to, unless it locks the pages.
proof fn lemma_step_does_not_fail(run: MigrationRun, lock_in_memory: bool, fails: bool)
    requires
        have_table_rows(run.copies),
        is_run_in_step(run),
        !(run.state.phase is Failed),
        fails ==> run.state.phase is LockPages || run.state.phase is Finished,
    ensures
        !(after_step(run, lock_in_memory, fails).state.phase is Failed),
{
    if works_on_table(run.state.phase) {
        copies_stay_in_step(
            run.copies.len() as int,
            lock_in_memory,
            run.copies[run.state.table],
            run.state,
        );
    }
}

/// A run does not fail where nothing fails but the locking of the pages.
proof fn lemma_run_does_not_fail(
    copies: Seq<TableCopy>,
    lock_in_memory: bool,
    fails: spec_fn(nat) -> bool,
    steps: nat,
)
    requires
        at_most_locking_fails(copies, lock_in_memory, fails),
        have_table_rows(copies),
    ensures
        !(migration_run(copies, lock_in_memory, fails, steps).state.phase is Failed),
    decreases steps,
{
    if steps > 0 {
        let before = (steps - 1) as nat;
        lemma_run_does_not_fail(copies, lock_in_memory, fails, before);
        lemma_run_in_step(copies, lock_in_memory, fails, before);
        let run = migration_run(copies, lock_in_memory, fails, before);
        let failing = fails(before);
        lemma_step_does_not_fail(run, lock_in_memory, failing);
    }
}

/// A migration comes to an end, after at most twice the number of rows and nine steps for each
/// table, and four more. Where nothing fails but the locking of the pages, it finishes, with every
/// table copied and the main environment as it was.
pub proof fn migration_comes_to_an_end(
    copies: Seq<TableCopy>,
    lock_in_memory: bool,
    fails: spec_fn(nat) -> bool,
    steps: nat,
)
    requires
        have_table_rows(copies),
        steps >= table_steps(copies, 0) + 4,
    ensures
        ({
            let run = migration_run(copies, lock_in_memory, fails, steps);
            &&& run.state.phase is Finished || run.state.phase is Failed
            &&& at_most_locking_fails(copies, lock_in_memory, fails) ==> {
                &&& run.state.phase is Finished
                &&& same_sources(copies, run.copies)
                &&& forall|i: int|
                    0 <= i < copies.len() ==> (#[trigger] run.copies[i]).committed == rows_to_copy(
                        copies[i],
                    ) && run.copies[i].present
            }
        }),
{
    lemma_run_comes_closer(copies, lock_in_memory, fails, steps);
    lemma_run_in_step(copies, lock_in_memory, fails, steps);
    let run = migration_run(copies, lock_in_memory, fails, steps);
    if works_on_table(run.state.phase) {
        lemma_table_steps(run.copies, run.copies, run.state.table + 1);
        copies_stay_in_step(
            run.copies.len() as int,
            lock_in_memory,
            run.copies[run.state.table],
            run.state,
        );
    } else {
        lemma_table_steps(run.copies, run.copies, 0);
    }
    if at_most_locking_fails(copies, lock_in_memory, fails) {
        lemma_run_does_not_fail(copies, lock_in_memory, fails, steps);
        finished_migration_copied_every_table(copies, lock_in_memory, fails, steps);
    }
}

/// Migrating again changes nothing: where both migrations finish, both environments hold after the
/// second what they held after the first.
pub proof fn migrating_again_changes_nothing(
    copies: Seq<TableCopy>,
    lock_in_memory: bool,
    fails: spec_fn(nat) -> bool,
    steps: nat,
    lock_again: bool,
    fails_again: spec_fn(nat) -> bool,
    more_steps: nat,
)
    requires
        have_table_rows(copies),
        migration_run(copies, lock_in_memory, fails, steps).state.phase is Finished,
        migration_run(
            migration_run(copies, lock_in_memory, fails, steps).copies,
            lock_again,
            fails_again,
            more_steps,
        ).state.phase is Finished,
    ensures
        ({
            let once = migration_run(copies, lock_in_memory, fails, steps).copies;
            let twice = migration_run(once, lock_again, fails_again, more_steps).copies;
            &&& same_sources(once, twice)
            &&& forall|i: int|
                0 <= i < once.len() ==> (#[trigger] twice[i]).committed == once[i].committed
        }),
{
    let once = migration_run(copies, lock_in_memory, fails, steps).copies;
    let twice = migration_run(once, lock_again, fails_again, more_steps).copies;
    lemma_run_in_step(copies, lock_in_memory, fails, steps);
    finished_migration_copied_every_table(once, lock_again, fails_again, more_steps);
    assert forall|i: int| 0 <= i < once.len() implies (#[trigger] twice[i]).committed
        == once[i].committed by {
        assert(once[i].committed == rows_to_copy(once[i]));
    }
}

/// A failure to lock the pages in memory is no failure of the migration, and every other failure
/// is.
pub proof fn only_locking_may_fail(tables: int, lock_in_memory: bool, state: MigrationView)
    ensures
        after_event(tables, lock_in_memory, state, MigrationEvent::Error).phase
            == (if state.phase is LockPages {
            Phase::Finished
        } else {
            Phase::Failed
        }),
{
}

/// What is done ends with being done or with a failure; only opening a table in the main
/// environment may find it missing, and only reading ends with a row or with none.
pub open spec fn may_end_with(phase: Phase, event: MigrationEvent) -> bool {
    &&& phase != Phase::Finished
    &&& phase != Phase::Failed
    &&& event == MigrationEvent::Done ==> phase != Phase::ReadRow
    &&& event == MigrationEvent::SourceMissing ==> phase == Phase::OpenSource
    &&& event == MigrationEvent::Row ==> phase == Phase::ReadRow
    &&& event == MigrationEvent::NoMoreRows ==> phase == Phase::ReadRow
}

/// Every phase can go on from whatever it may end with, and from nothing else.
pub proof fn phases_go_on_from_every_ending(phase: Phase, event: MigrationEvent)
    ensures
        fits(phase, event) <==> may_end_with(phase, event),
{
}

/// The phases follow each other in the same way for every table: two transactions are begun, the
/// table is created and emptied, the one in the main environment is opened, its rows are read and
/// written in turn until there are none, and both transactions are committed; then comes the next
/// table. A table that is missing in the main environment has no rows. What fails ends it, but for
/// the locking of the pages.
pub proof fn phases_follow_each_other(migration: &mut Migration, event: MigrationEvent)
    requires
        may_end_with(old(migration).phase, event),
        call_ensures(Migration::next, (migration, event), ()),
    ensures
        event == MigrationEvent::Error && old(migration).phase != Phase::LockPages
            ==> final(migration).phase == Phase::Failed,
        event != MigrationEvent::Error || old(migration).phase == Phase::LockPages ==> {
            let before = old(migration).phase;
            let after = final(migration).phase;
            &&& before == Phase::CreateDirectory <==> after == Phase::OpenMain
            &&& before == Phase::OpenMain <==> after == Phase::OpenPlain
            &&& before == Phase::BeginSource <==> after == Phase::BeginDestination
            &&& before == Phase::BeginDestination <==> after == Phase::CreateTable
            &&& before == Phase::CreateTable <==> after == Phase::ClearTable
            &&& before == Phase::ClearTable <==> after == Phase::OpenSource
            &&& before == Phase::OpenSource && event == MigrationEvent::Done <==> after
                == Phase::OpenCursor
            &&& before == Phase::OpenCursor || before == Phase::PutRow <==> after == Phase::ReadRow
            &&& before == Phase::ReadRow && event == MigrationEvent::Row <==> after == Phase::PutRow
            &&& (before == Phase::OpenSource && event == MigrationEvent::SourceMissing) || (before
                == Phase::ReadRow && event == MigrationEvent::NoMoreRows) <==> after
                == Phase::CommitSource
            &&& before == Phase::CommitSource <==> after == Phase::CommitDestination
            &&& before == Phase::LockPages ==> after == Phase::Finished
            &&& after != Phase::CreateDirectory && after != Phase::Failed
        },
{
}

/// The tables are worked on one after the other, from the first to the last, and none is left out:
/// only when the last one is committed, or there is none, is the rest done. A migration keeps its
/// tables, counts the rows of each anew, and counts each row that was written once.
pub proof fn tables_are_worked_on_in_turn(migration: &mut Migration, event: MigrationEvent)
    requires
        may_end_with(old(migration).phase, event),
        call_ensures(Migration::next, (migration, event), ()),
    ensures
        final(migration).tables == old(migration).tables,
        final(migration).lock_in_memory == old(migration).lock_in_memory,
        event != MigrationEvent::Error && (old(migration).phase == Phase::OpenPlain
            || old(migration).phase == Phase::CommitDestination) ==> {
            let count = old(migration).tables@.len();
            let table = if old(migration).phase == Phase::OpenPlain {
                0
            } else {
                old(migration).table + 1
            };
            &&& final(migration).table == table
            &&& final(migration).copied == 0
            &&& table < count ==> final(migration).phase == Phase::BeginSource
            &&& table >= count && old(migration).lock_in_memory ==> final(migration).phase
                == Phase::LockPages
            &&& table >= count && !old(migration).lock_in_memory ==> final(migration).phase
                == Phase::Finished
        },
        event == MigrationEvent::Error || (old(migration).phase != Phase::OpenPlain
            && old(migration).phase != Phase::CommitDestination) ==> {
            &&& final(migration).table == old(migration).table
            &&& old(migration).phase == Phase::PutRow && event == MigrationEvent::Done
                ==> final(migration).copied == old(migration).copied + 1
            &&& old(migration).phase != Phase::PutRow || event == MigrationEvent::Error
                ==> final(migration).copied == old(migration).copied
        },
{
}

/// A migration begins with the directory, before the first table; and while a table is worked on,
/// it is the one that is named.
pub proof fn migration_begins_with_the_directory(
    tables: Vec<MigrationTable>,
    lock_in_memory: bool,
    fresh: Migration,
    migration: &Migration,
    current: Option<&MigrationTable>,
)
    requires
        call_ensures(Migration::new, (tables, lock_in_memory), fresh),
        migration.well_formed(),
        call_ensures(Migration::current_table, (migration,), current),
    ensures
        fresh.phase == Phase::CreateDirectory,
        fresh.table == 0 && fresh.copied == 0,
        fresh.tables == tables,
        fresh.lock_in_memory == lock_in_memory,
        current is None <==> (migration.phase == Phase::CreateDirectory || migration.phase
            == Phase::OpenMain || migration.phase == Phase::OpenPlain || migration.phase
            == Phase::LockPages || migration.phase == Phase::Finished || migration.phase
            == Phase::Failed),
        current is Some ==> *current->0 == migration.tables@[migration.table as int],
{
}

/// No table is emptied, opened, written or committed that was not created before: whichever steps
/// fail, a run that comes to one of these phases sees the table in the plain-state environment.
pub proof fn tables_are_created_before_they_are_used(
    copies: Seq<TableCopy>,
    lock_in_memory: bool,
    fails: spec_fn(nat) -> bool,
    steps: nat,
)
    requires
        have_table_rows(copies),
    ensures
        ({
            let run = migration_run(copies, lock_in_memory, fails, steps);
            let phase = run.state.phase;
            &&& phase is ClearTable || phase is OpenSource || phase is OpenCursor || phase
                is ReadRow || phase is PutRow || phase is CommitSource || phase
                is CommitDestination ==> run.copies[run.state.table].created
            &&& can_be_done(run)
        }),
{
    lemma_run_in_step(copies, lock_in_memory, fails, steps);
    let run = migration_run(copies, lock_in_memory, fails, steps);
    if works_on_table(run.state.phase) {
        copies_stay_in_step(
            run.copies.len() as int,
            lock_in_memory,
            run.copies[run.state.table],
            run.state,
        );
    }
}

} // verus!
