//! One run of the tool as a machine that decides what happens next: it asks
//! for shell commands to be run, for text to be shown and for the percentages
//! to be written, and it is told what came back.

use vstd::prelude::*;
use vstd::utf8::{valid_utf8, decode_utf8};
use crate::clock::{is_valid_date, ymd_text, ymd_date_text};
use crate::commands::{
    search_command_text, record_count_command_text, record_slice_command_text,
    file_count_command_text, remove_line_command_text, append_row_command_text,
    record_count_command, record_slice_command, file_count_command, append_row_command,
};
use crate::error::Failure;
use crate::log::{
    EntryCheck, version_check, date_check, entry_found, output_text, decode_output,
    last_record_index, last_record_index_spec, line_removals, law_printed_count_gives_index,
};
use crate::report::{
    Count, CellFigures, ReportRows, language_table, languages,
    string_table_views, counts_json_text, counts_json, read_counts, count_matches,
    report_figures_spec, report_figures, figure_rows, report_rows, folder_header_text,
    language_header_text, previous_row_text, current_row_text, difference_row_text,
    change_row_text,
};
use crate::json::parsed_json_integers;
use crate::text::{
    split_spec, split_at_char, lemma_split_len, string_views, is_white_space, lemma_trim_white_space,
    integer_text, join_spec, law_split_then_join,
};

verus! {

/// What the command line asks of a run.
pub struct Settings {
    /// The repository whose files are counted and whose log is read and written.
    pub repo_path: String,
    /// The folders to count, separated by commas.
    pub folders: String,
    /// The version to record; empty to record by date.
    pub version: String,
    /// Whether to leave the log unchanged.
    pub dry_run: bool,
}

/// Where a run stands.
#[derive(Debug, Clone, Copy, PartialEq, Eq, Structural)]
pub enum Stage {
    /// Waiting for the output of the search for the version.
    VersionSearch,
    /// Waiting for the output of the search for the date.
    DateSearch,
    /// A message has been shown; the run ends after it.
    Stopping,
    /// Waiting for the record count of the log.
    RecordCount,
    /// Waiting for the last entry of the log.
    RecordSlice,
    /// Waiting for the file count of a language in a folder.
    FileCount { language: usize, folder: usize },
    /// Waiting for the shares and changes in percent.
    Percentages,
    /// The report has been shown.
    Reporting,
    /// Waiting for the write command at `next` to end.
    Writing { next: usize },
    /// The run is over.
    Finished,
}

/// What the run asks its caller to do.
pub enum Action {
    /// Run this command with `sh -c` and hand back what it printed.
    Run(String),
    /// Write this text and a line break to standard output.
    Show(String),
    /// Write, for each cell of the run's figures, the share of the current
    /// count in its folder's total and the change from the previous count, in
    /// percent, and hand them back.
    Percentages,
    /// Stop: the run cannot go on.
    Fail(Failure),
    /// The run is over.
    Finish,
}

/// What the caller hands back.
pub enum Event {
    /// What a command printed on its standard output.
    Output(Vec<u8>),
    /// The share texts and the change texts, indexed by folder, then by language.
    Percentages(Vec<Vec<String>>, Vec<Vec<String>>),
    /// A text has been shown.
    Shown,
}

/// A run of the tool.
pub struct Run {
    pub settings: Settings,
    /// The date of the run.
    pub date: String,
    /// The folders, cut at the commas.
    pub folders: Vec<String>,
    /// The names of the languages.
    pub names: Vec<String>,
    /// The file extensions of the languages.
    pub extensions: Vec<String>,
    pub stage: Stage,
    /// The fields of the last entry of the log.
    pub previous: Vec<String>,
    /// The file count texts of the languages done so far, one row per language.
    pub count_rows: Vec<Vec<String>>,
    /// The file count texts of the current language so far.
    pub count_row: Vec<String>,
    /// The counts read back from the JSON object, by language, then by folder.
    pub counts: Vec<Vec<Option<Count>>>,
    /// The figures of the report, by folder, then by language.
    pub figures: Vec<Vec<CellFigures>>,
    /// The commands that change the log, in order.
    pub writes: Vec<String>,
}

/// The message shown when the log has an entry for the version.
pub open spec fn version_message(version: Seq<char>) -> Seq<char> {
    "File already has an entry for version "@ + version + "."@
}

/// The message shown when the log has an entry for the date.
pub open spec fn date_message(date: Seq<char>) -> Seq<char> {
    "File already has an entry for date "@ + date + "."@
}

impl Run {
    /// The number of folders.
    pub open spec fn folder_count(&self) -> int {
        self.folders@.len() as int
    }

    /// The number of languages.
    pub open spec fn language_count(&self) -> int {
        self.names@.len() as int
    }

    /// What holds of a run at every stage.
    pub open spec fn wf(&self) -> bool {
        &&& string_views(self.folders@) == split_spec(self.settings.folders@, ',')
        &&& self.folders@.len() >= 1
        &&& self.names@.len() == language_table().len()
        &&& self.extensions@.len() == language_table().len()
        &&& self.settings.dry_run ==> self.writes@.len() == 0
        &&& forall|i: int|
            0 <= i < language_table().len() ==> #[trigger] self.names@[i]@ == language_table()[i].0
                && self.extensions@[i]@ == language_table()[i].1
        &&& match self.stage {
            Stage::FileCount { language, folder } => {
                &&& language < self.language_count()
                &&& folder < self.folder_count()
                &&& self.count_rows@.len() == language
                &&& (forall|i: int|
                    0 <= i < language ==> (#[trigger] self.count_rows@[i])@.len()
                        == self.folder_count())
                &&& self.count_row@.len() == folder
            },
            Stage::Percentages => {
                &&& self.counts@.len() == self.language_count()
                &&& (forall|l: int|
                    0 <= l < self.language_count() ==> (#[trigger] self.counts@[l])@.len()
                        == self.folder_count())
                &&& report_figures_spec(
                    self.counts@,
                    string_views(self.previous@),
                    self.folder_count(),
                ) == Ok::<Seq<Seq<CellFigures>>, Failure>(figure_rows(self.figures@))
            },
            Stage::Writing { next } => next < self.writes@.len(),
            _ => true,
        }
    }

    /// Whether `event` is what the run waits for at its stage: the output of
    /// a command, the acknowledgement of a shown text, or texts of the shape of
    /// the figures.
    pub open spec fn accepts(&self, event: &Event) -> bool {
        match self.stage {
            Stage::VersionSearch | Stage::DateSearch | Stage::RecordCount | Stage::RecordSlice
            | Stage::FileCount { .. } | Stage::Writing { .. } => event is Output,
            Stage::Stopping | Stage::Reporting => event is Shown,
            Stage::Percentages => match event {
                Event::Percentages(shares, changes) => {
                    &&& shares@.len() == self.folder_count()
                    &&& changes@.len() == self.folder_count()
                    &&& forall|f: int|
                        0 <= f < self.folder_count() ==> (#[trigger] shares@[f])@.len()
                            == self.language_count() && changes@[f]@.len()
                            == self.language_count()
                },
                _ => false,
            },
            Stage::Finished => true,
        }
    }
}

/// The fields that no step changes: the settings, the date, the folders and the languages.
pub open spec fn keeps_inputs(old: Run, new: Run) -> bool {
    &&& new.settings == old.settings
    &&& new.date == old.date
    &&& new.folders == old.folders
    &&& new.names == old.names
    &&& new.extensions == old.extensions
}

/// `new` is `old` but for its stage.
pub open spec fn same_but_stage(old: Run, new: Run) -> bool {
    &&& keeps_inputs(old, new)
    &&& new.previous == old.previous
    &&& new.count_rows == old.count_rows
    &&& new.count_row == old.count_row
    &&& new.counts == old.counts
    &&& new.figures == old.figures
    &&& new.writes == old.writes
}

/// The run stops: `Fail(failure)`, and nothing is left to do.
pub open spec fn fails(new: Run, action: Action, failure: Failure) -> bool {
    &&& new.stage == Stage::Finished
    &&& action == Action::Fail(failure)
}

/// The run asks for the record count of the log.
pub open spec fn asks_record_count(old: Run, new: Run, action: Action) -> bool {
    &&& new.stage == Stage::RecordCount
    &&& action matches Action::Run(c) && c@ == record_count_command_text(old.settings.repo_path@)
}

/// The file count command of language `l` in folder `f`.
pub open spec fn file_count_of(run: Run, l: int, f: int) -> Seq<char> {
    file_count_command_text(
        run.names@[l]@,
        run.extensions@[l]@,
        run.settings.repo_path@,
        run.folders@[f]@,
    )
}

/// After the search for the version printed `stdout`: stop where it is no
/// UTF-8; show the version message and stop where it found an entry; otherwise
/// go on with the date where the version is empty, else with the record count.
pub open spec fn after_version_search(old: Run, stdout: Seq<u8>, new: Run, action: Action) -> bool {
    if !valid_utf8(stdout) {
        fails(new, action, Failure::OutputNotUtf8)
    } else if output_text(stdout).len() > 0 {
        &&& new.stage == Stage::Stopping
        &&& action matches Action::Show(t) && t@ == version_message(old.settings.version@)
    } else if old.settings.version@.len() == 0 {
        after_version(old, new, action)
    } else {
        asks_record_count(old, new, action)
    }
}

/// Once no entry for the version was found and the version is empty: the
/// check for the date, where an empty date counts as recorded.
pub open spec fn after_version(old: Run, new: Run, action: Action) -> bool {
    if old.date@.len() > 0 {
        &&& new.stage == Stage::DateSearch
        &&& action matches Action::Run(c) && c@ == search_command_text(
            "2"@,
            old.date@,
            old.settings.repo_path@,
        )
    } else {
        &&& new.stage == Stage::Stopping
        &&& action matches Action::Show(t) && t@ == date_message(old.date@)
    }
}

/// After the search for the date printed `stdout`.
pub open spec fn after_date_search(old: Run, stdout: Seq<u8>, new: Run, action: Action) -> bool {
    if !valid_utf8(stdout) {
        fails(new, action, Failure::OutputNotUtf8)
    } else if output_text(stdout).len() > 0 {
        &&& new.stage == Stage::Stopping
        &&& action matches Action::Show(t) && t@ == date_message(old.date@)
    } else {
        asks_record_count(old, new, action)
    }
}

/// After the record count printed `stdout`: ask for the record two before its end.
pub open spec fn after_record_count(old: Run, stdout: Seq<u8>, new: Run, action: Action) -> bool {
    match last_record_index_spec(stdout) {
        Err(e) => fails(new, action, e),
        Ok(i) => {
            &&& new.stage == Stage::RecordSlice
            &&& action matches Action::Run(c) && c@ == record_slice_command_text(
                old.settings.repo_path@,
                i as int,
            )
        },
    }
}

/// After the last entry was printed: keep its fields and ask for the first file count.
pub open spec fn after_record_slice(old: Run, stdout: Seq<u8>, new: Run, action: Action) -> bool {
    if !valid_utf8(stdout) {
        fails(new, action, Failure::OutputNotUtf8)
    } else {
        &&& string_views(new.previous@) == split_spec(output_text(stdout), ',')
        &&& new.count_rows@.len() == 0
        &&& new.count_row@.len() == 0
        &&& new.stage == (Stage::FileCount { language: 0, folder: 0 })
        &&& action matches Action::Run(c) && c@ == file_count_of(old, 0, 0)
    }
}

/// After the file count of language `l` in folder `f` was printed: keep it, and
/// ask for the next one, folder after folder within a language; after the last
/// one, read all counts back from their JSON object and work out the figures.
pub open spec fn after_file_count(
    old: Run,
    l: int,
    f: int,
    stdout: Seq<u8>,
    new: Run,
    action: Action,
) -> bool {
    if !valid_utf8(stdout) {
        fails(new, action, Failure::OutputNotUtf8)
    } else {
        let row = string_views(old.count_row@).push(output_text(stdout));
        if f + 1 < old.folder_count() {
            &&& string_table_views(new.count_rows@) == string_table_views(old.count_rows@)
            &&& string_views(new.count_row@) == row
            &&& new.stage == (Stage::FileCount { language: l as usize, folder: (f + 1) as usize })
            &&& action matches Action::Run(c) && c@ == file_count_of(old, l, f + 1)
        } else if l + 1 < old.language_count() {
            &&& string_table_views(new.count_rows@) == string_table_views(old.count_rows@).push(row)
            &&& new.count_row@.len() == 0
            &&& new.stage == (Stage::FileCount { language: (l + 1) as usize, folder: 0 })
            &&& action matches Action::Run(c) && c@ == file_count_of(old, l + 1, 0)
        } else {
            let table = string_table_views(old.count_rows@).push(row);
            let text = counts_json_text(string_views(old.names@), string_views(old.folders@), table);
            match parsed_json_integers(text) {
                None => fails(new, action, Failure::InvalidCountsJson),
                Some(integers) => {
                    &&& new.counts@.len() == old.language_count()
                    &&& forall|k: int|
                        0 <= k < old.language_count() ==> (#[trigger] new.counts@[k])@.len()
                            == old.folder_count() && (forall|g: int|
                            0 <= g < old.folder_count() ==> count_matches(
                                #[trigger] new.counts@[k]@[g],
                                integers,
                                old.names@[k]@,
                                old.folders@[g]@,
                            ))
                    &&& match report_figures_spec(
                        new.counts@,
                        string_views(old.previous@),
                        old.folder_count(),
                    ) {
                        Err(e) => fails(new, action, e),
                        Ok(figures) => {
                            &&& figure_rows(new.figures@) == figures
                            &&& new.stage == Stage::Percentages
                            &&& action == Action::Percentages
                        },
                    }
                },
            }
        }
    }
}

/// The text shown as the report: its six rows, one per line.
pub open spec fn report_text(
    run: Run,
    shares: Seq<Vec<String>>,
    changes: Seq<Vec<String>>,
) -> Seq<char> {
    let (nf, nl) = (run.folder_count(), run.language_count());
    folder_header_text(string_views(run.folders@), nl) + "\n"@ + language_header_text(
        nf,
        string_views(run.names@),
    ) + "\n"@ + previous_row_text(nf, nl, string_views(run.previous@)) + "\n"@
        + current_row_text(nf, nl, run.settings.version@, run.date@, run.counts@, shares)
        + "\n"@ + difference_row_text(nf, nl, run.figures@) + "\n"@ + change_row_text(
        nf,
        nl,
        changes,
    )
}

/// The commands that change the log after the report: none in a dry run;
/// otherwise remove the last line twice, then append the current row, the
/// difference row and the change row.
pub open spec fn planned_writes(
    run: Run,
    shares: Seq<Vec<String>>,
    changes: Seq<Vec<String>>,
) -> Seq<Seq<char>> {
    let (nf, nl) = (run.folder_count(), run.language_count());
    let repo = run.settings.repo_path@;
    if run.settings.dry_run {
        Seq::empty()
    } else {
        seq![
            remove_line_command_text(repo),
            remove_line_command_text(repo),
            append_row_command_text(
                current_row_text(nf, nl, run.settings.version@, run.date@, run.counts@, shares),
                repo,
            ),
            append_row_command_text(difference_row_text(nf, nl, run.figures@), repo),
            append_row_command_text(change_row_text(nf, nl, changes), repo),
        ]
    }
}

/// After the percentages came back: show the report and plan the writes.
pub open spec fn after_percentages(
    old: Run,
    shares: Seq<Vec<String>>,
    changes: Seq<Vec<String>>,
    new: Run,
    action: Action,
) -> bool {
    &&& new.stage == Stage::Reporting
    &&& action matches Action::Show(t) && t@ == report_text(old, shares, changes)
    &&& string_views(new.writes@) == planned_writes(old, shares, changes)
}

/// Ask for the write at `next`, or finish where none is left.
pub open spec fn write_or_finish(old: Run, next: int, new: Run, action: Action) -> bool {
    if next < old.writes@.len() {
        &&& new.stage == (Stage::Writing { next: next as usize })
        &&& action matches Action::Run(c) && c@ == old.writes@[next]@
    } else {
        &&& new.stage == Stage::Finished
        &&& action == Action::Finish
    }
}

/// One step of a run: from the run `old` and the `event` it was waiting for, to
/// the run `new` and the `action` it asks for.
pub open spec fn transition(old: Run, event: Event, new: Run, action: Action) -> bool {
    &&& keeps_inputs(old, new)
    &&& (old.stage != Stage::RecordSlice ==> new.previous == old.previous)
    &&& ((old.stage is Percentages || old.stage is Reporting || old.stage is Writing)
        ==> new.counts == old.counts && new.figures == old.figures)
    &&& match old.stage {
        Stage::VersionSearch => after_version_search(old, event->Output_0@, new, action),
        Stage::DateSearch => after_date_search(old, event->Output_0@, new, action),
        Stage::RecordCount => after_record_count(old, event->Output_0@, new, action),
        Stage::RecordSlice => after_record_slice(old, event->Output_0@, new, action),
        Stage::FileCount { language, folder } => after_file_count(
            old,
            language as int,
            folder as int,
            event->Output_0@,
            new,
            action,
        ),
        Stage::Percentages => match event {
            Event::Percentages(shares, changes) => after_percentages(
                old,
                shares@,
                changes@,
                new,
                action,
            ),
            _ => false,
        },
        Stage::Reporting => new.writes == old.writes && write_or_finish(old, 0, new, action),
        Stage::Writing { next } => new.writes == old.writes && write_or_finish(
            old,
            next + 1,
            new,
            action,
        ),
        Stage::Stopping | Stage::Finished => new.stage == Stage::Finished && action
            == Action::Finish,
    }
}

/// The first action of a run on `date`, and the stage it leaves the run in:
/// search for the version where one is given; otherwise search for the date,
/// and where the date is empty, take it as recorded already.
pub open spec fn first_step(settings: Settings, date: Seq<char>, stage: Stage, action: Action) -> bool {
    if settings.version@.len() > 0 {
        &&& stage == Stage::VersionSearch
        &&& action matches Action::Run(c) && c@ == search_command_text(
            "1"@,
            settings.version@,
            settings.repo_path@,
        )
    } else if date.len() > 0 {
        &&& stage == Stage::DateSearch
        &&& action matches Action::Run(c) && c@ == search_command_text(
            "2"@,
            date,
            settings.repo_path@,
        )
    } else {
        &&& stage == Stage::Stopping
        &&& action matches Action::Show(t) && t@ == date_message(date)
    }
}

impl Run {
    /// A run with `settings` on `date`, and its first action (see [`first_step`]).
    pub fn new(settings: Settings, date: String) -> (r: (Run, Action))
        ensures
            r.0.wf(),
            r.0.settings == settings,
            r.0.date@ == date@,
            first_step(settings, date@, r.0.stage, r.1),
    {
        let folders = split_at_char(settings.folders.as_str(), ',');
        proof {
            lemma_split_len(settings.folders@, ',');
        }
        let table = languages();
        let mut names: Vec<String> = Vec::new();
        let mut extensions: Vec<String> = Vec::new();
        let mut i: usize = 0;
        while i < table.len()
            invariant
                0 <= i <= table@.len(),
                table@.len() == language_table().len(),
                forall|k: int|
                    0 <= k < table@.len() ==> (#[trigger] table@[k]).name@ == language_table()[k].0
                        && table@[k].extensions@ == language_table()[k].1,
                names@.len() == i,
                extensions@.len() == i,
                forall|k: int|
                    0 <= k < i ==> #[trigger] names@[k]@ == language_table()[k].0
                        && extensions@[k]@ == language_table()[k].1,
            decreases table@.len() - i,
        {
            let name = table[i].name.clone();
            let ext = table[i].extensions.clone();
            assert(name@ == language_table()[i as int].0);
            names.push(name);
            extensions.push(ext);
            assert(names@[i as int]@ == language_table()[i as int].0);
            i = i + 1;
        }
        let (stage, action) = match version_check(settings.repo_path.as_str(), settings.version.as_str()) {
            EntryCheck::Search(c) => (Stage::VersionSearch, Action::Run(c)),
            EntryCheck::Known(_) => match date_check(settings.repo_path.as_str(), date.as_str()) {
                EntryCheck::Search(c) => (Stage::DateSearch, Action::Run(c)),
                EntryCheck::Known(_) => {
                    let mut t = String::new();
                    t.append("File already has an entry for date ");
                    t.append(date.as_str());
                    t.append(".");
                    assert(t@ =~= date_message(date@));
                    (Stage::Stopping, Action::Show(t))
                },
            },
        };
        let run = Run {
            settings,
            date,
            folders,
            names,
            extensions,
            stage,
            previous: Vec::new(),
            count_rows: Vec::new(),
            count_row: Vec::new(),
            counts: Vec::new(),
            figures: Vec::new(),
            writes: Vec::new(),
        };
        (run, action)
    }

    /// A run with `settings` on the date `year`, `month`, `day`, written as
    /// `%Y-%m-%d` (see [`ymd_text`]).
    pub fn start(settings: Settings, year: i32, month: u32, day: u32) -> (r: (Run, Action))
        requires
            is_valid_date(year as int, month as int, day as int),
        ensures
            r.0.wf(),
            r.0.settings == settings,
            r.0.date@ == ymd_text(year as int, month as int, day as int),
            first_step(settings, r.0.date@, r.0.stage, r.1),
    {
        let date = ymd_date_text(year, month, day);
        Run::new(settings, date)
    }
}

impl Run {
    fn stop(&mut self, failure: Failure) -> (action: Action)
        ensures
            fails(*final(self), action, failure),
            same_but_stage(*old(self), *final(self)),
    {
        self.stage = Stage::Finished;
        Action::Fail(failure)
    }

    fn ask_record_count(&mut self) -> (action: Action)
        ensures
            asks_record_count(*old(self), *final(self), action),
            same_but_stage(*old(self), *final(self)),
    {
        self.stage = Stage::RecordCount;
        Action::Run(record_count_command(self.settings.repo_path.as_str()))
    }

    fn ask_file_count(&self, l: usize, f: usize) -> (action: Action)
        requires
            self.wf(),
            l < self.language_count(),
            f < self.folder_count(),
        ensures
            action matches Action::Run(c) && c@ == file_count_of(*self, l as int, f as int),
    {
        proof {
            assert(self.names@[l as int]@ == language_table()[l as int].0);
        }
        Action::Run(
            file_count_command(
                self.names[l].as_str(),
                self.extensions[l].as_str(),
                self.settings.repo_path.as_str(),
                self.folders[f].as_str(),
            ),
        )
    }

    fn after_version_searched(&mut self, stdout: &Vec<u8>) -> (action: Action)
        requires
            old(self).wf(),
        ensures
            final(self).wf(),
            keeps_inputs(*old(self), *final(self)),
            final(self).previous == old(self).previous,
            after_version_search(*old(self), stdout@, *final(self), action),
    {
        match entry_found(stdout.as_slice()) {
            None => self.stop(Failure::OutputNotUtf8),
            Some(true) => {
                let mut t = String::new();
                t.append("File already has an entry for version ");
                t.append(self.settings.version.as_str());
                t.append(".");
                assert(t@ =~= version_message(self.settings.version@));
                self.stage = Stage::Stopping;
                Action::Show(t)
            },
            Some(false) => {
                if self.settings.version.as_str().is_empty() {
                    match date_check(self.settings.repo_path.as_str(), self.date.as_str()) {
                        EntryCheck::Search(c) => {
                            self.stage = Stage::DateSearch;
                            Action::Run(c)
                        },
                        EntryCheck::Known(_) => {
                            let mut t = String::new();
                            t.append("File already has an entry for date ");
                            t.append(self.date.as_str());
                            t.append(".");
                            assert(t@ =~= date_message(self.date@));
                            self.stage = Stage::Stopping;
                            Action::Show(t)
                        },
                    }
                } else {
                    self.ask_record_count()
                }
            },
        }
    }

    fn after_date_searched(&mut self, stdout: &Vec<u8>) -> (action: Action)
        requires
            old(self).wf(),
        ensures
            final(self).wf(),
            keeps_inputs(*old(self), *final(self)),
            final(self).previous == old(self).previous,
            after_date_search(*old(self), stdout@, *final(self), action),
    {
        match entry_found(stdout.as_slice()) {
            None => self.stop(Failure::OutputNotUtf8),
            Some(true) => {
                let mut t = String::new();
                t.append("File already has an entry for date ");
                t.append(self.date.as_str());
                t.append(".");
                assert(t@ =~= date_message(self.date@));
                self.stage = Stage::Stopping;
                Action::Show(t)
            },
            Some(false) => self.ask_record_count(),
        }
    }

    fn after_record_counted(&mut self, stdout: &Vec<u8>) -> (action: Action)
        requires
            old(self).wf(),
        ensures
            final(self).wf(),
            keeps_inputs(*old(self), *final(self)),
            final(self).previous == old(self).previous,
            after_record_count(*old(self), stdout@, *final(self), action),
    {
        match last_record_index(stdout.as_slice()) {
            Err(e) => self.stop(e),
            Ok(i) => {
                self.stage = Stage::RecordSlice;
                Action::Run(record_slice_command(self.settings.repo_path.as_str(), i))
            },
        }
    }

    fn after_record_sliced(&mut self, stdout: &Vec<u8>) -> (action: Action)
        requires
            old(self).wf(),
        ensures
            final(self).wf(),
            keeps_inputs(*old(self), *final(self)),
            after_record_slice(*old(self), stdout@, *final(self), action),
    {
        match decode_output(stdout.as_slice()) {
            None => self.stop(Failure::OutputNotUtf8),
            Some(t) => {
                let fields = split_at_char(t.as_str(), ',');
                self.previous = fields;
                self.count_rows = Vec::new();
                self.count_row = Vec::new();
                self.stage = Stage::FileCount { language: 0, folder: 0 };
                self.ask_file_count(0, 0)
            },
        }
    }

    fn after_file_counted(&mut self, l: usize, f: usize, stdout: &Vec<u8>) -> (action: Action)
        requires
            old(self).wf(),
            old(self).stage == (Stage::FileCount { language: l, folder: f }),
        ensures
            final(self).wf(),
            keeps_inputs(*old(self), *final(self)),
            final(self).previous == old(self).previous,
            after_file_count(*old(self), l as int, f as int, stdout@, *final(self), action),
    {
        let t = match decode_output(stdout.as_slice()) {
            None => return self.stop(Failure::OutputNotUtf8),
            Some(t) => t,
        };
        let ghost old_rows = string_table_views(self.count_rows@);
        let ghost row = string_views(self.count_row@).push(t@);
        self.count_row.push(t);
        assert(string_views(self.count_row@) =~= row);
        let nf = self.folders.len();
        let nl = self.names.len();
        if f + 1 < nf {
            self.stage = Stage::FileCount { language: l, folder: f + 1 };
            return self.ask_file_count(l, f + 1);
        }
        let mut done: Vec<String> = Vec::new();
        std::mem::swap(&mut done, &mut self.count_row);
        let ghost before_push = self.count_rows@;
        self.count_rows.push(done);
        assert(string_table_views(self.count_rows@) =~= old_rows.push(row));
        if l + 1 < nl {
            self.stage = Stage::FileCount { language: l + 1, folder: 0 };
            return self.ask_file_count(l + 1, 0);
        }
        let text = counts_json(&self.names, &self.folders, &self.count_rows);
        let counts = match read_counts(text.as_str(), &self.names, &self.folders) {
            Err(e) => return self.stop(e),
            Ok(c) => c,
        };
        let ghost spec_text = counts_json_text(
            string_views(self.names@),
            string_views(self.folders@),
            string_table_views(self.count_rows@),
        );
        assert(text@ == spec_text);
        assert(t@ == output_text(stdout@));
        assert(string_views(old(self).count_row@).push(output_text(stdout@)) == row);
        assert(spec_text == counts_json_text(
            string_views(old(self).names@),
            string_views(old(self).folders@),
            string_table_views(old(self).count_rows@).push(string_views(old(self).count_row@).push(output_text(stdout@))),
        ));
        let ghost integers = parsed_json_integers(text@)->0;
        assert forall|k: int|
            0 <= k < nl implies (#[trigger] counts@[k])@.len() == nf && (forall|g: int|
                0 <= g < nf ==> count_matches(
                    #[trigger] counts@[k]@[g],
                    integers,
                    self.names@[k]@,
                    self.folders@[g]@,
                )) by {
            assert(counts@[k]@.len() == nf);
        }
        self.counts = counts;
        match report_figures(&self.counts, &self.previous, nf) {
            Err(e) => self.stop(e),
            Ok(figures) => {
                self.figures = figures;
                self.stage = Stage::Percentages;
                Action::Percentages
            },
        }
    }

    fn after_percentages_given(
        &mut self,
        shares: &Vec<Vec<String>>,
        changes: &Vec<Vec<String>>,
    ) -> (action: Action)
        requires
            old(self).wf(),
            old(self).stage == Stage::Percentages,
            old(self).accepts(&Event::Percentages(*shares, *changes)),
        ensures
            final(self).wf(),
            keeps_inputs(*old(self), *final(self)),
            final(self).previous == old(self).previous,
            final(self).counts == old(self).counts,
            final(self).figures == old(self).figures,
            after_percentages(*old(self), shares@, changes@, *final(self), action),
    {
        let ghost prev = string_views(self.previous@);
        proof {
            crate::report::lemma_report_figures_fit(
                self.counts@,
                prev,
                self.folder_count(),
                self.figures@,
            );
            assert(self.counts@.len() == self.language_count());
            assert(shares@.len() == self.folder_count());
            assert(forall|f: int| 0 <= f < self.folder_count() ==> (#[trigger] shares@[f])@.len() == self.language_count());
            assert forall|f: int| 0 <= f < self.folder_count() implies (#[trigger] changes@[f])@.len() == self.language_count() by {
                assert(shares@[f]@.len() == self.language_count());
            }
            assert(prev.len() == self.previous@.len());
        }
        let rows: ReportRows = report_rows(
            self.settings.version.as_str(),
            self.date.as_str(),
            &self.folders,
            &self.names,
            &self.previous,
            &self.counts,
            &self.figures,
            shares,
            changes,
        );
        let mut text = String::new();
        text.append(rows.folder_header.as_str());
        text.append("\n");
        text.append(rows.language_header.as_str());
        text.append("\n");
        text.append(rows.previous_row.as_str());
        text.append("\n");
        text.append(rows.current_row.as_str());
        text.append("\n");
        text.append(rows.difference_row.as_str());
        text.append("\n");
        text.append(rows.change_row.as_str());
        assert(text@ =~= report_text(*self, shares@, changes@));
        let repo = self.settings.repo_path.as_str();
        let mut writes = line_removals(repo, self.settings.dry_run);
        if !self.settings.dry_run {
            let ghost before = string_views(writes@);
            writes.push(append_row_command(rows.current_row.as_str(), repo));
            writes.push(append_row_command(rows.difference_row.as_str(), repo));
            writes.push(append_row_command(rows.change_row.as_str(), repo));
            assert(string_views(writes@) =~= planned_writes(*self, shares@, changes@));
        } else {
            assert(string_views(writes@) =~= planned_writes(*self, shares@, changes@));
        }
        self.writes = writes;
        self.stage = Stage::Reporting;
        Action::Show(text)
    }

    fn write_or_finish_at(&mut self, next: usize) -> (action: Action)
        requires
            old(self).wf(),
        ensures
            final(self).wf(),
            keeps_inputs(*old(self), *final(self)),
            final(self).previous == old(self).previous,
            final(self).counts == old(self).counts,
            final(self).figures == old(self).figures,
            final(self).writes == old(self).writes,
            write_or_finish(*old(self), next as int, *final(self), action),
    {
        if next < self.writes.len() {
            self.stage = Stage::Writing { next };
            Action::Run(self.writes[next].clone())
        } else {
            self.stage = Stage::Finished;
            Action::Finish
        }
    }
}

impl Run {
    /// One step of the run: `event` is what it waited for; the result is what
    /// it asks for next (see [`transition`]).
    pub fn step(&mut self, event: Event) -> (action: Action)
        requires
            old(self).wf(),
            old(self).accepts(&event),
        ensures
            final(self).wf(),
            transition(*old(self), event, *final(self), action),
    {
        match self.stage {
            Stage::VersionSearch => match &event {
                Event::Output(b) => self.after_version_searched(b),
                _ => {
                    assert(false);
                    Action::Finish
                },
            },
            Stage::DateSearch => match &event {
                Event::Output(b) => self.after_date_searched(b),
                _ => {
                    assert(false);
                    Action::Finish
                },
            },
            Stage::RecordCount => match &event {
                Event::Output(b) => self.after_record_counted(b),
                _ => {
                    assert(false);
                    Action::Finish
                },
            },
            Stage::RecordSlice => match &event {
                Event::Output(b) => self.after_record_sliced(b),
                _ => {
                    assert(false);
                    Action::Finish
                },
            },
            Stage::FileCount { language, folder } => match &event {
                Event::Output(b) => self.after_file_counted(language, folder, b),
                _ => {
                    assert(false);
                    Action::Finish
                },
            },
            Stage::Percentages => match &event {
                Event::Percentages(shares, changes) => self.after_percentages_given(shares, changes),
                _ => {
                    assert(false);
                    Action::Finish
                },
            },
            Stage::Reporting => self.write_or_finish_at(0),
            Stage::Writing { next } => {
                let n = self.writes.len();
                assert(next < n);
                self.write_or_finish_at(next + 1)
            },
            Stage::Stopping | Stage::Finished => {
                self.stage = Stage::Finished;
                Action::Finish
            },
        }
    }
}

/// Law: a dry run never changes the log. Whatever the step, it plans no
/// write, and it never reaches the stage in which the writes are run.
pub proof fn law_dry_run_writes_nothing(old: Run, event: Event, new: Run, action: Action)
    requires
        old.wf(),
        new.wf(),
        old.settings.dry_run,
        transition(old, event, new, action),
    ensures
        new.writes@.len() == 0,
        !(new.stage is Writing),
{
}

/// Law: where the log has an entry for the given version, the run shows the
/// message for that version and then ends, without asking for anything else.
pub proof fn law_recorded_version_ends_the_run(
    r0: Run,
    stdout: Vec<u8>,
    r1: Run,
    a1: Action,
    e2: Event,
    r2: Run,
    a2: Action,
)
    requires
        r0.wf(),
        r0.stage == Stage::VersionSearch,
        valid_utf8(stdout@),
        output_text(stdout@).len() > 0,
        transition(r0, Event::Output(stdout), r1, a1),
        transition(r1, e2, r2, a2),
    ensures
        a1 matches Action::Show(t) && t@ == version_message(r0.settings.version@),
        a2 == Action::Finish,
        r2.stage == Stage::Finished,
{
}

/// Law: where the log has an entry for the date, the run shows the message
/// for that date and then ends, without asking for anything else.
pub proof fn law_recorded_date_ends_the_run(
    r0: Run,
    stdout: Vec<u8>,
    r1: Run,
    a1: Action,
    e2: Event,
    r2: Run,
    a2: Action,
)
    requires
        r0.wf(),
        r0.stage == Stage::DateSearch,
        valid_utf8(stdout@),
        output_text(stdout@).len() > 0,
        transition(r0, Event::Output(stdout), r1, a1),
        transition(r1, e2, r2, a2),
    ensures
        a1 matches Action::Show(t) && t@ == date_message(r0.date@),
        a2 == Action::Finish,
        r2.stage == Stage::Finished,
{
}

/// Law: a run records either by version or by date, never both: with a
/// version it searches the log for that version (column 1); without one it
/// searches for the date (column 2).
pub proof fn law_version_or_date(settings: Settings, date: Seq<char>, stage: Stage, action: Action)
    requires
        first_step(settings, date, stage, action),
    ensures
        settings.version@.len() > 0 ==> (action matches Action::Run(c) && c@ == "xsv search -s 1 -n \""@
            + settings.version@ + "\" "@ + settings.repo_path@ + "/TYPESCRIPT_EVOLUTION.csv"@),
        settings.version@.len() == 0 && date.len() > 0 ==> (action matches Action::Run(c) && c@
            == "xsv search -s 2 -n \""@ + date + "\" "@ + settings.repo_path@
            + "/TYPESCRIPT_EVOLUTION.csv"@),
{
    reveal_strlit("xsv search -s ");
    reveal_strlit("1");
    reveal_strlit("2");
    reveal_strlit(" -n \"");
    reveal_strlit("xsv search -s 1 -n \"");
    reveal_strlit("xsv search -s 2 -n \"");
    let (v, r) = (settings.version@, settings.repo_path@);
    let tail = "\" "@ + r + "/TYPESCRIPT_EVOLUTION.csv"@;
    assert("xsv search -s "@ + "1"@ + " -n \""@ =~= "xsv search -s 1 -n \""@);
    assert("xsv search -s "@ + "2"@ + " -n \""@ =~= "xsv search -s 2 -n \""@);
    assert(search_command_text("1"@, v, r) =~= "xsv search -s 1 -n \""@ + v + tail);
    assert(search_command_text("2"@, date, r) =~= "xsv search -s 2 -n \""@ + date + tail);
}

/// Law: a run started on a date never takes that date as recorded without
/// looking: the written date is never empty, so without a version the run
/// always searches the log for it.
pub proof fn law_started_run_searches_its_date(
    settings: Settings,
    year: int,
    month: int,
    day: int,
    stage: Stage,
    action: Action,
)
    requires
        settings.version@.len() == 0,
        first_step(settings, ymd_text(year, month, day), stage, action),
    ensures
        stage == Stage::DateSearch,
        action matches Action::Run(c) && c@ == search_command_text(
            "2"@,
            ymd_text(year, month, day),
            settings.repo_path@,
        ),
{
    assert(ymd_text(year, month, day).len() > 0);
}

/// Law: a search that printed nothing but white space found no entry, and
/// the run goes on to read the log: after the date search (recording by date)
/// and after the version search for a given version, the next action is the
/// record count of the log `<repo>/TYPESCRIPT_EVOLUTION.csv`.
pub proof fn law_unrecorded_entry_goes_on_to_count(
    old: Run,
    stdout: Vec<u8>,
    new: Run,
    action: Action,
)
    requires
        old.stage == Stage::DateSearch || (old.stage == Stage::VersionSearch
            && old.settings.version@.len() > 0),
        transition(old, Event::Output(stdout), new, action),
        valid_utf8(stdout@),
        forall|i: int|
            0 <= i < decode_utf8(stdout@).len() ==> is_white_space(#[trigger] decode_utf8(stdout@)[i]),
    ensures
        new.stage == Stage::RecordCount,
        action matches Action::Run(c) && c@ == "xsv count "@ + old.settings.repo_path@
            + "/TYPESCRIPT_EVOLUTION.csv"@,
{
    lemma_trim_white_space(decode_utf8(stdout@));
    assert(Event::Output(stdout)->Output_0 == stdout);
}

/// Law: once the log's record count `n` is printed, the run asks for the
/// record at index `n - 2`, the last entry, by
/// `xsv slice -i <n - 2> -n <repo>/TYPESCRIPT_EVOLUTION.csv`.
pub proof fn law_record_count_asks_for_the_last_entry(
    old: Run,
    stdout: Vec<u8>,
    new: Run,
    action: Action,
    n: i32,
)
    requires
        old.stage == Stage::RecordCount,
        transition(old, Event::Output(stdout), new, action),
        valid_utf8(stdout@),
        output_text(stdout@) == integer_text(n as int),
        n >= i32::MIN + 2,
    ensures
        new.stage == Stage::RecordSlice,
        action matches Action::Run(c) && c@ == "xsv slice -i "@ + integer_text(n - 2) + " -n "@
            + old.settings.repo_path@ + "/TYPESCRIPT_EVOLUTION.csv"@,
{
    law_printed_count_gives_index(stdout@, n);
    assert(Event::Output(stdout)->Output_0 == stdout);
}

/// Law: the last entry is kept whole. After it was printed, its fields, put
/// back together with commas, give the printed text (trimmed), no field holds
/// a comma, and the run asks for the count of the first language's files in
/// the first folder.
pub proof fn law_last_entry_is_kept_field_by_field(
    old: Run,
    stdout: Vec<u8>,
    new: Run,
    action: Action,
)
    requires
        old.stage == Stage::RecordSlice,
        transition(old, Event::Output(stdout), new, action),
        valid_utf8(stdout@),
    ensures
        join_spec(string_views(new.previous@), ',') == output_text(stdout@),
        forall|i: int, k: int|
            0 <= i < new.previous@.len() && 0 <= k < new.previous@[i]@.len() ==> #[trigger] new.previous@[i]@[k]
                != ',',
        new.stage == (Stage::FileCount { language: 0, folder: 0 }),
        action matches Action::Run(c) && c@ == "rg --files --type-add '"@ + old.names@[0]@ + ":*{"@
            + old.extensions@[0]@ + "}' -t"@ + old.names@[0]@ + " "@ + old.settings.repo_path@ + "/"@
            + old.folders@[0]@ + " | wc -l"@,
{
    assert(Event::Output(stdout)->Output_0 == stdout);
    law_split_then_join(output_text(stdout@), ',');
    let v = string_views(new.previous@);
    assert forall|i: int, k: int|
        0 <= i < new.previous@.len() && 0 <= k < new.previous@[i]@.len() implies #[trigger] new.previous@[i]@[k]
            != ',' by {
        assert(v[i] == new.previous@[i]@);
    }
}

/// Law: the log gets the rows that were shown. Outside a dry run, the run
/// deletes the log's last line twice and then appends, in order, the last
/// three lines of the report it showed: the current counts, the differences
/// and the changes.
pub proof fn law_written_rows_are_the_shown_rows(
    old: Run,
    shares: Seq<Vec<String>>,
    changes: Seq<Vec<String>>,
    new: Run,
    action: Action,
)
    requires
        after_percentages(old, shares, changes, new, action),
        !old.settings.dry_run,
    ensures
        ({
            let (nf, nl) = (old.folder_count(), old.language_count());
            let log = old.settings.repo_path@ + "/TYPESCRIPT_EVOLUTION.csv"@;
            let head = folder_header_text(string_views(old.folders@), nl) + "\n"@
                + language_header_text(nf, string_views(old.names@)) + "\n"@ + previous_row_text(
                nf,
                nl,
                string_views(old.previous@),
            );
            let current = current_row_text(nf, nl, old.settings.version@, old.date@, old.counts@, shares);
            let difference = difference_row_text(nf, nl, old.figures@);
            let change = change_row_text(nf, nl, changes);
            &&& action matches Action::Show(t) && t@ == head + "\n"@ + current + "\n"@ + difference
                + "\n"@ + change
            &&& new.writes@.len() == 5
            &&& new.writes@[0]@ == "sed -i '$d' "@ + log
            &&& new.writes@[1]@ == "sed -i '$d' "@ + log
            &&& new.writes@[2]@ == "echo '"@ + current + "' >> "@ + log
            &&& new.writes@[3]@ == "echo '"@ + difference + "' >> "@ + log
            &&& new.writes@[4]@ == "echo '"@ + change + "' >> "@ + log
        }),
{
    let w = string_views(new.writes@);
    assert(w.len() == new.writes@.len());
    assert(w[0] == new.writes@[0]@);
    assert(w[1] == new.writes@[1]@);
    assert(w[2] == new.writes@[2]@);
    assert(w[3] == new.writes@[3]@);
    assert(w[4] == new.writes@[4]@);
}

} // verus!
