//! The job file: a line-oriented text of `[job:<id>]` sections with
//! `key = value` entries, and the cache that holds what was last loaded.

use vstd::prelude::*;
use vstd::string::*;
use vstd::utf8::*;
use crate::models::{fanout_commands, Fanout, FanoutView, JobSpec, JobSpecView};
use crate::parser::{compiled, expr_error, CronError, CronParser};
use crate::shell::{parse_command, tokenize, TokenError};
use crate::text::{
    chars_of, decimal, decimal_string, lemma_between_cuts_valid, lemma_cut_valid,
    lemma_position_bounds, memchr, parse_number, parse_unsigned, position, same_text, trim,
    trim_ascii, trim_chars, trim_str, utf8_str,
};

verus! {

/// What is wrong with one line of a job file.
pub enum LineFault {
    /// The line is neither a section header nor `key = value`.
    ExpectedKeyValue,
    /// The entry stands before the first section header.
    KeyOutsideSection,
    /// The section has a `schedule` already.
    DuplicateSchedule,
    /// The section has a `command` already.
    DuplicateCommand,
    /// The `command` has no value.
    EmptyCommand,
    /// `fanout` in a section that has `fanout[]` entries.
    FanoutConflict,
    /// The section has a `fanout` already.
    DuplicateFanout,
    /// The value of `fanout` is no unsigned integer.
    FanoutNotInteger,
    /// `fanout[]` in a section that has a `fanout`.
    FanoutEntryConflict,
    /// The `fanout[]` entry has no value.
    EmptyFanoutEntry,
    /// The key is none of `schedule`, `command`, `fanout`, `fanout[]`.
    UnknownKey(Seq<char>),
    /// The section's id is nothing but whitespace.
    EmptyJobId,
}

/// What is wrong with one section of a job file.
pub enum JobFault {
    /// The section has no `schedule`.
    MissingSchedule,
    /// The `schedule` does not compile.
    InvalidSchedule(CronError),
    /// The section has no `command`.
    MissingCommand,
    /// The `command` does not tokenize.
    InvalidCommand(TokenError),
    /// A `fanout[]` entry does not tokenize.
    InvalidFanoutEntry(TokenError),
}

/// Why a job file does not load.
pub enum ConfigError {
    /// The file is not well-formed UTF-8.
    NotUtf8,
    /// A fault in the line of this number, counted from 1.
    Line(nat, LineFault),
    /// A fault in the section that starts in the line of this number and
    /// has this id.
    Job(nat, Seq<char>, JobFault),
    /// A second section with this id.
    DuplicateJobId(Seq<char>),
}

impl LineFault {
    /// The text that names the fault.
    pub open spec fn message(self) -> Seq<char> {
        match self {
            LineFault::ExpectedKeyValue => "expected `key = value`"@,
            LineFault::KeyOutsideSection => "key outside of [job:<id>] section"@,
            LineFault::DuplicateSchedule => "duplicate `schedule`"@,
            LineFault::DuplicateCommand => "duplicate `command`"@,
            LineFault::EmptyCommand => "command cannot be empty"@,
            LineFault::FanoutConflict => "`fanout` conflicts with `fanout[]`"@,
            LineFault::DuplicateFanout => "duplicate `fanout`"@,
            LineFault::FanoutNotInteger => "fanout must be an integer"@,
            LineFault::FanoutEntryConflict => "`fanout[]` conflicts with `fanout`"@,
            LineFault::EmptyFanoutEntry => "fanout[] value cannot be empty"@,
            LineFault::UnknownKey(key) => "unknown key "@ + key,
            LineFault::EmptyJobId => "empty job id"@,
        }
    }
}

impl JobFault {
    /// The text that names the fault.
    pub open spec fn message(self) -> Seq<char> {
        match self {
            JobFault::MissingSchedule => "missing schedule"@,
            JobFault::InvalidSchedule(e) => "invalid schedule: "@ + e.message(),
            JobFault::MissingCommand => "missing command"@,
            JobFault::InvalidCommand(e) => "invalid command: "@ + e.message_spec(),
            JobFault::InvalidFanoutEntry(e) => "invalid fanout[] entry: "@ + e.message_spec(),
        }
    }
}

/// `body` reported for line `line`.
pub open spec fn line_message(line: nat, body: Seq<char>) -> Seq<char> {
    "line "@ + decimal(line) + ": "@ + body
}

/// `body` reported for the job `id`.
pub open spec fn job_message(id: Seq<char>, body: Seq<char>) -> Seq<char> {
    "job '"@ + id + "': "@ + body
}

impl ConfigError {
    /// The text that reports the error.
    pub open spec fn message(self) -> Seq<char> {
        match self {
            ConfigError::NotUtf8 => "config is not valid UTF-8"@,
            ConfigError::Line(line, fault) => line_message(line, fault.message()),
            ConfigError::Job(line, id, fault) => line_message(
                line,
                job_message(id, fault.message()),
            ),
            ConfigError::DuplicateJobId(id) => "duplicate job id '"@ + id + "'"@,
        }
    }
}

/// What a section has declared so far.
pub struct Section {
    pub id: Seq<char>,
    pub schedule: Option<Seq<char>>,
    pub command: Option<Seq<char>>,
    pub fanout_int: Option<nat>,
    pub fanout_list: Seq<Seq<char>>,
    /// The number of the line that holds the section's header.
    pub first_line: nat,
}

/// The section that a header with this id opens in line `line`.
pub open spec fn new_section(id: Seq<char>, line: nat) -> Section {
    Section {
        id,
        schedule: None,
        command: None,
        fanout_int: None,
        fanout_list: Seq::empty(),
        first_line: line,
    }
}

/// The length of the byte-order mark at the start of `data`: 3 or 0.
pub open spec fn bom_len(data: Seq<u8>) -> int {
    if data.len() >= 3 && data[0] == 0xEF && data[1] == 0xBB && data[2] == 0xBF {
        3
    } else {
        0
    }
}

/// The index of the line feed that ends the line starting at `start`, or
/// the length of `data` where the line is the last and has none.
pub open spec fn line_end(data: Seq<u8>, start: int) -> int {
    start + position(data.skip(start), 0x0Au8)
}

/// Where the line after the one starting at `start` begins.
pub open spec fn next_line(data: Seq<u8>, start: int) -> int {
    if line_end(data, start) < data.len() {
        line_end(data, start) + 1
    } else {
        data.len() as int
    }
}

/// `line` without a carriage return at its end.
pub open spec fn without_cr(line: Seq<u8>) -> Seq<u8> {
    if line.len() > 0 && line.last() == 0x0D {
        line.drop_last()
    } else {
        line
    }
}

/// `line` up to its first `#`.
pub open spec fn without_comment(line: Seq<u8>) -> Seq<u8> {
    line.take(position(line, 0x23u8))
}

/// What the line starting at `start` says: its bytes without line ending,
/// comment and surrounding whitespace.
pub open spec fn line_content(data: Seq<u8>, start: int) -> Seq<u8> {
    trim(without_comment(without_cr(data.subrange(start, line_end(data, start)))))
}

/// The id of the section that `line` opens, if it has the form
/// `[job:<id>]` with an id that is not empty.
pub open spec fn section_header(line: Seq<u8>) -> Option<Seq<char>> {
    if line.len() >= 7 && line[0] == 0x5B && line[1] == 0x6A && line[2] == 0x6F && line[3] == 0x62
        && line[4] == 0x3A && line.last() == 0x5D {
        let id = trim(line.subrange(5, line.len() - 1));
        if id.len() > 0 {
            Some(decode_utf8(id))
        } else {
            None
        }
    } else {
        None
    }
}

/// The key and the value of a line `key = value`, both trimmed; `None` for
/// a line without `=`.
pub open spec fn key_value(line: Seq<u8>) -> Option<(Seq<char>, Seq<char>)> {
    let eq = position(line, 0x3Du8);
    if eq < line.len() {
        Some((decode_utf8(trim(line.take(eq))), decode_utf8(trim(line.skip(eq + 1)))))
    } else {
        None
    }
}

/// The section `sec` after the entry `key = value` in line `line`.
pub open spec fn apply_entry(sec: Section, key: Seq<char>, value: Seq<char>, line: nat) -> Result<
    Section,
    ConfigError,
> {
    if key == "schedule"@ {
        if sec.schedule is Some {
            Err(ConfigError::Line(line, LineFault::DuplicateSchedule))
        } else {
            Ok(Section { schedule: Some(value), ..sec })
        }
    } else if key == "command"@ {
        if sec.command is Some {
            Err(ConfigError::Line(line, LineFault::DuplicateCommand))
        } else if value.len() == 0 {
            Err(ConfigError::Line(line, LineFault::EmptyCommand))
        } else {
            Ok(Section { command: Some(value), ..sec })
        }
    } else if key == "fanout"@ {
        if sec.fanout_list.len() > 0 {
            Err(ConfigError::Line(line, LineFault::FanoutConflict))
        } else if sec.fanout_int is Some {
            Err(ConfigError::Line(line, LineFault::DuplicateFanout))
        } else {
            match parse_unsigned(value, usize::MAX as nat) {
                Some(n) => Ok(Section { fanout_int: Some(n), ..sec }),
                None => Err(ConfigError::Line(line, LineFault::FanoutNotInteger)),
            }
        }
    } else if key == "fanout[]"@ {
        if sec.fanout_int is Some {
            Err(ConfigError::Line(line, LineFault::FanoutEntryConflict))
        } else if value.len() == 0 {
            Err(ConfigError::Line(line, LineFault::EmptyFanoutEntry))
        } else {
            Ok(Section { fanout_list: sec.fanout_list.push(value), ..sec })
        }
    } else {
        Err(ConfigError::Line(line, LineFault::UnknownKey(key)))
    }
}

/// The error of the first entry that cannot be tokenized, if there is one.
pub open spec fn first_token_error(entries: Seq<Seq<char>>) -> Option<TokenError>
    decreases entries.len(),
{
    if entries.len() == 0 {
        None
    } else {
        match tokenize(encode_utf8(entries[0])) {
            Err(e) => Some(e),
            Ok(_) => first_token_error(entries.drop_first()),
        }
    }
}

/// The fanout of a section whose entries all tokenize: its count, else its
/// entries appended to the base command, else a single run.
pub open spec fn fanout_plan(sec: Section, base: Seq<Seq<char>>) -> FanoutView {
    match sec.fanout_int {
        Some(n) => FanoutView::Int(n),
        None => if sec.fanout_list.len() > 0 {
            FanoutView::List(fanout_commands(base, sec.fanout_list))
        } else {
            FanoutView::Single
        },
    }
}

/// The job that a section declares: it needs an id that is more than
/// whitespace, a schedule that compiles, and a command that tokenizes, and
/// each `fanout[]` entry has to tokenize too.
pub open spec fn build_job(sec: Section) -> Result<JobSpecView, ConfigError> {
    let id = trim_chars(sec.id);
    if id.len() == 0 {
        Err(ConfigError::Line(sec.first_line, LineFault::EmptyJobId))
    } else if sec.schedule is None {
        Err(ConfigError::Job(sec.first_line, id, JobFault::MissingSchedule))
    } else if expr_error(sec.schedule->0) is Some {
        Err(
            ConfigError::Job(
                sec.first_line,
                id,
                JobFault::InvalidSchedule(expr_error(sec.schedule->0)->0),
            ),
        )
    } else if sec.command is None {
        Err(ConfigError::Job(sec.first_line, id, JobFault::MissingCommand))
    } else {
        match tokenize(encode_utf8(sec.command->0)) {
            Err(e) => Err(ConfigError::Job(sec.first_line, id, JobFault::InvalidCommand(e))),
            Ok(base) => if sec.fanout_int is None && first_token_error(sec.fanout_list) is Some {
                Err(
                    ConfigError::Job(
                        sec.first_line,
                        id,
                        JobFault::InvalidFanoutEntry(first_token_error(sec.fanout_list)->0),
                    ),
                )
            } else {
                Ok(
                    JobSpecView {
                        id,
                        schedule: compiled(sec.schedule->0),
                        base_cmd: base,
                        fanout: fanout_plan(sec, base),
                    },
                )
            },
        }
    }
}

/// Whether one of `jobs` has the id `id`.
pub open spec fn has_id(jobs: Seq<JobSpecView>, id: Seq<char>) -> bool {
    exists|k: int| 0 <= k < jobs.len() && #[trigger] jobs[k].id == id
}

/// `jobs` with the job of the section `sec` added: the section has to
/// declare a job, under an id that none of `jobs` has.
pub open spec fn finish_section(jobs: Seq<JobSpecView>, sec: Section) -> Result<
    Seq<JobSpecView>,
    ConfigError,
> {
    match build_job(sec) {
        Err(e) => Err(e),
        Ok(job) => if has_id(jobs, job.id) {
            Err(ConfigError::DuplicateJobId(job.id))
        } else {
            Ok(jobs.push(job))
        },
    }
}

/// Where the loader stands between two lines: the jobs of the sections
/// that are closed, and the section that is open.
pub struct LoadState {
    pub jobs: Seq<JobSpecView>,
    pub current: Option<Section>,
}

/// The jobs once the open section, if there is one, is closed.
pub open spec fn close_current(st: LoadState) -> Result<Seq<JobSpecView>, ConfigError> {
    match st.current {
        Some(sec) => finish_section(st.jobs, sec),
        None => Ok(st.jobs),
    }
}

/// The state after the line of number `line`, whose content is `content`.
pub open spec fn step_line(st: LoadState, content: Seq<u8>, line: nat) -> Result<
    LoadState,
    ConfigError,
> {
    if content.len() == 0 {
        Ok(st)
    } else if section_header(content) is Some {
        match close_current(st) {
            Err(e) => Err(e),
            Ok(jobs) => Ok(
                LoadState { jobs, current: Some(new_section(section_header(content)->0, line)) },
            ),
        }
    } else {
        match key_value(content) {
            None => Err(ConfigError::Line(line, LineFault::ExpectedKeyValue)),
            Some((key, value)) => match st.current {
                None => Err(ConfigError::Line(line, LineFault::KeyOutsideSection)),
                Some(sec) => match apply_entry(sec, key, value, line) {
                    Err(e) => Err(e),
                    Ok(next) => Ok(LoadState { jobs: st.jobs, current: Some(next) }),
                },
            },
        }
    }
}

/// Loads the lines from byte `start` on, `lines` lines having been read.
pub open spec fn load_from(data: Seq<u8>, start: int, lines: nat, st: LoadState) -> Result<
    Seq<JobSpecView>,
    ConfigError,
>
    decreases data.len() - start,
    via load_from_decreases
{
    if start < 0 || start >= data.len() {
        close_current(st)
    } else {
        match step_line(st, line_content(data, start), lines + 1) {
            Err(e) => Err(e),
            Ok(next) => load_from(data, next_line(data, start), lines + 1, next),
        }
    }
}

#[via_fn]
proof fn load_from_decreases(data: Seq<u8>, start: int, lines: nat, st: LoadState) {
    if 0 <= start < data.len() {
        lemma_position_bounds(data.skip(start), 0x0Au8);
    }
}

/// The jobs that a job file declares, or the first error in it.
pub open spec fn load_spec(data: Seq<u8>) -> Result<Seq<JobSpecView>, ConfigError> {
    if !valid_utf8(data) {
        Err(ConfigError::NotUtf8)
    } else {
        load_from(data, bom_len(data), 0, LoadState { jobs: Seq::empty(), current: None })
    }
}

/// Whether no two of `jobs` have the same id.
pub open spec fn distinct_ids(jobs: Seq<JobSpecView>) -> bool {
    forall|i: int, j: int| 0 <= i < j < jobs.len() ==> jobs[i].id != jobs[j].id
}

/// A section whose job has the id of an earlier job is rejected, and a
/// section that is accepted keeps the ids distinct.
pub proof fn lemma_finish_section_ids(jobs: Seq<JobSpecView>, sec: Section)
    requires
        distinct_ids(jobs),
    ensures
        build_job(sec) is Ok && has_id(jobs, build_job(sec)->Ok_0.id) ==> finish_section(jobs, sec)
            == Err::<Seq<JobSpecView>, ConfigError>(
            ConfigError::DuplicateJobId(build_job(sec)->Ok_0.id),
        ),
        finish_section(jobs, sec) is Ok ==> distinct_ids(finish_section(jobs, sec)->Ok_0),
{
    if finish_section(jobs, sec) is Ok {
        let job = build_job(sec)->Ok_0;
        let all = jobs.push(job);
        assert forall|i: int, j: int| 0 <= i < j < all.len() implies all[i].id != all[j].id by {
            if j == jobs.len() {
                assert(jobs[i].id != job.id);
            }
        }
    }
}

proof fn lemma_load_from_ids(data: Seq<u8>, start: int, lines: nat, st: LoadState)
    requires
        distinct_ids(st.jobs),
        load_from(data, start, lines, st) is Ok,
    ensures
        distinct_ids(load_from(data, start, lines, st)->Ok_0),
    decreases data.len() - start,
{
    if start < 0 || start >= data.len() {
        if st.current is Some {
            lemma_finish_section_ids(st.jobs, st.current->0);
        }
    } else {
        lemma_position_bounds(data.skip(start), 0x0Au8);
        let content = line_content(data, start);
        let next = step_line(st, content, lines + 1)->Ok_0;
        if content.len() > 0 && section_header(content) is Some && st.current is Some {
            lemma_finish_section_ids(st.jobs, st.current->0);
        }
        lemma_load_from_ids(data, next_line(data, start), lines + 1, next);
    }
}

/// No job file declares the same job id twice: the jobs of a file that
/// loads have distinct ids.
pub proof fn lemma_loaded_ids_distinct(data: Seq<u8>)
    requires
        load_spec(data) is Ok,
    ensures
        distinct_ids(load_spec(data)->Ok_0),
{
    lemma_load_from_ids(
        data,
        bom_len(data),
        0,
        LoadState { jobs: Seq::empty(), current: None },
    );
}

/// Within one section a second `schedule` and a second `command` are
/// rejected, and so are `fanout` after `fanout[]` and `fanout[]` after
/// `fanout`.
pub proof fn lemma_entry_conflicts(sec: Section, key: Seq<char>, value: Seq<char>, line: nat)
    ensures
        key == "schedule"@ && sec.schedule is Some ==> apply_entry(sec, key, value, line) == Err::<
            Section,
            ConfigError,
        >(ConfigError::Line(line, LineFault::DuplicateSchedule)),
        key == "command"@ && sec.command is Some ==> apply_entry(sec, key, value, line) == Err::<
            Section,
            ConfigError,
        >(ConfigError::Line(line, LineFault::DuplicateCommand)),
        key == "fanout"@ && sec.fanout_list.len() > 0 ==> apply_entry(sec, key, value, line)
            == Err::<Section, ConfigError>(ConfigError::Line(line, LineFault::FanoutConflict)),
        key == "fanout[]"@ && sec.fanout_int is Some ==> apply_entry(sec, key, value, line)
            == Err::<Section, ConfigError>(
            ConfigError::Line(line, LineFault::FanoutEntryConflict),
        ),
{
    reveal_strlit("schedule");
    reveal_strlit("command");
    reveal_strlit("fanout");
    reveal_strlit("fanout[]");
    assert("schedule"@.len() == 8 && "schedule"@[0] == 's');
    assert("command"@.len() == 7);
    assert("fanout"@.len() == 6);
    assert("fanout[]"@.len() == 8 && "fanout[]"@[0] == 'f');
}

/// Cuts the line that starts at `start` out of `data`.
fn read_line(data: &[u8], start: usize) -> (r: (&[u8], usize))
    requires
        start < data@.len(),
        valid_utf8(data@.skip(start as int)),
    ensures
        r.0@ == line_content(data@, start as int),
        r.1 == next_line(data@, start as int),
        start < r.1 <= data@.len(),
        valid_utf8(r.0@),
        valid_utf8(data@.skip(r.1 as int)),
{
    let rest = vstd::slice::slice_subrange(data, start, data.len());
    assert(rest@ =~= data@.skip(start as int));
    let found = memchr(rest, 0x0A);
    let (end, next) = match found {
        Some(offset) => (start + offset, start + offset + 1),
        None => (data.len(), data.len()),
    };
    let mut line = vstd::slice::slice_subrange(data, start, end);
    proof {
        if found is Some {
            assert(rest@[end - start] == 0x0A);
        }
        lemma_cut_valid(rest@, end - start);
        assert(rest@.subrange(0, end - start) =~= line@);
        lemma_cut_valid(rest@, next - start);
        assert(rest@.subrange(next - start, rest@.len() as int) =~= data@.skip(next as int));
    }
    if line.len() > 0 && line[line.len() - 1] == 0x0D {
        let shorter = vstd::slice::slice_subrange(line, 0, line.len() - 1);
        proof {
            assert(shorter@ =~= line@.drop_last());
            lemma_cut_valid(line@, line@.len() - 1);
        }
        line = shorter;
    }
    if let Some(hash) = memchr(line, 0x23) {
        proof {
            lemma_cut_valid(line@, hash as int);
        }
        line = vstd::slice::slice_subrange(line, 0, hash);
    } else {
        assert(line@.take(line@.len() as int) =~= line@);
    }
    (trim_ascii(line), next)
}

/// Reads a section header `[job:<id>]` and returns its id.
fn parse_section_header(line: &[u8]) -> (r: Option<&str>)
    requires
        valid_utf8(line@),
    ensures
        match section_header(line@) {
            Some(id) => r is Some && r->0@ == id,
            None => r is None,
        },
{
    let len = line.len();
    if len >= 7 && line[0] == 0x5B && line[1] == 0x6A && line[2] == 0x6F && line[3] == 0x62
        && line[4] == 0x3A && line[len - 1] == 0x5D {
        proof {
            lemma_between_cuts_valid(line@, 5, len - 1);
        }
        let id_bytes = trim_ascii(vstd::slice::slice_subrange(line, 5, len - 1));
        if id_bytes.len() == 0 {
            return None;
        }
        return Some(text_of(id_bytes));
    }
    None
}

/// Reads well-formed UTF-8 as text.
fn text_of(bytes: &[u8]) -> (text: &str)
    requires
        valid_utf8(bytes@),
    ensures
        text@ == decode_utf8(bytes@),
{
    match utf8_str(bytes) {
        Some(text) => text,
        None => vstd::pervasive::unreached(),
    }
}

/// Splits a line at its first `=` into key and value.
fn parse_key_value(line: &[u8]) -> (r: Option<(&str, &str)>)
    requires
        valid_utf8(line@),
    ensures
        match key_value(line@) {
            Some((key, value)) => r is Some && (r->0).0@ == key && (r->0).1@ == value,
            None => r is None,
        },
{
    let len = line.len();
    match memchr(line, 0x3D) {
        Some(eq) => {
            proof {
                lemma_cut_valid(line@, eq as int);
                lemma_cut_valid(line@, eq + 1);
            }
            let key = trim_ascii(vstd::slice::slice_subrange(line, 0, eq));
            let value = trim_ascii(vstd::slice::slice_subrange(line, eq + 1, len));
            Some((text_of(key), text_of(value)))
        },
        None => None,
    }
}

/// The report of `body` for the line of number `lineno`.
fn line_error(lineno: usize, body: &str) -> (m: String)
    ensures
        m@ == line_message(lineno as nat, body@),
{
    let mut m = String::from_str("line ");
    m.append(decimal_string(lineno as u64).as_str());
    m.append(": ");
    m.append(body);
    m
}

/// The report of `body` for the job `id` declared from line `lineno` on.
fn job_error(lineno: usize, id: &str, body: &str) -> (m: String)
    ensures
        m@ == line_message(lineno as nat, job_message(id@, body@)),
{
    let mut text = String::from_str("job '");
    text.append(id);
    text.append("': ");
    text.append(body);
    line_error(lineno, text.as_str())
}

/// `head` followed by `tail`.
fn joined(head: &str, tail: &str) -> (m: String)
    ensures
        m@ == head@ + tail@,
{
    let mut m = String::from_str(head);
    m.append(tail);
    m
}

/// The section being read, as slices of the job file.
struct JobBuilder<'a> {
    id: &'a str,
    schedule: Option<&'a str>,
    command: Option<&'a str>,
    fanout_int: Option<usize>,
    fanout_list: Vec<&'a str>,
    first_line: usize,
}

impl<'a> JobBuilder<'a> {
    spec fn section(&self) -> Section {
        Section {
            id: self.id@,
            schedule: match self.schedule {
                Some(text) => Some(text@),
                None => None,
            },
            command: match self.command {
                Some(text) => Some(text@),
                None => None,
            },
            fanout_int: match self.fanout_int {
                Some(n) => Some(n as nat),
                None => None,
            },
            fanout_list: Seq::new(self.fanout_list@.len(), |i: int| self.fanout_list@[i]@),
            first_line: self.first_line as nat,
        }
    }

    fn new(id: &'a str, first_line: usize) -> (b: Self)
        ensures
            b.section() == new_section(id@, first_line as nat),
    {
        let b = JobBuilder {
            id,
            schedule: None,
            command: None,
            fanout_int: None,
            fanout_list: Vec::new(),
            first_line,
        };
        assert(b.section().fanout_list =~= Seq::<Seq<char>>::empty());
        b
    }
}

/// Reads the decimal number that `text` writes.
fn parse_count(text: &str) -> (r: Option<usize>)
    ensures
        match parse_unsigned(text@, usize::MAX as nat) {
            Some(n) => r == Some(n as usize),
            None => r is None,
        },
{
    let chars = chars_of(text);
    match parse_number(chars.as_slice(), usize::MAX as u64) {
        Some(n) => Some(n as usize),
        None => None,
    }
}

/// Takes the entry `key = value` of line `lineno` into the section `b`.
fn read_entry<'a>(b: &mut JobBuilder<'a>, key: &str, value: &'a str, lineno: usize) -> (r: Result<
    (),
    String,
>)
    ensures
        match apply_entry(old(b).section(), key@, value@, lineno as nat) {
            Ok(sec) => r is Ok && final(b).section() == sec,
            Err(e) => r is Err && r->Err_0@ == e.message(),
        },
{
    if same_text(key, "schedule") {
        if b.schedule.is_some() {
            return Err(line_error(lineno, "duplicate `schedule`"));
        }
        b.schedule = Some(value);
        assert(b.section().fanout_list =~= old(b).section().fanout_list);
        Ok(())
    } else if same_text(key, "command") {
        if b.command.is_some() {
            return Err(line_error(lineno, "duplicate `command`"));
        }
        if value.is_empty() {
            return Err(line_error(lineno, "command cannot be empty"));
        }
        b.command = Some(value);
        assert(b.section().fanout_list =~= old(b).section().fanout_list);
        Ok(())
    } else if same_text(key, "fanout") {
        if b.fanout_list.len() > 0 {
            return Err(line_error(lineno, "`fanout` conflicts with `fanout[]`"));
        }
        if b.fanout_int.is_some() {
            return Err(line_error(lineno, "duplicate `fanout`"));
        }
        match parse_count(value) {
            Some(n) => {
                b.fanout_int = Some(n);
                assert(b.section().fanout_list =~= old(b).section().fanout_list);
                Ok(())
            },
            None => Err(line_error(lineno, "fanout must be an integer")),
        }
    } else if same_text(key, "fanout[]") {
        if b.fanout_int.is_some() {
            return Err(line_error(lineno, "`fanout[]` conflicts with `fanout`"));
        }
        if value.is_empty() {
            return Err(line_error(lineno, "fanout[] value cannot be empty"));
        }
        b.fanout_list.push(value);
        assert(b.section().fanout_list =~= old(b).section().fanout_list.push(value@));
        Ok(())
    } else {
        Err(line_error(lineno, joined("unknown key ", key).as_str()))
    }
}

/// Checks that every `fanout[]` entry tokenizes, and returns the entries.
fn check_entries(entries: &Vec<&str>) -> (r: Result<Vec<String>, TokenError>)
    ensures
        match first_token_error(Seq::new(entries@.len(), |i: int| entries@[i]@)) {
            Some(e) => r == Err::<Vec<String>, TokenError>(e),
            None => r is Ok && r->Ok_0.deep_view() == Seq::new(
                entries@.len(),
                |i: int| entries@[i]@,
            ),
        },
{
    let ghost texts = Seq::new(entries@.len(), |i: int| entries@[i]@);
    let mut extras: Vec<String> = Vec::new();
    let mut i: usize = 0;
    assert(texts.skip(0) =~= texts);
    while i < entries.len()
        invariant
            i <= entries@.len(),
            texts == Seq::new(entries@.len(), |i: int| entries@[i]@),
            first_token_error(texts) == first_token_error(texts.skip(i as int)),
            extras@.len() == i,
            forall|k: int| 0 <= k < i ==> (#[trigger] extras@[k])@ == texts[k],
        decreases entries@.len() - i,
    {
        assert(texts.skip(i as int).drop_first() =~= texts.skip(i + 1));
        match parse_command(entries[i]) {
            Ok(_) => {},
            Err(e) => {
                return Err(e);
            },
        }
        extras.push(entries[i].to_owned());
        i += 1;
    }
    assert(extras.deep_view() =~= texts);
    Ok(extras)
}

/// Builds the job that the section `b` declares.
fn finalize_job(cron: &CronParser, b: &JobBuilder) -> (r: Result<JobSpec, String>)
    ensures
        match build_job(b.section()) {
            Ok(job) => r is Ok && r->Ok_0@ == job,
            Err(e) => r is Err && r->Err_0@ == e.message(),
        },
{
    let id = trim_str(b.id);
    if id.is_empty() {
        return Err(line_error(b.first_line, "empty job id"));
    }
    let schedule_str = match b.schedule {
        Some(text) => text,
        None => {
            return Err(job_error(b.first_line, id, "missing schedule"));
        },
    };
    let schedule = match cron.parse(schedule_str) {
        Ok(schedule) => schedule,
        Err(e) => {
            let body = joined("invalid schedule: ", e.as_str());
            return Err(job_error(b.first_line, id, body.as_str()));
        },
    };
    let command_str = match b.command {
        Some(text) => text,
        None => {
            return Err(job_error(b.first_line, id, "missing command"));
        },
    };
    let base_cmd = match parse_command(command_str) {
        Ok(args) => args,
        Err(e) => {
            let body = joined("invalid command: ", e.message());
            return Err(job_error(b.first_line, id, body.as_str()));
        },
    };
    let fanout = match b.fanout_int {
        Some(n) => Fanout::Int(n),
        None => {
            let extras = match check_entries(&b.fanout_list) {
                Ok(extras) => extras,
                Err(e) => {
                    let body = joined("invalid fanout[] entry: ", e.message());
                    return Err(job_error(b.first_line, id, body.as_str()));
                },
            };
            if extras.len() > 0 {
                Fanout::List(
                    JobSpec::build_fanout_list_from_strings(
                        base_cmd.as_slice(),
                        extras.as_slice(),
                    ),
                )
            } else {
                Fanout::Single
            }
        },
    };
    Ok(JobSpec { id: id.to_owned(), schedule, base_cmd, fanout })
}

/// Whether one of `jobs` has the id `id`.
fn id_in_use(jobs: &Vec<JobSpec>, id: &str) -> (r: bool)
    ensures
        r == has_id(jobs.deep_view(), id@),
{
    let mut k: usize = 0;
    while k < jobs.len()
        invariant
            k <= jobs@.len(),
            forall|j: int| 0 <= j < k ==> jobs@[j].id@ != id@,
        decreases jobs@.len() - k,
    {
        if same_text(jobs[k].id.as_str(), id) {
            assert(jobs.deep_view()[k as int].id == id@);
            return true;
        }
        k += 1;
    }
    assert forall|j: int| 0 <= j < jobs.deep_view().len() implies #[trigger] jobs.deep_view()[j].id
        != id@ by {
        assert(jobs@[j].id@ != id@);
    }
    false
}

/// Closes the section `b`: builds its job and adds it to `jobs`.
fn close_section(cron: &CronParser, jobs: &mut Vec<JobSpec>, b: &JobBuilder) -> (r: Result<
    (),
    String,
>)
    ensures
        match finish_section(old(jobs).deep_view(), b.section()) {
            Ok(all) => r is Ok && final(jobs).deep_view() == all,
            Err(e) => r is Err && r->Err_0@ == e.message(),
        },
{
    let job = match finalize_job(cron, b) {
        Ok(job) => job,
        Err(e) => {
            return Err(e);
        },
    };
    if id_in_use(jobs, job.id.as_str()) {
        let mut m = String::from_str("duplicate job id '");
        m.append(job.id.as_str());
        m.append("'");
        return Err(m);
    }
    let ghost before = jobs.deep_view();
    let ghost added = job@;
    jobs.push(job);
    assert(jobs.deep_view() =~= before.push(added));
    Ok(())
}

/// The section that the loader has open.
spec fn current_section(cur: Option<JobBuilder>) -> Option<Section> {
    match cur {
        Some(b) => Some(b.section()),
        None => None,
    }
}

/// Loads a job file: the jobs that its sections declare, in order, or the
/// first error. Lines end at a line feed, with or without a carriage return
/// before it; a byte-order mark at the start is skipped; `#` starts a
/// comment; blank lines are skipped.
pub fn load_config(data: &[u8]) -> (r: Result<Vec<JobSpec>, String>)
    ensures
        match load_spec(data@) {
            Ok(jobs) => r is Ok && r->Ok_0.deep_view() == jobs,
            Err(e) => r is Err && r->Err_0@ == e.message(),
        },
        r is Ok ==> distinct_ids(r->Ok_0.deep_view()),
{
    proof {
        if load_spec(data@) is Ok {
            lemma_loaded_ids_distinct(data@);
        }
    }
    if utf8_str(data).is_none() {
        return Err(String::from_str("config is not valid UTF-8"));
    }
    let cron = CronParser::new();
    let mut jobs: Vec<JobSpec> = Vec::new();
    let mut cur: Option<JobBuilder> = None;
    let n = data.len();
    let mut i: usize = 0;
    let mut lineno: usize = 0;
    if n >= 3 && data[0] == 0xEF && data[1] == 0xBB && data[2] == 0xBF {
        i = 3;
        assert(pop_first_scalar(data@) =~= data@.skip(3));
    } else {
        assert(data@.skip(0) =~= data@);
    }
    assert(jobs.deep_view() =~= Seq::<JobSpecView>::empty());
    while i < n
        invariant
            i <= n == data@.len(),
            lineno <= i,
            valid_utf8(data@.skip(i as int)),
            load_from(
                data@,
                i as int,
                lineno as nat,
                LoadState { jobs: jobs.deep_view(), current: current_section(cur) },
            ) == load_spec(data@),
        decreases n - i,
    {
        lineno += 1;
        let (line, next) = read_line(data, i);
        i = next;
        if line.len() == 0 {
            continue;
        }
        match parse_section_header(line) {
            Some(id) => {
                match cur {
                    Some(prev) => {
                        match close_section(&cron, &mut jobs, &prev) {
                            Ok(()) => {},
                            Err(e) => {
                                return Err(e);
                            },
                        }
                    },
                    None => {},
                }
                cur = Some(JobBuilder::new(id, lineno));
            },
            None => {
                let (key, value) = match parse_key_value(line) {
                    Some(pair) => pair,
                    None => {
                        return Err(line_error(lineno, "expected `key = value`"));
                    },
                };
                match cur {
                    Some(mut b) => {
                        match read_entry(&mut b, key, value, lineno) {
                            Ok(()) => {},
                            Err(e) => {
                                return Err(e);
                            },
                        }
                        cur = Some(b);
                    },
                    None => {
                        return Err(line_error(lineno, "key outside of [job:<id>] section"));
                    },
                }
            },
        }
    }
    match cur {
        Some(prev) => {
            match close_section(&cron, &mut jobs, &prev) {
                Ok(()) => {},
                Err(e) => {
                    return Err(e);
                },
            }
        },
        None => {},
    }
    Ok(jobs)
}

/// What tells one state of the job file from another without reading it:
/// when it was last modified, in nanoseconds since the Unix epoch, and its
/// size in bytes.
#[derive(Clone, Copy, Debug, PartialEq, Eq, Structural)]
pub struct FileStamp {
    pub modified: u128,
    pub size: u64,
}

/// The jobs that were last loaded, and the stamp of the file they came from.
pub struct ConfigCache {
    pub jobs: Vec<JobSpec>,
    /// The stamp of the file that `jobs` came from; `None` before the first
    /// load.
    pub stamp: Option<FileStamp>,
}

/// A `ConfigCache` as plain values.
pub struct ConfigCacheView {
    pub jobs: Seq<JobSpecView>,
    pub stamp: Option<FileStamp>,
}

/// What a reload answers: `Ok(false)` for an unchanged file, `Ok(true)`
/// after a load, or the error of a file that does not load.
pub open spec fn reload_answer(cache: ConfigCacheView, stamp: FileStamp, data: Seq<u8>) -> Result<
    bool,
    ConfigError,
> {
    if cache.stamp == Some(stamp) {
        Ok(false)
    } else {
        match load_spec(data) {
            Ok(_) => Ok(true),
            Err(e) => Err(e),
        }
    }
}

/// The cache after a reload: replaced as a whole where a changed file
/// loads, and untouched otherwise.
pub open spec fn reloaded(cache: ConfigCacheView, stamp: FileStamp, data: Seq<u8>)
    -> ConfigCacheView {
    if cache.stamp == Some(stamp) {
        cache
    } else {
        match load_spec(data) {
            Ok(jobs) => ConfigCacheView { jobs, stamp: Some(stamp) },
            Err(_) => cache,
        }
    }
}

impl View for ConfigCache {
    type V = ConfigCacheView;

    open spec fn view(&self) -> ConfigCacheView {
        ConfigCacheView { jobs: self.jobs.deep_view(), stamp: self.stamp }
    }
}

impl ConfigCache {
    /// An empty cache, which no file stamp matches.
    pub fn new() -> (cache: Self)
        ensures
            cache@.jobs == Seq::<JobSpecView>::empty(),
            cache@.stamp is None,
    {
        let cache = ConfigCache { jobs: Vec::new(), stamp: None };
        assert(cache.jobs.deep_view() =~= Seq::<JobSpecView>::empty());
        cache
    }

    /// Whether the cache was loaded from a file with this stamp.
    pub fn is_current(&self, stamp: &FileStamp) -> (r: bool)
        ensures
            r == (self@.stamp == Some(*stamp)),
    {
        match self.stamp {
            Some(held) => held.modified == stamp.modified && held.size == stamp.size,
            None => false,
        }
    }

    /// Reloads the cache from the job file `data`, whose stamp is `stamp`,
    /// unless the cache already holds a file with this stamp. A file that
    /// does not load leaves the cache as it was.
    pub fn reload_if_changed(&mut self, stamp: FileStamp, data: &[u8]) -> (r: Result<bool, String>)
        ensures
            final(self)@ == reloaded(old(self)@, stamp, data@),
            match reload_answer(old(self)@, stamp, data@) {
                Ok(changed) => r == Ok::<bool, String>(changed),
                Err(e) => r is Err && r->Err_0@ == e.message(),
            },
            r != Ok::<bool, String>(true) ==> *final(self) == *old(self),
    {
        if self.is_current(&stamp) {
            return Ok(false);
        }
        let new_jobs = match load_config(data) {
            Ok(jobs) => jobs,
            Err(e) => {
                return Err(e);
            },
        };
        self.jobs = new_jobs;
        self.stamp = Some(stamp);
        Ok(true)
    }
}

/// A reload with the stamp of the file that the cache was just loaded from
/// answers "unchanged" and leaves the cache as it is, whatever the data.
pub proof fn lemma_reload_twice(
    cache: ConfigCacheView,
    stamp: FileStamp,
    data: Seq<u8>,
    again: Seq<u8>,
)
    requires
        reload_answer(cache, stamp, data) is Ok,
    ensures
        reload_answer(reloaded(cache, stamp, data), stamp, again) == Ok::<bool, ConfigError>(false),
        reloaded(reloaded(cache, stamp, data), stamp, again) == reloaded(cache, stamp, data),
{
}

/// A file that does not load leaves the cache as it was, and a changed
/// file that loads replaces every job of the cache.
pub proof fn lemma_reload_atomic(cache: ConfigCacheView, stamp: FileStamp, data: Seq<u8>)
    ensures
        reload_answer(cache, stamp, data) is Err ==> reloaded(cache, stamp, data) == cache,
        reload_answer(cache, stamp, data) == Ok::<bool, ConfigError>(true) ==> load_spec(data)
            == Ok::<Seq<JobSpecView>, ConfigError>(reloaded(cache, stamp, data).jobs),
{
}

} // verus!
