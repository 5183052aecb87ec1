//! Dispatch decisions: when a schedule fires next, which job is due, and
//! what to launch for it.

use vstd::prelude::*;
use vstd::string::*;
use vstd::multiset::Multiset;
use std::time::Instant;
use crate::cli_colors::{assign_next, palette, CliColorPicker, ColorPickerView, PALETTE_SIZE};
use crate::clock::{instant_after, unix_seconds};
use crate::loader::{reload_answer, reloaded, ConfigCache, ConfigCacheView, FileStamp};
use crate::models::{expansion, JobSpec, JobSpecView};
use crate::parser::{
    compiles_to, expr_error, field_allows, fields_error, lemma_field_matches, mask_has, words,
    CronSchedule,
};
use crate::printer::Printer;
use crate::queue::{is_earliest, JobQueue, ScheduledJob};

verus! {

broadcast use vstd::multiset::group_multiset_axioms;

/// The hash of a byte string: each byte is added to 31 times the hash of
/// the bytes before it, in wrapping arithmetic.
pub open spec fn hash_bytes(bytes: Seq<u8>) -> usize
    decreases bytes.len(),
{
    if bytes.len() == 0 {
        0
    } else {
        hash_bytes(bytes.drop_last()).wrapping_mul(31).wrapping_add(bytes.last() as usize)
    }
}

/// The hash of a text: that of its UTF-8 bytes.
pub open spec fn id_hash(id: Seq<char>) -> usize {
    hash_bytes(vstd::utf8::encode_utf8(id))
}

/// A fast hash of a job id, used to pick the job's colour.
pub fn hash_id(id: &str) -> (hash: usize)
    ensures
        hash == hash_bytes(id.spec_bytes()),
{
    let bytes = id.as_bytes();
    let mut hash: usize = 0;
    let mut i: usize = 0;
    while i < bytes.len()
        invariant
            i <= bytes@.len(),
            bytes@ == id.spec_bytes(),
            hash == hash_bytes(bytes@.take(i as int)),
        decreases bytes@.len() - i,
    {
        assert(bytes@.take(i + 1).drop_last() =~= bytes@.take(i as int));
        hash = hash.wrapping_mul(31).wrapping_add(bytes[i] as usize);
        i += 1;
    }
    assert(bytes@.take(i as int) =~= bytes@);
    hash
}

/// The number of minutes after which the minute, the hour and the day of
/// the week all repeat: one week.
pub const MINUTES_PER_WEEK: u64 = 10080;

/// The minute of the hour at `t` minutes after the Unix epoch.
pub open spec fn minute_of(t: int) -> int {
    t % 60
}

/// The hour of the day at `t` minutes after the Unix epoch.
pub open spec fn hour_of(t: int) -> int {
    (t / 60) % 24
}

/// The day of the week at `t` minutes after the Unix epoch, 0 for Sunday.
/// The epoch was a Thursday.
pub open spec fn weekday_of(t: int) -> int {
    (t / 1440 + 4) % 7
}

/// Whether `schedule` fires in minute `t` after the Unix epoch: minute,
/// hour and day of the week have to match. The day of the month and the
/// month are not consulted.
pub open spec fn fires_at(schedule: CronSchedule, t: int) -> bool {
    &&& schedule.has_minute(minute_of(t))
    &&& schedule.has_hour(hour_of(t))
    &&& schedule.has_weekday(weekday_of(t))
}

/// Whether `t` is the first minute after `from` in which `schedule` fires.
pub open spec fn is_next_fire(schedule: CronSchedule, from: int, t: int) -> bool {
    &&& from < t
    &&& fires_at(schedule, t)
    &&& forall|u: int| from < u < t ==> !fires_at(schedule, u)
}

/// Whether `schedule` fires in no minute at all.
pub open spec fn never_fires(schedule: CronSchedule) -> bool {
    forall|t: int| !fires_at(schedule, t)
}

/// A schedule fires in a minute exactly if it fires a number of weeks
/// before or after it.
pub proof fn lemma_weekly(schedule: CronSchedule, t: int, weeks: int)
    ensures
        fires_at(schedule, t + 10080 * weeks) == fires_at(schedule, t),
{
    let u = t + 10080 * weeks;
    assert(u % 60 == t % 60);
    assert(u / 60 == t / 60 + 168 * weeks);
    assert((u / 60) % 24 == (t / 60) % 24);
    assert(u / 1440 == t / 1440 + 7 * weeks);
    assert((u / 1440 + 4) % 7 == (t / 1440 + 4) % 7);
}

/// A schedule that does not fire in the week after `from` never fires.
pub proof fn lemma_silent_week(schedule: CronSchedule, from: int)
    requires
        forall|u: int| from < u <= from + 10080 ==> !fires_at(schedule, u),
    ensures
        never_fires(schedule),
{
    assert forall|t: int| !fires_at(schedule, t) by {
        let offset = (t - from - 1) % 10080;
        let weeks = (t - from - 1) / 10080;
        let u = from + 1 + offset;
        assert(t == u + 10080 * weeks);
        lemma_weekly(schedule, u, weeks);
    }
}

/// A schedule that matches the minute `m`, the hour `h` and the day of the
/// week `w` fires within the week after any minute.
pub proof fn lemma_fires_within_week(schedule: CronSchedule, from: int, m: int, h: int, w: int)
    requires
        0 <= m < 60,
        0 <= h < 24,
        0 <= w < 7,
        schedule.has_minute(m),
        schedule.has_hour(h),
        schedule.has_weekday(w),
    ensures
        exists|t: int| from < t <= from + 10080 && fires_at(schedule, t),
        !never_fires(schedule),
{
    let base = ((w + 3) % 7) * 1440 + h * 60 + m;
    assert(minute_of(base) == m);
    assert(hour_of(base) == h);
    assert(weekday_of(base) == w);
    assert(fires_at(schedule, base));
    let weeks = (from - base) / 10080 + 1;
    let t = base + 10080 * weeks;
    lemma_weekly(schedule, base, weeks);
    assert(from < t <= from + 10080);
    assert(fires_at(schedule, t));
}

/// The first minute after `from` in which `schedule` fires, if there is
/// one.
pub open spec fn next_fire(schedule: CronSchedule, from: int) -> Option<int> {
    if exists|t: int| is_next_fire(schedule, from, t) {
        Some(choose|t: int| is_next_fire(schedule, from, t))
    } else {
        None
    }
}

/// The seconds from the wall-clock time `now_secs` to the next fire of
/// `schedule`: whole minutes, counted from the minute that `now_secs` lies
/// in.
pub open spec fn delay_until_fire(schedule: CronSchedule, now_secs: u64) -> Option<int> {
    match next_fire(schedule, now_secs as int / 60) {
        Some(t) => Some((t - now_secs as int / 60) * 60),
        None => None,
    }
}

/// The first fire after a minute is determined.
pub proof fn lemma_next_fire(schedule: CronSchedule, from: int, t: int)
    requires
        is_next_fire(schedule, from, t),
    ensures
        next_fire(schedule, from) == Some(t),
{
    let other = choose|t: int| is_next_fire(schedule, from, t);
    if other < t {
        assert(!fires_at(schedule, other));
    } else if t < other {
        assert(!fires_at(schedule, t));
    }
}

/// Where `schedule` first fires `k` minutes after the minute that
/// `now_secs` lies in, the delay is `k` minutes: 60 seconds for the next
/// minute, 120 for the one after.
pub proof fn lemma_delay_in_minutes(schedule: CronSchedule, now_secs: u64, k: int)
    requires
        is_next_fire(schedule, now_secs as int / 60, now_secs as int / 60 + k),
    ensures
        k >= 1,
        delay_until_fire(schedule, now_secs) == Some(60 * k),
{
    lemma_next_fire(schedule, now_secs as int / 60, now_secs as int / 60 + k);
}

/// A schedule compiled from an expression fires within any week.
pub proof fn lemma_compiled_fires(expr: Seq<char>, schedule: CronSchedule, from: int)
    requires
        expr_error(expr) is None,
        compiles_to(expr, schedule),
    ensures
        !never_fires(schedule),
        exists|t: int| from < t <= from + 10080 && fires_at(schedule, t),
{
    let fields = words(expr);
    reveal_with_fuel(fields_error, 6);
    lemma_field_matches(fields[0], 0, 59);
    lemma_field_matches(fields[1], 0, 23);
    lemma_field_matches(fields[4], 0, 6);
    let m = choose|v: int| 0 <= v <= 59 && field_allows(fields[0], 0, 59, v);
    let h = choose|v: int| 0 <= v <= 23 && field_allows(fields[1], 0, 23, v);
    let w = choose|v: int| 0 <= v <= 6 && field_allows(fields[4], 0, 6, v);
    assert(schedule.has_minute(m));
    assert(schedule.has_hour(h));
    assert(schedule.has_weekday(w));
    lemma_fires_within_week(schedule, from, m, h, w);
}

/// Whether bit `v` of `mask` is set.
fn test_bit(mask: u64, v: u64) -> (r: bool)
    requires
        v < 64,
    ensures
        r == mask_has(mask, v as int),
{
    (mask >> v) & 1 == 1
}

/// The seconds from `now_secs`, a wall-clock time in seconds since the Unix
/// epoch, to the next fire of `schedule`: the time is cut to whole minutes,
/// and the first later minute in which the schedule fires is that many
/// minutes ahead. `None` for a schedule that never fires.
pub fn next_run_delay(schedule: &CronSchedule, now_secs: u64) -> (r: Option<u64>)
    ensures
        match r {
            Some(delay) => delay % 60 == 0 && 60 <= delay <= 604800 && is_next_fire(
                *schedule,
                now_secs as int / 60,
                now_secs as int / 60 + delay as int / 60,
            ),
            None => never_fires(*schedule),
        },
        match delay_until_fire(*schedule, now_secs) {
            Some(delay) => r == Some(delay as u64),
            None => r is None,
        },
{
    let minutes: u64 = now_secs / 60;
    let mut ahead: u64 = 1;
    while ahead <= MINUTES_PER_WEEK
        invariant
            1 <= ahead <= MINUTES_PER_WEEK + 1,
            minutes == now_secs / 60,
            forall|u: int| minutes < u < minutes + ahead ==> !fires_at(*schedule, u),
        decreases MINUTES_PER_WEEK + 1 - ahead,
    {
        let total_minutes: u64 = minutes + ahead;
        let minute: u64 = total_minutes % 60;
        let hour: u64 = (total_minutes / 60) % 24;
        let weekday: u64 = (total_minutes / 1440 + 4) % 7;
        if test_bit(schedule.minute, minute) && test_bit(schedule.hour as u64, hour) && test_bit(
            schedule.weekday as u64,
            weekday,
        ) {
            proof {
                assert(fires_at(*schedule, total_minutes as int));
                lemma_next_fire(*schedule, minutes as int, total_minutes as int);
            }
            return Some(ahead * 60);
        }
        assert(!fires_at(*schedule, total_minutes as int));
        ahead += 1;
    }
    proof {
        lemma_silent_week(*schedule, minutes as int);
        assert forall|t: int| !is_next_fire(*schedule, minutes as int, t) by {
            assert(!fires_at(*schedule, t));
        }
    }
    None
}

/// The monotonic-clock deadline of the next fire of `schedule`: now plus
/// the seconds that `next_run_delay` gives for the wall clock's reading.
/// `None` for a schedule that never fires, and where the clock cannot
/// represent the deadline.
pub fn compute_next_run(schedule: &CronSchedule) -> (r: Option<Instant>)
    ensures
        never_fires(*schedule) ==> r is None,
{
    let delay = match next_run_delay(schedule, unix_seconds()) {
        Some(delay) => delay,
        None => {
            return None;
        },
    };
    instant_after(delay)
}

/// The nanoseconds in a second.
pub const NANOS_PER_SEC: u64 = 1_000_000_000;

/// The deadline of the next fire of `schedule` on a monotonic clock that
/// counts nanoseconds and reads `now`, while the wall clock reads
/// `now_secs` seconds since the Unix epoch. `None` for a schedule that
/// never fires, and for a deadline beyond the clock's range.
pub open spec fn deadline_of(schedule: CronSchedule, now_secs: u64, now: u64) -> Option<u64> {
    match delay_until_fire(schedule, now_secs) {
        Some(delay) => if now + delay * 1_000_000_000 <= u64::MAX {
            Some((now + delay * 1_000_000_000) as u64)
        } else {
            None
        },
        None => None,
    }
}

/// Computes `deadline_of`.
pub fn deadline(schedule: &CronSchedule, now_secs: u64, now: u64) -> (r: Option<u64>)
    ensures
        r == deadline_of(*schedule, now_secs, now),
{
    match next_run_delay(schedule, now_secs) {
        Some(delay) => now.checked_add(delay * NANOS_PER_SEC),
        None => None,
    }
}

/// The queue that holds the first `n` of `jobs`, each with the deadline of
/// its next fire; a job without one is left out.
pub open spec fn queue_of(jobs: Seq<JobSpecView>, n: int, now_secs: u64, now: u64) -> Multiset<
    ScheduledJob,
>
    decreases n,
{
    if n <= 0 {
        Multiset::empty()
    } else {
        let rest = queue_of(jobs, n - 1, now_secs, now);
        match deadline_of(jobs[n - 1].schedule, now_secs, now) {
            Some(when) => rest.insert(ScheduledJob { when, job: (n - 1) as usize }),
            None => rest,
        }
    }
}

/// Every entry of `queue_of` refers to one of the first `n` jobs.
pub proof fn lemma_queue_of_jobs(jobs: Seq<JobSpecView>, n: int, now_secs: u64, now: u64)
    requires
        0 <= n <= jobs.len(),
        n <= usize::MAX,
    ensures
        forall|entry: ScheduledJob| #[trigger]
            queue_of(jobs, n, now_secs, now).contains(entry) ==> entry.job < n,
    decreases n,
{
    if n > 0 {
        lemma_queue_of_jobs(jobs, n - 1, now_secs, now);
        let rest = queue_of(jobs, n - 1, now_secs, now);
        assert forall|entry: ScheduledJob| #[trigger]
            queue_of(jobs, n, now_secs, now).contains(entry) implies entry.job < n by {
            if entry.job != n - 1 {
                match deadline_of(jobs[n - 1].schedule, now_secs, now) {
                    Some(when) => {
                        let added = ScheduledJob { when, job: (n - 1) as usize };
                        vstd::multiset::lemma_insert_other_elements_unchanged(rest, added, entry);
                    },
                    None => {},
                }
                assert(rest.contains(entry));
            }
        }
    }
}

/// What the run loop is to do next.
#[derive(Clone, Copy, Debug, PartialEq, Eq, Structural)]
pub enum Action {
    /// This entry is due and has left the queue: run its job, then
    /// schedule it again.
    Run(ScheduledJob),
    /// Nothing is due before this deadline: sleep until then.
    Wait(u64),
    /// Nothing is scheduled: sleep for `IDLE_SECS` seconds.
    Idle,
}

/// How long the run loop sleeps while nothing is scheduled, in seconds.
pub const IDLE_SECS: u64 = 1;

/// The command line of an argument list: the arguments joined by single
/// spaces.
pub open spec fn command_line(args: Seq<Seq<char>>) -> Seq<char>
    decreases args.len(),
{
    if args.len() == 0 {
        Seq::empty()
    } else if args.len() == 1 {
        args[0]
    } else {
        command_line(args.drop_last()) + " "@ + args.last()
    }
}

/// Joins the arguments by single spaces.
pub fn join_args(args: &Vec<String>) -> (line: String)
    ensures
        line@ == command_line(args.deep_view()),
{
    let mut line = String::new();
    let mut i: usize = 0;
    let ghost all = args.deep_view();
    assert(all.take(0) =~= Seq::<Seq<char>>::empty());
    while i < args.len()
        invariant
            i <= args@.len(),
            all == args.deep_view(),
            line@ == command_line(all.take(i as int)),
        decreases args@.len() - i,
    {
        assert(all.take(i + 1).drop_last() =~= all.take(i as int));
        if i > 0 {
            line.append(" ");
        }
        line.append(args[i].as_str());
        assert(line@ =~= command_line(all.take(i + 1)));
        i += 1;
    }
    assert(all.take(i as int) =~= all);
    line
}

/// One process to start for a job that fires.
#[derive(Debug, Clone)]
pub struct Launch {
    /// The id of the job instance.
    pub id: String,
    /// The command line to hand to the shell.
    pub command_line: String,
    /// The escape sequence that colours the job's output.
    pub color: &'static str,
}

/// A `Launch` as plain text.
pub struct LaunchView {
    pub id: Seq<char>,
    pub command_line: Seq<char>,
    pub color: Seq<char>,
}

impl View for Launch {
    type V = LaunchView;

    open spec fn view(&self) -> LaunchView {
        LaunchView { id: self.id@, command_line: self.command_line@, color: self.color@ }
    }
}

impl DeepView for Launch {
    type V = LaunchView;

    open spec fn deep_view(&self) -> LaunchView {
        self@
    }
}

/// The launches of a job: one per instance of its expansion, each with
/// the job's colour.
pub open spec fn launches_of(job: JobSpecView, color: Seq<char>) -> Seq<LaunchView> {
    Seq::new(
        expansion(job).len(),
        |i: int|
            LaunchView {
                id: expansion(job)[i].id,
                command_line: command_line(expansion(job)[i].command),
                color,
            },
    )
}

/// A line of a job's output as it is shown: the colour, the instance id in
/// brackets, the colour reset, and the line.
pub open spec fn output_text(color: Seq<char>, id: Seq<char>, line: Seq<char>) -> Seq<char> {
    color + "["@ + id + "]\u{1b}[0m "@ + line
}

/// Formats a line of a job's output.
pub fn output_line(color: &str, id: &str, line: &str) -> (text: String)
    ensures
        text@ == output_text(color@, id@, line@),
{
    let mut text = String::from_str(color);
    text.append("[");
    text.append(id);
    text.append("]\u{1b}[0m ");
    text.append(line);
    text
}

/// The report of a process that did not start, as it is shown.
pub open spec fn failure_text(color: Seq<char>, id: Seq<char>, error: Seq<char>) -> Seq<char> {
    output_text(color, id, "failed to start: "@ + error)
}

/// Formats the report of a process that did not start.
pub fn failure_line(color: &str, id: &str, error: &str) -> (text: String)
    ensures
        text@ == failure_text(color@, id@, error@),
{
    let mut reason = String::from_str("failed to start: ");
    reason.append(error);
    output_line(color, id, reason.as_str())
}

/// Builds the queue that schedules every one of `jobs` for its next fire.
fn build_queue(jobs: &Vec<JobSpec>, now_secs: u64, now: u64) -> (queue: JobQueue)
    ensures
        queue@ == queue_of(jobs.deep_view(), jobs@.len() as int, now_secs, now),
{
    let mut queue = JobQueue::new();
    let mut i: usize = 0;
    while i < jobs.len()
        invariant
            i <= jobs@.len(),
            queue@ == queue_of(jobs.deep_view(), i as int, now_secs, now),
        decreases jobs@.len() - i,
    {
        match deadline(&jobs[i].schedule, now_secs, now) {
            Some(when) => {
                queue.push(ScheduledJob { when, job: i });
            },
            None => {},
        }
        i += 1;
    }
    queue
}

/// The loaded jobs and the queue of their deadlines. Every entry of the
/// queue refers to a loaded job.
struct Timetable {
    queue: JobQueue,
    cache: ConfigCache,
}

impl Timetable {
    #[verifier::type_invariant]
    spec fn well_formed(&self) -> bool {
        forall|entry: ScheduledJob| #[trigger]
            self.queue@.contains(entry) ==> entry.job < self.cache.jobs@.len()
    }

    /// The jobs of `cache`, with nothing pending.
    fn new(cache: ConfigCache) -> (table: Self)
        ensures
            table.queue@ == Multiset::<ScheduledJob>::empty(),
            table.cache == cache,
    {
        Timetable { queue: JobQueue::new(), cache }
    }

    /// Replaces the queue by one that schedules every loaded job.
    fn init(&mut self, now_secs: u64, now: u64)
        ensures
            final(self).queue@ == queue_of(
                old(self).cache@.jobs,
                old(self).cache@.jobs.len() as int,
                now_secs,
                now,
            ),
            final(self).cache == old(self).cache,
    {
        let queue = build_queue(&self.cache.jobs, now_secs, now);
        let count = self.cache.jobs.len();
        proof {
            lemma_queue_of_jobs(self.cache@.jobs, count as int, now_secs, now);
        }
        self.queue = queue;
    }

    /// Reloads the jobs from a changed job file and schedules them anew.
    fn poll_config(&mut self, stamp: FileStamp, data: &[u8], now_secs: u64, now: u64) -> (r: Result<
        bool,
        String,
    >)
        ensures
            final(self).cache@ == reloaded(old(self).cache@, stamp, data@),
            match reload_answer(old(self).cache@, stamp, data@) {
                Ok(changed) => r == Ok::<bool, String>(changed),
                Err(e) => r is Err && r->Err_0@ == e.message(),
            },
            final(self).queue@ == if r == Ok::<bool, String>(true) {
                queue_of(final(self).cache@.jobs, final(self).cache@.jobs.len() as int, now_secs, now)
            } else {
                old(self).queue@
            },
    {
        proof {
            use_type_invariant(&*self);
        }
        let mut queue = JobQueue::new();
        std::mem::swap(&mut queue, &mut self.queue);
        let mut cache = ConfigCache::new();
        std::mem::swap(&mut cache, &mut self.cache);
        let r = cache.reload_if_changed(stamp, data);
        match r {
            Ok(true) => {
                queue = build_queue(&cache.jobs, now_secs, now);
                let count = cache.jobs.len();
                proof {
                    lemma_queue_of_jobs(cache@.jobs, count as int, now_secs, now);
                }
            },
            _ => {},
        }
        self.cache = cache;
        self.queue = queue;
        r
    }

    /// Takes the entry that is due first out of the queue if its deadline
    /// has come.
    fn next_action(&mut self, now: u64) -> (action: Action)
        ensures
            final(self).cache == old(self).cache,
            match action {
                Action::Run(entry) => is_earliest(old(self).queue@, entry) && entry.when <= now
                    && entry.job < old(self).cache@.jobs.len() && final(self).queue@ == old(
                    self).queue@.remove(entry),
                Action::Wait(until) => now < until && (exists|entry: ScheduledJob|
                    is_earliest(old(self).queue@, entry) && entry.when == until) && final(
                    self).queue@ == old(self).queue@,
                Action::Idle => old(self).queue@.len() == 0 && final(self).queue@ == old(
                    self).queue@,
            },
    {
        proof {
            use_type_invariant(&*self);
        }
        match self.queue.peek() {
            Some(first) => {
                if first.when <= now {
                    let mut queue = JobQueue::new();
                    std::mem::swap(&mut queue, &mut self.queue);
                    let popped = queue.pop();
                    assert forall|other: ScheduledJob| #[trigger]
                        queue@.contains(other) implies other.job < self.cache.jobs@.len() by {
                        assert(old(self).queue@.contains(other));
                    }
                    self.queue = queue;
                    match popped {
                        Some(entry) => {
                            assert(entry.when <= first.when);
                            assert(old(self).queue@.contains(entry));
                            Action::Run(entry)
                        },
                        None => Action::Idle,
                    }
                } else {
                    Action::Wait(first.when)
                }
            },
            None => Action::Idle,
        }
    }

    /// Adds an entry for the next fire of the loaded job number `job`.
    fn reschedule(&mut self, job: usize, now_secs: u64, now: u64) -> (scheduled: bool)
        ensures
            final(self).cache == old(self).cache,
            scheduled == (job < old(self).cache@.jobs.len() && deadline_of(
                old(self).cache@.jobs[job as int].schedule,
                now_secs,
                now,
            ) is Some),
            final(self).queue@ == if scheduled {
                old(self).queue@.insert(
                    ScheduledJob {
                        when: deadline_of(
                            old(self).cache@.jobs[job as int].schedule,
                            now_secs,
                            now,
                        )->0,
                        job,
                    },
                )
            } else {
                old(self).queue@
            },
    {
        proof {
            use_type_invariant(&*self);
        }
        if job >= self.cache.jobs.len() {
            return false;
        }
        match deadline(&self.cache.jobs[job].schedule, now_secs, now) {
            Some(when) => {
                let mut queue = JobQueue::new();
                std::mem::swap(&mut queue, &mut self.queue);
                queue.push(ScheduledJob { when, job });
                assert forall|other: ScheduledJob| #[trigger]
                    queue@.contains(other) implies other.job < self.cache.jobs@.len() by {
                    if other != (ScheduledJob { when, job }) {
                        assert(old(self).queue@.contains(other));
                    }
                }
                self.queue = queue;
                true
            },
            None => false,
        }
    }
}

/// The scheduler: the loaded jobs, the queue of their deadlines, and the
/// colours of their output. Every entry of the queue refers to a loaded
/// job.
pub struct Scheduler {
    table: Timetable,
    printer: Printer,
    colors: CliColorPicker,
}

impl Scheduler {
    /// The pending entries.
    pub closed spec fn queue(&self) -> Multiset<ScheduledJob> {
        self.table.queue@
    }

    /// The cache of loaded jobs.
    pub closed spec fn cache(&self) -> ConfigCacheView {
        self.table.cache@
    }

    /// The loaded jobs.
    pub open spec fn jobs(&self) -> Seq<JobSpecView> {
        self.cache().jobs
    }

    /// The colours handed out.
    pub closed spec fn colors(&self) -> ColorPickerView {
        self.colors@
    }

    /// The printer.
    pub closed spec fn printer(&self) -> Printer {
        self.printer
    }

    /// A scheduler for the jobs of `cache`, with nothing pending.
    pub fn new(cache: ConfigCache, printer: Printer) -> (scheduler: Self)
        ensures
            scheduler.queue() == Multiset::<ScheduledJob>::empty(),
            scheduler.cache() == cache@,
            scheduler.printer() == printer,
            scheduler.colors().assigned == Map::<usize, usize>::empty(),
    {
        Scheduler { table: Timetable::new(cache), printer, colors: CliColorPicker::new() }
    }

    /// The printer that decides whether output is shown.
    pub fn get_printer(&self) -> (printer: Printer)
        ensures
            printer == self.printer(),
    {
        self.printer
    }

    /// The number of loaded jobs.
    pub fn job_count(&self) -> (n: usize)
        ensures
            n == self.jobs().len(),
    {
        self.table.cache.jobs.len()
    }

    /// The number of pending entries.
    pub fn pending(&self) -> (n: usize)
        ensures
            n == self.queue().len(),
    {
        self.table.queue.len()
    }

    /// Drops what is pending and schedules every loaded job anew, for the
    /// wall-clock time `now_secs` and the monotonic time `now`.
    pub fn init(&mut self, now_secs: u64, now: u64)
        ensures
            final(self).queue() == queue_of(
                old(self).jobs(),
                old(self).jobs().len() as int,
                now_secs,
                now,
            ),
            final(self).cache() == old(self).cache(),
            final(self).colors() == old(self).colors(),
            final(self).printer() == old(self).printer(),
    {
        self.table.init(now_secs, now);
    }

    /// Whether the loaded jobs came from a file with this stamp.
    pub fn config_is_current(&self, stamp: &FileStamp) -> (r: bool)
        ensures
            r == (self.cache().stamp == Some(*stamp)),
    {
        self.table.cache.is_current(stamp)
    }

    /// Takes in the job file `data` with the stamp `stamp`. A file with the
    /// stamp of the loaded one changes nothing; a file that does not load
    /// changes nothing and is reported; any other replaces the loaded jobs,
    /// and every job is scheduled anew.
    pub fn poll_config(&mut self, stamp: FileStamp, data: &[u8], now_secs: u64, now: u64) -> (r:
        Result<bool, String>)
        ensures
            final(self).cache() == reloaded(old(self).cache(), stamp, data@),
            match reload_answer(old(self).cache(), stamp, data@) {
                Ok(changed) => r == Ok::<bool, String>(changed),
                Err(e) => r is Err && r->Err_0@ == e.message(),
            },
            final(self).queue() == if r == Ok::<bool, String>(true) {
                queue_of(final(self).jobs(), final(self).jobs().len() as int, now_secs, now)
            } else {
                old(self).queue()
            },
            final(self).colors() == old(self).colors(),
            final(self).printer() == old(self).printer(),
    {
        self.table.poll_config(stamp, data, now_secs, now)
    }

    /// Decides what to do at the monotonic time `now`: run the entry that
    /// is due first, if its deadline has come; else wait for that deadline;
    /// else, with nothing pending, idle.
    pub fn next_action(&mut self, now: u64) -> (action: Action)
        ensures
            final(self).cache() == old(self).cache(),
            final(self).colors() == old(self).colors(),
            final(self).printer() == old(self).printer(),
            match action {
                Action::Run(entry) => is_earliest(old(self).queue(), entry) && entry.when <= now
                    && entry.job < old(self).jobs().len() && final(self).queue() == old(
                    self).queue().remove(entry),
                Action::Wait(until) => now < until && (exists|entry: ScheduledJob|
                    is_earliest(old(self).queue(), entry) && entry.when == until) && final(
                    self).queue() == old(self).queue(),
                Action::Idle => old(self).queue().len() == 0 && final(self).queue() == old(
                    self).queue(),
            },
    {
        self.table.next_action(now)
    }

    /// What to start for the loaded job number `job`: one process per
    /// instance of its expansion, all in the colour that the job's id
    /// hashes to. Nothing for a number that no loaded job has.
    pub fn run_job(&mut self, job: usize) -> (launches: Vec<Launch>)
        ensures
            final(self).queue() == old(self).queue(),
            final(self).cache() == old(self).cache(),
            final(self).printer() == old(self).printer(),
            job >= old(self).jobs().len() ==> launches@.len() == 0 && final(self).colors() == old(
                self).colors(),
            job < old(self).jobs().len() ==> {
                let key = id_hash(old(self).jobs()[job as int].id);
                &&& final(self).colors().assigned.dom().contains(key)
                &&& old(self).colors().assigned.dom().contains(key) ==> final(self).colors() == old(
                    self).colors()
                &&& !old(self).colors().assigned.dom().contains(key) && old(self).colors().next
                    < PALETTE_SIZE ==> final(self).colors() == assign_next(old(self).colors(), key)
                &&& launches.deep_view() == launches_of(
                    old(self).jobs()[job as int],
                    palette(final(self).colors().assigned[key] as int),
                )
            },
            forall|key: usize| #[trigger]
                old(self).colors().assigned.dom().contains(key) ==> final(
                    self).colors().assigned.dom().contains(key) && final(self).colors().assigned[key]
                    == old(self).colors().assigned[key],
    {
        if job >= self.table.cache.jobs.len() {
            return Vec::new();
        }
        let spec_job = &self.table.cache.jobs[job];
        let instances = spec_job.expand();
        let color = self.colors.get(hash_id(spec_job.id.as_str()));
        let mut launches: Vec<Launch> = Vec::new();
        let mut i: usize = 0;
        let ghost want = launches_of(self.table.cache@.jobs[job as int], color@);
        while i < instances.len()
            invariant
                i <= instances@.len(),
                instances.deep_view() == expansion(self.table.cache@.jobs[job as int]),
                want == launches_of(self.table.cache@.jobs[job as int], color@),
                launches@.len() == i,
                forall|k: int| 0 <= k < i ==> (#[trigger] launches@[k])@ == want[k],
            decreases instances@.len() - i,
        {
            let instance = &instances[i];
            assert(instance@ == instances.deep_view()[i as int]);
            launches.push(
                Launch {
                    id: instance.id.clone(),
                    command_line: join_args(&instance.command),
                    color,
                },
            );
            i += 1;
        }
        assert(launches.deep_view() =~= want);
        launches
    }

    /// Schedules the loaded job number `job` for its next fire, and tells
    /// whether it did: not for a number that no loaded job has, nor for a
    /// job without a deadline.
    pub fn reschedule(&mut self, job: usize, now_secs: u64, now: u64) -> (scheduled: bool)
        ensures
            final(self).cache() == old(self).cache(),
            final(self).colors() == old(self).colors(),
            final(self).printer() == old(self).printer(),
            scheduled == (job < old(self).jobs().len() && deadline_of(
                old(self).jobs()[job as int].schedule,
                now_secs,
                now,
            ) is Some),
            final(self).queue() == if scheduled {
                old(self).queue().insert(
                    ScheduledJob {
                        when: deadline_of(old(self).jobs()[job as int].schedule, now_secs, now)->0,
                        job,
                    },
                )
            } else {
                old(self).queue()
            },
    {
        self.table.reschedule(job, now_secs, now)
    }
}

} // verus!
