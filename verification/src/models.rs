//! Jobs: what the job file declares, and the instances a job expands to
//! each time it fires.

use vstd::prelude::*;
use vstd::string::*;
use vstd::utf8::encode_utf8;
use crate::parser::CronSchedule;
use crate::shell::{command_args, get_command};
use crate::text::{decimal, decimal_string};

verus! {

/// One concrete run of a job: its id and its full argument list.
#[derive(Debug, Clone)]
pub struct JobInstance {
    pub id: String,
    pub command: Vec<String>,
}

/// A `JobInstance` as plain text.
pub struct JobInstanceView {
    pub id: Seq<char>,
    pub command: Seq<Seq<char>>,
}

impl View for JobInstance {
    type V = JobInstanceView;

    open spec fn view(&self) -> JobInstanceView {
        JobInstanceView { id: self.id@, command: self.command.deep_view() }
    }
}

impl DeepView for JobInstance {
    type V = JobInstanceView;

    open spec fn deep_view(&self) -> JobInstanceView {
        self@
    }
}

/// How a job multiplies when it fires.
#[derive(Debug, Clone)]
pub enum Fanout {
    /// One run of the base command, under the job's own id.
    Single,
    /// That many runs of the base command.
    Int(usize),
    /// One run per entry; each entry is a full argument list, the base
    /// command followed by the entry's own arguments.
    List(Vec<Vec<String>>),
}

/// A `Fanout` as plain text.
pub enum FanoutView {
    Single,
    Int(nat),
    List(Seq<Seq<Seq<char>>>),
}

impl View for Fanout {
    type V = FanoutView;

    open spec fn view(&self) -> FanoutView {
        match self {
            Fanout::Single => FanoutView::Single,
            Fanout::Int(n) => FanoutView::Int(*n as nat),
            Fanout::List(commands) => FanoutView::List(commands.deep_view()),
        }
    }
}

/// A job as the job file declares it.
#[derive(Debug, Clone)]
pub struct JobSpec {
    pub id: String,
    pub schedule: CronSchedule,
    /// The arguments of the job's command.
    pub base_cmd: Vec<String>,
    pub fanout: Fanout,
}

/// A `JobSpec` as plain text.
pub struct JobSpecView {
    pub id: Seq<char>,
    pub schedule: CronSchedule,
    pub base_cmd: Seq<Seq<char>>,
    pub fanout: FanoutView,
}

impl View for JobSpec {
    type V = JobSpecView;

    open spec fn view(&self) -> JobSpecView {
        JobSpecView {
            id: self.id@,
            schedule: self.schedule,
            base_cmd: self.base_cmd.deep_view(),
            fanout: self.fanout@,
        }
    }
}

impl DeepView for JobSpec {
    type V = JobSpecView;

    open spec fn deep_view(&self) -> JobSpecView {
        self@
    }
}

/// The id of instance number `i` of the job `id`: the job's id, a hyphen,
/// and `i` in decimal.
pub open spec fn instance_id(id: Seq<char>, i: nat) -> Seq<char> {
    id + "-"@ + decimal(i)
}

/// The instances that a job expands to.
pub open spec fn expansion(job: JobSpecView) -> Seq<JobInstanceView> {
    match job.fanout {
        FanoutView::Single => seq![JobInstanceView { id: job.id, command: job.base_cmd }],
        FanoutView::Int(n) => Seq::new(
            n,
            |i: int| JobInstanceView { id: instance_id(job.id, i as nat), command: job.base_cmd },
        ),
        FanoutView::List(commands) => Seq::new(
            commands.len(),
            |i: int| JobInstanceView { id: instance_id(job.id, i as nat), command: commands[i] },
        ),
    }
}

/// The full argument lists of a list fanout: for each extra, the base
/// command followed by the arguments that the extra tokenizes to.
pub open spec fn fanout_commands(base: Seq<Seq<char>>, extras: Seq<Seq<char>>) -> Seq<
    Seq<Seq<char>>,
> {
    Seq::new(extras.len(), |i: int| base + command_args(encode_utf8(extras[i])))
}

fn numbered_id(id: &String, i: usize) -> (out: String)
    ensures
        out@ == instance_id(id@, i as nat),
{
    let mut out = id.clone();
    out.append("-");
    out.append(decimal_string(i as u64).as_str());
    out
}

impl JobSpec {
    /// The instances to run when the job fires: one under the job's id
    /// without fanout, otherwise one per count or entry, numbered from 0.
    pub fn expand(&self) -> (out: Vec<JobInstance>)
        ensures
            out.deep_view() == expansion(self@),
    {
        match &self.fanout {
            Fanout::Single => {
                let mut out: Vec<JobInstance> = Vec::new();
                let command = self.base_cmd.clone();
                assert(command.deep_view() =~= self.base_cmd.deep_view());
                out.push(JobInstance { id: self.id.clone(), command });
                assert(out.deep_view() =~= expansion(self@));
                out
            },
            Fanout::Int(n) => {
                let mut out: Vec<JobInstance> = Vec::new();
                let mut i: usize = 0;
                while i < *n
                    invariant
                        i <= *n,
                        self.fanout == Fanout::Int(*n),
                        out@.len() == i,
                        forall|k: int| 0 <= k < i ==> (#[trigger] out@[k])@ == expansion(self@)[k],
                    decreases *n - i,
                {
                    let command = self.base_cmd.clone();
                    assert(command.deep_view() =~= self.base_cmd.deep_view());
                    out.push(JobInstance { id: numbered_id(&self.id, i), command });
                    i += 1;
                }
                assert(out.deep_view() =~= expansion(self@));
                out
            },
            Fanout::List(commands) => {
                let mut out: Vec<JobInstance> = Vec::new();
                let mut i: usize = 0;
                while i < commands.len()
                    invariant
                        i <= commands@.len(),
                        self.fanout == Fanout::List(*commands),
                        out@.len() == i,
                        forall|k: int| 0 <= k < i ==> (#[trigger] out@[k])@ == expansion(self@)[k],
                    decreases commands@.len() - i,
                {
                    let command = commands[i].clone();
                    assert(command.deep_view() =~= commands@[i as int].deep_view());
                    out.push(JobInstance { id: numbered_id(&self.id, i), command });
                    i += 1;
                }
                assert(out.deep_view() =~= expansion(self@));
                out
            },
        }
    }

    /// Builds the argument lists of a list fanout: each extra is tokenized
    /// and appended to a copy of the base command. An extra that cannot be
    /// tokenized adds nothing to the base command.
    pub fn build_fanout_list_from_strings(base_cmd: &[String], extras: &[String]) -> (out: Vec<
        Vec<String>,
    >)
        ensures
            out.deep_view() == fanout_commands(base_cmd.deep_view(), extras.deep_view()),
    {
        let mut out: Vec<Vec<String>> = Vec::new();
        let mut i: usize = 0;
        while i < extras.len()
            invariant
                i <= extras@.len(),
                out@.len() == i,
                forall|k: int|
                    0 <= k < i ==> (#[trigger] out@[k]).deep_view() == fanout_commands(
                        base_cmd.deep_view(),
                        extras.deep_view(),
                    )[k],
            decreases extras@.len() - i,
        {
            let mut extra_tokens = get_command(extras[i].as_str());
            let mut combined = clone_strings(base_cmd);
            let ghost base = combined.deep_view();
            let ghost tail = extra_tokens.deep_view();
            combined.append(&mut extra_tokens);
            assert(combined.deep_view() =~= base + tail);
            out.push(combined);
            i += 1;
        }
        assert(out.deep_view() =~= fanout_commands(base_cmd.deep_view(), extras.deep_view()));
        out
    }
}

/// A copy of a list of strings.
pub fn clone_strings(items: &[String]) -> (out: Vec<String>)
    ensures
        out.deep_view() == items.deep_view(),
{
    let mut out: Vec<String> = Vec::new();
    let mut i: usize = 0;
    while i < items.len()
        invariant
            i <= items@.len(),
            out@.len() == i,
            forall|k: int| 0 <= k < i ==> (#[trigger] out@[k])@ == items@[k]@,
        decreases items@.len() - i,
    {
        out.push(items[i].clone());
        i += 1;
    }
    assert(out.deep_view() =~= items.deep_view());
    out
}

} // verus!
