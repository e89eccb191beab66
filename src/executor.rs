use vstd::prelude::*;

use crate::command::{Command, CommandModel};

verus! {

/// The stages of the pipeline that starts at `m`, following `next`.
pub open spec fn chain(m: CommandModel) -> Seq<CommandModel>
    decreases m,
{
    match m.next {
        Some(b) => seq![m] + chain(*b),
        None => seq![m],
    }
}

/// Where a stage reads its standard input from.
#[derive(Debug, Clone, PartialEq, Eq)]
pub enum Source {
    /// The stream the shell itself has.
    Inherit,
    /// The read end of the pipe between stage `k` and stage `k + 1`.
    Pipe(usize),
    /// A file opened for reading.
    File(String),
}

/// Where a stage writes its standard output to.
#[derive(Debug, Clone, PartialEq, Eq)]
pub enum Sink {
    /// The stream the shell itself has.
    Inherit,
    /// The write end of the pipe between stage `k` and stage `k + 1`.
    Pipe(usize),
    /// A file created if absent and emptied first.
    Truncate(String),
    /// A file created if absent and written at its end.
    Append(String),
}

/// The stages of the pipeline that starts at `head`, in order.
pub fn pipeline_stages(head: &Command) -> (r: Vec<&Command>)
    ensures
        r@.map_values(|c: &Command| c@) == chain(head@),
{
    let mut out: Vec<&Command> = Vec::new();
    let mut cur: &Command = head;
    loop
        invariant_except_break
            out@.map_values(|c: &Command| c@) + chain(cur@) == chain(head@),
        ensures
            out@.map_values(|c: &Command| c@) == chain(head@),
        decreases chain(cur@).len(),
    {
        let ghost before = out@.map_values(|c: &Command| c@);
        out.push(cur);
        assert(out@.map_values(|c: &Command| c@) =~= before.push(cur@));
        match &cur.next {
            Some(b) => {
                assert(chain(cur@) == seq![cur@] + chain((**b)@));
                assert(before.push(cur@) + chain((**b)@) =~= before + chain(cur@));
                cur = b;
            },
            None => {
                assert(before.push(cur@) =~= before + chain(cur@));
                break;
            },
        }
    }
    out
}

/// Whether every stage of every pipeline of a parsed line has a name; a
/// line with an empty stage is skipped.
pub open spec fn all_named(cs: Seq<CommandModel>) -> bool {
    forall|i: int, j: int|
        0 <= i < cs.len() && 0 <= j < chain(cs[i]).len() ==> (#[trigger] chain(cs[i])[j]).name.len() > 0
}

/// Whether every stage of every pipeline in `commands` has a name.
pub fn stages_all_named(commands: &Vec<Command>) -> (r: bool)
    ensures
        r == all_named(commands@.map_values(|c: Command| c@)),
{
    let ghost cs = commands@.map_values(|c: Command| c@);
    let mut i: usize = 0;
    while i < commands.len()
        invariant
            cs == commands@.map_values(|c: Command| c@),
            i <= commands@.len(),
            forall|a: int, j: int|
                0 <= a < i && 0 <= j < chain(cs[a]).len() ==> (#[trigger] chain(cs[a])[j]).name.len() > 0,
        decreases commands@.len() - i,
    {
        let stages = pipeline_stages(&commands[i]);
        let ghost ch = chain(cs[i as int]);
        assert(ch == stages@.map_values(|c: &Command| c@));
        let mut j: usize = 0;
        while j < stages.len()
            invariant
                i < cs.len(),
                cs == commands@.map_values(|c: Command| c@),
                ch == stages@.map_values(|c: &Command| c@),
                ch == chain(cs[i as int]),
                j <= stages@.len(),
                forall|k: int| 0 <= k < j ==> (#[trigger] ch[k]).name.len() > 0,
            decreases stages@.len() - j,
        {
            if stages[j].name.as_str().is_empty() {
                assert(ch[j as int].name.len() == 0);
                assert(ch.len() == stages@.len());
                assert(0 <= (i as int) < cs.len() && 0 <= (j as int) < chain(cs[i as int]).len());
                assert(chain(cs[i as int])[j as int].name.len() == 0);
                assert(!all_named(cs));
                return false;
            }
            j = j + 1;
        }
        i = i + 1;
    }
    true
}

/// Whether a pipeline is left to run as a job instead of being waited on:
/// its last stage was ended by `&`.
pub open spec fn in_background(stages: Seq<CommandModel>) -> bool {
    stages.len() > 0 && stages.last().background
}

/// Whether the shell registers the pipeline as a job rather than waiting.
pub fn runs_in_background(stages: &Vec<&Command>) -> (r: bool)
    ensures
        r == in_background(stages@.map_values(|c: &Command| c@)),
{
    if stages.len() == 0 {
        false
    } else {
        stages[stages.len() - 1].background
    }
}

/// Where a stage reads from, as plain values.
pub enum SourceModel {
    Inherit,
    Pipe(int),
    File(Seq<char>),
}

/// Where a stage writes to, as plain values.
pub enum SinkModel {
    Inherit,
    Pipe(int),
    Truncate(Seq<char>),
    Append(Seq<char>),
}

impl Source {
    pub open spec fn view(&self) -> SourceModel {
        match self {
            Source::Inherit => SourceModel::Inherit,
            Source::Pipe(k) => SourceModel::Pipe(*k as int),
            Source::File(p) => SourceModel::File(p@),
        }
    }
}

impl Sink {
    pub open spec fn view(&self) -> SinkModel {
        match self {
            Sink::Inherit => SinkModel::Inherit,
            Sink::Pipe(k) => SinkModel::Pipe(*k as int),
            Sink::Truncate(p) => SinkModel::Truncate(p@),
            Sink::Append(p) => SinkModel::Append(p@),
        }
    }
}

/// Stage `i` reads its input file if it names one, else the pipe from the
/// stage before it, else (the first stage) the shell's own input.
pub open spec fn source_of(i: int, m: CommandModel) -> SourceModel {
    match m.input_redirection {
        Some(p) => SourceModel::File(p),
        None => if i == 0 {
            SourceModel::Inherit
        } else {
            SourceModel::Pipe(i - 1)
        },
    }
}

/// Stage `i` of `n` writes to its output file if it names one (at the end
/// with `>>`, over it with `>`), else to the pipe to the stage after it,
/// else (the last stage) to the shell's own output.
pub open spec fn sink_of(i: int, n: int, m: CommandModel) -> SinkModel {
    match m.output_redirection {
        Some(p) => if m.append_output {
            SinkModel::Append(p)
        } else {
            SinkModel::Truncate(p)
        },
        None => if i + 1 < n {
            SinkModel::Pipe(i)
        } else {
            SinkModel::Inherit
        },
    }
}

/// Where stage `i` of a pipeline reads from.
pub fn stage_source(i: usize, stage: &Command) -> (r: Source)
    ensures
        r@ == source_of(i as int, stage@),
{
    match &stage.input_redirection {
        Some(path) => Source::File(path.clone()),
        None => {
            if i == 0 {
                Source::Inherit
            } else {
                Source::Pipe(i - 1)
            }
        },
    }
}

/// Where stage `i` of `n` writes to.
pub fn stage_sink(i: usize, n: usize, stage: &Command) -> (r: Sink)
    requires
        i < n,
    ensures
        r@ == sink_of(i as int, n as int, stage@),
{
    match &stage.output_redirection {
        Some(path) => {
            if stage.append_output {
                Sink::Append(path.clone())
            } else {
                Sink::Truncate(path.clone())
            }
        },
        None => {
            if i + 1 < n {
                Sink::Pipe(i)
            } else {
                Sink::Inherit
            }
        },
    }
}

/// Two neighbouring stages without file redirections between them share one
/// pipe: the first writes to pipe `i`, the second reads from it. The first
/// stage of a pipeline and the last keep the shell's own input and output.
pub proof fn lemma_neighbours_share_pipe(i: int, n: int, a: CommandModel, b: CommandModel)
    requires
        0 <= i,
        i + 1 < n,
        a.output_redirection is None,
        b.input_redirection is None,
    ensures
        sink_of(i, n, a) == SinkModel::Pipe(i),
        source_of(i + 1, b) == SourceModel::Pipe(i),
        a.input_redirection is None ==> source_of(0, a) == SourceModel::Inherit,
        b.output_redirection is None ==> sink_of(n - 1, n, b) == SinkModel::Inherit,
{
}

/// A file redirection wins over the pipe: `>` writes over the file and `>>`
/// at its end, wherever the stage stands.
pub proof fn lemma_redirection_wins(i: int, n: int, m: CommandModel)
    requires
        m.output_redirection is Some,
    ensures
        m.append_output ==> sink_of(i, n, m) == SinkModel::Append(m.output_redirection->0),
        !m.append_output ==> sink_of(i, n, m) == SinkModel::Truncate(m.output_redirection->0),
        m.input_redirection is Some ==> source_of(i, m) == SourceModel::File(m.input_redirection->0),
{
}

} // verus!
