//! One invocation as a single step: from the command, the file's text (or its
//! absence) and the current time to the text to write back and the report.
use vstd::prelude::*;
use crate::codec::{decode, encode, encode_list, lemma_round_trip, parse_list};
use crate::model::{entries_view, completed_at, pending, Entry, List, Task, TaskV};
use crate::scalar::{digits_val, is_digit};
use crate::text::chars_of;

verus! {

/// Why a task identifier was refused.
#[derive(Debug, Clone, Copy, PartialEq, Eq, Structural)]
pub enum IdError {
    /// Not a decimal number that fits in `usize`.
    NotNumeric,
    /// Identifiers start at 1.
    Zero,
}

/// Why a command failed.
#[derive(Debug, Clone, Copy, PartialEq, Eq, Structural)]
pub enum CmdError {
    /// `init` found a file already there.
    AlreadyExists,
    /// There is no file and auto-initialisation is off.
    NotInitialized,
    /// The file's text is not a list.
    Parse,
    /// The identifier given is not a valid one.
    InvalidId(IdError),
    /// No task has this identifier.
    NotFound(usize),
}

/// The digits of a numeral: an optional leading `+` dropped.
pub open spec fn numeral_digits(s: Seq<char>) -> Seq<char> {
    if s.len() > 0 && s[0] == '+' {
        s.drop_first()
    } else {
        s
    }
}

/// The 0-based index that a 1-based identifier in text stands for.
pub open spec fn id_parse(s: Seq<char>) -> Result<usize, IdError> {
    let d = numeral_digits(s);
    if d.len() == 0 || !(forall|k: int| 0 <= k < d.len() ==> is_digit(#[trigger] d[k]))
        || digits_val(d) > usize::MAX {
        Err(IdError::NotNumeric)
    } else if digits_val(d) == 0 {
        Err(IdError::Zero)
    } else {
        Ok((digits_val(d) - 1) as usize)
    }
}

/// Reads a 1-based task identifier and returns its 0-based index.
pub fn match_id(s: &str) -> (r: Result<usize, IdError>)
    ensures
        r == id_parse(s@),
{
    let cs = chars_of(s);
    let start: usize = if cs.len() > 0 && cs[0] == '+' {
        1
    } else {
        0
    };
    let ghost d = numeral_digits(s@);
    assert(d =~= cs@.skip(start as int));
    let mut k: usize = start;
    let mut v: usize = 0;
    let mut overflow = false;
    while k < cs.len()
        invariant
            start <= k <= cs.len(),
            d == cs@.skip(start as int),
            d == numeral_digits(s@),
            forall|m: int| 0 <= m < k - start ==> is_digit(#[trigger] d[m]),
            !overflow ==> v as nat == digits_val(d.take(k - start)),
            overflow ==> digits_val(d.take(k - start)) > usize::MAX,
        decreases cs.len() - k,
    {
        let c = cs[k];
        if !('0' <= c && c <= '9') {
            assert(d[k - start] == c);
            assert(!is_digit(d[k - start]));
            assert(!(forall|m: int| 0 <= m < d.len() ==> is_digit(#[trigger] d[m])));
            return Err(IdError::NotNumeric);
        }
        let dv = (c as u32 - 48) as usize;
        assert(d.take(k + 1 - start).drop_last() =~= d.take(k - start));
        assert(d.take(k + 1 - start).last() == c);
        if !overflow {
            if v > (usize::MAX - dv) / 10 {
                overflow = true;
                assert(v * 10 + dv > usize::MAX) by (nonlinear_arith)
                    requires
                        v > (usize::MAX - dv) / 10,
                        dv < 10,
                ;
            } else {
                assert(v * 10 + dv <= usize::MAX) by (nonlinear_arith)
                    requires
                        v <= (usize::MAX - dv) / 10,
                        dv < 10,
                ;
                v = v * 10 + dv;
            }
        }
        k += 1;
    }
    assert(d.take(k - start) =~= d);
    if k == start || overflow {
        Err(IdError::NotNumeric)
    } else if v == 0 {
        Err(IdError::Zero)
    } else {
        Ok(v - 1)
    }
}


/// What one invocation asks for. Identifiers are given as the user typed them.
#[derive(Debug)]
pub enum Command {
    Init,
    Add(String),
    List,
    Complete(String),
    Delete(String),
}

pub enum CommandV {
    Init,
    Add(Seq<char>),
    List,
    Complete(Seq<char>),
    Delete(Seq<char>),
}

impl View for Command {
    type V = CommandV;

    open spec fn view(&self) -> CommandV {
        match self {
            Command::Init => CommandV::Init,
            Command::Add(s) => CommandV::Add(s@),
            Command::List => CommandV::List,
            Command::Complete(s) => CommandV::Complete(s@),
            Command::Delete(s) => CommandV::Delete(s@),
        }
    }
}

/// What an invocation tells the user. Identifiers here are 1-based.
#[derive(Debug)]
pub enum Report {
    /// A new, empty list was written.
    Initialized,
    /// The task was appended with this identifier.
    Added(usize),
    /// The open tasks; an empty vector means that nothing is left to do.
    Listing(Vec<Entry>),
    /// The task with this identifier was marked as completed.
    Completed(usize),
    /// The task with this identifier and name was removed.
    Deleted(usize, String),
    /// Nothing was done.
    Failed(CmdError),
}

pub enum ReportV {
    Initialized,
    Added(nat),
    Listing(Seq<(nat, TaskV)>),
    Completed(nat),
    Deleted(nat, Seq<char>),
    Failed(CmdError),
}

impl View for Report {
    type V = ReportV;

    open spec fn view(&self) -> ReportV {
        match self {
            Report::Initialized => ReportV::Initialized,
            Report::Added(n) => ReportV::Added(*n as nat),
            Report::Listing(v) => ReportV::Listing(entries_view(v@)),
            Report::Completed(n) => ReportV::Completed(*n as nat),
            Report::Deleted(n, name) => ReportV::Deleted(*n as nat, name@),
            Report::Failed(e) => ReportV::Failed(*e),
        }
    }
}

/// The result of one step: whether a missing file was initialised on the way,
/// the text to write to the file (if any), and the report.
#[derive(Debug)]
pub struct Outcome {
    pub initialized: bool,
    pub write: Option<String>,
    pub report: Report,
}

pub struct OutcomeV {
    pub initialized: bool,
    pub write: Option<Seq<char>>,
    pub report: ReportV,
}

impl View for Outcome {
    type V = OutcomeV;

    open spec fn view(&self) -> OutcomeV {
        OutcomeV {
            initialized: self.initialized,
            write: match self.write {
                Some(w) => Some(w@),
                None => None,
            },
            report: self.report@,
        }
    }
}

pub open spec fn opt_text(o: Option<&str>) -> Option<Seq<char>> {
    match o {
        Some(s) => Some(s@),
        None => None,
    }
}

/// The list that a command works on: the file's, an empty one where there is
/// no file and `auto_init` is set, or the error.
pub open spec fn load_spec(stored: Option<Seq<char>>, auto_init: bool) -> Result<Seq<TaskV>, CmdError> {
    match stored {
        Some(t) => match parse_list(t) {
            Some(l) => Ok(l),
            None => Err(CmdError::Parse),
        },
        None => if auto_init {
            Ok(Seq::empty())
        } else {
            Err(CmdError::NotInitialized)
        },
    }
}

pub open spec fn failed(e: CmdError) -> OutcomeV {
    OutcomeV { initialized: false, write: None, report: ReportV::Failed(e) }
}

/// Where a command changes nothing, the file is written only if it was just
/// created.
pub open spec fn unchanged(fresh: bool, l: Seq<TaskV>) -> Option<Seq<char>> {
    if fresh {
        Some(encode_list(l))
    } else {
        None
    }
}

/// What a command does to a loaded list `l`; `fresh` says that `l` was just
/// initialised because no file existed.
pub open spec fn apply(cmd: CommandV, l: Seq<TaskV>, fresh: bool, now: u64) -> OutcomeV {
    match cmd {
        CommandV::Add(name) => {
            let l2 = l.push(TaskV { name, author: None, creation: now, completed: None });
            OutcomeV {
                initialized: fresh,
                write: Some(encode_list(l2)),
                report: ReportV::Added(l2.len()),
            }
        },
        CommandV::Complete(s) => {
            let i = id_parse(s)->Ok_0 as int;
            if i < l.len() {
                OutcomeV {
                    initialized: fresh,
                    write: Some(encode_list(l.update(i, completed_at(l[i], now)))),
                    report: ReportV::Completed((i + 1) as nat),
                }
            } else {
                OutcomeV {
                    initialized: fresh,
                    write: unchanged(fresh, l),
                    report: ReportV::Failed(CmdError::NotFound((i + 1) as usize)),
                }
            }
        },
        CommandV::Delete(s) => {
            let i = id_parse(s)->Ok_0 as int;
            if i < l.len() {
                OutcomeV {
                    initialized: fresh,
                    write: Some(encode_list(l.remove(i))),
                    report: ReportV::Deleted((i + 1) as nat, l[i].name),
                }
            } else {
                OutcomeV {
                    initialized: fresh,
                    write: unchanged(fresh, l),
                    report: ReportV::Failed(CmdError::NotFound((i + 1) as usize)),
                }
            }
        },
        _ => OutcomeV {
            initialized: fresh,
            write: unchanged(fresh, l),
            report: ReportV::Listing(pending(l)),
        },
    }
}

/// One invocation: `init` creates the file or fails; an identifier that does
/// not parse fails before anything is read; otherwise the list is loaded
/// and the command applied to it.
#[verifier::opaque]
pub open spec fn step(cmd: CommandV, stored: Option<Seq<char>>, auto_init: bool, now: u64) -> OutcomeV {
    match cmd {
        CommandV::Init => if stored is Some {
            failed(CmdError::AlreadyExists)
        } else {
            OutcomeV {
                initialized: true,
                write: Some(encode_list(Seq::empty())),
                report: ReportV::Initialized,
            }
        },
        _ => {
            let bad_id = match cmd {
                CommandV::Complete(s) => id_parse(s),
                CommandV::Delete(s) => id_parse(s),
                _ => Ok(0usize),
            };
            if bad_id is Err {
                failed(CmdError::InvalidId(bad_id->Err_0))
            } else {
                match load_spec(stored, auto_init) {
                    Err(e) => failed(e),
                    Ok(l) => apply(cmd, l, stored is None, now),
                }
            }
        },
    }
}

/// The list that a command works on (see `load_spec`).
pub fn load(stored: Option<&str>, auto_init: bool) -> (r: Result<List, CmdError>)
    ensures
        match r {
            Ok(l) => load_spec(opt_text(stored), auto_init) == Ok::<Seq<TaskV>, CmdError>(l@),
            Err(e) => load_spec(opt_text(stored), auto_init) == Err::<Seq<TaskV>, CmdError>(e),
        },
{
    match stored {
        Some(t) => match decode(t) {
            Ok(l) => Ok(l),
            Err(_) => Err(CmdError::Parse),
        },
        None => if auto_init {
            Ok(List::new())
        } else {
            Err(CmdError::NotInitialized)
        },
    }
}

fn keep(fresh: bool, l: &List) -> (r: Option<String>)
    ensures
        match r {
            Some(w) => unchanged(fresh, l@) == Some(w@),
            None => unchanged(fresh, l@) is None,
        },
{
    if fresh {
        Some(encode(l))
    } else {
        None
    }
}

/// Runs one command against the file's text (`None`: no file) at time `now`.
pub fn run(cmd: &Command, stored: Option<&str>, auto_init: bool, now: u64) -> (out: Outcome)
    ensures
        out@ == step(cmd@, opt_text(stored), auto_init, now),
{
    reveal(step);
    if let Command::Init = cmd {
        return match stored {
            Some(_) => Outcome {
                initialized: false,
                write: None,
                report: Report::Failed(CmdError::AlreadyExists),
            },
            None => Outcome {
                initialized: true,
                write: Some(encode(&List::new())),
                report: Report::Initialized,
            },
        };
    }
    let index: usize = match cmd {
        Command::Complete(s) | Command::Delete(s) => match match_id(s.as_str()) {
            Ok(i) => i,
            Err(e) => {
                return Outcome {
                    initialized: false,
                    write: None,
                    report: Report::Failed(CmdError::InvalidId(e)),
                };
            },
        },
        _ => 0,
    };
    let mut list = match load(stored, auto_init) {
        Ok(l) => l,
        Err(e) => {
            return Outcome { initialized: false, write: None, report: Report::Failed(e) };
        },
    };
    let fresh = stored.is_none();
    match cmd {
        Command::Add(name) => {
            list.add_task(Task::new(name.clone(), now));
            let n = list.tasks.len();
            Outcome { initialized: fresh, write: Some(encode(&list)), report: Report::Added(n) }
        },
        Command::Complete(_) => {
            if list.complete(index, now) {
                Outcome {
                    initialized: fresh,
                    write: Some(encode(&list)),
                    report: Report::Completed(index + 1),
                }
            } else {
                Outcome {
                    initialized: fresh,
                    write: keep(fresh, &list),
                    report: Report::Failed(CmdError::NotFound(index + 1)),
                }
            }
        },
        Command::Delete(_) => {
            match list.delete(index) {
                Some(t) => Outcome {
                    initialized: fresh,
                    write: Some(encode(&list)),
                    report: Report::Deleted(index + 1, t.name),
                },
                None => Outcome {
                    initialized: fresh,
                    write: keep(fresh, &list),
                    report: Report::Failed(CmdError::NotFound(index + 1)),
                },
            }
        },
        _ => {
            let w = keep(fresh, &list);
            Outcome { initialized: fresh, write: w, report: Report::Listing(list.pending()) }
        },
    }
}

/// Runs one command at the current time of the system clock.
pub fn execute(cmd: &Command, stored: Option<&str>, auto_init: bool) -> (out: Outcome)
    ensures
        exists|now: u64| out@ == #[trigger] step(cmd@, opt_text(stored), auto_init, now),
{
    let now = crate::timestamp();
    run(cmd, stored, auto_init, now)
}

/// `init` where no file exists writes the empty list; a `list` on that file
/// then finds nothing to do and writes nothing.
pub proof fn law_init_then_list(a1: bool, t1: u64, a2: bool, t2: u64)
    ensures
        ({
            let o = step(CommandV::Init, None, a1, t1);
            &&& o.write == Some(encode_list(Seq::<TaskV>::empty()))
            &&& o.report == ReportV::Initialized
            &&& step(CommandV::List, o.write, a2, t2) == (OutcomeV {
                initialized: false,
                write: None,
                report: ReportV::Listing(Seq::empty()),
            })
        }),
{
    reveal(step);
    lemma_round_trip(Seq::<TaskV>::empty());
    assert(pending(Seq::<TaskV>::empty()) =~= Seq::empty());
}

/// `init` where a file exists fails and leaves the file as it is.
pub proof fn law_init_existing(text: Seq<char>, a: bool, t: u64)
    ensures
        step(CommandV::Init, Some(text), a, t) == failed(CmdError::AlreadyExists),
        step(CommandV::Init, Some(text), a, t).write is None,
{
    reveal(step);
}

/// `add` appends an open task created now, reports its identifier (the new
/// length), and a following `list` shows it last, after the open tasks that
/// were there.
pub proof fn law_add_then_list(
    l: Seq<TaskV>,
    name: Seq<char>,
    a1: bool,
    t1: u64,
    a2: bool,
    t2: u64,
)
    ensures
        ({
            let t = TaskV { name, author: None, creation: t1, completed: None };
            let o = step(CommandV::Add(name), Some(encode_list(l)), a1, t1);
            &&& o.write == Some(encode_list(l.push(t)))
            &&& o.report == ReportV::Added(l.len() + 1)
            &&& step(CommandV::List, o.write, a2, t2).report == ReportV::Listing(
                pending(l).push(((l.len() + 1) as nat, t)),
            )
        }),
{
    reveal(step);
    let t = TaskV { name, author: None, creation: t1, completed: None };
    lemma_round_trip(l);
    lemma_round_trip(l.push(t));
    assert(l.push(t).drop_last() =~= l);
}

/// On a list of one task, completing identifier 1 marks it completed now, so
/// that `list` no longer shows it; completing it again succeeds and moves
/// the completion time to the later call's time.
pub proof fn law_complete_one(t: TaskV, s: Seq<char>, a: bool, now1: u64, now2: u64, t3: u64)
    requires
        id_parse(s) == Ok::<usize, IdError>(0),
    ensures
        ({
            let o1 = step(CommandV::Complete(s), Some(encode_list(seq![t])), a, now1);
            let o2 = step(CommandV::Complete(s), o1.write, a, now2);
            &&& o1.write == Some(encode_list(seq![completed_at(t, now1)]))
            &&& o1.report == ReportV::Completed(1)
            &&& step(CommandV::List, o1.write, a, t3).report == ReportV::Listing(Seq::empty())
            &&& o2.write == Some(encode_list(seq![completed_at(t, now2)]))
            &&& o2.report == ReportV::Completed(1)
        }),
{
    lemma_complete_single(t, s, a, now1);
    let c = completed_at(t, now1);
    lemma_complete_single(c, s, a, now2);
    assert(completed_at(c, now2) == completed_at(t, now2));
    lemma_list_stored(seq![c], a, t3);
    assert(seq![c].drop_last() =~= Seq::<TaskV>::empty());
    assert(seq![c].last() == c);
    assert(pending(Seq::<TaskV>::empty()) =~= Seq::empty());
    assert(pending(seq![c]) =~= Seq::empty());
}

proof fn lemma_list_stored(l: Seq<TaskV>, a: bool, now: u64)
    ensures
        step(CommandV::List, Some(encode_list(l)), a, now) == (OutcomeV {
            initialized: false,
            write: None,
            report: ReportV::Listing(pending(l)),
        }),
{
    reveal(step);
    lemma_round_trip(l);
}

proof fn lemma_complete_single(t: TaskV, s: Seq<char>, a: bool, now: u64)
    requires
        id_parse(s) == Ok::<usize, IdError>(0),
    ensures
        step(CommandV::Complete(s), Some(encode_list(seq![t])), a, now) == (OutcomeV {
            initialized: false,
            write: Some(encode_list(seq![completed_at(t, now)])),
            report: ReportV::Completed(1),
        }),
{
    reveal(step);
    lemma_round_trip(seq![t]);
    assert(seq![t].update(0, completed_at(t, now)) =~= seq![completed_at(t, now)]);
}

/// On a list of one task, deleting identifier 1 leaves the empty list; on
/// that list, completing or deleting identifier 1 fails with `NotFound` and
/// writes nothing.
pub proof fn law_delete_one(t: TaskV, s: Seq<char>, a: bool, now: u64, t2: u64)
    requires
        id_parse(s) == Ok::<usize, IdError>(0),
    ensures
        ({
            let o = step(CommandV::Delete(s), Some(encode_list(seq![t])), a, now);
            &&& o.write == Some(encode_list(Seq::<TaskV>::empty()))
            &&& o.report == ReportV::Deleted(1, t.name)
            &&& step(CommandV::Complete(s), o.write, a, t2) == (OutcomeV {
                initialized: false,
                write: None,
                report: ReportV::Failed(CmdError::NotFound(1)),
            })
            &&& step(CommandV::Delete(s), o.write, a, t2) == (OutcomeV {
                initialized: false,
                write: None,
                report: ReportV::Failed(CmdError::NotFound(1)),
            })
        }),
{
    reveal(step);
    let l = seq![t];
    lemma_round_trip(l);
    lemma_round_trip(Seq::<TaskV>::empty());
    assert(l.remove(0) =~= Seq::<TaskV>::empty());
}

/// An identifier that does not parse, or is 0, fails `complete` and `delete`
/// with `InvalidId` before anything is read, and nothing is written.
pub proof fn law_invalid_id(s: Seq<char>, stored: Option<Seq<char>>, a: bool, now: u64)
    requires
        id_parse(s) is Err,
    ensures
        step(CommandV::Complete(s), stored, a, now) == failed(CmdError::InvalidId(id_parse(s)->Err_0)),
        step(CommandV::Delete(s), stored, a, now) == failed(CmdError::InvalidId(id_parse(s)->Err_0)),
        step(CommandV::Complete(s), stored, a, now).write is None,
        step(CommandV::Delete(s), stored, a, now).write is None,
{
    reveal(step);
}

/// The identifier `0` is refused as such.
pub proof fn law_zero_id()
    ensures
        id_parse(seq!['0']) == Err::<usize, IdError>(IdError::Zero),
{
    let d = seq!['0'];
    assert(numeral_digits(d) == d);
    assert(d.drop_last() =~= Seq::<char>::empty());
    assert(d.last() == '0');
    assert(digits_val(Seq::<char>::empty()) == 0);
    assert(digits_val(d) == 0);
}
} // verus!
