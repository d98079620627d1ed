use vstd::prelude::*;
use crate::errors::BridgeError;
use crate::process::{spec_bad_priority, spec_classify_os_error, PriorityClass, Process, ProcessEntry};

verus! {

/// Where a snapshot stands in its two-phase protocol: no record
/// consumed yet, mid-enumeration, or terminally exhausted.
#[derive(Debug, Clone, Copy, PartialEq, Eq, Structural)]
pub enum SnapshotPhase {
    NotStarted,
    InProgress,
    Exhausted,
}

/// Which of the two enumeration calls to make.
#[derive(Debug, Clone, Copy, PartialEq, Eq, Structural)]
pub enum SnapshotCall {
    First,
    Next,
}

/// What the OS hands back for one step of the enumeration: a raw row,
/// the end of the table, or an error code.
pub enum SnapshotEvent {
    Entry(ProcessEntry),
    End,
    Fault(u32),
}

/// What one step of the protocol yields.
pub enum SnapshotStep {
    Record(Process),
    Finished,
    Failed(BridgeError),
}

/// The decision half of the two-phase snapshot protocol. The OS half
/// owns the enumeration handle, performs the call this cursor asks for,
/// and feeds the answer back; the cursor decides what it means. The
/// handle must be released exactly when a step says the cursor is done
/// — and since `advance` demands a cursor that is not yet exhausted and
/// exhaustion is terminal, that step is yielded exactly once.
pub struct SnapshotCursor {
    phase: SnapshotPhase,
}

impl SnapshotCursor {
    /// The current phase.
    pub closed spec fn spec_phase(&self) -> SnapshotPhase {
        self.phase
    }

    /// A fresh cursor: nothing consumed yet.
    pub fn new() -> (r: SnapshotCursor)
        ensures
            r.spec_phase() == SnapshotPhase::NotStarted,
    {
        SnapshotCursor { phase: SnapshotPhase::NotStarted }
    }

    /// The call to make now: the first-record call before any record
    /// was consumed, the next-record call from then on.
    pub fn request(&self) -> (r: SnapshotCall)
        requires
            self.spec_phase() != SnapshotPhase::Exhausted,
        ensures
            r == (if self.spec_phase() == SnapshotPhase::NotStarted {
                SnapshotCall::First
            } else {
                SnapshotCall::Next
            }),
    {
        match self.phase {
            SnapshotPhase::NotStarted => SnapshotCall::First,
            _ => SnapshotCall::Next,
        }
    }

    /// Feeds the OS answer to the requested call into the cursor. A raw
    /// row with a valid priority code yields a record and the
    /// enumeration goes on; the end of the table finishes it; an OS
    /// error, or a row whose priority code is out of range, fails it.
    /// The cursor is exhausted exactly when the step says to release
    /// the handle (`Finished` or `Failed`); errors are surfaced at
    /// once, never as partial results.
    pub fn advance(&mut self, event: SnapshotEvent) -> (step: SnapshotStep)
        requires
            old(self).spec_phase() != SnapshotPhase::Exhausted,
        ensures
            (final(self).spec_phase() == SnapshotPhase::Exhausted) == (step is Finished || step
                is Failed),
            match event {
                SnapshotEvent::Entry(e) => if PriorityClass::valid_code(e.priority_code) {
                    final(self).spec_phase() == SnapshotPhase::InProgress && (step matches
                    SnapshotStep::Record(p) && p.entry == e)
                } else {
                    final(self).spec_phase() == SnapshotPhase::Exhausted && (step matches
                    SnapshotStep::Failed(err) && err == spec_bad_priority(e.priority_code))
                },
                SnapshotEvent::End => final(self).spec_phase() == SnapshotPhase::Exhausted && step
                    is Finished,
                SnapshotEvent::Fault(code) => final(self).spec_phase() == SnapshotPhase::Exhausted
                    && (step matches SnapshotStep::Failed(err) && err == spec_classify_os_error(
                    code,
                )),
            },
    {
        match event {
            SnapshotEvent::Entry(e) => {
                match PriorityClass::try_from_code(e.priority_code) {
                    Some(_) => {
                        self.phase = SnapshotPhase::InProgress;
                        SnapshotStep::Record(Process { entry: e })
                    },
                    None => {
                        let code = e.priority_code;
                        let diag: u32 = if code < 0 {
                            0
                        } else {
                            code as u32
                        };
                        self.phase = SnapshotPhase::Exhausted;
                        SnapshotStep::Failed(BridgeError::OsFailure(diag))
                    },
                }
            },
            SnapshotEvent::End => {
                self.phase = SnapshotPhase::Exhausted;
                SnapshotStep::Finished
            },
            SnapshotEvent::Fault(code) => {
                self.phase = SnapshotPhase::Exhausted;
                SnapshotStep::Failed(crate::process::classify_os_error(code))
            },
        }
    }
}

/// A complete answer sequence for one enumeration: zero or more raw
/// rows, closed by exactly one end-of-table or error answer.
pub open spec fn complete_run(evs: Seq<SnapshotEvent>) -> bool {
    &&& evs.len() >= 1
    &&& !(evs.last() is Entry)
    &&& forall|i: int| 0 <= i < evs.len() - 1 ==> (#[trigger] evs[i]) is Entry
}

/// The mathematical content of a raw row.
pub struct EntryModel {
    pub pid: u32,
    pub parent_pid: u32,
    pub thread_count: u32,
    pub priority_code: i32,
    pub image: Seq<u16>,
}

/// The content of a raw row, with the name buffer as a sequence.
pub open spec fn entry_model(e: ProcessEntry) -> EntryModel {
    EntryModel {
        pid: e.pid,
        parent_pid: e.parent_pid,
        thread_count: e.thread_count,
        priority_code: e.priority_code,
        image: e.image@,
    }
}

/// What a full run of the protocol over an answer sequence produces:
/// the raw rows in order, or the first failure.
pub open spec fn spec_collect(evs: Seq<SnapshotEvent>) -> Result<Seq<EntryModel>, BridgeError>
    decreases evs.len(),
{
    if evs.len() == 0 {
        Ok(Seq::empty())
    } else {
        match evs[0] {
            SnapshotEvent::End => Ok(Seq::empty()),
            SnapshotEvent::Fault(code) => Err(spec_classify_os_error(code)),
            SnapshotEvent::Entry(e) => if !PriorityClass::valid_code(e.priority_code) {
                Err(spec_bad_priority(e.priority_code))
            } else {
                match spec_collect(evs.skip(1)) {
                    Ok(rest) => Ok(seq![entry_model(e)] + rest),
                    Err(x) => Err(x),
                }
            },
        }
    }
}

/// Snapshot completeness: a complete, fault-free run with every row
/// in range materialises to exactly one row per entry answer, in
/// order — no row missed, none duplicated.
pub proof fn lemma_collect_complete(evs: Seq<SnapshotEvent>)
    requires
        complete_run(evs),
        evs.last() is End,
        forall|i: int|
            0 <= i < evs.len() - 1 ==> PriorityClass::valid_code(
                (#[trigger] evs[i])->Entry_0.priority_code,
            ),
    ensures
        spec_collect(evs) matches Ok(es) && es.len() == evs.len() - 1 && forall|i: int|
            0 <= i < evs.len() - 1 ==> es[i] == entry_model((#[trigger] evs[i])->Entry_0),
    decreases evs.len(),
{
    if evs.len() == 1 {
        assert(evs[0] == evs.last());
    } else {
        assert(evs[0] is Entry);
        let t = evs.skip(1);
        assert(t.last() == evs.last());
        assert(complete_run(t)) by {
            assert forall|i: int| 0 <= i < t.len() - 1 implies (#[trigger] t[i]) is Entry by {
                assert(evs[i + 1] is Entry);
            }
        }
        assert forall|i: int| 0 <= i < t.len() - 1 implies PriorityClass::valid_code(
            (#[trigger] t[i])->Entry_0.priority_code,
        ) by {
            assert(t[i] == evs[i + 1]);
        }
        lemma_collect_complete(t);
        let e0 = evs[0]->Entry_0;
        assert(PriorityClass::valid_code(e0.priority_code));
        let es_t = spec_collect(t)->Ok_0;
        assert(spec_collect(evs) == Ok::<Seq<EntryModel>, BridgeError>(
            seq![entry_model(e0)] + es_t,
        ));
        let es = seq![entry_model(e0)] + es_t;
        assert forall|i: int| 0 <= i < evs.len() - 1 implies es[i] == entry_model(
            (#[trigger] evs[i])->Entry_0,
        ) by {
            if i > 0 {
                assert(t[i - 1] == evs[i]);
                assert(es_t[i - 1] == entry_model(t[i - 1]->Entry_0));
            }
        }
    }
}

/// The raw rows a list of records came from.
pub open spec fn entries_of(ps: Seq<Process>) -> Seq<EntryModel> {
    Seq::new(ps.len(), |i: int| entry_model(ps[i].entry))
}

/// What a materialised pass must deliver: on success, exactly the rows
/// the run produced, in order, each a well-formed record; on failure,
/// exactly the run's first error.
pub open spec fn collect_post(
    evs: Seq<SnapshotEvent>,
    r: Result<Vec<Process>, BridgeError>,
) -> bool {
    match r {
        Ok(v) => (spec_collect(evs) matches Ok(es) && entries_of(v@) == es) && forall|i: int|
            0 <= i < v@.len() ==> (#[trigger] v@[i]).wf(),
        Err(e) => spec_collect(evs) matches Err(e2) && e == e2,
    }
}

/// A copy of an answer, equal to it in content.
fn clone_event(e: &SnapshotEvent) -> (r: SnapshotEvent)
    ensures
        match *e {
            SnapshotEvent::Entry(x) => r matches SnapshotEvent::Entry(y) && entry_model(y)
                == entry_model(x),
            SnapshotEvent::End => r is End,
            SnapshotEvent::Fault(c) => r matches SnapshotEvent::Fault(c2) && c2 == c,
        },
{
    match e {
        SnapshotEvent::Entry(x) => {
            let mut img: Vec<u16> = Vec::new();
            let mut i: usize = 0;
            while i < x.image.len()
                invariant
                    i <= x.image@.len(),
                    img@ =~= x.image@.take(i as int),
                decreases x.image@.len() - i,
            {
                img.push(x.image[i]);
                i += 1;
            }
            proof {
                assert(x.image@.take(x.image@.len() as int) =~= x.image@);
            }
            SnapshotEvent::Entry(
                ProcessEntry {
                    pid: x.pid,
                    parent_pid: x.parent_pid,
                    thread_count: x.thread_count,
                    priority_code: x.priority_code,
                    image: img,
                },
            )
        },
        SnapshotEvent::End => SnapshotEvent::End,
        SnapshotEvent::Fault(c) => SnapshotEvent::Fault(*c),
    }
}

/// Materialises one full enumeration pass: drives a fresh cursor over
/// the complete answer sequence and yields exactly one record per raw
/// row, in order — or the first failure, with nothing in its place.
/// An empty table gives the empty list, not an error.
pub fn collect_records(events: &Vec<SnapshotEvent>) -> (r: Result<Vec<Process>, BridgeError>)
    requires
        complete_run(events@),
    ensures
        collect_post(events@, r),
{
    let n = events.len();
    let mut cursor = SnapshotCursor::new();
    let mut out: Vec<Process> = Vec::new();
    let mut idx: usize = 0;
    proof {
        assert(entries_of(out@) =~= Seq::<EntryModel>::empty());
        assert(events@.skip(0) =~= events@);
        assert(match spec_collect(events@) {
            Ok(es) => Seq::<EntryModel>::empty() + es =~= es,
            Err(_) => true,
        });
    }
    loop
        invariant
            complete_run(events@),
            n == events@.len(),
            idx < n,
            cursor.spec_phase() != SnapshotPhase::Exhausted,
            forall|i: int| 0 <= i < out@.len() ==> (#[trigger] out@[i]).wf(),
            match spec_collect(events@) {
                Ok(es) => spec_collect(events@.skip(idx as int)) matches Ok(rest) && es
                    == entries_of(out@) + rest,
                Err(e) => spec_collect(events@.skip(idx as int)) matches Err(e2) && e == e2,
            },
        decreases events@.len() - idx,
    {
        let ghost pre = events@.skip(idx as int);
        proof {
            assert(pre[0] == events@[idx as int]);
            assert(pre.skip(1) =~= events@.skip(idx as int + 1));
        }
        let ev = clone_event(&events[idx]);
        idx += 1;
        let step = cursor.advance(ev);
        match step {
            SnapshotStep::Record(p) => {
                let ghost old_out = out@;
                out.push(p);
                proof {
                    let ghost orig = pre[0];
                    assert(orig is Entry);
                    let ent = orig->Entry_0;
                    assert(entry_model(p.entry) == entry_model(ent));
                    assert(PriorityClass::valid_code(ent.priority_code));
                    assert(entries_of(out@) =~= entries_of(old_out).push(entry_model(ent)));
                    assert(pre.len() >= 2) by {
                        assert(!(events@.last() is Entry));
                        if idx as int == events@.len() {
                            assert(events@[idx - 1] == events@.last());
                        }
                    }
                    assert(idx < events@.len());
                    assert(entries_of(old_out) + seq![entry_model(ent)] =~= entries_of(out@));
                    assert(match spec_collect(pre.skip(1)) {
                        Ok(rest) => spec_collect(pre) == Ok::<Seq<EntryModel>, BridgeError>(
                            seq![entry_model(ent)] + rest,
                        ),
                        Err(x) => spec_collect(pre) == Err::<Seq<EntryModel>, BridgeError>(x),
                    });
                    assert(match spec_collect(pre.skip(1)) {
                        Ok(rest) => (entries_of(old_out) + seq![entry_model(ent)]) + rest
                            =~= entries_of(old_out) + (seq![entry_model(ent)] + rest),
                        Err(_) => true,
                    });
                }
            },
            SnapshotStep::Finished => {
                proof {
                    assert(pre[0] is End);
                    assert(spec_collect(pre) == Ok::<Seq<EntryModel>, BridgeError>(Seq::empty()));
                    assert(match spec_collect(events@) {
                        Ok(es) => entries_of(out@) + Seq::<EntryModel>::empty() =~= entries_of(
                            out@,
                        ),
                        Err(_) => true,
                    });
                    assert(collect_post(events@, Ok(out)));
                }
                return Ok(out);
            },
            SnapshotStep::Failed(e) => {
                proof {
                    assert(match pre[0] {
                        SnapshotEvent::Fault(code) => spec_collect(pre) == Err::<
                            Seq<EntryModel>,
                            BridgeError,
                        >(spec_classify_os_error(code)) && e == spec_classify_os_error(code),
                        SnapshotEvent::Entry(ent) => !PriorityClass::valid_code(ent.priority_code)
                            && spec_collect(pre) == Err::<Seq<EntryModel>, BridgeError>(
                            spec_bad_priority(ent.priority_code),
                        ) && e == spec_bad_priority(ent.priority_code),
                        SnapshotEvent::End => false,
                    });
                    assert(collect_post(events@, Err::<Vec<Process>, BridgeError>(e)));
                }
                return Err(e);
            },
        }
    }
}

} // verus!
