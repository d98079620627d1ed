use vstd::prelude::*;
use crate::errors::BridgeError;
use crate::strseq::{eq_ci, str_eq_ci};
use crate::text::{utf16_lossy, utf16_lossy_of};

verus! {

/// How a caller names the process it wants: by case-insensitive image
/// name, or by exact numeric id.
#[derive(Debug, Clone, PartialEq, Eq)]
pub enum ProcessIdentifier {
    Name(String),
    PID(u32),
}

/// The scheduling priority classes a process can report.
#[derive(Debug, Clone, Copy, PartialEq, Eq, Structural)]
pub enum PriorityClass {
    Idle,
    BelowNormal,
    Normal,
    AboveNormal,
    High,
    Realtime,
}

impl PriorityClass {
    /// The OS code of this class.
    pub open spec fn spec_code(self) -> i32 {
        match self {
            PriorityClass::Idle => 0x40,
            PriorityClass::BelowNormal => 0x4000,
            PriorityClass::Normal => 0x20,
            PriorityClass::AboveNormal => 0x8000,
            PriorityClass::High => 0x80,
            PriorityClass::Realtime => 0x100,
        }
    }

    /// Whether an OS code denotes one of the six classes.
    pub open spec fn valid_code(value: i32) -> bool {
        value == 0x40 || value == 0x4000 || value == 0x20 || value == 0x8000 || value == 0x80
            || value == 0x100
    }

    /// The class a base-priority code denotes. Callers must hand one of
    /// the six codes: any other value is a programming error here.
    pub fn from(value: i32) -> (r: PriorityClass)
        requires
            PriorityClass::valid_code(value),
        ensures
            r.spec_code() == value,
    {
        if value == 0x40 {
            PriorityClass::Idle
        } else if value == 0x4000 {
            PriorityClass::BelowNormal
        } else if value == 0x20 {
            PriorityClass::Normal
        } else if value == 0x8000 {
            PriorityClass::AboveNormal
        } else if value == 0x80 {
            PriorityClass::High
        } else {
            PriorityClass::Realtime
        }
    }

    /// The class a base-priority code denotes, or `None` where the code
    /// is out of range.
    pub fn try_from_code(value: i32) -> (r: Option<PriorityClass>)
        ensures
            match r {
                Some(c) => PriorityClass::valid_code(value) && c.spec_code() == value,
                None => !PriorityClass::valid_code(value),
            },
    {
        if value == 0x40 || value == 0x4000 || value == 0x20 || value == 0x8000 || value == 0x80
            || value == 0x100 {
            Some(PriorityClass::from(value))
        } else {
            None
        }
    }
}

/// One raw row of a process snapshot, as the OS reports it: plain
/// numbers, and the image file name as UTF-16 code units with an
/// optional NUL terminator.
#[derive(Debug)]
pub struct ProcessEntry {
    pub pid: u32,
    pub parent_pid: u32,
    pub thread_count: u32,
    pub priority_code: i32,
    pub image: Vec<u16>,
}

/// The position of the first zero unit, or the length when none.
pub open spec fn first_zero(u: Seq<u16>) -> int
    decreases u.len(),
{
    if u.len() == 0 {
        0
    } else if u[0] == 0 {
        0
    } else {
        1 + first_zero(u.skip(1))
    }
}

/// `first_zero` is a position in range, everything before it is
/// nonzero, and it points at a zero unless there is none.
proof fn lemma_first_zero(u: Seq<u16>)
    ensures
        0 <= first_zero(u) <= u.len(),
        forall|j: int| 0 <= j < first_zero(u) ==> u[j] != 0,
        first_zero(u) < u.len() ==> u[first_zero(u)] == 0,
    decreases u.len(),
{
    if u.len() != 0 && u[0] != 0 {
        lemma_first_zero(u.skip(1));
        assert forall|j: int| 0 <= j < first_zero(u) implies u[j] != 0 by {
            if j > 0 {
                assert(u.skip(1)[j - 1] != 0);
            }
        }
    }
}

/// The image name a raw name buffer denotes: the code units up to the
/// first terminator, decoded as text.
pub open spec fn spec_name(u: Seq<u16>) -> Seq<char> {
    utf16_lossy_of(u.take(first_zero(u)))
}

/// An immutable record of one process at capture time; never
/// re-queries the OS.
#[derive(Debug)]
pub struct Process {
    pub entry: ProcessEntry,
}

impl Process {
    /// A record is well-formed when its priority code is one of the six
    /// classes.
    pub open spec fn wf(&self) -> bool {
        PriorityClass::valid_code(self.entry.priority_code)
    }

    /// Wraps a raw snapshot row into a record; a row whose priority
    /// code is out of range is rejected.
    pub fn from_entry(entry: ProcessEntry) -> (r: Option<Process>)
        ensures
            match r {
                Some(p) => PriorityClass::valid_code(entry.priority_code) && p.entry == entry,
                None => !PriorityClass::valid_code(entry.priority_code),
            },
    {
        match PriorityClass::try_from_code(entry.priority_code) {
            Some(_) => Some(Process { entry }),
            None => None,
        }
    }

    /// The image file name, truncated at the first terminator.
    pub fn name(&self) -> (r: String)
        ensures
            r@ == spec_name(self.entry.image@),
    {
        let u = &self.entry.image;
        let n = u.len();
        let mut i: usize = 0;
        while i < n && u[i] != 0
            invariant
                n == u@.len(),
                i <= n,
                forall|j: int| 0 <= j < i ==> u@[j] != 0,
            decreases n - i,
        {
            i += 1;
        }
        proof {
            lemma_first_zero(u@);
            assert(i == first_zero(u@)) by {
                if i < first_zero(u@) {
                    assert(u@[i as int] != 0);
                }
                if first_zero(u@) < i {
                    assert(u@[first_zero(u@)] != 0);
                }
            }
        }
        let mut prefix: Vec<u16> = Vec::new();
        let mut j: usize = 0;
        while j < i
            invariant
                i <= u@.len(),
                j <= i,
                prefix@ =~= u@.take(j as int),
            decreases i - j,
        {
            prefix.push(u[j]);
            j += 1;
        }
        utf16_lossy(&prefix)
    }

    /// The process id at capture time.
    pub fn pid(&self) -> (r: u32)
        ensures
            r == self.entry.pid,
    {
        self.entry.pid
    }

    /// The number of threads at capture time.
    pub fn thread_count(&self) -> (r: u32)
        ensures
            r == self.entry.thread_count,
    {
        self.entry.thread_count
    }

    /// The parent process id at capture time.
    pub fn parent_pid(&self) -> (r: u32)
        ensures
            r == self.entry.parent_pid,
    {
        self.entry.parent_pid
    }

    /// The base priority class at capture time.
    pub fn priority_class(&self) -> (r: PriorityClass)
        requires
            self.wf(),
        ensures
            r.spec_code() == self.entry.priority_code,
    {
        PriorityClass::from(self.entry.priority_code)
    }
}

/// Whether an identifier names a record: a case-insensitive exact
/// image-name match, or an exact id match.
pub open spec fn ident_matches(ident: ProcessIdentifier, p: Process) -> bool {
    match ident {
        ProcessIdentifier::Name(n) => eq_ci(n@, spec_name(p.entry.image@)),
        ProcessIdentifier::PID(pid) => p.entry.pid == pid,
    }
}

/// Finds the first record the identifier names, in enumeration order;
/// when image names collide, the earliest record wins.
pub fn find(list: &Vec<Process>, ident: &ProcessIdentifier) -> (r: Option<usize>)
    ensures
        match r {
            Some(i) => i < list@.len() && ident_matches(*ident, list@[i as int]) && forall|j: int|
                0 <= j < i ==> !ident_matches(*ident, #[trigger] list@[j]),
            None => forall|j: int|
                0 <= j < list@.len() ==> !ident_matches(*ident, #[trigger] list@[j]),
        },
{
    let mut i: usize = 0;
    while i < list.len()
        invariant
            i <= list@.len(),
            forall|j: int| 0 <= j < i ==> !ident_matches(*ident, #[trigger] list@[j]),
        decreases list@.len() - i,
    {
        let hit = match ident {
            ProcessIdentifier::Name(n) => {
                let candidate = list[i].name();
                str_eq_ci(n.as_str(), candidate.as_str())
            },
            ProcessIdentifier::PID(pid) => list[i].pid() == *pid,
        };
        if hit {
            return Some(i);
        }
        i += 1;
    }
    None
}

/// How an OS error code from a process operation is wrapped into the
/// failure taxonomy: access denied becomes `PermissionDenied`, an
/// invalid-parameter answer (the target is gone or unknown) becomes
/// `NotFound`, and anything else an `OsFailure` carrying the code.
pub open spec fn spec_classify_os_error(code: u32) -> BridgeError {
    if code == 5 {
        BridgeError::PermissionDenied(5)
    } else if code == 87 {
        BridgeError::NotFound
    } else {
        BridgeError::OsFailure(code)
    }
}

/// The failure an out-of-range priority code is surfaced as: an OS
/// protocol violation, carrying the code where it fits a code field.
pub open spec fn spec_bad_priority(code: i32) -> BridgeError {
    BridgeError::OsFailure(
        if code < 0 {
            0
        } else {
            code as u32
        },
    )
}

/// Wraps an OS error code from a process operation into the failure
/// taxonomy.
pub fn classify_os_error(code: u32) -> (r: BridgeError)
    ensures
        r == spec_classify_os_error(code),
{
    if code == 5 {
        BridgeError::PermissionDenied(5)
    } else if code == 87 {
        BridgeError::NotFound
    } else {
        BridgeError::OsFailure(code)
    }
}

} // verus!
