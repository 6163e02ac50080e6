//! Tasks and the scheduler states that they enter.

use vstd::prelude::*;

verus! {

/// Describes a task referenced by a trace event.
///
/// The terms are neutral: exporters map them to the field names of their
/// target format.
#[derive(Clone, Copy, Debug, Eq, PartialEq)]
pub struct TaskRef<'a> {
    /// Display name of the task or thread.
    pub comm: &'a str,
    /// OS-visible thread id.
    pub tid: u32,
    /// OS-visible thread group or process id.
    pub tgid: u32,
    /// Scheduler priority associated with the task at event time.
    pub prio: i32,
}

/// Task reference decoded from a record payload.
#[derive(Clone, Copy, Debug, Eq, PartialEq)]
pub struct OwnedTaskRef<'a> {
    /// Display name of the task or thread.
    pub comm: &'a str,
    /// OS-visible thread id.
    pub tid: u32,
    /// OS-visible thread group or process id.
    pub tgid: u32,
    /// Scheduler priority associated with the task at event time.
    pub prio: i32,
}

/// What a task reference says, with the name as its characters.
pub ghost struct TaskView {
    /// Display name of the task or thread.
    pub comm: Seq<char>,
    /// OS-visible thread id.
    pub tid: u32,
    /// OS-visible thread group or process id.
    pub tgid: u32,
    /// Scheduler priority.
    pub prio: i32,
}

impl<'a> View for TaskRef<'a> {
    type V = TaskView;

    open spec fn view(&self) -> TaskView {
        TaskView { comm: self.comm@, tid: self.tid, tgid: self.tgid, prio: self.prio }
    }
}

impl<'a> View for OwnedTaskRef<'a> {
    type V = TaskView;

    open spec fn view(&self) -> TaskView {
        TaskView { comm: self.comm@, tid: self.tid, tgid: self.tgid, prio: self.prio }
    }
}

/// State entered by the previous task after it leaves a CPU.
#[derive(Clone, Copy, Debug, Eq, PartialEq)]
pub enum OffCpuState {
    /// Runnable or running state.
    Running,
    /// Interruptible sleep.
    Sleeping,
    /// Uninterruptible sleep, typically disk wait.
    DiskSleep,
    /// Stopped state.
    Stopped,
    /// Tracing stop state.
    TracingStop,
    /// Zombie state.
    Zombie,
    /// Dead state.
    Dead,
    /// Wake-kill state.
    WakeKill,
    /// Waking state.
    Waking,
    /// Parked state.
    Parked,
    /// Idle task state.
    Idle,
    /// OS-specific state not modeled by the built-in variants.
    Unknown(u32),
}

impl OffCpuState {
    /// The number stored for this state.
    pub open spec fn code(self) -> u32 {
        match self {
            OffCpuState::Running => 0,
            OffCpuState::Sleeping => 1,
            OffCpuState::DiskSleep => 2,
            OffCpuState::Stopped => 3,
            OffCpuState::TracingStop => 4,
            OffCpuState::Zombie => 5,
            OffCpuState::Dead => 6,
            OffCpuState::WakeKill => 7,
            OffCpuState::Waking => 8,
            OffCpuState::Parked => 9,
            OffCpuState::Idle => 10,
            OffCpuState::Unknown(value) => value,
        }
    }

    /// Whether this state is the one that its number stands for: every state
    /// but an `Unknown` that carries the number of a built-in state.
    pub open spec fn canonical(self) -> bool {
        self matches OffCpuState::Unknown(value) ==> value > 10
    }

    /// The state that a stored number stands for.
    pub open spec fn of_code(value: u32) -> OffCpuState {
        if value == 0 {
            OffCpuState::Running
        } else if value == 1 {
            OffCpuState::Sleeping
        } else if value == 2 {
            OffCpuState::DiskSleep
        } else if value == 3 {
            OffCpuState::Stopped
        } else if value == 4 {
            OffCpuState::TracingStop
        } else if value == 5 {
            OffCpuState::Zombie
        } else if value == 6 {
            OffCpuState::Dead
        } else if value == 7 {
            OffCpuState::WakeKill
        } else if value == 8 {
            OffCpuState::Waking
        } else if value == 9 {
            OffCpuState::Parked
        } else if value == 10 {
            OffCpuState::Idle
        } else {
            OffCpuState::Unknown(value)
        }
    }

    /// The letter that bytrace text uses for this state.
    pub open spec fn letter(self) -> char {
        match self {
            OffCpuState::Running => 'R',
            OffCpuState::Sleeping => 'S',
            OffCpuState::DiskSleep => 'D',
            OffCpuState::Stopped => 'T',
            OffCpuState::TracingStop => 't',
            OffCpuState::Zombie => 'Z',
            OffCpuState::Dead => 'X',
            OffCpuState::WakeKill => 'K',
            OffCpuState::Waking => 'W',
            OffCpuState::Parked => 'P',
            OffCpuState::Idle => 'I',
            OffCpuState::Unknown(_) => 'R',
        }
    }

    /// Returns the number stored for this state.
    pub fn encode(self) -> (code: u32)
        ensures
            code == self.code(),
    {
        match self {
            OffCpuState::Running => 0,
            OffCpuState::Sleeping => 1,
            OffCpuState::DiskSleep => 2,
            OffCpuState::Stopped => 3,
            OffCpuState::TracingStop => 4,
            OffCpuState::Zombie => 5,
            OffCpuState::Dead => 6,
            OffCpuState::WakeKill => 7,
            OffCpuState::Waking => 8,
            OffCpuState::Parked => 9,
            OffCpuState::Idle => 10,
            OffCpuState::Unknown(value) => value,
        }
    }

    /// Returns the state that `value` stands for.
    pub fn decode(value: u32) -> (state: Self)
        ensures
            state == OffCpuState::of_code(value),
    {
        match value {
            0 => OffCpuState::Running,
            1 => OffCpuState::Sleeping,
            2 => OffCpuState::DiskSleep,
            3 => OffCpuState::Stopped,
            4 => OffCpuState::TracingStop,
            5 => OffCpuState::Zombie,
            6 => OffCpuState::Dead,
            7 => OffCpuState::WakeKill,
            8 => OffCpuState::Waking,
            9 => OffCpuState::Parked,
            10 => OffCpuState::Idle,
            value => OffCpuState::Unknown(value),
        }
    }

    /// Returns the letter that bytrace text uses for this state.
    pub fn bytrace(self) -> (text: &'static str)
        ensures
            text@ == seq![self.letter()],
    {
        proof {
            reveal_strlit("R");
            reveal_strlit("S");
            reveal_strlit("D");
            reveal_strlit("T");
            reveal_strlit("t");
            reveal_strlit("Z");
            reveal_strlit("X");
            reveal_strlit("K");
            reveal_strlit("W");
            reveal_strlit("P");
            reveal_strlit("I");
        }
        match self {
            OffCpuState::Running => "R",
            OffCpuState::Sleeping => "S",
            OffCpuState::DiskSleep => "D",
            OffCpuState::Stopped => "T",
            OffCpuState::TracingStop => "t",
            OffCpuState::Zombie => "Z",
            OffCpuState::Dead => "X",
            OffCpuState::WakeKill => "K",
            OffCpuState::Waking => "W",
            OffCpuState::Parked => "P",
            OffCpuState::Idle => "I",
            OffCpuState::Unknown(_) => "R",
        }
    }
}

/// Storing a state and reading its number back gives the state, for every
/// canonical state.
pub proof fn law_state_round_trip(state: OffCpuState)
    requires
        state.canonical(),
    ensures
        OffCpuState::of_code(state.code()) == state,
{
}

/// Every number stands for a canonical state that is stored as that number.
pub proof fn law_code_round_trip(value: u32)
    ensures
        OffCpuState::of_code(value).canonical(),
        OffCpuState::of_code(value).code() == value,
{
}

/// The number that is stored for each state.
///
/// The states that the library knows have the numbers from zero on, in the order in
/// which they are declared. Any other number stands for an unknown state.
pub proof fn law_state_numbers(value: u32)
    ensures
        ({
            let known = seq![
                OffCpuState::Running,
                OffCpuState::Sleeping,
                OffCpuState::DiskSleep,
                OffCpuState::Stopped,
                OffCpuState::TracingStop,
                OffCpuState::Zombie,
                OffCpuState::Dead,
                OffCpuState::WakeKill,
                OffCpuState::Waking,
                OffCpuState::Parked,
                OffCpuState::Idle,
            ];
            &&& OffCpuState::of_code(value) == (if value < known.len() {
                known[value as int]
            } else {
                OffCpuState::Unknown(value)
            })
            &&& OffCpuState::of_code(value).code() == value
            &&& OffCpuState::Unknown(value).code() == value
        }),
{
}

/// The letter of each state: by its number, one of `RSDTtZXKWPI`, so that states
/// that the library knows have different letters. An unknown state is shown as
/// running.
pub proof fn law_state_letters(value: u32)
    ensures
        value <= 10 ==> OffCpuState::of_code(value).letter() == "RSDTtZXKWPI"@[value as int],
        OffCpuState::Unknown(value).letter() == 'R',
        forall|other: u32|
            value <= 10 && other <= 10 && other != value ==> OffCpuState::of_code(value).letter()
                != #[trigger] OffCpuState::of_code(other).letter(),
{
    reveal_strlit("RSDTtZXKWPI");
}

} // verus!
