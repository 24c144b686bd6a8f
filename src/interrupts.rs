//! Interrupt bookkeeping: the vector numbers of the remapped legacy
//! controllers, the vector table's contents and what each handler does, and
//! the order in which the interrupt machinery comes up.
use vstd::prelude::*;

verus! {

/// First vector of the primary controller, past the CPU's exceptions.
pub const PIC_1_OFFSET: u8 = 32;

/// First vector of the secondary controller.
pub const PIC_2_OFFSET: u8 = PIC_1_OFFSET + 8;

/// Index of the interrupt stack reserved for the double-fault handler.
pub const DOUBLE_FAULT_IST_INDEX: u16 = 0;

/// Hardware interrupt lines, by the vector they arrive on.
#[derive(Clone, Copy, Debug, PartialEq, Eq, Structural)]
pub enum InterruptIndex {
    Timer,
    Keyboard,
}

/// The vector of a hardware interrupt line.
pub open spec fn interrupt_vector(i: InterruptIndex) -> u8 {
    match i {
        InterruptIndex::Timer => PIC_1_OFFSET,
        InterruptIndex::Keyboard => (PIC_1_OFFSET + 1) as u8,
    }
}

impl InterruptIndex {
    /// The vector the line arrives on.
    pub fn as_u8(self) -> (r: u8)
        ensures
            r == interrupt_vector(self),
    {
        match self {
            InterruptIndex::Timer => PIC_1_OFFSET,
            InterruptIndex::Keyboard => PIC_1_OFFSET + 1,
        }
    }

    /// The vector the line arrives on, as a table index.
    pub fn as_usize(self) -> (r: usize)
        ensures
            r == interrupt_vector(self),
    {
        self.as_u8() as usize
    }
}

impl From<InterruptIndex> for u8 {
    fn from(value: InterruptIndex) -> (r: u8) {
        value.as_u8()
    }
}

impl vstd::std_specs::convert::FromSpecImpl<InterruptIndex> for u8 {
    open spec fn obeys_from_spec() -> bool {
        true
    }

    open spec fn from_spec(v: InterruptIndex) -> u8 {
        interrupt_vector(v)
    }
}

impl From<InterruptIndex> for usize {
    fn from(value: InterruptIndex) -> (r: usize) {
        value.as_usize()
    }
}

impl vstd::std_specs::convert::FromSpecImpl<InterruptIndex> for usize {
    open spec fn obeys_from_spec() -> bool {
        true
    }

    open spec fn from_spec(v: InterruptIndex) -> usize {
        interrupt_vector(v) as usize
    }
}

/// The handlers that the vector table installs.
#[derive(Clone, Copy, Debug, PartialEq, Eq, Structural)]
pub enum Handler {
    Breakpoint,
    DoubleFault,
    PageFault,
    Timer,
    Keyboard,
}

/// What a handler does once it has run.
#[derive(Clone, Copy, Debug, PartialEq, Eq, Structural)]
pub enum AfterHandler {
    /// Report, then return to the interrupted code.
    Resume,
    /// Report, then halt for good.
    Halt,
    /// Acknowledge the interrupt at the controller, then return.
    Acknowledge,
}

/// Vector of the breakpoint exception.
pub const BREAKPOINT_VECTOR: u8 = 3;

/// Vector of the double-fault exception.
pub const DOUBLE_FAULT_VECTOR: u8 = 8;

/// Vector of the page-fault exception.
pub const PAGE_FAULT_VECTOR: u8 = 14;

/// The handler the vector table holds for `vector`, if any.
pub open spec fn table_entry(vector: u8) -> Option<Handler> {
    if vector == BREAKPOINT_VECTOR {
        Some(Handler::Breakpoint)
    } else if vector == DOUBLE_FAULT_VECTOR {
        Some(Handler::DoubleFault)
    } else if vector == PAGE_FAULT_VECTOR {
        Some(Handler::PageFault)
    } else if vector == interrupt_vector(InterruptIndex::Timer) {
        Some(Handler::Timer)
    } else if vector == interrupt_vector(InterruptIndex::Keyboard) {
        Some(Handler::Keyboard)
    } else {
        None
    }
}

/// The handler installed for `vector`, if any. The table is fixed: it is
/// filled once at boot and never changed.
pub fn handler_for(vector: u8) -> (r: Option<Handler>)
    ensures
        r == table_entry(vector),
{
    if vector == BREAKPOINT_VECTOR {
        Some(Handler::Breakpoint)
    } else if vector == DOUBLE_FAULT_VECTOR {
        Some(Handler::DoubleFault)
    } else if vector == PAGE_FAULT_VECTOR {
        Some(Handler::PageFault)
    } else if vector == InterruptIndex::Timer.as_u8() {
        Some(Handler::Timer)
    } else if vector == InterruptIndex::Keyboard.as_u8() {
        Some(Handler::Keyboard)
    } else {
        None
    }
}

impl Handler {
    /// The dedicated stack the handler runs on, if it has one: only the
    /// double-fault handler does, so that it runs even after a stack
    /// overflow.
    pub fn stack_index(self) -> (r: Option<u16>)
        ensures
            r == if self == Handler::DoubleFault {
                Some(DOUBLE_FAULT_IST_INDEX)
            } else {
                None::<u16>
            },
    {
        match self {
            Handler::DoubleFault => Some(DOUBLE_FAULT_IST_INDEX),
            _ => None,
        }
    }

    /// What the handler does once it has run: a breakpoint resumes, a
    /// double or page fault halts, a hardware interrupt is acknowledged.
    pub fn after(self) -> (r: AfterHandler)
        ensures
            r == match self {
                Handler::Breakpoint => AfterHandler::Resume,
                Handler::DoubleFault => AfterHandler::Halt,
                Handler::PageFault => AfterHandler::Halt,
                Handler::Timer => AfterHandler::Acknowledge,
                Handler::Keyboard => AfterHandler::Acknowledge,
            },
    {
        match self {
            Handler::Breakpoint => AfterHandler::Resume,
            Handler::DoubleFault => AfterHandler::Halt,
            Handler::PageFault => AfterHandler::Halt,
            Handler::Timer => AfterHandler::Acknowledge,
            Handler::Keyboard => AfterHandler::Acknowledge,
        }
    }
}

/// How far the interrupt machinery has come up.
#[derive(Clone, Copy, Debug, PartialEq, Eq, Structural)]
pub enum InitStage {
    Uninitialized,
    SegmentTableLoaded,
    VectorTableLoaded,
    ControllersRemapped,
    InterruptsEnabled,
}

/// What to do to leave a stage.
#[derive(Clone, Copy, Debug, PartialEq, Eq, Structural)]
pub enum InitStep {
    LoadSegmentTable,
    LoadVectorTable,
    RemapControllers,
    EnableInterrupts,
}

/// The stage after `s`, or none from the final one.
pub open spec fn next_stage(s: InitStage) -> Option<(InitStep, InitStage)> {
    match s {
        InitStage::Uninitialized => Some((InitStep::LoadSegmentTable, InitStage::SegmentTableLoaded)),
        InitStage::SegmentTableLoaded => Some((InitStep::LoadVectorTable, InitStage::VectorTableLoaded)),
        InitStage::VectorTableLoaded => Some((InitStep::RemapControllers, InitStage::ControllersRemapped)),
        InitStage::ControllersRemapped => Some((InitStep::EnableInterrupts, InitStage::InterruptsEnabled)),
        InitStage::InterruptsEnabled => None,
    }
}

impl InitStage {
    /// The step that leaves this stage and the stage it leads to; none once
    /// interrupts are enabled, which is the steady state.
    pub fn next(self) -> (r: Option<(InitStep, InitStage)>)
        ensures
            r == next_stage(self),
    {
        match self {
            InitStage::Uninitialized => Some((InitStep::LoadSegmentTable, InitStage::SegmentTableLoaded)),
            InitStage::SegmentTableLoaded => Some((InitStep::LoadVectorTable, InitStage::VectorTableLoaded)),
            InitStage::VectorTableLoaded => Some((InitStep::RemapControllers, InitStage::ControllersRemapped)),
            InitStage::ControllersRemapped => Some((InitStep::EnableInterrupts, InitStage::InterruptsEnabled)),
            InitStage::InterruptsEnabled => None,
        }
    }
}

} // verus!
