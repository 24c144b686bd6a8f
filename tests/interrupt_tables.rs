use oros::interrupts::{
    handler_for, AfterHandler, Handler, InitStage, InitStep, InterruptIndex, DOUBLE_FAULT_IST_INDEX,
    PIC_1_OFFSET, PIC_2_OFFSET,
};
use oros::port::{PortNumber, QemuExitCode};

#[test]
fn controllers_are_remapped_past_exceptions() {
    assert_eq!(PIC_1_OFFSET, 32);
    assert_eq!(PIC_2_OFFSET, 40);
    assert_eq!(u8::from(InterruptIndex::Timer), 32);
    assert_eq!(u8::from(InterruptIndex::Keyboard), 33);
    assert_eq!(usize::from(InterruptIndex::Keyboard), 33);
}

#[test]
fn vector_table_contents() {
    assert_eq!(handler_for(3), Some(Handler::Breakpoint));
    assert_eq!(handler_for(8), Some(Handler::DoubleFault));
    assert_eq!(handler_for(14), Some(Handler::PageFault));
    assert_eq!(handler_for(32), Some(Handler::Timer));
    assert_eq!(handler_for(33), Some(Handler::Keyboard));
    assert_eq!(handler_for(0), None);
    assert_eq!(handler_for(255), None);
}

#[test]
fn only_double_fault_has_own_stack() {
    assert_eq!(Handler::DoubleFault.stack_index(), Some(DOUBLE_FAULT_IST_INDEX));
    assert_eq!(Handler::PageFault.stack_index(), None);
    assert_eq!(Handler::Keyboard.stack_index(), None);
}

#[test]
fn handler_policies() {
    assert_eq!(Handler::Breakpoint.after(), AfterHandler::Resume);
    assert_eq!(Handler::DoubleFault.after(), AfterHandler::Halt);
    assert_eq!(Handler::PageFault.after(), AfterHandler::Halt);
    assert_eq!(Handler::Timer.after(), AfterHandler::Acknowledge);
    assert_eq!(Handler::Keyboard.after(), AfterHandler::Acknowledge);
}

#[test]
fn init_stages_in_order() {
    let mut stage = InitStage::Uninitialized;
    let mut steps = Vec::new();
    while let Some((step, next)) = stage.next() {
        steps.push(step);
        stage = next;
    }
    assert_eq!(
        steps,
        vec![
            InitStep::LoadSegmentTable,
            InitStep::LoadVectorTable,
            InitStep::RemapControllers,
            InitStep::EnableInterrupts
        ]
    );
    assert_eq!(stage, InitStage::InterruptsEnabled);
}

#[test]
fn port_numbers_and_exit_codes() {
    assert_eq!(u16::from(PortNumber::QemuDebugExit), 0xf4);
    assert_eq!(PortNumber::Keyboard.number(), 0x60);
    assert_eq!(QemuExitCode::Success.code(), 0x10);
    assert_eq!(QemuExitCode::Failed.code(), 0x11);
}
