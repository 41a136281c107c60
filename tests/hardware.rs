use rust_os::interrupts::{InterruptIndex, PIC_1_OFFSET, PIC_2_OFFSET};
use rust_os::vga_buffer::{Color, ColorCode};
use rust_os::QemuExitCode;

#[test]
fn timer_vector() {
    assert_eq!(PIC_1_OFFSET, 32);
    assert_eq!(PIC_2_OFFSET, 40);
    assert_eq!(InterruptIndex::Timer.as_u8(), 32);
    assert_eq!(InterruptIndex::Timer.as_usize(), 32);
}

#[test]
fn color_code_packs_background_high() {
    assert_eq!(ColorCode::new(Color::Yellow, Color::Black), ColorCode(0x0e));
    assert_eq!(ColorCode::new(Color::White, Color::Blue), ColorCode(0x1f));
    assert_eq!(ColorCode::new(Color::Black, Color::White), ColorCode(0xf0));
    assert_eq!(Color::LightGray.as_u8(), 7);
}

#[test]
fn qemu_exit_codes() {
    assert_eq!(QemuExitCode::Success.as_u32(), 0x10);
    assert_eq!(QemuExitCode::Failed.as_u32(), 0x11);
}
