use ros::interrupts::{InterruptIndex, PIC_1_OFFSET, PIC_2_OFFSET};
use ros::vga_buffer::{Color, ColorCode, ScreenChar};
use ros::QemuExitCode;

#[test]
fn qemu_exit_codes() {
    assert_eq!(QemuExitCode::Success.as_u32(), 0x10);
    assert_eq!(QemuExitCode::Failed.as_u32(), 0x11);
    assert_ne!(QemuExitCode::Success, QemuExitCode::Failed);
}

#[test]
fn interrupt_vectors_follow_the_pic_offsets() {
    assert_eq!(PIC_1_OFFSET, 32);
    assert_eq!(PIC_2_OFFSET, 40);
    assert_eq!(InterruptIndex::Timer.as_u8(), 32);
    assert_eq!(InterruptIndex::Keyboard.as_u8(), 33);
    assert_eq!(InterruptIndex::Timer.as_usize(), 32);
    assert_eq!(InterruptIndex::Keyboard.as_usize(), 33);
}

#[test]
fn color_codes_pack_background_high_and_foreground_low() {
    assert_eq!(ColorCode::new(Color::White, Color::Black).0, 0x0f);
    assert_eq!(ColorCode::new(Color::Black, Color::White).0, 0xf0);
    assert_eq!(ColorCode::new(Color::Yellow, Color::Blue).0, 0x1e);
    assert_eq!(ColorCode::default(), ColorCode::new(Color::White, Color::Black));
}

#[test]
fn screen_chars_use_default_coloring() {
    let blank = ScreenChar::blank();
    assert_eq!(blank.ascii_character, b' ');
    assert_eq!(blank.color_code.0, 0x0f);
    let null = ScreenChar::null();
    assert_eq!(null.ascii_character, 0);
    assert_eq!(null.color_code, blank.color_code);
}
