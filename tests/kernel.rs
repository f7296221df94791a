use min_rust_os::interrupts::{InterruptIndex, PIC_1_OFFSET, PIC_2_OFFSET};
use min_rust_os::qemu::QemuExitCode;
use min_rust_os::vga::{Colour, ColourCode};

#[test]
fn interrupt_vectors_follow_pic_offset() {
    assert_eq!(PIC_1_OFFSET, 32);
    assert_eq!(PIC_2_OFFSET, 40);
    assert_eq!(InterruptIndex::Timer.as_u8(), 32);
    assert_eq!(InterruptIndex::Keyboard.as_u8(), 33);
    assert_eq!(InterruptIndex::Keyboard.as_usize(), 33);
}

#[test]
fn qemu_exit_codes() {
    assert_eq!(QemuExitCode::Success.code(), 0x10);
    assert_eq!(QemuExitCode::Failure.code(), 0x11);
}

#[test]
fn colour_codes_pack_background_high() {
    assert_eq!(Colour::Pink.value(), 13);
    assert_eq!(Colour::White.value(), 15);
    assert_eq!(ColourCode::new(Colour::Pink, Colour::Black), ColourCode(0x0d));
    assert_eq!(ColourCode::new(Colour::White, Colour::Blue), ColourCode(0x1f));
    assert_eq!(ColourCode::new(Colour::Black, Colour::White), ColourCode(0xf0));
}
