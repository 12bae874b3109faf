use rust_os::interrupts::{InterruptIndex, PIC_1_OFFSET, PIC_2_OFFSET};
use rust_os::task::simple_executor::SimpleExecutor;
use rust_os::vga_buffer::{Color, ColorCode};
use rust_os::QemuExitCode;

#[test]
fn interrupt_vectors_follow_the_primary_offset() {
    assert_eq!(PIC_1_OFFSET, 32);
    assert_eq!(PIC_2_OFFSET, 40);
    assert_eq!(InterruptIndex::Timer.as_u8(), 32);
    assert_eq!(InterruptIndex::Keyboard.as_u8(), 33);
    assert_eq!(InterruptIndex::Timer.as_usize(), 32);
    assert_eq!(InterruptIndex::Keyboard.as_usize(), 33);
}

#[test]
fn heap_constants() {
    assert_eq!(rust_os::allocator::HEAP_START, 0x4444_4444_0000);
    assert_eq!(rust_os::allocator::HEAP_SIZE, 100 * 1024);
    // the heap starts page-aligned and spans whole pages
    assert_eq!(rust_os::allocator::HEAP_START % rust_os::allocator::PAGE_SIZE as u64, 0);
    assert_eq!(rust_os::allocator::HEAP_SIZE % rust_os::allocator::PAGE_SIZE, 0);
}

#[test]
fn qemu_exit_codes() {
    assert_eq!(QemuExitCode::Success.code(), 0x10);
    assert_eq!(QemuExitCode::Failed.code(), 0x11);
}

#[test]
fn color_codes_pack_background_and_foreground() {
    assert_eq!(Color::Black.code(), 0);
    assert_eq!(Color::Yellow.code(), 14);
    assert_eq!(Color::White.code(), 15);
    // yellow on black: the attribute byte of the kernel's default writer
    assert_eq!(ColorCode::new(Color::Yellow, Color::Black).0, 14);
    assert_eq!(ColorCode::new(Color::White, Color::Blue).0, (1 << 4) | 15);
}

#[test]
fn executor_runs_tasks_in_spawn_order() {
    let mut e = SimpleExecutor::new();
    e.spawn(1);
    e.spawn(2);
    e.spawn(3);
    assert_eq!(e.next_task(), Some(1));
    assert_eq!(e.next_task(), Some(2));
    assert_eq!(e.next_task(), Some(3));
    assert_eq!(e.next_task(), None);
}

#[test]
fn executor_requeues_pending_tasks_at_the_back() {
    let mut e = SimpleExecutor::new();
    e.spawn(7);
    e.spawn(8);
    let t = e.next_task().unwrap();
    assert_eq!(t, 7);
    // the task reported itself pending: it goes behind task 8
    e.requeue(t);
    assert_eq!(e.next_task(), Some(8));
    assert_eq!(e.next_task(), Some(7));
    assert_eq!(e.next_task(), None);
}
