use rvkernel::config::MAIL_BUFFER_SIZE;
use rvkernel::mail::{Mail, MailRingBuffer, RingBufferStatus};

fn mail_with(b: u8) -> Mail {
    let mut m = Mail::empty();
    m.content[0] = b;
    m.len = 1;
    m
}

#[test]
fn new_mailbox_is_empty() {
    let mb = MailRingBuffer::new();
    assert_eq!(mb.status(), RingBufferStatus::Empty);
    assert_eq!(mb.available_read(), 0);
    assert_eq!(mb.available_write(), MAIL_BUFFER_SIZE);
}

#[test]
fn sixteen_writes_fill_one_read_frees_one_slot() {
    let mut mb = MailRingBuffer::new();
    for i in 0..16u8 {
        assert!(mb.available_write() > 0);
        mb.write(&mail_with(i));
    }
    assert_eq!(mb.status(), RingBufferStatus::Full);
    assert_eq!(mb.available_write(), 0);
    assert_eq!(mb.available_read(), 16);
    let first = mb.read();
    assert_eq!(first.content[0], 0);
    assert_eq!(mb.status(), RingBufferStatus::Normal);
    assert_eq!(mb.available_write(), 1);
    mb.write(&mail_with(100));
    assert_eq!(mb.available_write(), 0);
    assert_eq!(mb.status(), RingBufferStatus::Full);
}

#[test]
fn reading_all_sixteen_empties_in_order() {
    let mut mb = MailRingBuffer::new();
    for i in 0..16u8 {
        mb.write(&mail_with(i));
    }
    for i in 0..16u8 {
        let m = mb.read();
        assert_eq!(m.content[0], i);
        assert_eq!(m.len, 1);
    }
    assert_eq!(mb.status(), RingBufferStatus::Empty);
    assert_eq!(mb.available_read(), 0);
    assert_eq!(mb.available_write(), 16);
}

#[test]
fn wraparound_keeps_fifo_order() {
    let mut mb = MailRingBuffer::new();
    for i in 0..10u8 {
        mb.write(&mail_with(i));
    }
    for i in 0..10u8 {
        assert_eq!(mb.read().content[0], i);
    }
    for i in 20..36u8 {
        mb.write(&mail_with(i));
    }
    assert_eq!(mb.status(), RingBufferStatus::Full);
    assert_eq!(mb.peek().content[0], 20);
    for i in 20..36u8 {
        assert_eq!(mb.read().content[0], i);
    }
    assert_eq!(mb.status(), RingBufferStatus::Empty);
}

#[test]
fn duplicate_holds_same_messages() {
    let mut mb = MailRingBuffer::new();
    mb.write(&mail_with(7));
    mb.write(&mail_with(8));
    let mut copy = mb.duplicate();
    assert_eq!(copy.available_read(), 2);
    assert_eq!(copy.read().content[0], 7);
    assert_eq!(mb.available_read(), 2);
}

#[test]
fn write_to_full_mailbox_fails_and_keeps_contents() {
    let mut mb = MailRingBuffer::new();
    for i in 0..16u8 {
        assert!(mb.write(&mail_with(i)));
    }
    assert!(!mb.write(&mail_with(99)));
    assert_eq!(mb.status(), RingBufferStatus::Full);
    for i in 0..16u8 {
        assert_eq!(mb.read().content[0], i);
    }
}
