use otm::history::{push_capped, Lcg};
use std::collections::VecDeque;

#[test]
fn keeps_the_last_minute() {
    let mut buf: VecDeque<u32> = VecDeque::new();
    for i in 0..61 {
        push_capped(&mut buf, i);
    }
    assert_eq!(buf.len(), 60);
    assert_eq!(buf.front(), Some(&1));
    assert_eq!(buf.back(), Some(&60));
}

#[test]
fn short_histories_keep_everything() {
    let mut buf: VecDeque<u32> = VecDeque::new();
    push_capped(&mut buf, 7);
    push_capped(&mut buf, 8);
    assert_eq!(buf, VecDeque::from(vec![7, 8]));
}

#[test]
fn the_generator_repeats_its_sequence() {
    let mut a = Lcg(7);
    let mut b = Lcg(7);
    assert_eq!(a.next_bits(), 4442461162303423);
    assert_eq!(a.0, 9098160460397411210);
    assert_eq!(a.next_bits(), 8607815882110213);
    assert_eq!(b.next_bits(), 4442461162303423);
    assert!(a.next_bits() < (1u64 << 53));
}
