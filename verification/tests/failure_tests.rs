use libcobs::send::{CobsSender, CobsSenderOperation};

/// A sink that accepts only a limited number of chunks, then fails.
struct FlakySink {
    budget: usize,
}

impl CobsSenderOperation for FlakySink {
    // The ghost model of the sink; never called at run time.
    fn accepted(&self) -> vstd::seq::Seq<u8> {
        unreachable!()
    }

    fn send(&mut self, buf: &[u8]) -> Option<usize> {
        if self.budget == 0 {
            return None;
        }
        self.budget -= 1;
        Some(buf.len())
    }
}

#[test]
fn test_send_sink_failure_records_nothing() {
    // The frame [0x03, 0x11, 0x22, 0x00] takes three sink calls; a budget of
    // one makes the second call fail mid-frame.
    let mut s = CobsSender::new(FlakySink { budget: 1 });
    assert_eq!(s.send(&[0x11, 0x22]), None);
    assert_eq!(s.stats().get(), (0, 0));
}

#[test]
fn test_send_sink_failure_on_terminator_records_nothing() {
    // Two calls succeed (code byte, data bytes); the terminator write fails.
    let mut s = CobsSender::new(FlakySink { budget: 2 });
    assert_eq!(s.send(&[0x11, 0x22]), None);
    assert_eq!(s.stats().get(), (0, 0));
}

#[test]
fn test_send_failure_then_success_counts_once() {
    let mut bad = CobsSender::new(FlakySink { budget: 0 });
    assert_eq!(bad.send(&[0x11]), None);
    assert_eq!(bad.stats().get(), (0, 0));

    let mut good = CobsSender::new(FlakySink { budget: 100 });
    assert_eq!(good.send(&[0x11]), Some(3));
    assert_eq!(good.stats().get(), (1, 3));
}
