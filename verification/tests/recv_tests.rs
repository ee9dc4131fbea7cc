use libcobs::recv::{CobsReceiver, Mem2Recv};
use std::cmp::Ordering;

#[test]
fn test_recv_00() {
    let pattern: Vec<u8> = vec![0x00];
    let encoded: &[u8] = &[0x01, 0x01, 0x00];

    let mut r = CobsReceiver::new(Mem2Recv::new(encoded));

    match r.recv() {
        Some(p) => {
            let (raw, enc) = r.stats().get();
            assert_eq!(raw, pattern.len());
            assert_eq!(enc, encoded.len());

            assert_eq!(p.len(), pattern.len());
            assert_eq!(p.cmp(&pattern), Ordering::Equal);
        }
        None => assert_eq!(false, true),
    }
}

#[test]
fn test_recv_00_00() {
    let pattern: Vec<u8> = vec![0x00, 0x00];
    let encoded: &[u8] = &[0x01, 0x01, 0x01, 0x00];

    let mut r = CobsReceiver::new(Mem2Recv::new(encoded));

    match r.recv() {
        Some(p) => {
            let (raw, enc) = r.stats().get();
            assert_eq!(raw, pattern.len());
            assert_eq!(enc, encoded.len());

            assert_eq!(p.len(), pattern.len());
            assert_eq!(p.cmp(&pattern), Ordering::Equal);
        }
        None => assert_eq!(false, true),
    }
}

#[test]
fn test_recv_00_11_00() {
    let pattern: Vec<u8> = vec![0x00, 0x11, 0x00];
    let encoded: Vec<u8> = vec![0x01, 0x02, 0x11, 0x01, 0x00];

    let mut r = CobsReceiver::new(Mem2Recv::new(&encoded));

    match r.recv() {
        Some(p) => {
            let (raw, enc) = r.stats().get();
            assert_eq!(raw, pattern.len());
            assert_eq!(enc, encoded.len());

            assert_eq!(p.len(), pattern.len());
            assert_eq!(p.cmp(&pattern), Ordering::Equal);
        }
        None => assert_eq!(false, true),
    }
}

#[test]
fn test_recv_11_22_00_33() {
    let pattern: Vec<u8> = vec![0x11, 0x22, 0x00, 0x33];
    let encoded: Vec<u8> = vec![0x03, 0x11, 0x22, 0x02, 0x33, 0x00];

    let mut r = CobsReceiver::new(Mem2Recv::new(&encoded));

    match r.recv() {
        Some(p) => {
            let (raw, enc) = r.stats().get();
            assert_eq!(raw, pattern.len());
            assert_eq!(enc, encoded.len());

            assert_eq!(p.len(), pattern.len());
            assert_eq!(p.cmp(&pattern), Ordering::Equal);
        }
        None => assert_eq!(false, true),
    }
}

#[test]
fn test_recv_11_22_33_44() {
    let pattern: Vec<u8> = vec![0x11, 0x22, 0x33, 0x44];
    let encoded: Vec<u8> = vec![0x05, 0x11, 0x22, 0x33, 0x44, 0x00];

    let mut r = CobsReceiver::new(Mem2Recv::new(&encoded));

    match r.recv() {
        Some(p) => {
            let (raw, enc) = r.stats().get();
            assert_eq!(raw, pattern.len());
            assert_eq!(enc, encoded.len());

            assert_eq!(p.len(), pattern.len());
            assert_eq!(p.cmp(&pattern), Ordering::Equal);
        }
        None => assert_eq!(false, true),
    }
}

#[test]
fn test_recv_11_00_00_00() {
    let pattern: Vec<u8> = vec![0x11, 0x00, 0x00, 0x00];
    let encoded: Vec<u8> = vec![0x02, 0x11, 0x01, 0x01, 0x01, 0x00];

    let mut r = CobsReceiver::new(Mem2Recv::new(&encoded));

    match r.recv() {
        Some(p) => {
            let (raw, enc) = r.stats().get();
            assert_eq!(raw, pattern.len());
            assert_eq!(enc, encoded.len());

            assert_eq!(p.len(), pattern.len());
            assert_eq!(p.cmp(&pattern), Ordering::Equal);
        }
        None => assert_eq!(false, true),
    }
}

#[test]
fn test_recv_long_0x01_0xfe() {
    let pattern: Vec<u8> = (1..=0xfe).collect::<Vec<_>>();
    let mut encoded: Vec<u8> = vec![0xff];
    encoded.append(&mut (1..=0xfe).collect::<Vec<_>>());
    encoded.push(0x00);

    let mut r = CobsReceiver::new(Mem2Recv::new(&encoded));

    match r.recv() {
        Some(p) => {
            let (raw, enc) = r.stats().get();
            assert_eq!(raw, pattern.len());
            assert_eq!(enc, encoded.len());

            assert_eq!(p.len(), pattern.len());
            assert_eq!(p.cmp(&pattern), Ordering::Equal);
        }
        None => assert_eq!(false, true),
    }
}

#[test]
fn test_recv_long_0x00_0xfe() {
    let pattern: Vec<u8> = (0..=0xfe).collect::<Vec<_>>();
    let mut encoded: Vec<u8> = vec![0x01, 0xff];
    encoded.append(&mut (1..=0xfe).collect::<Vec<_>>());
    encoded.push(0x00);

    let mut r = CobsReceiver::new(Mem2Recv::new(&encoded));

    match r.recv() {
        Some(p) => {
            let (raw, enc) = r.stats().get();
            assert_eq!(raw, pattern.len());
            assert_eq!(enc, encoded.len());

            assert_eq!(p.len(), pattern.len());
            assert_eq!(p.cmp(&pattern), Ordering::Equal);
        }
        None => assert_eq!(false, true),
    }
}

#[test]
fn test_recv_long_0x01_0xff() {
    let pattern: Vec<u8> = (1..=0xff).collect::<Vec<_>>();
    let mut encoded: Vec<u8> = vec![0xff];
    encoded.append(&mut (1..=0xfe).collect::<Vec<_>>());
    encoded.append(&mut vec![0x02_u8, 0xff_u8, 0x00_u8]);

    let mut r = CobsReceiver::new(Mem2Recv::new(&encoded));

    match r.recv() {
        Some(p) => {
            let (raw, enc) = r.stats().get();
            assert_eq!(raw, pattern.len());
            assert_eq!(enc, encoded.len());

            assert_eq!(p.len(), pattern.len());
            assert_eq!(p.cmp(&pattern), Ordering::Equal);
        }
        None => assert_eq!(false, true),
    }
}

#[test]
fn test_recv_long_0x02_0xff_00() {
    let pattern: Vec<u8> = (2..=0x100)
        .map(|i: u16| (i % 0x100) as u8)
        .collect::<Vec<_>>();
    let mut encoded: Vec<u8> = vec![0xff];
    encoded.append(&mut (2..=0xff).collect::<Vec<_>>());
    encoded.append(&mut vec![0x01_u8, 0x01_u8, 0x00_u8]);

    let mut r = CobsReceiver::new(Mem2Recv::new(&encoded));

    match r.recv() {
        Some(p) => {
            let (raw, enc) = r.stats().get();
            assert_eq!(raw, pattern.len());
            assert_eq!(enc, encoded.len());

            assert_eq!(p.len(), pattern.len());
            assert_eq!(p.cmp(&pattern), Ordering::Equal);
        }
        None => assert_eq!(false, true),
    }
}

#[test]
fn test_recv_long_0x03_0xff_00_01() {
    let pattern: Vec<u8> = (3..=0x101)
        .map(|i: u16| (i % 0x100) as u8)
        .collect::<Vec<_>>();
    let mut encoded: Vec<u8> = vec![0xfe];
    encoded.append(&mut (3..=0xff).collect::<Vec<_>>());
    encoded.append(&mut vec![0x02_u8, 0x01_u8, 0x00_u8]);

    let mut r = CobsReceiver::new(Mem2Recv::new(&encoded));

    match r.recv() {
        Some(p) => {
            let (raw, enc) = r.stats().get();
            assert_eq!(raw, pattern.len());
            assert_eq!(enc, encoded.len());

            assert_eq!(p.len(), pattern.len());
            assert_eq!(p.cmp(&pattern), Ordering::Equal);
        }
        None => assert_eq!(false, true),
    }
}
