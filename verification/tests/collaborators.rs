use replacing_reader::{read_full, read_to_end, BlackHole, ByteSource, MeteringReader, Stream};
use std::io;
use std::sync::atomic::Ordering;
use std::sync::Arc;

/// A source that hands out at most two bytes per call.
struct SlowReader<'a> {
    underlying_reader: &'a mut &'a [u8],
}

impl ByteSource for SlowReader<'_> {
    // The three model functions serve proofs only; nothing calls them.
    fn remaining(&self) -> Stream {
        unreachable!()
    }

    fn can_fail(&self) -> bool {
        false
    }

    fn inv(&self) -> bool {
        true
    }

    fn read(&mut self, buf: &mut [u8]) -> Result<usize, io::Error> {
        // return two byte at a time
        if buf.len() >= 2 {
            self.underlying_reader.read(&mut buf[..2])
        } else {
            self.underlying_reader.read(&mut buf[..])
        }
    }
}

/// A source that fails once it has handed out its bytes.
struct FailingReader<'a> {
    underlying_reader: &'a [u8],
}

impl ByteSource for FailingReader<'_> {
    fn remaining(&self) -> Stream {
        unreachable!()
    }

    fn can_fail(&self) -> bool {
        true
    }

    fn inv(&self) -> bool {
        true
    }

    fn read(&mut self, buf: &mut [u8]) -> Result<usize, io::Error> {
        if self.underlying_reader.is_empty() {
            return Err(io::Error::new(io::ErrorKind::Other, "broken pipe"));
        }
        self.underlying_reader.read(buf)
    }
}

/// Moves everything `r` delivers into `sink`, as `std::io::copy` would.
fn copy<R: ByteSource>(r: &mut R, sink: &mut BlackHole) -> Result<u64, io::Error> {
    let mut chunk = [0u8; 8];
    let mut total: u64 = 0;
    loop {
        let n = r.read(&mut chunk)?;
        if n == 0 {
            sink.flush()?;
            return Ok(total);
        }
        let mut written = 0;
        while written < n {
            written += sink.write(&chunk[written..n])?;
        }
        total += n as u64;
    }
}

#[test]
fn test_read_full_slow() {
    let mut underlying_data: &[u8] = &[0, 1, 2, 3, 4, 5, 6, 7];
    let mut reader = SlowReader {
        underlying_reader: &mut underlying_data,
    };
    let mut buf = vec![0u8; 4];
    let res = read_full(&mut buf[..4], &mut reader);
    assert_eq!(res.unwrap(), 4usize);
    assert_eq!(buf[..4], [0, 1, 2, 3]);
    let res = read_full(&mut buf[..3], &mut reader);
    assert_eq!(res.unwrap(), 3usize);
    assert_eq!(buf[..3], [4, 5, 6]);
    let res = read_full(&mut buf[..3], &mut reader);
    assert_eq!(res.unwrap(), 1usize);
    assert_eq!(buf[0], 7);
}

#[test]
fn test_read_full_once() {
    let mut underlying_data: &[u8] = &[0, 1, 2, 3, 4, 5, 6, 7];
    let mut buf = vec![0u8; 9];
    let res = read_full(&mut buf[..], &mut underlying_data);
    assert_eq!(res.unwrap(), 8usize);
}

#[test]
fn test_read_full_on_a_dry_source() {
    let mut underlying_data: &[u8] = &[];
    let mut buf = vec![9u8; 3];
    assert_eq!(read_full(&mut buf[..], &mut underlying_data).unwrap(), 0);
    assert_eq!(buf, [9, 9, 9]);
}

#[test]
fn test_read_full_into_no_room() {
    let mut underlying_data: &[u8] = &[1, 2, 3];
    let mut buf: Vec<u8> = Vec::new();
    assert_eq!(read_full(&mut buf[..], &mut underlying_data).unwrap(), 0);
    assert_eq!(underlying_data, [1, 2, 3]);
}

#[test]
fn test_read_full_hands_the_failure_on() {
    let mut reader = FailingReader {
        underlying_reader: &[1, 2],
    };
    let mut buf = vec![0u8; 4];
    let res = read_full(&mut buf[..], &mut reader);
    assert_eq!(res.unwrap_err().to_string(), "broken pipe");
}

#[test]
fn test_slice_source_hands_out_what_fits() {
    let mut source: &[u8] = &[1, 2, 3, 4, 5];
    let mut buf = [0u8; 3];
    assert_eq!(source.read(&mut buf).unwrap(), 3);
    assert_eq!(buf, [1, 2, 3]);
    assert_eq!(source, [4, 5]);
    assert_eq!(source.read(&mut buf).unwrap(), 2);
    assert_eq!(buf, [4, 5, 3]);
    assert_eq!(source.read(&mut buf).unwrap(), 0);
}

#[test]
fn test_read_to_end_appends() {
    let mut source: &[u8] = b"0123456789012345678901234567890123456789";
    let mut out = b"> ".to_vec();
    assert_eq!(read_to_end(&mut source, &mut out).unwrap(), 40);
    assert_eq!(out, b"> 0123456789012345678901234567890123456789".to_vec());
    assert_eq!(read_to_end(&mut source, &mut out).unwrap(), 0);
    assert_eq!(out.len(), 42);
}

#[test]
fn test_black_hole_takes_everything() {
    let mut sink = BlackHole {};
    assert_eq!(sink.write(b"").unwrap(), 0);
    assert_eq!(sink.write(b"abc").unwrap(), 3);
    assert_eq!(sink.write(&[0u8; 1000]).unwrap(), 1000);
    assert!(sink.flush().is_ok());
}

#[test]
fn test_metering_reader_update() {
    let mut input = "123456".as_bytes();
    let input_len = input.len();
    let mut meter = MeteringReader::new(&mut input);
    let meter_reader = meter.as_reader();
    copy(meter_reader, &mut BlackHole {}).unwrap();
    let result = meter.get_counter();
    assert_eq!(input_len, result);
}

#[test]
fn test_metering_drop_counter_when_meter_is_dropped() {
    let counter_ref;
    {
        let mut input = "123456".as_bytes();
        let input_len = input.len();
        let mut meter = MeteringReader::new(&mut input);
        counter_ref = Arc::downgrade(meter.counter());
        let meter_reader = meter.as_reader();
        copy(meter_reader, &mut BlackHole {}).unwrap();
        let result = meter.get_counter();
        assert_eq!(input_len, result);
    }
    assert_eq!(counter_ref.upgrade().is_none(), true);
}

#[test]
fn test_metering_counter_outlives_the_meter() {
    let held;
    {
        let mut input = "123456".as_bytes();
        let mut meter = MeteringReader::new(&mut input);
        held = Arc::clone(meter.counter());
        assert_eq!(held.load(Ordering::Relaxed), 0);
        {
            let meter_reader = meter.as_reader();
            let mut buf = [0u8; 4];
            assert_eq!(meter_reader.read(&mut buf).unwrap(), 4);
        }
        assert_eq!(meter.get_counter(), 4);
        assert_eq!(held.load(Ordering::Relaxed), 4);
        copy(meter.as_reader(), &mut BlackHole {}).unwrap();
        assert_eq!(meter.get_counter(), 6);
    }
    assert_eq!(held.load(Ordering::Relaxed), 6);
    let watcher = Arc::downgrade(&held);
    drop(held);
    assert!(watcher.upgrade().is_none());
}

#[test]
fn test_metering_counts_nothing_on_failure() {
    let mut source = FailingReader {
        underlying_reader: &[1, 2, 3],
    };
    let mut meter = MeteringReader::new(&mut source);
    let mut buf = [0u8; 8];
    assert_eq!(meter.as_reader().read(&mut buf).unwrap(), 3);
    assert!(meter.as_reader().read(&mut buf).is_err());
    assert_eq!(meter.get_counter(), 3);
    assert_eq!(meter.counter().load(Ordering::Relaxed), 3);
}
