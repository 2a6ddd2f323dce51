use kannader::data::{
    DataUnescaper, EscapedDataReader, EscapingDataWriter, EscapingDataWriterState, ReadStep,
};
use kannader::misc::show_bytes;

/// A reader made of chunks read one after the other, each read taking
/// from one chunk only.
struct Chunks {
    chunks: Vec<Vec<u8>>,
    idx: usize,
    pos: usize,
}

impl Chunks {
    fn new(chunks: &[&[u8]]) -> Chunks {
        Chunks { chunks: chunks.iter().map(|c| c.to_vec()).collect(), idx: 0, pos: 0 }
    }

    fn read(&mut self, out: &mut [u8]) -> usize {
        while self.idx < self.chunks.len() {
            let c = &self.chunks[self.idx];
            if self.pos < c.len() {
                let n = std::cmp::min(out.len(), c.len() - self.pos);
                out[..n].copy_from_slice(&c[self.pos..self.pos + n]);
                self.pos += n;
                return n;
            }
            self.idx += 1;
            self.pos = 0;
        }
        0
    }
}

/// One read of the stream into `out`, as an asynchronous reader would do
/// it; `None` when the underlying reader ended too early.
fn read_once(r: &mut EscapedDataReader<Chunks>, out: &mut [u8]) -> Option<usize> {
    match r.read_step(out) {
        ReadStep::Ready(n) => Some(n),
        ReadStep::ReadInner => {
            let n = r.inner_mut().read(out);
            match r.after_read(out, n) {
                ReadStep::Ready(n) => Some(n),
                _ => None,
            }
        },
        ReadStep::ConnectionAborted => None,
    }
}

#[test]
fn escaped_data_reader() {
    let tests: &[(&[&[u8]], &[u8], &[u8])] = &[
        (&[b"foo", b" bar", b"\r\n", b".\r", b"\n"], b"foo bar\r\n.\r\n", b""),
        (&[b"\r\n.\r\n", b"\r\n"], b"\r\n.\r\n", b"\r\n"),
        (&[b".\r\n"], b".\r\n", b""),
        (&[b".baz\r\n", b".\r\n", b"foo"], b".baz\r\n.\r\n", b"foo"),
        (&[b" .baz", b"\r\n.", b"\r\nfoo"], b" .baz\r\n.\r\n", b"foo"),
        (&[b".\r\n", b"MAIL FROM"], b".\r\n", b"MAIL FROM"),
        (&[b"..\r\n.\r\n"], b"..\r\n.\r\n", b""),
        (&[b"foo\r\n. ", b"bar\r\n.\r\n"], b"foo\r\n. bar\r\n.\r\n", b""),
        (&[b".\r\nMAIL FROM"], b".\r\n", b"MAIL FROM"),
        (&[b"..\r\n.\r\nMAIL FROM"], b"..\r\n.\r\n", b"MAIL FROM"),
    ];
    for (i, &(inp, out, rem)) in tests.iter().enumerate() {
        println!(
            "Trying to parse test {} into {:?} with {:?} remaining\n",
            i,
            show_bytes(out),
            show_bytes(rem)
        );
        let mut surrounding_buf: Vec<u8> = vec![0; 16];
        surrounding_buf[..inp[0].len()].copy_from_slice(inp[0]);
        let mut data_reader =
            EscapedDataReader::new(surrounding_buf, 0..inp[0].len(), Chunks::new(&inp[1..]));
        let mut enclosed_buf: [u8; 8] = [0; 8];
        let mut res_out = Vec::<u8>::new();
        while let Some(r) = read_once(&mut data_reader, &mut enclosed_buf) {
            if r == 0 {
                break;
            }
            println!("got out buf (size {}): {:?}", r, show_bytes(&enclosed_buf[..r]));
            res_out.extend_from_slice(&enclosed_buf[..r]);
        }
        assert!(data_reader.is_finished());
        data_reader.complete();
        println!("total out is: {:?}, hoping for: {:?}", show_bytes(&res_out), show_bytes(out));
        assert_eq!(&res_out[..], out);

        let unhandled = data_reader.get_unhandled().unwrap();
        let mut res_rem = Vec::<u8>::new();
        res_rem.extend_from_slice(&data_reader.buf()[unhandled]);
        let (_, mut reader) = data_reader.into_parts();
        let mut more: [u8; 16] = [0; 16];
        loop {
            let r = reader.read(&mut more);
            if r == 0 {
                break;
            }
            println!("got rem buf: {:?}", show_bytes(&more[..r]));
            res_rem.extend_from_slice(&more[..r]);
        }
        println!("total rem is: {:?}, hoping for: {:?}", show_bytes(&res_rem), show_bytes(rem));
        assert_eq!(&res_rem[..], rem);
    }
}

#[test]
fn escaped_data_reader_aborted_connection() {
    let mut r = EscapedDataReader::new(b"foo\r\n".to_vec(), 0..5, Chunks::new(&[]));
    let mut out: [u8; 8] = [0; 8];
    assert_eq!(r.read_step(&mut out), ReadStep::Ready(5));
    assert_eq!(&out[..5], b"foo\r\n");
    assert!(!r.is_finished());
    assert_eq!(r.get_unhandled(), None);
    assert_eq!(r.read_step(&mut out), ReadStep::ReadInner);
    assert_eq!(r.after_read(&out, 0), ReadStep::ConnectionAborted);
}

#[test]
fn data_unescaper() {
    let tests: &[(&[&[u8]], &[u8])] = &[
        (&[b"foo", b" bar", b"\r\n", b".\r", b"\n"], b"foo bar\r\n"),
        (&[b"\r\n.\r\n"], b"\r\n"),
        (&[b".baz\r\n", b".\r\n"], b"baz\r\n"),
        (&[b" .baz", b"\r\n.", b"\r\n"], b" .baz\r\n"),
        (&[b".\r\n"], b""),
        (&[b"..\r\n.\r\n"], b".\r\n"),
        (&[b"foo\r\n. ", b"bar\r\n.\r\n"], b"foo\r\n bar\r\n"),
        (&[b"\r\r\n.\r\n"], b"\r\r\n"),
    ];
    let mut buf: [u8; 1024] = [0; 1024];
    for &(inp, out) in tests {
        println!(
            "Test: {:?}",
            inp.iter().map(|i| show_bytes(i)).collect::<Vec<String>>().concat()
        );
        let mut res = Vec::<u8>::new();
        let mut end = 0;
        let mut unescaper = DataUnescaper::new(true);
        for i in inp {
            buf[end..end + i.len()].copy_from_slice(i);
            let r = unescaper.unescape(&mut buf[..end + i.len()]);
            res.extend_from_slice(&buf[..r.written]);
            buf.copy_within(r.unhandled_idx..end + i.len(), 0);
            end = end + i.len() - r.unhandled_idx;
        }
        println!("Result: {:?}", show_bytes(&res));
        assert_eq!(&res[..], out);
    }
}

#[test]
fn data_unescaper_not_at_line_start() {
    // Not preceded by a line end: a leading dot is part of the message.
    let mut unescaper = DataUnescaper::new(false);
    let mut buf = b".x\r\n.\r\n".to_vec();
    let r = unescaper.unescape(&mut buf);
    assert_eq!(&buf[..r.written], b".x\r\n");
    assert_eq!(r.unhandled_idx, 7);
}

/// Writes `writes` through an escaping writer whose underlying writer
/// takes at most `accept` bytes per call, then ends the message.
fn escape_all(writes: &[&[&[u8]]], accept: usize) -> Vec<u8> {
    let mut w = EscapingDataWriter::new(Vec::<u8>::new());
    for write in writes {
        let data: Vec<u8> = write.concat();
        let mut written = 0;
        while written != data.len() {
            let rest = &data[written..];
            let n = w.to_write(rest);
            let s = std::cmp::min(n, accept);
            w.inner_mut().extend_from_slice(&rest[..s]);
            written += w.record_written(rest, n, s);
        }
    }
    let marker = w.end_marker();
    w.inner_mut().extend_from_slice(&marker);
    w.into_inner()
}

#[test]
fn escaping_data_writer() {
    let tests: &[(&[&[&[u8]]], &[u8])] = &[
        (&[&[b"foo", b" bar"], &[b" baz"]], b"foo bar baz\r\n.\r\n"),
        (&[&[b"foo\r\n. bar\r\n"]], b"foo\r\n.. bar\r\n.\r\n"),
        (&[&[b""]], b".\r\n"),
        (&[&[b"."]], b"..\r\n.\r\n"),
        (&[&[b"\r"]], b"\r\r\n.\r\n"),
        (&[&[b"foo\r"]], b"foo\r\r\n.\r\n"),
        (&[&[b"foo bar\r", b"\n"]], b"foo bar\r\n.\r\n"),
        (&[&[b"foo bar\r\n"], &[b". baz\n"]], b"foo bar\r\n.. baz\n\r\n.\r\n"),
    ];
    for &(inp, out) in tests {
        println!("Expected result: {:?}", show_bytes(out));
        for accept in [usize::MAX, 1, 2, 3] {
            let v = escape_all(inp, accept);
            assert_eq!(&v, &out);
        }
    }
}

#[test]
fn escaping_writer_steps() {
    let mut w = EscapingDataWriter::new(Vec::<u8>::new());
    // Up to and including the dot that starts a line.
    assert_eq!(w.to_write(b"ab\r\n.cd"), 5);
    // The dot went out but does not count yet: it goes out once more.
    assert_eq!(w.record_written(b"ab\r\n.cd", 5, 5), 4);
    assert_eq!(w.to_write(b".cd"), 3);
    assert_eq!(w.record_written(b".cd", 3, 3), 3);
    assert_eq!(w.end_marker(), b"\r\n.\r\n".to_vec());
    // At a line start, the marker needs no line end before it.
    let w2 = EscapingDataWriter::new(Vec::<u8>::new());
    assert_eq!(w2.end_marker(), b".\r\n".to_vec());
    let _ = EscapingDataWriterState::CrLf;
}

/// Unescapes `stream` fed in chunks of `step` bytes.
fn unescape_all(stream: &[u8], step: usize) -> Vec<u8> {
    let mut buf: Vec<u8> = Vec::new();
    let mut res = Vec::<u8>::new();
    let mut unescaper = DataUnescaper::new(true);
    for chunk in stream.chunks(step) {
        buf.extend_from_slice(chunk);
        let r = unescaper.unescape(&mut buf);
        res.extend_from_slice(&buf[..r.written]);
        buf.drain(..r.unhandled_idx);
    }
    res
}

#[test]
fn escaping_then_unescaping_gives_the_message_back() {
    let messages: &[&[u8]] = &[
        b"",
        b".",
        b"..",
        b"hello\r\n.\r\nworld",
        b"\r\n.\r\n.",
        b"line\r\n",
        b"a\rb\nc\r\n..d",
        b".\r\n.\r\n",
    ];
    for m in messages {
        let stream = escape_all(&[&[m]], usize::MAX);
        assert!(stream.ends_with(b"\r\n.\r\n") || stream == b".\r\n");
        // `\r\n.` followed by anything but a dot: only the end marker.
        for k in 0..stream.len().saturating_sub(3) {
            if &stream[k..k + 3] == b"\r\n." && stream[k + 3] != b'.' {
                assert_eq!(k, stream.len() - 5);
            }
        }
        for step in [1, 2, 3, 5, 64] {
            // A message that does not end a line gets one added.
            let back = unescape_all(&stream, step);
            let mut expected = m.to_vec();
            if !(expected.is_empty() || expected.ends_with(b"\r\n")) {
                expected.extend_from_slice(b"\r\n");
            }
            assert_eq!(back, expected, "message {:?}, step {}", show_bytes(m), step);
        }
    }
}

/// Reads `wire` (followed by `after`) through the reader, `step` bytes at a
/// time at most, and unescapes what it hands over.
fn read_and_unescape(wire: &[u8], after: &[u8], step: usize) -> (Vec<u8>, Vec<u8>) {
    let mut all = wire.to_vec();
    all.extend_from_slice(after);
    let init = std::cmp::min(3, all.len());
    let mut reader = EscapedDataReader::new(all[..init].to_vec(), 0..init, Chunks::new(&[&all[init..]]));
    let mut unescaper = DataUnescaper::new(true);
    let mut buf: Vec<u8> = vec![0; step + 8];
    let mut start = 0;
    let mut read = Vec::new();
    loop {
        let n = read_once(&mut reader, &mut buf[start..start + step]).unwrap();
        if n == 0 {
            break;
        }
        let r = unescaper.unescape(&mut buf[..start + n]);
        read.extend_from_slice(&buf[..r.written]);
        buf.copy_within(r.unhandled_idx..start + n, 0);
        start = start + n - r.unhandled_idx;
    }
    reader.complete();
    let range = reader.get_unhandled().unwrap();
    let mut rest = reader.buf()[range].to_vec();
    let (_, mut inner) = reader.into_parts();
    let mut more = [0u8; 16];
    loop {
        let n = inner.read(&mut more);
        if n == 0 {
            break;
        }
        rest.extend_from_slice(&more[..n]);
    }
    (read, rest)
}

#[test]
fn reading_then_unescaping_a_stream() {
    let messages: &[&[u8]] = &[b"", b"hello\r\n.\r\nworld", b".\r\n..x", b"no line end"];
    for m in messages {
        let wire = escape_all(&[&[m]], 7);
        let mut expected = m.to_vec();
        if !(expected.is_empty() || expected.ends_with(b"\r\n")) {
            expected.extend_from_slice(b"\r\n");
        }
        for step in [1, 2, 4, 9] {
            let (read, rest) = read_and_unescape(&wire, b"", step);
            assert_eq!(read, expected);
            assert!(rest.is_empty());
            let (read, rest) = read_and_unescape(&wire, b"QUIT\r\n", step);
            assert_eq!(read, expected);
            assert_eq!(rest, b"QUIT\r\n".to_vec());
        }
    }
}

#[test]
fn data_unescaper_split_points() {
    // (starts a line, input, message written, bytes left for the next call)
    let tests: &[(bool, &[u8], &[u8], usize)] = &[
        (true, b"abc", b"", 0),
        (true, b".\r\nX", b"", 3),
        (true, b".abc", b"abc", 4),
        (false, b"ab\r\n.x", b"ab", 2),
        (false, b"ab\r\n.xy", b"ab\r\nxy", 7),
        (false, b"ab\r\n.\r\nzz", b"ab\r\n", 7),
        (false, b"ab\r\n", b"ab", 2),
        (false, b"ab\r", b"ab", 2),
        (false, b"ab", b"ab", 2),
    ];
    for &(start, inp, out, left) in tests {
        let mut u = DataUnescaper::new(start);
        let mut buf = inp.to_vec();
        let r = u.unescape(&mut buf);
        assert_eq!(&buf[..r.written], out, "input {:?}", show_bytes(inp));
        assert_eq!(r.unhandled_idx, left, "input {:?}", show_bytes(inp));
    }
}
