use reverse_lines::{ByteSource, IoError, LineError, ReverseLines, SliceSource};

fn source(bytes: &[u8]) -> SliceSource {
    SliceSource::new(bytes.to_vec())
}

fn collect_lines(rl: &mut ReverseLines<SliceSource>) -> Vec<Result<String, LineError>> {
    let mut out = Vec::new();
    while let Some(item) = rl.next() {
        out.push(item);
    }
    out
}

#[test]
fn it_handles_empty_files() {
    let mut rev_lines = ReverseLines::new(source(b"")).unwrap();

    assert!(matches!(rev_lines.next(), None));
}

#[test]
fn it_handles_file_with_one_line() {
    let mut rev_lines = ReverseLines::new(source(b"ABCD\n")).unwrap();

    assert_eq!(rev_lines.next().unwrap().unwrap(), "ABCD".to_string());
    assert!(matches!(rev_lines.next(), None));
}

#[test]
fn it_handles_file_with_multi_lines() {
    let mut rev_lines = ReverseLines::new(source(b"ABCDEF\nGHIJK\nLMNOPQRST\nUVWXYZ")).unwrap();

    assert_eq!(rev_lines.next().unwrap().unwrap(), "UVWXYZ".to_string());
    assert_eq!(rev_lines.next().unwrap().unwrap(), "LMNOPQRST".to_string());
    assert_eq!(rev_lines.next().unwrap().unwrap(), "GHIJK".to_string());
    assert_eq!(rev_lines.next().unwrap().unwrap(), "ABCDEF".to_string());
    assert!(matches!(rev_lines.next(), None));
}

#[test]
fn it_handles_file_with_blank_lines() {
    let mut rev_lines = ReverseLines::new(source(b"ABCD\n\nXYZ\n\n\n")).unwrap();

    assert_eq!(rev_lines.next().unwrap().unwrap(), "".to_string());
    assert_eq!(rev_lines.next().unwrap().unwrap(), "".to_string());
    assert_eq!(rev_lines.next().unwrap().unwrap(), "XYZ".to_string());
    assert_eq!(rev_lines.next().unwrap().unwrap(), "".to_string());
    assert_eq!(rev_lines.next().unwrap().unwrap(), "ABCD".to_string());
    assert!(matches!(rev_lines.next(), None));
}

#[test]
fn it_handles_file_with_multi_lines_and_with_capacity() {
    let mut rev_lines =
        ReverseLines::with_capacity(5, source(b"ABCDEF\nGHIJK\nLMNOPQRST\nUVWXYZ")).unwrap();

    assert_eq!(rev_lines.next().unwrap().unwrap(), "UVWXYZ".to_string());
    assert_eq!(rev_lines.next().unwrap().unwrap(), "LMNOPQRST".to_string());
    assert_eq!(rev_lines.next().unwrap().unwrap(), "GHIJK".to_string());
    assert_eq!(rev_lines.next().unwrap().unwrap(), "ABCDEF".to_string());
    assert!(matches!(rev_lines.next(), None));
}

#[test]
fn it_errors_on_invalid_utf8() {
    let mut rev_lines =
        ReverseLines::with_capacity(5, source(b"\x93\xFA\x88\xB1\nValid UTF8")).unwrap();

    assert_eq!(rev_lines.next().unwrap().unwrap(), "Valid UTF8".to_string());
    assert!(matches!(rev_lines.next().unwrap(), Err(_)));
    assert!(matches!(rev_lines.next(), None));
}

#[test]
fn invalid_utf8_line_between_valid_lines() {
    let mut rev_lines = ReverseLines::new(source(b"Before\n\xFF\xFE\nAfter")).unwrap();

    assert_eq!(rev_lines.next().unwrap().unwrap(), "After".to_string());
    assert!(matches!(rev_lines.next().unwrap(), Err(LineError::Decode)));
    assert_eq!(rev_lines.next().unwrap().unwrap(), "Before".to_string());
    assert!(matches!(rev_lines.next(), None));
}

#[test]
fn chunk_size_does_not_affect_results() {
    let bytes: &[u8] = b"ABCDEF\nGHIJK\nLMNOPQRST\nUVWXYZ";
    let mut tiny = ReverseLines::with_capacity(1, source(bytes)).unwrap();
    let mut big = ReverseLines::with_capacity(4096, source(bytes)).unwrap();

    let from_tiny = collect_lines(&mut tiny);
    let from_big = collect_lines(&mut big);
    assert_eq!(from_tiny.len(), 4);
    for (a, b) in from_tiny.iter().zip(from_big.iter()) {
        assert_eq!(a.as_ref().unwrap(), b.as_ref().unwrap());
    }
}

#[test]
fn crlf_and_lf_terminators_read_alike() {
    let mut with_crlf = ReverseLines::new(source(b"AAA\r\nBB\r\nC")).unwrap();
    let mut with_lf = ReverseLines::new(source(b"AAA\nBB\nC")).unwrap();

    for expected in ["C", "BB", "AAA"] {
        assert_eq!(with_crlf.next().unwrap().unwrap(), expected.to_string());
        assert_eq!(with_lf.next().unwrap().unwrap(), expected.to_string());
    }
    assert!(matches!(with_crlf.next(), None));
    assert!(matches!(with_lf.next(), None));
}

#[test]
fn terminated_source_yields_one_item_per_segment() {
    let mut rev_lines = ReverseLines::new(source(b"A\nB\n")).unwrap();
    let items = collect_lines(&mut rev_lines);
    assert_eq!(items.len(), 2);
    assert_eq!(items[0].as_ref().unwrap(), "B");
    assert_eq!(items[1].as_ref().unwrap(), "A");

    let mut crlf_lines = ReverseLines::new(source(b"A\r\nB\r\n")).unwrap();
    let crlf_items = collect_lines(&mut crlf_lines);
    assert_eq!(crlf_items.len(), 2);
    assert_eq!(crlf_items[0].as_ref().unwrap(), "B");
    assert_eq!(crlf_items[1].as_ref().unwrap(), "A");
}

#[test]
fn round_trip_reverses_joined_lines() {
    let lines = ["alpha", "beta", "gamma"];
    let joined = lines.join("\n");
    let mut rev_lines = ReverseLines::new(source(joined.as_bytes())).unwrap();

    for expected in lines.iter().rev() {
        assert_eq!(rev_lines.next().unwrap().unwrap(), expected.to_string());
    }
    assert!(matches!(rev_lines.next(), None));
}

#[test]
fn unterminated_final_line_comes_back_whole() {
    let mut rev_lines = ReverseLines::new(source(b"X\nlast")).unwrap();

    assert_eq!(rev_lines.next().unwrap().unwrap(), "last".to_string());
    assert_eq!(rev_lines.next().unwrap().unwrap(), "X".to_string());
    assert!(matches!(rev_lines.next(), None));
}

#[test]
fn lone_cr_is_ordinary_content() {
    let mut rev_lines = ReverseLines::new(source(b"AB\rCD\nE")).unwrap();

    assert_eq!(rev_lines.next().unwrap().unwrap(), "E".to_string());
    assert_eq!(rev_lines.next().unwrap().unwrap(), "AB\rCD".to_string());
    assert!(matches!(rev_lines.next(), None));
}

struct FailingSource;

impl ByteSource for FailingSource {
    fn seek_to_end(&mut self) -> Result<u64, IoError> {
        Err(IoError)
    }

    fn seek_back(&mut self, _n: u64) -> Result<(), IoError> {
        Err(IoError)
    }

    fn seek_forward(&mut self, _n: u64) -> Result<(), IoError> {
        Err(IoError)
    }

    fn read_exact(&mut self, _n: usize) -> Result<Vec<u8>, IoError> {
        Err(IoError)
    }
}

#[test]
fn construction_surfaces_io_failure() {
    assert!(matches!(ReverseLines::new(FailingSource), Err(IoError)));
}

struct CountdownSource {
    data: Vec<u8>,
    pos: usize,
    ops_left: usize,
}

impl CountdownSource {
    fn spend(&mut self) -> Result<(), IoError> {
        if self.ops_left == 0 {
            return Err(IoError);
        }
        self.ops_left -= 1;
        Ok(())
    }
}

impl ByteSource for CountdownSource {
    fn seek_to_end(&mut self) -> Result<u64, IoError> {
        self.spend()?;
        self.pos = self.data.len();
        Ok(self.pos as u64)
    }

    fn seek_back(&mut self, n: u64) -> Result<(), IoError> {
        self.spend()?;
        self.pos -= n as usize;
        Ok(())
    }

    fn seek_forward(&mut self, n: u64) -> Result<(), IoError> {
        self.spend()?;
        self.pos += n as usize;
        Ok(())
    }

    fn read_exact(&mut self, n: usize) -> Result<Vec<u8>, IoError> {
        self.spend()?;
        let buf = self.data[self.pos..self.pos + n].to_vec();
        self.pos += n;
        Ok(buf)
    }
}

#[test]
fn io_failure_ends_the_reader_for_good() {
    // Construction spends six operations: the seek to the end, the
    // three-operation trailing read, and two forward moves (the source ends
    // without a terminator). The first produced line then fails mid-read.
    let src = CountdownSource { data: b"AB\nC".to_vec(), pos: 0, ops_left: 6 };
    let mut rev_lines = ReverseLines::new(src).unwrap();

    assert!(matches!(rev_lines.next().unwrap(), Err(LineError::Io)));
    assert!(matches!(rev_lines.next(), None));
    assert!(matches!(rev_lines.next(), None));
}
