use utf8_scan::parser::{
    alphabetic, any, digit, whitespace, ByteSource, ReadError, SliceSource,
    Utf8Fault, Utf8Reader,
};

/// A source that delivers its pieces one per read, then an error or the end.
struct Pieces {
    pieces: Vec<Vec<u8>>,
    next: usize,
    fail_at_end: bool,
}

impl Pieces {
    fn new(pieces: &[&[u8]], fail_at_end: bool) -> Self {
        Pieces { pieces: pieces.iter().map(|p| p.to_vec()).collect(), next: 0, fail_at_end }
    }
}

impl ByteSource for Pieces {
    type Error = String;

    fn read(&mut self, max: usize) -> Result<Vec<u8>, String> {
        if self.next < self.pieces.len() {
            let piece = self.pieces[self.next].clone();
            assert!(piece.len() <= max);
            self.next += 1;
            Ok(piece)
        } else if self.fail_at_end {
            Err(String::from("broken pipe"))
        } else {
            Ok(Vec::new())
        }
    }
}

fn sample_text() -> String {
    let mut s = String::new();
    for i in 0..6000 {
        s.push_str("line ");
        s.push_str(&i.to_string());
        s.push_str(" — grüße, 世界 🌍\n");
    }
    s
}

#[test]
fn separators_then_a_word() {
    let mut rdr = Utf8Reader::from_str(" >< Foo >< Bar >< Baz >< ");
    let separator = |ch| matches!(ch, ' ' | '>' | '<');
    assert_eq!(rdr.take_while(separator), Ok((" >< ", Some('F'))));
    assert_eq!(rdr.consumed(), 4);
    assert_eq!(rdr.take_while(alphabetic), Ok(("Foo", Some(' '))));
    assert_eq!(rdr.consumed(), 7);
    assert_eq!(rdr.content(), " >< Bar >< Baz >< ");
}

#[test]
fn until_rejects_then_finds() {
    let mut rdr = Utf8Reader::from_str(" >< Foo >< Bar >< Baz >< ");
    assert!(rdr.can_consume(7));
    rdr.consume(7);
    assert_eq!(rdr.until("<>"), Ok(Err(" >< Bar >< Baz >< ")));
    assert_eq!(rdr.consumed(), 7);
    assert_eq!(rdr.until(["Foo", "Bar"]), Ok(Ok((" >< ", "Bar"))));
    assert_eq!(rdr.consumed(), 14);
    assert_eq!(rdr.content(), " >< Baz >< ");
}

#[test]
fn a_character_split_over_three_reads() {
    let mut data = vec![b'a'; 200];
    data.extend_from_slice("€".as_bytes());
    data.push(b'z');
    let mut rdr = Utf8Reader::from_reader(SliceSource::new(&data, 1));
    let mut seen_lengths = Vec::new();
    loop {
        rdr.pull_more().unwrap();
        let content = rdr.content();
        seen_lengths.push(content.len());
        assert!(content.len() <= 200 || content.len() >= 203);
        assert_eq!(content.as_bytes(), &data[..content.len()]);
        if rdr.exhausted() || content.len() == data.len() {
            break;
        }
    }
    assert!(seen_lengths.contains(&200));
    assert!(seen_lengths.contains(&203));
    assert!(!seen_lengths.contains(&201));
    assert!(!seen_lengths.contains(&202));
    assert_eq!(rdr.take_while(any), Ok((std::str::from_utf8(&data).unwrap(), None)));
    assert!(rdr.exhausted());
}

#[test]
fn a_stream_that_ends_inside_a_character() {
    let data = [b'a', b'b', 0xF0, 0x9F];
    let mut rdr = Utf8Reader::from_reader(SliceSource::new(&data, 4));
    assert_eq!(rdr.pull(), Err(ReadError::UnexpectedEof));
    assert_eq!(rdr.content(), "");
    assert_eq!(rdr.next(), Err(ReadError::UnexpectedEof));
    assert_eq!(rdr.consumed(), 0);
    assert!(!rdr.exhausted() || rdr.content().is_empty());

    let mut rdr = Utf8Reader::from_reader(SliceSource::new(&data, 1));
    assert_eq!(rdr.take_while(any), Err(ReadError::UnexpectedEof));
    let mut rdr = Utf8Reader::from_reader(SliceSource::new(&data, 1));
    assert_eq!(rdr.until("zz"), Err(ReadError::UnexpectedEof));
    let mut rdr = Utf8Reader::from_reader(SliceSource::new(&data, 2));
    assert_eq!(rdr.next(), Ok(Some('a')));
    assert_eq!(rdr.next(), Ok(Some('b')));
    assert_eq!(rdr.next(), Err(ReadError::UnexpectedEof));
    assert_eq!(rdr.consumed(), 2);
}

#[test]
fn too_few_digits_are_rejected() {
    let mut rdr = Utf8Reader::from_str("12");
    assert_eq!(rdr.take_times(digit, 3..=5), Ok((Err("12"), None)));
    assert_eq!(rdr.consumed(), 0);
    assert_eq!(rdr.content(), "12");
}

#[test]
fn consumed_grows_by_what_is_committed() {
    let mut rdr = Utf8Reader::from_str("héllo wörld");
    assert_eq!(rdr.consumed(), 0);
    assert_eq!(rdr.next(), Ok(Some('h')));
    assert_eq!(rdr.consumed(), 1);
    assert_eq!(rdr.next(), Ok(Some('é')));
    assert_eq!(rdr.consumed(), 3);
    assert_eq!(rdr.peek(), Ok(Some('l')));
    assert_eq!(rdr.consumed(), 3);
    assert_eq!(rdr.take_while(alphabetic), Ok(("llo", Some(' '))));
    assert_eq!(rdr.consumed(), 6);
    assert_eq!(rdr.take_once(whitespace), Ok(Some(' ')));
    assert_eq!(rdr.consumed(), 7);
    assert_eq!(rdr.take_once(whitespace), Ok(None));
    assert_eq!(rdr.consumed(), 7);
    assert_eq!(rdr.matches("wö"), Ok(Some("wö")));
    assert_eq!(rdr.consumed(), 10);
    assert_eq!(rdr.until('d'), Ok(Ok(("rl", 'd'))));
    assert_eq!(rdr.consumed(), 13);
    assert!(rdr.exhausted());
    assert_eq!(rdr.next(), Ok(None));
    assert_eq!(rdr.consumed(), 13);
}

#[test]
fn spans_put_together_are_the_stream() {
    let text = sample_text();
    for step in [1usize, 2, 3, 7, 4096, 1 << 20] {
        let mut rdr = Utf8Reader::from_reader(SliceSource::new(text.as_bytes(), step));
        let mut out = String::new();
        loop {
            let (span, stop) = rdr.take_while(|ch: char| ch != '\n').unwrap();
            out.push_str(span);
            match stop {
                None => break,
                Some(ch) => {
                    assert_eq!(ch, '\n');
                    assert_eq!(rdr.next(), Ok(Some('\n')));
                    out.push('\n');
                }
            }
        }
        assert!(rdr.exhausted());
        assert_eq!(rdr.consumed(), text.len());
        assert_eq!(out, text);
    }
}

#[test]
fn characters_one_by_one_are_the_stream() {
    let text = sample_text();
    let mut rdr = Utf8Reader::from_reader(SliceSource::new(text.as_bytes(), 5000));
    let mut out = String::new();
    while let Some(ch) = rdr.next().unwrap() {
        out.push(ch);
    }
    assert!(rdr.exhausted());
    assert_eq!(rdr.consumed(), text.len());
    assert_eq!(out, text);
}

#[test]
fn peek_twice_is_peek_once() {
    let mut rdr = Utf8Reader::from_reader(SliceSource::new("é!".as_bytes(), 1));
    assert_eq!(rdr.peek(), Ok(Some('é')));
    assert_eq!(rdr.peek(), Ok(Some('é')));
    assert_eq!(rdr.peek(), Ok(Some('é')));
    assert_eq!(rdr.consumed(), 0);
    assert_eq!(rdr.next(), Ok(Some('é')));
    assert_eq!(rdr.peek(), Ok(Some('!')));
    assert_eq!(rdr.peek(), Ok(Some('!')));
    assert_eq!(rdr.consumed(), 2);
    assert_eq!(rdr.next(), Ok(Some('!')));
    assert_eq!(rdr.peek(), Ok(None));
    assert_eq!(rdr.peek(), Ok(None));
    assert_eq!(rdr.consumed(), 3);
}

#[test]
fn rejection_puts_the_cursor_back() {
    let mut rdr = Utf8Reader::from_reader(SliceSource::new("abc123 rest".as_bytes(), 2));
    assert_eq!(rdr.next(), Ok(Some('a')));
    assert_eq!(rdr.take_times(alphabetic, 3..), Ok((Err("bc"), Some('1'))));
    assert_eq!(rdr.consumed(), 1);
    assert_eq!(rdr.until("nowhere"), Ok(Err("bc123 rest")));
    assert_eq!(rdr.consumed(), 1);
    assert_eq!(rdr.take_times(alphabetic, 2), Ok((Ok("bc"), Some('1'))));
    assert_eq!(rdr.consumed(), 3);
}

#[test]
fn consume_takes_whole_characters() {
    let mut rdr = Utf8Reader::from_str("a€b");
    for n in 0..8 {
        assert_eq!(rdr.can_consume(n), rdr.content().is_char_boundary(n));
    }
    assert!(!rdr.can_consume(2));
    assert!(!rdr.can_consume(3));
    assert!(!rdr.can_consume(6));
    assert!(!rdr.can_consume(usize::MAX));
    assert_eq!(rdr.consumed(), 0);
    assert_eq!(rdr.content(), "a€b");
    assert!(rdr.can_consume(0));
    rdr.consume(0);
    assert_eq!(rdr.consumed(), 0);
    assert!(rdr.can_consume(1));
    rdr.consume(1);
    assert_eq!(rdr.content(), "€b");
    assert!(!rdr.can_consume(1));
    assert!(rdr.can_consume(4));
    rdr.consume(4);
    assert_eq!(rdr.consumed(), 5);
    assert!(rdr.exhausted());
    assert!(rdr.can_consume(0));
    assert!(!rdr.can_consume(1));

    let mut rdr = Utf8Reader::from_str("é!");
    assert!(!rdr.can_consume(1));
    assert_eq!(rdr.consumed(), 0);
    assert_eq!(rdr.content(), "é!");
    let mut rdr2 = Utf8Reader::from_reader(SliceSource::new("é!".as_bytes(), 1));
    assert!(rdr2.can_consume(0));
    assert!(!rdr2.can_consume(2));
    rdr2.pull_more().unwrap();
    assert!(!rdr2.can_consume(1));
    assert!(rdr2.can_consume(2));
    rdr2.consume(2);
    assert_eq!(rdr2.consumed(), 2);
    rdr.consume(2);
    assert_eq!(rdr.content(), "!");
}

#[test]
fn invalid_bytes_are_reported_with_their_offset() {
    let data = [b'o', b'k', 0xE2, 0x28, 0xA1, b'x'];
    let mut rdr = Utf8Reader::from_reader(SliceSource::new(&data, 64));
    assert_eq!(rdr.pull(), Err(ReadError::InvalidData { offset: 2, len: 1 }));

    let mut rdr = Utf8Reader::from_reader(SliceSource::new(&data, 1));
    assert_eq!(rdr.next(), Ok(Some('o')));
    assert_eq!(rdr.next(), Ok(Some('k')));
    assert_eq!(rdr.next(), Err(ReadError::InvalidData { offset: 2, len: 1 }));

    let data = [b'o', 0xF0, 0x9F, 0x41];
    let mut rdr = Utf8Reader::from_reader(SliceSource::new(&data, 64));
    assert_eq!(rdr.take_while(any), Err(ReadError::InvalidData { offset: 1, len: 2 }));
}

#[test]
fn invalid_bytes_stay_in_the_way() {
    let data = [b'o', b'k', 0xFF, b'x', b'y'];
    let bad = || ReadError::InvalidData { offset: 2, len: 1 };
    let mut rdr = Utf8Reader::from_reader(SliceSource::new(&data, 64));
    assert_eq!(rdr.peek(), Err(bad()));
    assert_eq!(rdr.content(), "");
    assert_eq!(rdr.pull(), Err(bad()));
    assert_eq!(rdr.pull_more(), Err(bad()));
    assert_eq!(rdr.pull_at_least(0), Ok(true));
    assert_eq!(rdr.pull_at_least(1), Err(bad()));
    assert_eq!(rdr.next(), Err(bad()));
    assert_eq!(rdr.take_once('o'), Err(bad()));
    assert_eq!(rdr.take_while(any), Err(bad()));
    assert_eq!(rdr.until("x"), Err(bad()));
    assert_eq!(rdr.consumed(), 0);
    assert!(!rdr.exhausted());

    let mut rdr = Utf8Reader::from_reader(SliceSource::new(&data, 2));
    assert_eq!(rdr.next(), Ok(Some('o')));
    assert_eq!(rdr.content(), "k");
    assert_eq!(rdr.take_once('k'), Ok(Some('k')));
    assert_eq!(rdr.next(), Err(bad()));
    assert_eq!(rdr.next(), Err(bad()));
    assert_eq!(rdr.consumed(), 2);
    assert_eq!(rdr.content(), "");

    let mut text = "é".repeat(40_000).into_bytes();
    text.extend_from_slice(&[0xC3, 0x28]);
    let mut rdr = Utf8Reader::from_reader(SliceSource::new(&text, 7));
    let mut n = 0;
    let end = loop {
        match rdr.next() {
            Ok(Some(ch)) => {
                assert_eq!(ch, 'é');
                n += 1;
            }
            other => break other,
        }
    };
    assert_eq!(end, Err(ReadError::InvalidData { offset: 80_000, len: 1 }));
    assert!(n <= 40_000);
    assert_eq!(rdr.consumed(), 2 * n);
    assert_eq!(rdr.content(), "");
    assert_eq!(rdr.next(), Err(ReadError::InvalidData { offset: 80_000, len: 1 }));
}

#[test]
fn a_failing_source_is_handed_on() {
    let mut rdr = Utf8Reader::from_reader(Pieces::new(&[b"ab"], true));
    assert_eq!(rdr.next(), Ok(Some('a')));
    assert_eq!(rdr.next(), Ok(Some('b')));
    assert_eq!(rdr.next(), Err(ReadError::Io(String::from("broken pipe"))));
    assert_eq!(rdr.consumed(), 2);
    let mut rdr = Utf8Reader::from_reader(Pieces::new(&[b"ab"], true));
    assert_eq!(rdr.take_while(any), Err(ReadError::Io(String::from("broken pipe"))));
    let mut rdr = Utf8Reader::from_reader(Pieces::new(&[b"a-b"], true));
    assert_eq!(rdr.until("b"), Ok(Ok(("a-", "b"))));
    let mut rdr = Utf8Reader::from_reader(Pieces::new(&[b"a-b"], true));
    assert_eq!(rdr.until("c"), Err(ReadError::Io(String::from("broken pipe"))));
    assert_eq!(rdr.consumed(), 0);
}

#[test]
fn from_bytes_checks_the_text() {
    let rdr = Utf8Reader::from_bytes("grüße".as_bytes());
    assert_eq!(rdr.map(|r| String::from(r.content())), Ok(String::from("grüße")));
    assert_eq!(
        Utf8Reader::from_bytes(b"ab\xFFcd").err(),
        Some(Utf8Fault { valid_up_to: 2, error_len: Some(1) })
    );
    assert_eq!(
        Utf8Reader::from_bytes(b"ab\xE2\x82").err(),
        Some(Utf8Fault { valid_up_to: 2, error_len: None })
    );
    assert_eq!(
        Utf8Reader::from_bytes(b"\xED\xA0\x80").err(),
        Some(Utf8Fault { valid_up_to: 0, error_len: Some(1) })
    );
    assert_eq!(
        Utf8Reader::from_bytes(b"abc\xF0\x9F\x8C\x41").err(),
        Some(Utf8Fault { valid_up_to: 3, error_len: Some(3) })
    );
}

#[test]
fn empty_sources() {
    let mut rdr = Utf8Reader::from_str("");
    assert!(rdr.exhausted());
    assert_eq!(rdr.content(), "");
    assert_eq!(rdr.next(), Ok(None));
    assert_eq!(rdr.peek(), Ok(None));
    assert_eq!(rdr.take_while(any), Ok(("", None)));
    assert_eq!(rdr.take_times(any, ..), Ok((Ok(""), None)));
    assert_eq!(rdr.take_times(any, 1..), Ok((Err(""), None)));
    assert_eq!(rdr.matches("x"), Ok(None));
    assert_eq!(rdr.until("x"), Ok(Err("")));
    assert_eq!(rdr.pull_at_least(0), Ok(true));
    assert_eq!(rdr.pull_at_least(1), Ok(false));

    let mut rdr = Utf8Reader::from_reader(SliceSource::new(b"", 8));
    assert!(!rdr.exhausted());
    assert_eq!(rdr.content(), "");
    assert_eq!(rdr.peek(), Ok(None));
    assert!(rdr.exhausted());
    assert_eq!(rdr.pull(), Ok(()));
    assert_eq!(rdr.pull_more(), Ok(()));
    assert_eq!(rdr.until("x"), Ok(Err("")));
}

#[test]
fn pull_at_least_reads_as_much_as_asked() {
    let text = "0123456789";
    let mut rdr = Utf8Reader::from_reader(SliceSource::new(text.as_bytes(), 3));
    assert_eq!(rdr.content(), "");
    assert_eq!(rdr.pull_at_least(4), Ok(true));
    assert_eq!(rdr.content(), "012345");
    assert_eq!(rdr.pull_at_least(6), Ok(true));
    assert_eq!(rdr.content(), "012345");
    assert_eq!(rdr.pull_at_least(11), Ok(false));
    assert_eq!(rdr.content(), "0123456789");
    assert!(!rdr.exhausted());
    rdr.consume(10);
    assert!(rdr.exhausted());
}

#[test]
fn pull_makes_room_and_keeps_the_count() {
    let text = sample_text();
    assert!(text.len() > 4 * Utf8Reader::<SliceSource>::INIT_CAP);
    let mut rdr = Utf8Reader::from_reader(SliceSource::new(text.as_bytes(), 1 << 20));
    let mut at = 0;
    while !rdr.exhausted() {
        rdr.pull().unwrap();
        if rdr.content().is_empty() && !rdr.exhausted() {
            rdr.pull_more().unwrap();
        }
        let content = rdr.content();
        assert!(content.len() <= 2 * Utf8Reader::<SliceSource>::INIT_CAP);
        assert_eq!(content, &text[at..at + content.len()]);
        let half = (content.len() / 2).max(1).min(content.len());
        let cut = (half..=content.len()).find(|n| content.is_char_boundary(*n)).unwrap();
        assert!(rdr.can_consume(cut));
        rdr.consume(cut);
        at += cut;
        assert_eq!(rdr.consumed(), at);
    }
    assert_eq!(at, text.len());
}

#[test]
fn pull_more_lets_the_content_grow() {
    let text = sample_text();
    let mut rdr = Utf8Reader::from_reader(SliceSource::new(text.as_bytes(), 10_000));
    let mut last = 0;
    loop {
        rdr.pull_more().unwrap();
        let len = rdr.content().len();
        assert_eq!(rdr.content(), &text[..len]);
        if len == last {
            break;
        }
        assert!(len > last);
        last = len;
    }
    assert_eq!(last, text.len());
    assert_eq!(rdr.consumed(), 0);
    assert!(!rdr.exhausted());
    assert_eq!(rdr.take_while(any), Ok((text.as_str(), None)));
    assert!(rdr.exhausted());
}

#[test]
fn take_times_counts() {
    let mut rdr = Utf8Reader::from_str("aaaa1");
    assert_eq!(rdr.take_times(alphabetic, 2), Ok((Ok("aa"), Some('a'))));
    assert_eq!(rdr.take_times(alphabetic, 3), Ok((Err("aa"), Some('1'))));
    assert_eq!(rdr.take_times(alphabetic, ..), Ok((Ok("aa"), Some('1'))));
    assert_eq!(rdr.take_times(alphabetic, ..), Ok((Ok(""), Some('1'))));
    assert_eq!(rdr.take_times(alphabetic, 0), Ok((Ok(""), Some('1'))));
    assert_eq!(rdr.take_times(alphabetic, 0..0), Ok((Err(""), Some('1'))));
    assert_eq!(rdr.take_times(digit, 1..2), Ok((Ok("1"), None)));
    assert!(rdr.exhausted());

    let mut rdr = Utf8Reader::from_str("1234567");
    assert_eq!(rdr.take_times(digit, 3..=5), Ok((Ok("12345"), Some('6'))));
    assert_eq!(rdr.take_times(digit, ..2), Ok((Ok("6"), Some('7'))));
    assert_eq!(rdr.take_times(digit, ..=0), Ok((Ok(""), Some('7'))));
    assert_eq!(rdr.take_times(digit, 2..), Ok((Err("7"), None)));
    assert_eq!(rdr.consumed(), 6);

    let mut rdr = Utf8Reader::from_reader(SliceSource::new("ääää.".as_bytes(), 3));
    assert_eq!(rdr.take_times(|ch| ch == 'ä', 2..=3), Ok((Ok("äää"), Some('ä'))));
    assert_eq!(rdr.consumed(), 6);
    assert_eq!(rdr.take_times(|ch| ch == 'ä', 2..=3), Ok((Err("ä"), Some('.'))));
    assert_eq!(rdr.consumed(), 6);
}

#[test]
fn matches_takes_the_first_candidate_that_fits() {
    let mut rdr = Utf8Reader::from_reader(SliceSource::new("foobar foo fo".as_bytes(), 2));
    assert_eq!(rdr.matches(["foo", "foobar"]), Ok(Some("foo")));
    assert_eq!(rdr.consumed(), 3);
    assert_eq!(rdr.matches(["foo", "foobar"]), Ok(None));
    assert_eq!(rdr.matches(["baz", "bar", "b"]), Ok(Some("bar")));
    assert_eq!(rdr.matches(' '), Ok(Some(' ')));
    assert_eq!(rdr.matches(["foobar", "foo"]), Ok(Some("foo")));
    assert_eq!(rdr.matches([' ', 'f']), Ok(Some(' ')));
    assert_eq!(rdr.matches("foo"), Ok(None));
    assert_eq!(rdr.matches(['x', 'f']), Ok(Some('f')));
    assert_eq!(rdr.matches("o"), Ok(Some("o")));
    assert!(rdr.exhausted());
    assert_eq!(rdr.matches("o"), Ok(None));
}

#[test]
fn until_finds_a_pattern_across_reads() {
    let text = "key: wert — ende -->rest";
    for step in 1..8 {
        let mut rdr = Utf8Reader::from_reader(SliceSource::new(text.as_bytes(), step));
        assert_eq!(rdr.until(": "), Ok(Ok(("key", ": "))));
        assert_eq!(rdr.until(['—', '!']), Ok(Ok(("wert ", '—'))));
        assert_eq!(rdr.until(["->", "-->"]), Ok(Ok((" ende ", "-->"))));
        assert_eq!(rdr.until("-"), Ok(Err("rest")));
        assert_eq!(rdr.content(), "rest");
        assert_eq!(rdr.consumed(), text.len() - 4);
    }
}

#[test]
fn until_looks_at_every_place() {
    let mut rdr = Utf8Reader::from_str("aab aaab");
    assert_eq!(rdr.until("ab"), Ok(Ok(("a", "ab"))));
    assert_eq!(rdr.until("aab"), Ok(Ok((" a", "aab"))));
    assert!(rdr.exhausted());

    let mut rdr = Utf8Reader::from_str("ééè");
    assert_eq!(rdr.until('è'), Ok(Ok(("éé", 'è'))));
    let mut rdr = Utf8Reader::from_str("xyz");
    assert_eq!(rdr.until(""), Ok(Err("xyz")));
}

#[test]
fn at_the_end_every_call_succeeds() {
    let mut rdr = Utf8Reader::from_reader(SliceSource::new(b"ab", 8));
    assert_eq!(rdr.take_while(any), Ok(("ab", None)));
    assert!(rdr.exhausted());
    for _ in 0..3 {
        assert_eq!(rdr.pull(), Ok(()));
        assert_eq!(rdr.pull_more(), Ok(()));
        assert_eq!(rdr.pull_at_least(1), Ok(false));
        assert_eq!(rdr.next(), Ok(None));
        assert_eq!(rdr.peek(), Ok(None));
        assert_eq!(rdr.take_once(any), Ok(None));
        assert_eq!(rdr.take_while(any), Ok(("", None)));
        assert_eq!(rdr.take_times(any, ..), Ok((Ok(""), None)));
        assert_eq!(rdr.matches("a"), Ok(None));
        assert_eq!(rdr.until("a"), Ok(Err("")));
        assert_eq!(rdr.consumed(), 2);
    }
}

#[test]
fn a_cut_stream_fails_alike_at_every_call() {
    let data = [b'a', 0xF0, 0x9F];
    let mut rdr = Utf8Reader::from_reader(SliceSource::new(&data, 8));
    assert_eq!(rdr.pull_more(), Err(ReadError::UnexpectedEof));
    assert_eq!(rdr.pull_more(), Err(ReadError::UnexpectedEof));
    assert_eq!(rdr.pull(), Err(ReadError::UnexpectedEof));
    assert_eq!(rdr.content(), "");
    assert_eq!(rdr.pull_at_least(1), Ok(false));
    assert_eq!(rdr.pull_at_least(0), Ok(true));
    assert_eq!(rdr.next(), Err(ReadError::UnexpectedEof));
    assert_eq!(rdr.peek(), Err(ReadError::UnexpectedEof));
    assert_eq!(rdr.take_once(any), Err(ReadError::UnexpectedEof));
    assert_eq!(rdr.take_while(any), Err(ReadError::UnexpectedEof));
    assert_eq!(rdr.take_times(any, ..), Err(ReadError::UnexpectedEof));
    assert_eq!(rdr.matches("a"), Err(ReadError::UnexpectedEof));
    assert_eq!(rdr.until("a"), Ok(Err("")));
    assert_eq!(rdr.consumed(), 0);

    let mut rdr = Utf8Reader::from_reader(SliceSource::new(&data, 1));
    assert_eq!(rdr.next(), Ok(Some('a')));
    assert_eq!(rdr.next(), Err(ReadError::UnexpectedEof));
    assert_eq!(rdr.consumed(), 1);

    let mut rdr = Utf8Reader::from_reader(SliceSource::new(&[0xF0u8, 0x9F][..], 1));
    assert_eq!(rdr.pull_more(), Err(ReadError::UnexpectedEof));
}

#[test]
fn a_failed_read_leaves_count_and_content() {
    let mut rdr = Utf8Reader::from_reader(Pieces::new(&[b"ab"], true));
    assert_eq!(rdr.pull(), Ok(()));
    assert_eq!(rdr.next(), Ok(Some('a')));
    let count = rdr.consumed();
    let content = String::from(rdr.content());
    assert_eq!(rdr.pull(), Err(ReadError::Io(String::from("broken pipe"))));
    assert_eq!(rdr.consumed(), count);
    assert_eq!(rdr.content(), content);
    assert_eq!(rdr.pull_more(), Err(ReadError::Io(String::from("broken pipe"))));
    assert_eq!(rdr.consumed(), count);
    assert_eq!(rdr.content(), content);
    assert!(!rdr.exhausted());

    let mut rdr = Utf8Reader::from_reader(Pieces::new(&[&[b'a', 0xE2], &[0x82]], true));
    assert_eq!(rdr.pull_more(), Err(ReadError::Io(String::from("broken pipe"))));
    assert_eq!(rdr.consumed(), 0);
    assert_eq!(rdr.content(), "");
}

#[test]
fn pull_returns_with_whole_characters() {
    let mut data = vec![b'a'; 199];
    data.extend_from_slice("€".as_bytes());
    let mut rdr = Utf8Reader::from_reader(SliceSource::new(&data, 1));
    let mut lengths = Vec::new();
    while !rdr.exhausted() || rdr.content().len() < data.len() {
        assert_eq!(rdr.pull(), Ok(()));
        let len = rdr.consumed() + rdr.content().len();
        assert!(len != 200 && len != 201);
        lengths.push(len);
        if len == data.len() && rdr.exhausted() {
            break;
        }
        if len == data.len() {
            let all = rdr.content().len();
            rdr.consume(all);
        }
    }
    assert!(lengths.contains(&199));
    assert!(lengths.contains(&202));
    assert_eq!(rdr.consumed(), 202);
}

#[test]
fn text_before_an_unfinished_character_waits_for_it() {
    let data = [b'a', 0xE2, 0x82, 0xAC, b'b'];
    let mut rdr = Utf8Reader::from_reader(Pieces::new(&[&data[..2], &data[2..3], &data[3..]], false));
    assert_eq!(rdr.pull_more(), Ok(()));
    assert_eq!(rdr.content(), "a€b");

    let mut rdr = Utf8Reader::from_reader(Pieces::new(&[&data[..2]], false));
    assert_eq!(rdr.pull_more(), Err(ReadError::UnexpectedEof));
    assert_eq!(rdr.content(), "");
    assert_eq!(rdr.consumed(), 0);
}

#[test]
fn a_full_buffer_that_ends_inside_a_character() {
    let text = "世".repeat(30_000);
    let mut rdr = Utf8Reader::from_reader(SliceSource::new(text.as_bytes(), 1 << 20));
    assert_eq!(rdr.pull(), Ok(()));
    assert_eq!(rdr.content(), "");
    assert!(!rdr.exhausted());
    assert_eq!(rdr.pull(), Ok(()));
    assert_eq!(rdr.content(), "");
    let mut n = 0;
    while let Some(ch) = rdr.next().unwrap() {
        assert_eq!(ch, '世');
        n += 1;
    }
    assert_eq!(n, 30_000);
    assert!(rdr.exhausted());
    assert_eq!(rdr.consumed(), 90_000);

    let mut rdr = Utf8Reader::from_reader(SliceSource::new(text.as_bytes(), 1 << 20));
    assert_eq!(rdr.peek(), Ok(Some('世')));
    let mut rdr = Utf8Reader::from_reader(SliceSource::new(text.as_bytes(), 1 << 20));
    assert_eq!(rdr.matches("世世"), Ok(Some("世世")));
    assert_eq!(rdr.consumed(), 6);
}

#[test]
fn chunks_taken_in_one_by_one() {
    let mut rdr = Utf8Reader::from_reader(SliceSource::new(b"", 1));
    assert_eq!(rdr.absorb(b"ab".to_vec()), Ok(true));
    assert_eq!(rdr.content(), "ab");
    assert_eq!(rdr.absorb(vec![0xE2]), Ok(false));
    assert_eq!(rdr.content(), "ab");
    assert_eq!(rdr.absorb(vec![0x82]), Ok(false));
    assert_eq!(rdr.content(), "ab");
    assert_eq!(rdr.absorb(vec![0xAC, b'c', 0xC3]), Ok(false));
    assert_eq!(rdr.content(), "ab");
    assert_eq!(rdr.absorb(vec![0xA9]), Ok(true));
    assert_eq!(rdr.content(), "ab€cé");
    assert!(!rdr.exhausted());
    assert_eq!(rdr.absorb(Vec::new()), Ok(true));
    assert_eq!(rdr.take_while(any), Ok(("ab€cé", None)));
    assert!(rdr.exhausted());

    let mut rdr = Utf8Reader::from_reader(SliceSource::new(b"", 1));
    assert_eq!(rdr.absorb(vec![b'a', 0xF0, 0x9F]), Ok(false));
    assert_eq!(rdr.absorb(Vec::new()), Err(ReadError::UnexpectedEof));
    assert_eq!(rdr.content(), "");

    let mut rdr = Utf8Reader::from_reader(SliceSource::new(b"", 1));
    assert_eq!(rdr.absorb(vec![b'a', 0xC3]), Ok(false));
    assert_eq!(rdr.absorb(vec![0x28]), Err(ReadError::InvalidData { offset: 1, len: 1 }));
    assert_eq!(rdr.content(), "");
}
