use aho_corasick_async::AhoCorasick;
use aho_corasick_async::reader::AhoCorasickAsyncReader;
use aho_corasick_async::reader::ReadPoll;
use aho_corasick_async::reader::SourceEvent;
use aho_corasick_async::writer::AhoCorasickAsyncWriter;
use aho_corasick_async::writer::CloseStep;
use aho_corasick_async::writer::WriteStep;

/// Drives the reader state machine the way the asynchronous wrapper would:
/// each simulated poll first drains pending output, then polls a byte
/// source that yields chunks of `buffer_size` bytes and, when
/// `forced_pending` is nonzero, reports "not ready" on every
/// `forced_pending`-th poll.
fn run_reader(ac: AhoCorasick, input: &[u8], buffer_size: usize, forced_pending: usize) -> Vec<u8> {
    let mut reader = AhoCorasickAsyncReader::new(ac);
    let mut output: Vec<u8> = Vec::new();
    let mut pos: usize = 0;
    let mut source_polls: usize = 0;
    let mut guard: usize = 0;
    loop {
        guard += 1;
        assert!(guard < 1_000_000, "reader driver did not terminate");
        let first = reader.drain_pending(buffer_size);
        if first.len() >= buffer_size {
            // The pending output alone filled the caller's buffer.
            output.extend_from_slice(&first);
            continue;
        }
        source_polls += 1;
        let event = if forced_pending > 0 && source_polls % forced_pending == 0 {
            SourceEvent::NotReady
        } else if pos >= input.len() {
            SourceEvent::Eof
        } else {
            let end: usize = (pos + buffer_size).min(input.len());
            let chunk = input[pos..end].to_vec();
            pos = end;
            SourceEvent::Data(chunk)
        };
        let capacity: usize = buffer_size - first.len();
        match reader.continue_poll(event, capacity, first.len()) {
            ReadPoll::Output(more) => {
                let total: usize = first.len() + more.len();
                output.extend_from_slice(&first);
                output.extend_from_slice(&more);
                if total == 0 {
                    // End of stream, fully drained.
                    break;
                }
            }
            ReadPoll::RetryNow => {
                assert!(first.is_empty());
            }
            ReadPoll::NotReady => {
                assert!(first.is_empty());
            }
        }
    }
    output
}

/// Drives the writer state machine the way the asynchronous wrapper would:
/// the input is cut into chunks of `buffer_size` bytes; when
/// `forced_pending` is nonzero every `forced_pending`-th sink write reports
/// "not ready" and the write is retried; when `sink_limit` is nonzero the
/// sink accepts at most that many bytes per call (a partial write).
/// Returns everything the sink took.
fn run_writer_sink(
    ac: AhoCorasick,
    input: &[u8],
    buffer_size: usize,
    forced_pending: usize,
    sink_limit: usize,
) -> Vec<u8> {
    let mut writer = AhoCorasickAsyncWriter::new(ac);
    let mut sink: Vec<u8> = Vec::new();
    let mut sink_calls: usize = 0;
    // One simulated sink write: takes at most sink_limit bytes (0: all),
    // every forced_pending-th call is not ready (returns None).
    let mut sink_write = |sink: &mut Vec<u8>, data: &[u8], calls: &mut usize| -> Option<usize> {
        *calls += 1;
        if forced_pending > 0 && *calls % forced_pending == 0 {
            return None;
        }
        let n: usize = if sink_limit > 0 { sink_limit.min(data.len()) } else { data.len() };
        sink.extend_from_slice(&data[..n]);
        Some(n)
    };
    let mut pos: usize = 0;
    while pos < input.len() {
        let end: usize = (pos + buffer_size).min(input.len());
        let chunk = &input[pos..end];
        let mut guard: usize = 0;
        // Retry this write until the whole offered buffer is through.
        loop {
            guard += 1;
            assert!(guard < 1_000_000, "writer driver did not terminate");
            match writer.start_write(chunk) {
                WriteStep::Forward { accepted } => {
                    assert_eq!(accepted, chunk.len());
                    let offered: usize = writer.buffer.len();
                    match sink_write(&mut sink, &writer.buffer, &mut sink_calls) {
                        Some(n) => {
                            writer.confirm_sent(n);
                            if n >= offered {
                                break;
                            }
                        }
                        None => {
                            // Sink not ready: the writer keeps what it owes
                            // and the same write is retried.
                        }
                    }
                }
                WriteStep::Accept { accepted } => {
                    assert_eq!(accepted, chunk.len());
                    break;
                }
            }
        }
        pos = end;
    }
    // Close: whatever is still owed goes to the sink first.
    let mut guard: usize = 0;
    loop {
        guard += 1;
        assert!(guard < 1_000_000, "writer close did not terminate");
        match writer.start_close() {
            CloseStep::Flush => {
                if let Some(n) = sink_write(&mut sink, &writer.buffer, &mut sink_calls) {
                    writer.confirm_sent(n);
                }
            }
            CloseStep::Ready => break,
        }
    }
    sink
}

fn run_writer(ac: AhoCorasick, input: &[u8], buffer_size: usize, forced_pending: usize) -> Vec<u8> {
    run_writer_sink(ac, input, buffer_size, forced_pending, 0)
}

fn check_all_drivers(
    patterns: &Vec<(Vec<u8>, Option<Vec<u8>>)>,
    input: &str,
    expected: &str,
    buffer_size: usize,
) {
    let ac = AhoCorasick::new(patterns.clone());
    for forced_pending in [0usize, 2] {
        let got = run_reader(ac.clone(), input.as_bytes(), buffer_size, forced_pending);
        assert_eq!(
            String::from_utf8(got).unwrap_or("<utf8 error>".to_string()),
            expected,
            "reader, buffer size {}, forced pending {}",
            buffer_size,
            forced_pending
        );
        let got = run_writer(ac.clone(), input.as_bytes(), buffer_size, forced_pending);
        assert_eq!(
            String::from_utf8(got).unwrap_or("<utf8 error>".to_string()),
            expected,
            "writer, buffer size {}, forced pending {}",
            buffer_size,
            forced_pending
        );
    }
}

fn words(pairs: &[(&str, Option<&str>)]) -> Vec<(Vec<u8>, Option<Vec<u8>>)> {
    let mut out: Vec<(Vec<u8>, Option<Vec<u8>>)> = Vec::new();
    for (w, r) in pairs {
        out.push((
            w.as_bytes().to_vec(),
            r.map(|s| s.as_bytes().to_vec()),
        ));
    }
    out
}

#[test]
fn test_reader() {
    let cases: Vec<(String, Vec<(Vec<u8>, Option<Vec<u8>>)>, String)> = vec![
        (
            "abc".to_string(),
            words(&[("ab", Some("AB"))]),
            "ABc".to_string(),
        ),
        (
            // Empty replacement
            "abc".to_string(),
            words(&[("abc", Some(""))]),
            "".to_string(),
        ),
        (
            "abcdef".repeat(100),
            words(&[("ab", Some("ABAB")), ("efg", Some("EFG"))]),
            "ABABcdef".repeat(100),
        ),
        (
            "a".repeat(10),
            words(&[("aaaa", Some("AAAA"))]),
            "AAAAAAAAaa".to_owned(),
        ),
        (
            "Now he is here, so is she. his hair is blond, her bag is big".to_owned(),
            words(&[
                ("he", Some("she")),
                ("she", Some("he")),
                ("his", Some("her")),
                // This replacement should never occur, as 'he' has priority.
                ("her", Some("his")),
            ]),
            "Now she is shere, so is he. her hair is blond, sher bag is big".to_owned(),
        ),
        (
            // Using the protected words
            "'he' is replaced, but not 'she' nor 'ashe'. 'shed' will also not be replaced as 'she' is prioritized".to_owned(),
            words(&[
                // "she" is protected: finding it only resets the state.
                ("she", None),
                ("he", Some("him")),
                ("shed", Some("shack")),
            ]),
            "'him' is replaced, but not 'she' nor 'ashe'. 'shed' will also not be replaced as 'she' is prioritized".to_owned(),
        ),
    ];
    for (test_index, (source_string, replacements, expected_output)) in cases.iter().enumerate() {
        for test_buffer_size in [1usize, 2, 3, 5, 10, 100] {
            println!("Test #{}, buffer size {} ...", test_index, test_buffer_size);
            check_all_drivers(replacements, source_string, expected_output, test_buffer_size);
        }
    }
}

#[test]
fn test_priority_rule() {
    // The pattern reached first by the traversal wins; longer overlapping
    // patterns starting later are not retroactively preferred.
    let patterns = words(&[
        ("he", Some("she")),
        ("she", Some("he")),
        ("his", Some("her")),
        ("her", Some("his")),
    ]);
    let input = "Now he is here, so is she. his hair is blond, her bag is big";
    let expected = "Now she is shere, so is he. her hair is blond, sher bag is big";
    for size in [1usize, 4, 7, 64] {
        check_all_drivers(&patterns, input, expected, size);
    }
}

#[test]
fn test_protected_word() {
    let patterns = words(&[("she", None), ("he", Some("him")), ("shed", Some("shack"))]);
    let input = "'he' is replaced, but not 'she' nor 'ashe'. 'shed' will also not be replaced as 'she' is prioritized";
    let expected = "'him' is replaced, but not 'she' nor 'ashe'. 'shed' will also not be replaced as 'she' is prioritized";
    for size in [1usize, 3, 16] {
        check_all_drivers(&patterns, input, expected, size);
    }
}

#[test]
fn test_empty_replacement() {
    let patterns = words(&[("abc", Some(""))]);
    for size in [1usize, 2, 3, 10] {
        check_all_drivers(&patterns, "abc", "", size);
    }
}

#[test]
fn test_span_exceeding_chunk() {
    // A match longer than the chunk: ten 'a's against "aaaa" -> "AAAA" with
    // chunk size 1 resolves two matches and leaves the tail verbatim.
    let patterns = words(&[("aaaa", Some("AAAA"))]);
    check_all_drivers(&patterns, &"a".repeat(10), "AAAAAAAAaa", 1);
}

#[test]
fn test_end_of_stream_flush() {
    // Input ends mid-pattern: the unresolved tail is emitted verbatim.
    let patterns = words(&[("abcd", Some("X"))]);
    for size in [1usize, 2, 5] {
        check_all_drivers(&patterns, "ab", "ab", size);
        check_all_drivers(&patterns, "zzabc", "zzabc", size);
    }
}

#[test]
fn test_reset_after_match() {
    // After a completed match the cursor is back at the root, so adjacent
    // matches resolve independently.
    let patterns = words(&[("ab", Some("X"))]);
    for size in [1usize, 2, 3] {
        check_all_drivers(&patterns, "abab", "XX", size);
        check_all_drivers(&patterns, "aabb", "aXb", size);
    }
}

#[test]
fn test_determinism() {
    // Feeding the same bytes to a fresh automaton reproduces the output.
    let patterns = words(&[("he", Some("she")), ("she", Some("he"))]);
    let input = "she sells seashells, he sells none";
    let ac = AhoCorasick::new(patterns.clone());
    let first = run_reader(ac.clone(), input.as_bytes(), 3, 0);
    for _ in 0..3 {
        let again = run_reader(ac.clone(), input.as_bytes(), 3, 0);
        assert_eq!(first, again);
    }
    // Backpressure and chunking do not change the outcome either.
    for size in [1usize, 2, 7, 100] {
        for forced_pending in [0usize, 2, 3] {
            assert_eq!(run_reader(ac.clone(), input.as_bytes(), size, forced_pending), first);
            assert_eq!(run_writer(ac.clone(), input.as_bytes(), size, forced_pending), first);
        }
    }
}

#[test]
fn test_duplicate_word_last_wins() {
    // The same word registered twice: the last entry decides.
    let patterns = words(&[("ab", Some("1")), ("ab", Some("2"))]);
    for size in [1usize, 2] {
        check_all_drivers(&patterns, "xabx", "x2x", size);
    }
    // A later protection also overrides an earlier replacement.
    let patterns = words(&[("ab", Some("1")), ("ab", None)]);
    for size in [1usize, 2] {
        check_all_drivers(&patterns, "xabx", "xabx", size);
    }
}

#[test]
fn test_empty_pattern_ignored() {
    // An empty pattern can never match; other patterns still work.
    let patterns = words(&[("", Some("X")), ("a", Some("b"))]);
    for size in [1usize, 2] {
        check_all_drivers(&patterns, "aa", "bb", size);
    }
}

#[test]
fn test_replacement_longer_and_shorter() {
    let patterns = words(&[("ab", Some("ABAB")), ("efg", Some("E"))]);
    for size in [1usize, 2, 3, 10] {
        check_all_drivers(&patterns, "abcdefgh", "ABABcdEh", size);
    }
}

#[test]
fn test_automaton_cursor() {
    // Direct cursor checks on the automaton itself.
    let ac = AhoCorasick::new(words(&[("ab", Some("X")), ("bc", None)]));
    let mut a = ac.automaton;
    assert!(a.is_state_root());
    assert_eq!(a.state_depth(), 0);
    a.next_state(&b'a');
    assert!(!a.is_state_root());
    assert_eq!(a.state_depth(), 1);
    assert!(!a.is_state_word());
    a.next_state(&b'b');
    assert_eq!(a.state_depth(), 2);
    assert!(a.is_state_word());
    assert_eq!(a.state_replacement(), Some(b"X".to_vec()));
    // A suffix-link jump: from "ab", byte 'c' lands on "bc".
    a.next_state(&b'c');
    assert_eq!(a.state_depth(), 2);
    assert!(a.is_state_word());
    assert_eq!(a.state_replacement(), None);
    a.reset_state();
    assert!(a.is_state_root());
    assert_eq!(a.state_depth(), 0);
    // A byte with no path stays at the root.
    a.next_state(&b'z');
    assert!(a.is_state_root());
}

#[test]
fn test_clone_fresh_cursor() {
    // A clone keeps the pattern set but starts matching from the root,
    // leaving the original's cursor untouched.
    let ac = AhoCorasick::new(words(&[("abc", Some("X"))]));
    let mut a = ac.automaton;
    a.next_state(&b'a');
    a.next_state(&b'b');
    assert_eq!(a.state_depth(), 2);
    let c = a.clone();
    assert!(c.is_state_root());
    assert_eq!(c.state_depth(), 0);
    assert_eq!(a.state_depth(), 2);
}

#[test]
fn test_partial_sink_writes() {
    // A sink that accepts only a few bytes per call loses nothing: the
    // writer keeps the unsent tail owed and re-offers it first.
    let patterns = words(&[("he", Some("she")), ("she", Some("he")), ("aaaa", Some("AAAA"))]);
    let input = "he said she saw aaaaaa, he did";
    let ac = AhoCorasick::new(patterns.clone());
    let expected = run_writer_sink(ac.clone(), input.as_bytes(), 100, 0, 0);
    for sink_limit in [1usize, 2, 3, 7] {
        for forced_pending in [0usize, 2] {
            for size in [1usize, 3, 100] {
                let got =
                    run_writer_sink(ac.clone(), input.as_bytes(), size, forced_pending, sink_limit);
                assert_eq!(got, expected, "sink limit {}, size {}", sink_limit, size);
            }
        }
    }
}
