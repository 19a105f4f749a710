use ngrams::record::Freq;
use ngrams::parse::{parse_u32, parse_line, LineFault};
use ngrams::extract::extract_ngram;
use ngrams::dedup::dedup;
use ngrams::pipeline::{run_pipeline, reprocess, dedup_file, dedup_cases, tail_tokens};
use ngrams::codec::{encode, decode, SnapshotFault};

fn freq(token: &[u8], occurrences: u32, books: u32) -> Freq {
    Freq { token: token.to_vec(), occurrences, books }
}

#[test]
fn adjacent_merge_combines_runs() {
    let input = b"cat\t1950\t5\t2\ncat\t1951\t7\t3\ndog\t1950\t1\t1".to_vec();
    let out = extract_ngram(&input).unwrap();
    assert_eq!(out.len(), 2);
    assert_eq!(out[0], freq(b"cat", 12, 5));
    assert_eq!(out[1], freq(b"dog", 1, 1));
}

#[test]
fn extractor_strips_last_underscore_suffix() {
    let input = b"run_VERB\t2000\t4\t2\na_b_NOUN\t2000\t1\t1\nplain\t2000\t2\t2".to_vec();
    let out = extract_ngram(&input).unwrap();
    assert_eq!(out[0].token, b"run".to_vec());
    assert_eq!(out[1].token, b"a_b".to_vec());
    assert_eq!(out[2].token, b"plain".to_vec());
}

#[test]
fn extractor_handles_crlf_and_trailing_newline() {
    let input = b"cat\t1950\t1\t2\r\ndog\t1950\t3\t4\n".to_vec();
    let out = extract_ngram(&input).unwrap();
    assert_eq!(out, vec![freq(b"cat", 1, 2), freq(b"dog", 3, 4)]);
}

#[test]
fn extractor_ignores_year_field_content() {
    let input = b"cat\tnot-a-year\t5\t2".to_vec();
    let out = extract_ngram(&input).unwrap();
    assert_eq!(out, vec![freq(b"cat", 5, 2)]);
}

#[test]
fn extractor_empty_input_gives_empty_table() {
    let out = extract_ngram(&Vec::new()).unwrap();
    assert!(out.is_empty());
}

#[test]
fn extractor_reports_first_malformed_line() {
    let input = b"cat\t1950\t5\t2\ndog\t1950\tbad\t1\nelk\t1950\t1\t1".to_vec();
    let err = extract_ngram(&input).unwrap_err();
    assert_eq!(err.line_number, 2);
    assert_eq!(err.fault, LineFault::InvalidOccurrences);
}

#[test]
fn parse_line_field_faults() {
    assert_eq!(parse_line(&b"token".to_vec()).unwrap_err(), LineFault::MissingOccurrences);
    assert_eq!(parse_line(&b"token\t1999".to_vec()).unwrap_err(), LineFault::MissingOccurrences);
    assert_eq!(parse_line(&b"token\t1999\t7".to_vec()).unwrap_err(), LineFault::MissingBooks);
    assert_eq!(
        parse_line(&b"token\t1999\tx7\t2".to_vec()).unwrap_err(),
        LineFault::InvalidOccurrences
    );
    assert_eq!(
        parse_line(&b"token\t1999\t7\t-2".to_vec()).unwrap_err(),
        LineFault::InvalidBooks
    );
    let (token, occurrences, books) = parse_line(&b"token\t1999\t7\t2\textra".to_vec()).unwrap();
    assert_eq!(token, b"token".to_vec());
    assert_eq!(occurrences, 7);
    assert_eq!(books, 2);
}

#[test]
fn parse_u32_accepts_what_std_accepts() {
    assert_eq!(parse_u32(&b"0".to_vec()), Some(0));
    assert_eq!(parse_u32(&b"+42".to_vec()), Some(42));
    assert_eq!(parse_u32(&b"4294967295".to_vec()), Some(u32::MAX));
    assert_eq!(parse_u32(&b"4294967296".to_vec()), None);
    assert_eq!(parse_u32(&b"".to_vec()), None);
    assert_eq!(parse_u32(&b"+".to_vec()), None);
    assert_eq!(parse_u32(&b"12 ".to_vec()), None);
    assert_eq!(parse_u32(&b"007".to_vec()), Some(7));
}

#[test]
fn dedup_merges_sorts_and_keeps_sums() {
    let input = vec![
        freq(b"dog", 1, 1),
        freq(b"cat", 5, 2),
        freq(b"cat", 7, 3),
        freq(b"elk", 20, 4),
    ];
    let out = dedup(input);
    assert_eq!(out, vec![freq(b"elk", 20, 4), freq(b"cat", 12, 5), freq(b"dog", 1, 1)]);
    let total_occ: u64 = out.iter().map(|f| f.occurrences as u64).sum();
    assert_eq!(total_occ, 33);
}

#[test]
fn dedup_keys_are_unique_and_descending() {
    let input = vec![
        freq(b"a", 3, 1),
        freq(b"b", 9, 1),
        freq(b"a", 4, 1),
        freq(b"c", 9, 1),
        freq(b"b", 1, 1),
    ];
    let out = dedup(input);
    for i in 0..out.len() {
        for j in i + 1..out.len() {
            assert_ne!(out[i].token, out[j].token);
            assert!(out[i].occurrences >= out[j].occurrences);
        }
    }
}

#[test]
fn dedup_saturates_at_u32_max() {
    let input = vec![freq(b"big", 3_000_000_000, 1), freq(b"big", 3_000_000_000, 2)];
    let out = dedup(input);
    assert_eq!(out, vec![freq(b"big", u32::MAX, 3)]);
}

#[test]
fn reprocess_is_idempotent() {
    let input = vec![
        freq(b"x", 8, 1),
        freq(b"y", 3, 2),
        freq(b"x", 2, 2),
        freq(b"z", 30, 1),
    ];
    let once = reprocess(input);
    let twice = reprocess(once.clone());
    assert_eq!(once, twice);
}

#[test]
fn snapshot_round_trips() {
    let table = vec![freq(b"alpha", 10, 2), freq(b"", 4, 1), freq(b"g_NOUN", 1, 1)];
    let bytes = encode(&table);
    let back = decode(&bytes).unwrap();
    assert_eq!(back, table);
}

#[test]
fn snapshot_empty_table_round_trips() {
    let table: Vec<Freq> = Vec::new();
    let bytes = encode(&table);
    assert_eq!(decode(&bytes).unwrap(), table);
}

#[test]
fn decode_rejects_truncated_bytes() {
    let table = vec![freq(b"alpha", 10, 2)];
    let mut bytes = encode(&table);
    bytes.pop();
    assert_eq!(decode(&bytes).unwrap_err(), SnapshotFault::Truncated);
    assert_eq!(decode(&b"abc".to_vec()).unwrap_err(), SnapshotFault::Truncated);
}

#[test]
fn decode_rejects_trailing_bytes() {
    let table = vec![freq(b"alpha", 10, 2)];
    let mut bytes = encode(&table);
    bytes.push(0);
    assert_eq!(decode(&bytes).unwrap_err(), SnapshotFault::TrailingData);
}

#[test]
fn pipeline_merges_suffix_collisions_across_files() {
    let files = vec![
        b"light_NOUN\t1900\t6\t3".to_vec(),
        b"light_VERB\t1900\t4\t2".to_vec(),
    ];
    let outcome = run_pipeline(&files);
    assert!(outcome.skipped.is_empty());
    assert_eq!(outcome.table, vec![freq(b"light", 10, 5)]);
}

#[test]
fn pipeline_isolates_malformed_files() {
    let files = vec![
        b"cat\t1950\t5\t2\nbad\t1950\toops\t1".to_vec(),
        b"dog\t1950\t3\t1".to_vec(),
    ];
    let outcome = run_pipeline(&files);
    assert_eq!(outcome.table, vec![freq(b"dog", 3, 1)]);
    assert_eq!(outcome.skipped.len(), 1);
    let (file_index, err) = outcome.skipped[0];
    assert_eq!(file_index, 0);
    assert_eq!(err.line_number, 2);
    assert_eq!(err.fault, LineFault::InvalidOccurrences);
}

#[test]
fn pipeline_preserves_sums() {
    let files = vec![
        b"a\t1900\t1\t10\na\t1901\t2\t20\nb_X\t1900\t3\t30".to_vec(),
        b"b\t1900\t4\t40\nc\t1900\t5\t50".to_vec(),
    ];
    let outcome = run_pipeline(&files);
    let occ: u64 = outcome.table.iter().map(|f| f.occurrences as u64).sum();
    let books: u64 = outcome.table.iter().map(|f| f.books as u64).sum();
    assert_eq!(occ, 15);
    assert_eq!(books, 150);
    assert_eq!(outcome.table.len(), 3);
}

#[test]
fn dedup_file_round_trips_and_dedups() {
    let table = vec![freq(b"cat", 5, 2), freq(b"cat", 7, 3), freq(b"dog", 99, 1)];
    let bytes = encode(&table);
    let out_bytes = dedup_file(&bytes).unwrap();
    let out = decode(&out_bytes).unwrap();
    assert_eq!(out, vec![freq(b"dog", 99, 1), freq(b"cat", 12, 5)]);
}

#[test]
fn dedup_file_rejects_corrupt_input() {
    assert_eq!(dedup_file(&b"short".to_vec()).unwrap_err(), SnapshotFault::Truncated);
}

#[test]
fn dedup_cases_folds_case_before_merging() {
    let input = vec![freq(b"Light", 6, 3), freq(b"light", 4, 2)];
    let out = dedup_cases(input);
    assert_eq!(out, vec![freq(b"light", 10, 5)]);
}

#[test]
fn extractor_accepts_empty_tokens() {
    let input = b"\t1900\t5\t2\n\t1901\t1\t1".to_vec();
    let out = extract_ngram(&input).unwrap();
    assert_eq!(out, vec![freq(b"", 6, 3)]);
}

#[test]
fn lone_trailing_carriage_return_stays_in_the_last_line() {
    let input = b"cat\t1900\t2\t3\r".to_vec();
    let err = extract_ngram(&input).unwrap_err();
    assert_eq!(err.line_number, 1);
    assert_eq!(err.fault, LineFault::InvalidBooks);
}

#[test]
fn tail_tokens_lists_least_frequent_first() {
    let table = vec![freq(b"a", 9, 1), freq(b"b", 5, 1), freq(b"c", 2, 1)];
    let tail = tail_tokens(&table, 2);
    assert_eq!(tail, vec![b"c".to_vec(), b"b".to_vec()]);
    let all = tail_tokens(&table, 10);
    assert_eq!(all.len(), 3);
}
