use logview::encoding::{decode_into, encode, sniff_encoding, SNIFF_LEN};
use logview::lines::{find_line_end, no_line_above, scan_lines, trim_eol, IndexMsg, INDEX_CHUNK};
use logview::logstore::{
    encoding_name, is_utf8, run_search, Encoding, LogStore, Remap, SearchHits, SearchMsg,
    SearchRequest, MAX_NAVIGABLE_LINES,
};
use logview::outside::RegexFault;
use logview::search::{find_bytes, search_bytes, search_bytes_ci, search_compiled, to_lower};

/// Runs what the store hands out until nothing is left.
fn settle(s: &mut LogStore, data: &[u8]) {
    while s.is_indexing() || s.is_searching() {
        let msgs = match s.take_index_job() {
            Some(job) => scan_lines(data, job.start, job.limit),
            None => Vec::new(),
        };
        let reply = s
            .take_search_job()
            .map(|job| run_search(data, job.limit, &job.request, job.encoding));
        assert!(s.pump(msgs, reply), "a job that was run changes something");
    }
}

fn open(data: &[u8], name: &str) -> LogStore {
    let mut s = LogStore::open(name, data, data.len());
    settle(&mut s, data);
    s
}

fn line(s: &LogStore, data: &[u8], idx: usize) -> Option<String> {
    let mut out = String::new();
    if s.read_line_into(data, idx, &mut out) {
        Some(out)
    } else {
        None
    }
}

#[test]
fn counts_lines_utf8() {
    let data = b"first\nsecond\nthird\n";
    let s = open(data, "utf8.log");
    assert_eq!(s.line_count(), 3);
    assert!(is_utf8(s.encoding));

    let mut out = String::new();
    s.read_line_into(data, 1, &mut out);
    assert_eq!(out, "second");
}

#[test]
fn last_line_without_newline_is_counted() {
    let data = b"a\nb\nno-trailing-newline";
    let s = open(data, "tail.log");
    assert_eq!(s.line_count(), 3);
    let mut out = String::new();
    s.read_line_into(data, 2, &mut out);
    assert_eq!(out, "no-trailing-newline");
}

#[test]
fn empty_file_has_no_lines() {
    let s = open(b"", "empty.log");
    assert_eq!(s.line_count(), 0);
    assert_eq!(s.len_bytes(), 0);
}

#[test]
fn crlf_is_trimmed() {
    let data = b"one\r\ntwo\r\n";
    let s = open(data, "crlf.log");
    assert_eq!(s.line_count(), 2);
    let mut out = String::new();
    s.read_line_into(data, 0, &mut out);
    assert_eq!(out, "one");
}

#[test]
fn gbk_log_is_decoded() {
    let (bytes, _, _) = encoding_rs::GB18030.encode("错误日志\nsecond\n");
    let s = open(&bytes, "gbk.log");
    assert!(!is_utf8(s.encoding), "应识别为非 UTF-8");
    assert_eq!(encoding_name(s.encoding), "GB18030");

    let mut out = String::new();
    s.read_line_into(&bytes, 0, &mut out);
    assert_eq!(out, "错误日志");
}

#[test]
fn search_case_sensitive() {
    let data = b"INFO start\nERROR boom\nwarn maybe\nerror lower\n";
    let mut s = open(data, "search.log");

    s.start_search(SearchRequest::new("ERROR", true, false));
    settle(&mut s, data);
    assert_eq!(s.matches(), &[1], "区分大小写时只应命中第 2 行");

    s.start_search(SearchRequest::new("error", false, false));
    settle(&mut s, data);
    assert_eq!(s.matches(), &[1, 3], "忽略大小写时两行都应命中");
}

#[test]
fn search_deduplicates_multiple_hits_per_line() {
    let data = b"error error error\nok\n";
    let mut s = open(data, "dup.log");
    s.start_search(SearchRequest::new("error", true, false));
    settle(&mut s, data);
    assert_eq!(s.matches(), &[0], "同一行多次命中只应出现一次");
    assert_eq!(s.search_total(), 3);
}

#[test]
fn search_chinese_query() {
    let (bytes, _, _) = encoding_rs::GB18030.encode("第一条\n错误日志\n第三条\n");
    let mut s = open(&bytes, "cn.log");
    s.start_search(SearchRequest::new("错误", true, false));
    settle(&mut s, &bytes);
    assert_eq!(s.matches(), &[1]);
}

#[test]
fn no_match_returns_empty() {
    let data = b"a\nb\n";
    let mut s = open(data, "nomatch.log");
    s.start_search(SearchRequest::new("zzzz", true, false));
    settle(&mut s, data);
    assert!(s.matches().is_empty());
}

#[test]
fn file_growth_is_picked_up() {
    let data = b"line1\n";
    let mut s = open(data, "logview_test_grow.log");
    assert_eq!(s.line_count(), 1);

    let data = b"line1\nline2\nline3\n";
    assert!(s.needs_refresh(data.len()));
    s.refresh(data.len(), Remap::Mapped(data.len()));
    settle(&mut s, data);
    assert_eq!(s.line_count(), 3);

    let mut out = String::new();
    s.read_line_into(data, 2, &mut out);
    assert_eq!(out, "line3");
}

#[test]
fn truncation_rebuilds_index() {
    let data = b"a\nb\nc\nd\n";
    let mut s = open(data, "logview_test_truncate.log");
    assert_eq!(s.line_count(), 4);

    let data = b"x\ny\n";
    s.refresh(data.len(), Remap::Mapped(data.len()));
    settle(&mut s, data);
    assert_eq!(s.line_count(), 2);
    assert_eq!(line(&s, data, 0).as_deref(), Some("x"));
}

#[test]
fn hits_beyond_the_cap_keep_counting() {
    let mut hits = SearchHits::default();
    for i in 0..MAX_NAVIGABLE_LINES {
        hits.push(i);
    }
    assert_eq!(hits.positions.len(), MAX_NAVIGABLE_LINES);
    assert!(!hits.truncated(), "正好到上限时不该算截断");

    hits.push(MAX_NAVIGABLE_LINES);
    hits.count_only();
    assert_eq!(hits.positions.len(), MAX_NAVIGABLE_LINES, "位置不再增长");
    assert_eq!(hits.total, MAX_NAVIGABLE_LINES + 2, "总数照常累加");
    assert!(hits.truncated(), "超出上限后应报截断");
}

#[test]
fn an_unfinished_line_is_finished_by_growth() {
    let data = b"a\nhalf";
    let mut s = open(data, "half.log");
    assert_eq!(s.line_count(), 2);
    assert_eq!(line(&s, data, 1).as_deref(), Some("half"));
    assert_eq!(s.line_offset(1), None, "the tail has no place in the index yet");

    let data = b"a\nhalf and the rest\nnext\n";
    s.refresh(data.len(), Remap::Mapped(data.len()));
    settle(&mut s, data);
    assert_eq!(s.line_count(), 3);
    assert_eq!(s.line_offset(1), Some(2));
    assert_eq!(line(&s, data, 1).as_deref(), Some("half and the rest"));
}

#[test]
fn the_same_length_asks_for_nothing() {
    let data = b"a\nb\n";
    let mut s = open(data, "same.log");
    assert!(!s.needs_refresh(data.len()));
    s.refresh(data.len(), Remap::Mapped(data.len()));
    assert!(!s.is_indexing());
}

#[test]
fn a_file_that_cannot_be_opened_again_keeps_its_lines() {
    let data = b"a\nb\n";
    let mut s = open(data, "gone.log");
    s.refresh(1, Remap::Unopened);
    assert_eq!(s.line_count(), 2);
    s.refresh(1, Remap::Unmapped);
    assert_eq!(s.len_bytes(), data.len(), "the length is that of the file that is mapped");
    assert!(!s.is_indexing());
}

#[test]
fn growth_during_a_scan_is_picked_up_behind_it() {
    let data = b"a\n";
    let mut s = LogStore::open("busy.log", data, data.len());
    let first = s.take_index_job().unwrap();
    let grown = b"a\nb\nc\n";
    s.refresh(grown.len(), Remap::Mapped(grown.len()));
    assert!(s.take_index_job().is_none(), "one scan at a time");
    s.pump(scan_lines(grown, first.start, first.limit), None);
    assert!(s.is_indexing(), "what was appended is still to be scanned");
    let next = s.take_index_job().unwrap();
    assert_eq!((next.start, next.limit), (2, 6));
    s.pump(scan_lines(grown, next.start, next.limit), None);
    assert!(!s.is_indexing());
    assert_eq!(s.line_count(), 3);
    assert_eq!(line(&s, grown, 1).as_deref(), Some("b"));
    assert_eq!(line(&s, grown, 2).as_deref(), Some("c"));
}

#[test]
fn an_early_search_finds_what_a_later_one_finds() {
    let data = b"ERROR 1\n";
    let grown = b"ERROR 1\nplain\nERROR 2\n";
    let mut early = LogStore::open("early.log", data, data.len());
    let first = early.take_index_job().unwrap();
    early.start_search(SearchRequest::new("ERROR", true, false));
    early.refresh(grown.len(), Remap::Mapped(grown.len()));
    early.pump(scan_lines(grown, first.start, first.limit), None);
    assert!(early.take_search_job().is_none(), "the search waits for the rest");
    settle(&mut early, grown);
    let mut late = open(grown, "late.log");
    late.start_search(SearchRequest::new("ERROR", true, false));
    settle(&mut late, grown);
    assert_eq!(early.matches(), &[0, 2]);
    assert_eq!(early.matches(), late.matches());
}

#[test]
fn a_search_waits_for_the_scan() {
    let data = b"ERROR one\nplain\nERROR two\n";
    let mut s = LogStore::open("wait.log", data, data.len());
    assert!(s.start_search(SearchRequest::new("ERROR", true, false)));
    assert!(s.search_pending());
    assert!(s.take_search_job().is_none());
    let job = s.take_index_job().unwrap();
    assert!(s.pump(scan_lines(data, job.start, job.limit), None));
    assert!(!s.search_pending());
    assert!(s.is_searching());
    settle(&mut s, data);
    assert_eq!(s.matches(), &[0, 2]);
}

#[test]
fn an_answer_nobody_waits_for_is_dropped() {
    let data = b"ERROR one\nplain\n";
    let mut s = open(data, "late.log");
    s.start_search(SearchRequest::new("ERROR", true, false));
    let job = s.take_search_job().unwrap();
    let late = run_search(data, job.limit, &job.request, job.encoding);
    s.clear_search();
    assert!(!s.is_searching());
    assert!(!s.pump(Vec::new(), Some(late)));
    assert!(s.matches().is_empty());
}

#[test]
fn an_empty_query_is_no_search() {
    let data = b"a\n";
    let mut s = open(data, "none.log");
    assert!(!s.start_search(SearchRequest::new("", true, false)));
    assert!(!s.is_searching());
    assert!(s.take_search_job().is_none());
}

#[test]
fn regex_search_lists_lines() {
    let data = b"id=12\nnothing\nid=345 id=6\n";
    let mut s = open(data, "regex.log");
    s.start_search(SearchRequest::new("id=[0-9]+", true, true));
    settle(&mut s, data);
    assert_eq!(s.matches(), &[0, 2]);
    assert_eq!(s.search_total(), 2, "a line counts once");
    assert!(s.regex_error().is_none());

    s.start_search(SearchRequest::new("ID=3", false, true));
    settle(&mut s, data);
    assert_eq!(s.matches(), &[2]);
}

#[test]
fn regex_search_sees_decoded_text() {
    let (bytes, _, _) = encoding_rs::GB18030.encode("第一条\n错误日志\n");
    let mut s = open(&bytes, "regex_cn.log");
    s.start_search(SearchRequest::new("^错.日", true, true));
    settle(&mut s, &bytes);
    assert_eq!(s.matches(), &[1]);
}

#[test]
fn a_bad_pattern_is_told_of() {
    let data = b"a(b\n";
    let mut s = open(data, "bad.log");
    s.start_search(SearchRequest::new("a(", true, true));
    settle(&mut s, data);
    assert!(s.matches().is_empty());
    let reason = s.regex_error().expect("the reason is kept").to_string();
    assert_eq!(reason, regex::Regex::new("a(").unwrap_err().to_string());
    s.start_search(SearchRequest::new("a(", true, false));
    settle(&mut s, data);
    assert_eq!(s.matches(), &[0]);
    assert!(s.regex_error().is_none());
}

#[test]
fn a_pattern_that_is_too_large_is_told_of() {
    let data = b"a\n";
    let pattern = r"\w{2000}{50}";
    match run_search(data, 2, &SearchRequest::new(pattern, true, true), Encoding::Utf8) {
        SearchMsg::Hits(_) => panic!("the pattern is too large"),
        SearchMsg::RegexError(reason) => {
            assert_eq!(reason, regex::Regex::new(pattern).unwrap_err().to_string());
        }
    }
}

#[test]
fn a_compiled_pattern_decides_what_comes_back() {
    let data = b"x1\ny\nx2\n";
    let compiled = regex::Regex::new("x").map_err(|e| RegexFault::Size(e.to_string()));
    match search_compiled(data, data.len(), compiled, Encoding::Utf8) {
        SearchMsg::Hits(hits) => {
            assert_eq!(hits.positions, vec![0, 5]);
            assert_eq!(hits.total, 2);
            assert!(!hits.truncated());
        }
        SearchMsg::RegexError(_) => panic!("the pattern compiles"),
    }
    for fault in [RegexFault::Syntax("why".to_string()), RegexFault::Size("why".to_string())] {
        match search_compiled(data, data.len(), Err(fault), Encoding::Utf8) {
            SearchMsg::Hits(_) => panic!("there is no pattern"),
            SearchMsg::RegexError(reason) => assert_eq!(reason, "why"),
        }
    }
}

#[test]
fn a_hit_in_the_unfinished_line_is_listed_under_it() {
    for (data, lines) in [
        (&b"a\nERROR"[..], vec![1u32]),
        (b"x\nERROR", vec![1]),
        (b"ERROR", vec![0]),
        (b"ERROR\nx\nan ERROR", vec![0, 2]),
    ] {
        let mut s = open(data, "tail_hit.log");
        s.start_search(SearchRequest::new("ERROR", true, false));
        settle(&mut s, data);
        assert_eq!(s.matches(), &lines[..]);
        let last = *lines.last().unwrap() as usize;
        assert!(line(&s, data, last).unwrap().contains("ERROR"));
    }
}

#[test]
fn positions_lead_to_lines() {
    let data = b"one\ntwo\nthree\n";
    let s = open(data, "index.log");
    assert_eq!(s.line_index_at(0), Some(0));
    assert_eq!(s.line_index_at(3), Some(0));
    assert_eq!(s.line_index_at(4), Some(1));
    assert_eq!(s.line_index_at(13), Some(2));
    assert_eq!(s.line_offset(2), Some(8));
    assert_eq!(s.line_range(1), Some((4, 8)));
    assert_eq!(s.line_range(3), None);
    assert_eq!(line(&s, data, 3), None);
}

#[test]
fn a_line_is_read_without_the_index() {
    let data = b"one\ntwo\r\nthree";
    let s = LogStore::open("noindex.log", data, data.len());
    assert_eq!(s.line_text_at(data, 0).as_deref(), Some("one"));
    assert_eq!(s.line_text_at(data, 5).as_deref(), Some("two"));
    assert_eq!(s.line_text_at(data, 9).as_deref(), Some("three"));
    assert_eq!(s.line_text_at(data, 14), None);
    assert_eq!(s.path_str(), "noindex.log");
}

#[test]
fn a_text_is_found_in_the_encoding_of_the_file() {
    let data = "甲\n乙丙\n".as_bytes();
    let s = open(data, "find.log");
    assert_eq!(s.find_offset_of(data, "乙丙"), Some(4));
    assert_eq!(s.find_offset_of(data, "丁"), None);
    assert_eq!(s.find_offset_of(data, ""), None);

    let (bytes, _, _) = encoding_rs::GB18030.encode("甲\n乙丙\n");
    let s = open(&bytes, "find_gb.log");
    assert_eq!(s.find_offset_of(&bytes, "乙丙"), Some(3));
}

#[test]
fn reports_have_to_go_on_where_the_lines_end() {
    let data = b"a\nb\nc\n";
    let mut s = LogStore::open("reports.log", data, data.len());
    assert!(s.is_continued_by(&scan_lines(data, 0, data.len())));
    assert!(s.is_continued_by(&Vec::new()));
    assert!(!s.is_continued_by(&vec![IndexMsg::Lines(vec![2, 0])]));
    assert!(!s.is_continued_by(&vec![IndexMsg::Lines(vec![0, 2]), IndexMsg::Lines(vec![2])]));
    s.pump(vec![IndexMsg::Lines(vec![0, 2])], None);
    assert!(!s.is_continued_by(&vec![IndexMsg::Lines(vec![2])]));
    assert!(s.is_continued_by(&vec![IndexMsg::Lines(vec![4]), IndexMsg::Done(6)]));
    s.pump(vec![IndexMsg::Lines(vec![4]), IndexMsg::Done(6)], None);
    assert!(s.is_continued_by(&vec![IndexMsg::Lines(vec![0])]), "no scan is under way");
}

#[test]
fn a_scan_reports_in_chunks() {
    let mut data = Vec::new();
    for _ in 0..INDEX_CHUNK + 5 {
        data.extend_from_slice(b"x\n");
    }
    data.extend_from_slice(b"tail");
    let msgs = scan_lines(&data, 0, data.len());
    let mut lines = 0;
    let mut done = None;
    for m in &msgs {
        match m {
            IndexMsg::Lines(starts) => {
                assert!(starts.len() <= INDEX_CHUNK);
                assert_eq!(starts[0], 2 * lines);
                lines += starts.len();
            }
            IndexMsg::Done(at) => {
                assert!(done.is_none());
                done = Some(*at);
            }
        }
    }
    assert_eq!(lines, INDEX_CHUNK + 5);
    assert_eq!(done, Some(2 * (INDEX_CHUNK + 5)));

    let s = open(&data, "chunks.log");
    assert_eq!(s.line_count(), INDEX_CHUNK + 6);
    assert_eq!(line(&s, &data, INDEX_CHUNK + 5).as_deref(), Some("tail"));
}

#[test]
fn a_scan_resumes_at_the_tail() {
    let data = b"a\nb\nc\n";
    let msgs = scan_lines(data, 2, data.len());
    let mut starts = Vec::new();
    for m in msgs {
        if let IndexMsg::Lines(more) = m {
            starts.extend(more);
        }
    }
    assert_eq!(starts, vec![2, 4]);
}

#[test]
fn line_ends() {
    assert_eq!(trim_eol(b"one\r\n"), b"one");
    assert_eq!(trim_eol(b"one\n\r\n"), b"one");
    assert_eq!(trim_eol(b"\n"), b"");
    assert_eq!(trim_eol(b"a\rb"), b"a\rb");
    assert_eq!(find_line_end(b"ab\ncd", 0, 5), 2);
    assert_eq!(find_line_end(b"ab\ncd", 3, 5), 5);
    assert_eq!(find_line_end(b"ab\ncd", 0, 1), 1);
}

#[test]
fn long_lines_are_told() {
    let data = b"abc\n\nabcde\nab";
    assert!(no_line_above(data, data.len(), 5));
    assert!(!no_line_above(data, data.len(), 4));
    assert!(no_line_above(data, 9, 4));
    assert!(no_line_above(b"", 0, 0));
    assert!(!no_line_above(b"ab", 2, 1));
}

#[test]
fn plain_search_keeps_the_first_hit_of_each_line() {
    let data = b"aaaa\nbaa\naa";
    let hits = search_bytes(data, data.len(), b"aa");
    assert_eq!(hits.positions, vec![0, 6, 9]);
    assert_eq!(hits.total, 4);
    let hits = search_bytes(data, 5, b"aa");
    assert_eq!(hits.positions, vec![0]);
    assert_eq!(hits.total, 2);
}

#[test]
fn folded_search_ignores_the_case_of_ascii() {
    let data = b"Error eRRoR\nok\nERROR\n";
    let hits = search_bytes_ci(data, data.len(), b"error");
    assert_eq!(hits.positions, vec![0, 15]);
    assert_eq!(hits.total, 3);
    let other = search_bytes_ci(&to_lower(data), data.len(), b"ERROR");
    assert_eq!(other.positions, hits.positions);
    assert_eq!(other.total, hits.total);
}

#[test]
fn searches_of_both_kinds_agree_on_lines() {
    let data = b"alpha\nbeta Alpha\n\nALPHA alpha\n";
    let mut s = open(data, "agree.log");
    s.start_search(SearchRequest::new("alpha", false, false));
    settle(&mut s, data);
    let plain: Vec<u32> = s.matches().to_vec();
    s.start_search(SearchRequest::new("alpha", false, true));
    settle(&mut s, data);
    assert_eq!(s.matches(), &plain[..]);
    assert_eq!(plain, vec![0, 1, 3]);
}

#[test]
fn bytes_are_found_at_their_first_place() {
    assert_eq!(find_bytes(b"abcabc", b"bc"), Some(1));
    assert_eq!(find_bytes(b"abc", b""), Some(0));
    assert_eq!(find_bytes(b"abc", b"x"), None);
}

#[test]
fn more_lines_than_can_be_gone_to_are_counted() {
    let mut data = Vec::new();
    for _ in 0..MAX_NAVIGABLE_LINES + 2 {
        data.extend_from_slice(b"hit\n");
    }
    let mut s = open(&data, "many.log");
    s.start_search(SearchRequest::new("hit", true, false));
    settle(&mut s, &data);
    assert_eq!(s.matches().len(), MAX_NAVIGABLE_LINES);
    let first: Vec<u32> = (0..MAX_NAVIGABLE_LINES as u32).collect();
    assert!(s.matches() == &first[..], "the first lines are listed");
    assert!(s.search_truncated());
    assert_eq!(s.search_total(), MAX_NAVIGABLE_LINES + 2);
    s.clear_search();
    assert!(!s.search_truncated());
    assert_eq!(s.search_total(), 0);
}

#[test]
fn the_encoding_is_told_by_the_beginning() {
    assert_eq!(sniff_encoding("中文".as_bytes(), 6), Encoding::Utf8);
    assert_eq!(sniff_encoding(&[0xb4, 0xed], 2), Encoding::Gb18030);
    assert_eq!(sniff_encoding(b"", 0), Encoding::Utf8);
    let mut data = vec![b'a'; SNIFF_LEN];
    data.push(0xb4);
    assert_eq!(sniff_encoding(&data, data.len()), Encoding::Utf8, "only the beginning counts");
    assert_eq!(encoding_name(Encoding::Utf8), "UTF-8");
}

#[test]
fn a_character_cut_by_the_sample_does_not_count() {
    let chinese = "中".repeat(21846);
    assert_eq!(chinese.len(), SNIFF_LEN + 2);
    assert_eq!(sniff_encoding(chinese.as_bytes(), chinese.len()), Encoding::Utf8);
    for c in ["é", "中", "\u{a0}", "\u{800}", "\u{d7ff}", "🎯", "\u{10ffff}"] {
        for kept in 0..=c.len() {
            let mut data = vec![b'a'; SNIFF_LEN - kept];
            data.extend_from_slice(c.as_bytes());
            data.push(b'\n');
            assert_eq!(sniff_encoding(&data, data.len()), Encoding::Utf8, "{c} {kept}");
        }
    }
    // A character that a file ends in the middle of is another matter.
    let mut ends = vec![b'a'; SNIFF_LEN - 1];
    ends.push(0xe4);
    assert_eq!(sniff_encoding(&ends, ends.len()), Encoding::Gb18030);
    // So is what no character begins with.
    for tail in [&[0x80u8][..], &[0xc0], &[0xf5], &[0xe0, 0x80], &[0xed, 0xa0], &[0xf4, 0x90, 0x80]]
    {
        let mut data = vec![b'a'; SNIFF_LEN - tail.len()];
        data.extend_from_slice(tail);
        data.extend_from_slice(&[0x80, 0x80, b'\n']);
        assert_eq!(sniff_encoding(&data, data.len()), Encoding::Gb18030, "{tail:?}");
    }
}

#[test]
fn texts_survive_their_encoding() {
    for e in [Encoding::Utf8, Encoding::Gb18030] {
        for t in ["", "plain", "错误日志 ERROR", "🎯"] {
            let bytes = encode(t, e);
            let mut back = String::from("> ");
            decode_into(&bytes, e, &mut back);
            assert_eq!(back, format!("> {t}"));
        }
    }
    assert_eq!(encode("错", Encoding::Gb18030), vec![0xb4, 0xed]);
    assert_eq!(encode("错", Encoding::Utf8), "错".as_bytes().to_vec());
}

#[test]
fn broken_bytes_are_replaced() {
    let mut out = String::new();
    decode_into(&[b'a', 0xff, b'b'], Encoding::Utf8, &mut out);
    assert_eq!(out, "a\u{fffd}b");
}
