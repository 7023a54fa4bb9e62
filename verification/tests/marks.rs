use logview::bookmarks::{
    escape_json, from_json, head_of, insert_mark, now_secs, parse_sidecar,
    relative_time, render_markdown, render_sidecar, seconds_or_zero, sidecar_path, to_json,
    Bookmark, HEAD_CHARS,
};
use logview::paths::{file_name, joined};
use logview::startup::Platform;

const SYSTEMS: [Platform; 4] =
    [Platform::MacOs, Platform::Windows, Platform::Linux, Platform::Other];

fn mark(offset: u64, line: u32, head: &str, note: &str) -> Bookmark {
    Bookmark { offset, line, head: head.to_string(), note: note.to_string(), at: 0 }
}

#[test]
fn head_keeps_chinese_intact() {
    let head = head_of("  09:14:03.002 ERROR order 8821 failed: gateway timeout  ");
    assert!(head.starts_with("09:14:03.002 ERROR"));
    assert_eq!(head.len(), HEAD_CHARS, "ASCII 下按字符截断等于按字节");

    let cn = head_of(&"中".repeat(100));
    assert_eq!(cn.chars().count(), HEAD_CHARS);
    assert!(cn.chars().all(|c| c == '中'));
}

#[test]
fn empty_line_has_no_fingerprint_and_stays_valid() {
    let b = Bookmark::new(0, 0, "   \n", 0);
    assert!(b.head.is_empty());
    assert!(b.matches_head("完全不同的内容"), "空指纹只认偏移");
    assert!(b.matches_head(""));
}

#[test]
fn fingerprint_rejects_a_rewritten_line() {
    let b = Bookmark::new(120, 3, "09:14:03 ERROR order 8821 failed", 0);
    assert!(b.matches_head("09:14:03 ERROR order 8821 failed"));
    assert!(
        b.matches_head("  09:14:03 ERROR order 8821 failed  "),
        "两侧空白不算差异"
    );
    assert!(!b.matches_head("09:14:03 INFO order 8821 ok"));

    let long = "x".repeat(HEAD_CHARS + 20);
    let b = Bookmark::new(0, 0, &long, 0);
    assert!(b.matches_head(&format!("{long} 后面还有内容")));
    assert!(
        !b.matches_head(&"y".repeat(HEAD_CHARS + 20)),
        "开头变了就是另一行"
    );

    let tail = Bookmark::new(0, 0, "最后一行写到一半", 0);
    assert!(tail.matches_head("最后一行写到一半，补完了"));
    assert!(!tail.matches_head("换了完全不同的内容"), "开头不对就该失效");
}

#[test]
fn json_round_trip_survives_hostile_notes() {
    let mut b = Bookmark::new(98213, 1483, "09:14:03 ERROR order 8821", 1_757_000_000);
    b.note = "引号\" 反斜杠\\ 换行\n制表\t 中文 与 🎯".to_string();
    let text = to_json(&b);
    assert!(!text.contains('\n'), "一条记录必须落在同一行上");
    assert_eq!(from_json(&text), Some(b));
}

#[test]
fn json_reader_tolerates_field_order_and_extra_fields() {
    let line =
        r#"{"v":2,"note":"备注","head":"行首","at":42,"offset":10,"line":2,"future":true}"#;
    let b = from_json(line).expect("应能解析");
    assert_eq!(b.offset, 10);
    assert_eq!(b.line, 2);
    assert_eq!(b.head, "行首");
    assert_eq!(b.note, "备注");
    assert_eq!(b.at, 42);

    assert_eq!(from_json("这不是 JSON"), None);
    assert_eq!(
        from_json(r#"{"line":3}"#),
        None,
        "没有 offset 的记录无法定位"
    );
}

#[test]
fn sidecar_sits_next_to_the_log() {
    for system in SYSTEMS {
        let p = sidecar_path(system, "/var/log/app.log");
        if system != Platform::Windows {
            assert_eq!(p, "/var/log/app.log.logview.jsonl");
        } else {
            // Windows reads both separators, and puts its own before the name.
            assert_eq!(p, "/var/log\\app.log.logview.jsonl");
        }

        let p = sidecar_path(system, "C:/logs/102_Ana_0");
        assert_eq!(file_name(system, &p).as_deref(), Some("102_Ana_0.logview.jsonl"));
    }
}

#[test]
fn relative_time_reads_naturally() {
    let now = 1_757_000_000;
    assert_eq!(relative_time(now, now), "刚刚");
    assert_eq!(relative_time(now - 600, now), "10 分钟前");
    assert_eq!(relative_time(now - 7_200, now), "2 小时前");
    assert_eq!(relative_time(now - 86_400 * 3, now), "3 天前");
    assert_eq!(relative_time(now + 60, now), "更早", "时钟回拨时不装作知道");
}

#[test]
fn times_change_words_at_their_bounds() {
    let now = 10_000_000;
    assert_eq!(relative_time(now - 59, now), "刚刚");
    assert_eq!(relative_time(now - 60, now), "1 分钟前");
    assert_eq!(relative_time(now - 3_599, now), "59 分钟前");
    assert_eq!(relative_time(now - 3_600, now), "1 小时前");
    assert_eq!(relative_time(now - 86_399, now), "23 小时前");
    assert_eq!(relative_time(now - 86_400, now), "1 天前");
    assert_eq!(relative_time(now - 86_400 * 30 + 1, now), "29 天前");
    assert_eq!(relative_time(now - 86_400 * 30, now), "更早");
    let b = Bookmark::new(0, 0, "x", now - 60);
    assert_eq!(b.relative_time(now), "1 分钟前");
}

#[test]
fn one_line_of_json_per_mark() {
    let b = Bookmark { offset: 5, line: 1, head: "h".to_string(), note: "n".to_string(), at: 9 };
    assert_eq!(
        to_json(&b),
        r#"{"offset":5,"line":1,"at":9,"head":"h","note":"n"}"#
    );
}

#[test]
fn control_characters_are_written_as_numbers() {
    let mut out = String::new();
    escape_json(&mut out, "a\u{1}\u{1b}\"\\\n\r\t");
    assert_eq!(out, "a\\u0001\\u001b\\\"\\\\\\n\\r\\t");
}

#[test]
fn texts_come_back_from_json() {
    for t in ["", "plain", "\"quoted\"", "back\\slash", "\n\r\t", "中文 🎯", "\u{1b}[31mERROR\u{0}\u{1f}"] {
        let b = mark(7, 3, t, t);
        assert_eq!(from_json(&to_json(&b)), Some(b));
    }
}

#[test]
fn control_characters_are_read_by_their_numbers() {
    let head = |t: &str| from_json(&format!("{{\"offset\":1,\"head\":\"{t}\"}}")).unwrap().head;
    assert_eq!(head("\\u001b[31mERROR"), "\u{1b}[31mERROR");
    assert_eq!(head("a\\u0000\\u001fb"), "a\u{0}\u{1f}b");
    for other in ["u4E2d", "u0041", "u001B", "u000a", "u00g1", "u12", "ud800", "u007f"] {
        assert_eq!(head(&format!("\\{other}")), other, "this is not how one is written");
    }
}

#[test]
fn a_record_may_lack_all_but_the_offset() {
    let b = from_json(r#"{"offset":3}"#).expect("an offset is enough");
    assert_eq!(b, mark(3, 0, "", ""));
    assert_eq!(from_json(r#"{"offset":x}"#), None);
    assert_eq!(from_json(r#"{"offset":99999999999999999999}"#), None);
    assert_eq!(from_json(""), None);
}

#[test]
fn a_sidecar_keeps_one_mark_per_offset_in_order() {
    let items = [mark(9, 2, "c", ""), mark(1, 0, "a", "x"), mark(9, 2, "d", "")];
    let text = render_sidecar(&items);
    assert_eq!(text.lines().count(), 3);
    let back = parse_sidecar(&format!("rubbish\n\n{text}\n{{}}\n"));
    let offsets: Vec<u64> = back.iter().map(|b| b.offset).collect();
    assert_eq!(offsets, vec![1, 9]);
    assert_eq!(back[0], items[1]);
    assert_eq!(parse_sidecar(""), Vec::new());
}

#[test]
fn a_sidecar_comes_back() {
    let items = vec![mark(1, 0, "a", "第一"), mark(9, 2, "c", ""), mark(20, 4, "", "x\ny")];
    assert_eq!(parse_sidecar(&render_sidecar(&items)), items);
    let crlf = render_sidecar(&items).replace('\n', "\r\n");
    assert_eq!(parse_sidecar(&crlf), items);
}

#[test]
fn marks_go_where_their_offset_belongs() {
    let mut items = vec![mark(1, 0, "", ""), mark(9, 2, "", "")];
    insert_mark(&mut items, mark(5, 1, "", ""));
    let offsets: Vec<u64> = items.iter().map(|b| b.offset).collect();
    assert_eq!(offsets, vec![1, 5, 9]);
}

#[test]
fn markdown_lists_marks() {
    let mut second = mark(9, 2, "two", "看这里");
    second.at = 400;
    let text = render_markdown("app.log", &[mark(0, 0, "one", ""), second], 1_000);
    assert_eq!(
        text,
        "# 标记 · app.log\n\n共 2 条。\n\n- **第 1 行**　`one`\n  - 标记于 16 分钟前\n\
         - **第 3 行**　`two`\n  - 备注：看这里\n  - 标记于 10 分钟前\n"
    );
}

#[test]
fn names_are_the_last_part_of_a_path() {
    for p in ["/var/log/app.log", "app.log", "/", "", ".", "..", "a/..", "a/b/", "a//b", "a/./"] {
        let expected = std::path::Path::new(p)
            .file_name()
            .map(|n| n.to_string_lossy().to_string());
        assert_eq!(file_name(Platform::Linux, p), expected, "{p}");
    }
}

#[test]
fn sidecars_of_odd_paths() {
    for p in ["/var/log/app.log", "app.log", "/", "", ".", "a/..", "a/b/", "a//b", "/a/./", "./x"] {
        let path = std::path::Path::new(p);
        let mut name = path.file_name().map(|n| n.to_os_string()).unwrap_or_default();
        name.push(".logview.jsonl");
        let expected = path.with_file_name(name).to_string_lossy().to_string();
        assert_eq!(sidecar_path(Platform::Linux, p), expected, "{p}");
    }
}

#[test]
fn paths_are_joined() {
    for (dir, name) in [("/home/u", ".fonts"), ("/", "x"), ("", "x"), ("a/", "b"), ("a", "/b")] {
        let expected = std::path::Path::new(dir).join(name).to_string_lossy().to_string();
        assert_eq!(joined(Platform::Linux, dir, name), expected);
    }
}

#[test]
fn windows_has_drives_and_backslashes() {
    let w = Platform::Windows;
    for (p, name) in [
        ("C:\\logs\\app.log", Some("app.log")),
        ("C:/logs/app.log", Some("app.log")),
        ("C:\\logs/sub\\", Some("sub")),
        ("C:app.log", Some("app.log")),
        ("C:\\", None),
        ("C:", None),
        ("\\\\host\\share\\a.log", Some("a.log")),
        ("\\\\host\\share", None),
        ("\\\\host\\share\\", None),
        ("//host/share/a.log", Some("a.log")),
        ("//host/share", None),
        ("\\\\host", Some("host")),
        ("\\\\host\\\\a", Some("a")),
        ("\\\\.\\COM1", None),
        ("\\\\.\\COM1\\x", Some("x")),
        ("\\\\?\\C:\\logs\\a.log", Some("a.log")),
        ("\\\\?\\C:\\logs/a.log", Some("logs/a.log")),
        ("\\\\?\\C:\\logs\\.", None),
        ("\\\\?\\C:", None),
        ("\\\\?\\C:x\\y", Some("y")),
        ("\\\\?\\C:x", None),
        ("\\\\?\\pictures", None),
        ("\\\\?\\UNC\\host\\share", None),
        ("\\\\?\\UNC\\host\\share\\a.log", Some("a.log")),
        ("//?/C:/x", Some("x")),
        ("C:.", None),
        ("C:.\\x", Some("x")),
        ("logs\\..", None),
    ] {
        assert_eq!(file_name(w, p).as_deref(), name, "{p}");
    }
    for (p, sidecar) in [
        ("C:\\logs\\app.log", "C:\\logs\\app.log.logview.jsonl"),
        ("C:\\app.log", "C:\\app.log.logview.jsonl"),
        ("C:app.log", "C:app.log.logview.jsonl"),
        ("D:/logs/x", "D:/logs\\x.logview.jsonl"),
        ("app.log", "app.log.logview.jsonl"),
        ("\\\\host\\share\\a.log", "\\\\host\\share\\a.log.logview.jsonl"),
        ("\\\\host\\share", "\\\\host\\share\\.logview.jsonl"),
        ("\\\\?\\C:\\logs\\a.log", "\\\\?\\C:\\logs\\a.log.logview.jsonl"),
        ("\\\\?\\C:\\x\\\\.\\a.log", "\\\\?\\C:\\x\\.\\a.log.logview.jsonl"),
        ("\\\\?\\C:", "\\\\?\\C:\\.logview.jsonl"),
        ("\\\\?\\UNC\\h\\s\\a.log", "\\\\?\\UNC\\h\\s\\a.log.logview.jsonl"),
        ("\\\\?\\C:\\logs\\sub/a.log", "\\\\?\\C:\\logs\\sub\\a.log.logview.jsonl"),
    ] {
        assert_eq!(sidecar_path(w, p), sidecar, "{p}");
    }
    assert_eq!(joined(w, "C:\\a", "D:\\b"), "D:\\b");
    assert_eq!(joined(w, "C:\\a", "\\b"), "C:\\b");
    assert_eq!(joined(w, "C:", "b"), "C:b");
    assert_eq!(joined(w, "\\\\host\\share\\a", "\\b"), "\\\\host\\share\\b");
    assert_eq!(joined(w, "\\\\?\\C:\\a\\b", "..\\./c"), "\\\\?\\C:\\a\\c");
    assert_eq!(joined(w, "\\\\?\\C:\\a\\b", "/c"), "\\\\?\\C:\\c");
    assert_eq!(joined(w, "\\\\?\\C:\\a", ""), "\\\\?\\C:\\a\\");
    let all = "C:\\logs\\app.log";
    assert_eq!(file_name(Platform::Linux, all).as_deref(), Some(all));
}

#[test]
fn the_clock_runs() {
    let before = std::time::SystemTime::now()
        .duration_since(std::time::UNIX_EPOCH)
        .unwrap()
        .as_secs();
    let now = now_secs();
    assert!(before <= now && now <= before + 10);
    assert_eq!(seconds_or_zero(None), 0);
    assert_eq!(seconds_or_zero(Some(7)), 7);
}
