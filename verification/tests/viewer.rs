use logview::app::{AnchorState, LogViewApp, OnSearchDone};
use logview::app_keys::Keys;
use logview::app_view::{notice_is_shown, refresh_is_due, search_is_due, MarkAct, Tone};
use logview::bookmarks::{parse_sidecar, render_sidecar, sidecar_path, Bookmark};
use logview::logstore::{run_search, scan_lines, LogStore, Remap, SearchRequest};
use logview::startup::Platform;

const HITS: &[u8] = b"ERROR one\nplain\nERROR two\n";

/// Runs what the store hands out until nothing is left.
fn settle(store: &mut LogStore, data: &[u8]) {
    while store.is_indexing() || store.is_searching() {
        let msgs = match store.take_index_job() {
            Some(job) => scan_lines(data, job.start, job.limit),
            None => Vec::new(),
        };
        let reply = store
            .take_search_job()
            .map(|job| run_search(data, job.limit, &job.request, job.encoding));
        store.pump(msgs, reply);
    }
}

fn settle_app(app: &mut LogViewApp, data: &[u8]) {
    settle(app.store.as_mut().expect("app 应已打开文件"), data);
}

fn app_with_hits(tag: &str) -> LogViewApp {
    let name = format!("logview_test_{tag}.log");
    let mut store = LogStore::open(&name, HITS, HITS.len());
    settle(&mut store, HITS);
    store.start_search(SearchRequest::new("ERROR", true, false));
    settle(&mut store, HITS);
    assert_eq!(store.matches().len(), 2, "前提：应有 2 个命中行");

    let mut app = LogViewApp::new();
    app.query = "ERROR".to_string();
    app.store = Some(store);
    app.visible_rows = 40;
    app
}

fn big_log(lines: usize) -> Vec<u8> {
    let mut data = String::new();
    for i in 0..lines {
        if i % 101 == 0 {
            data.push_str("进度 MARK\n");
        } else {
            data.push_str("plain line here\n");
        }
    }
    data.into_bytes()
}

fn big_app(tag: &str, data: &[u8]) -> LogViewApp {
    let name = format!("logview_test_{tag}.log");
    let mut app = LogViewApp::new();
    app.store = Some(LogStore::open(&name, data, data.len()));
    settle_app(&mut app, data);
    app.follow = false;
    app.visible_rows = 40;
    app
}

/// Opens a log with what its sidecar file holds.
fn open(name: &str, data: &[u8], sidecar: &str) -> LogViewApp {
    let mut app = LogViewApp::new();
    app.open_path(Platform::Linux, Ok(LogStore::open(name, data, data.len())), sidecar, data);
    settle_app(&mut app, data);
    app.visible_rows = 40;
    app
}

fn press(app: &mut LogViewApp, data: &[u8], keys: Keys) -> bool {
    app.handle_shortcuts(keys, data, 1_757_000_000)
}

fn n() -> Keys {
    Keys { n: true, ..Keys::default() }
}

fn b() -> Keys {
    Keys { b: true, ..Keys::default() }
}

fn f2() -> Keys {
    Keys { f2: true, ..Keys::default() }
}

fn shifted(keys: Keys) -> Keys {
    Keys { shift: true, ..keys }
}

#[test]
fn letter_keys_are_ignored_while_search_box_is_focused() {
    let mut app = app_with_hits("focused");
    app.search_has_focus = true;
    let before = app.match_cursor;

    press(&mut app, HITS, n());
    assert_eq!(app.match_cursor, before, "搜索框有焦点时 n 不应跳转");
    assert!(app.pending_jump.is_none());
}

#[test]
fn letter_keys_work_when_search_box_is_not_focused() {
    let mut app = app_with_hits("nofocus");
    app.search_has_focus = false;

    assert_eq!(app.match_cursor, 0);
    press(&mut app, HITS, n());
    assert_eq!(app.match_cursor, 1, "无焦点时 n 应跳到下一个命中");
    assert!(app.pending_jump.is_some(), "跳转请求应已排队");
}

#[test]
fn shift_n_goes_backwards() {
    let mut app = app_with_hits("shiftn");
    app.search_has_focus = false;
    app.match_cursor = 1;

    press(&mut app, HITS, shifted(n()));
    assert_eq!(app.match_cursor, 0, "Shift+N 应回到上一个命中");
}

#[test]
fn slash_requests_search_focus() {
    let mut app = app_with_hits("slash");
    app.search_has_focus = false;

    press(&mut app, HITS, Keys { slash: true, ..Keys::default() });
    assert!(app.focus_search, "/ 应请求聚焦搜索框");
}

#[test]
fn b_marks_the_viewport_top_when_nothing_was_located_yet() {
    let data = big_log(500);
    let mut app = big_app("markb", &data);
    app.search_has_focus = false;
    app.top_line = 3;

    press(&mut app, &data, b());
    assert_eq!(app.marks.len(), 1, "b 应标记一行");
    assert_eq!(app.marks[0].bm.line, 3, "应标在视口第一行上");
    assert!(app.marks_dirty, "改动了就该落盘");

    press(&mut app, &data, b());
    assert!(app.marks.is_empty(), "再按一次应取消");
}

#[test]
fn b_follows_the_last_jump() {
    let mut app = app_with_hits("markjump");
    app.search_has_focus = false;
    app.top_line = 0;

    press(&mut app, HITS, n());
    press(&mut app, HITS, b());
    assert_eq!(app.marks.len(), 1);
    assert_eq!(app.marks[0].bm.line, 2, "应标在刚跳到的命中行上");
}

#[test]
fn f2_walks_between_marks_and_wraps() {
    let data = big_log(500);
    let mut app = big_app("markf2", &data);
    app.search_has_focus = false;

    for line in [10usize, 100, 300] {
        app.top_line = line;
        press(&mut app, &data, b());
    }
    assert_eq!(app.marks.len(), 3);

    app.cursor_line = Some(0);
    press(&mut app, &data, f2());
    assert_eq!(app.cursor_line, Some(10), "F2 应跳到第一条");

    press(&mut app, &data, f2());
    assert_eq!(app.cursor_line, Some(100));

    press(&mut app, &data, shifted(f2()));
    assert_eq!(app.cursor_line, Some(10), "⇧F2 应往回");

    press(&mut app, &data, shifted(f2()));
    assert_eq!(app.cursor_line, Some(300), "到头了绕回最后一条");
}

#[test]
fn typing_in_the_note_editor_never_triggers_shortcuts() {
    let mut app = app_with_hits("marknote");
    app.search_has_focus = false;
    app.top_line = 0;
    press(&mut app, HITS, b());
    assert_eq!(app.marks.len(), 1);

    app.editing_note = Some(app.marks[0].bm.offset);
    press(&mut app, HITS, b());
    assert_eq!(app.marks.len(), 1, "编辑备注时按 b 不该再标记一行");

    press(&mut app, HITS, Keys { escape: true, ..Keys::default() });
    assert!(app.editing_note.is_none(), "Esc 应收回编辑");
}

#[test]
fn follow_is_off_by_default() {
    assert!(
        !LogViewApp::new().follow,
        "跟随尾部默认为关：否则打开大日志会直接跳到末尾"
    );
}

#[test]
fn word_search_keeps_the_view_and_aligns_the_cursor() {
    let mut app = app_with_hits("word_view");
    app.top_line = 1;

    app.search_for("ERROR".to_string());
    settle_app(&mut app, HITS);
    app.apply_search_outcome();

    assert!(app.pending_jump.is_none(), "双击取词不该移动视图");
    assert_eq!(app.match_cursor, 1, "游标应落在视口下方的那个命中上");
}

#[test]
fn word_search_below_all_matches_stays_on_the_last_one() {
    let mut app = app_with_hits("word_tail");
    app.top_line = 100_000;

    app.search_for("ERROR".to_string());
    settle_app(&mut app, HITS);
    app.apply_search_outcome();

    assert!(app.pending_jump.is_none());
    assert_eq!(app.match_cursor, 1, "应停在最后一个命中，而不是回到第一个");
}

#[test]
fn typed_search_still_jumps_to_the_first_match() {
    let mut app = app_with_hits("typed");
    app.match_cursor = 1;

    app.run_search(OnSearchDone::GotoFirstMatch);
    settle_app(&mut app, HITS);
    app.apply_search_outcome();

    assert_eq!(app.match_cursor, 0);
    assert_eq!(
        app.pending_jump,
        Some(0),
        "搜索框输入应跳到第一个命中所在行"
    );
}

#[test]
fn typed_search_goes_to_the_first_row_of_hits() {
    let data = b"plain\nplain\nERROR one\nERROR two\n";
    let mut app = open("/tmp/typed.log", data, "");
    app.only_matched = true;
    app.query = "ERROR".to_string();
    app.run_search(OnSearchDone::GotoFirstMatch);
    settle_app(&mut app, data);
    app.apply_search_outcome();
    assert_eq!(app.pending_jump, Some(0));
    assert_eq!(app.line_in_row(0), Some(2));
    assert_eq!(app.cursor_line, Some(2));
}

#[test]
fn marks_round_trip_through_the_sidecar() {
    let data = b"one\ntwo\nthree\nfour\n";
    let mut app = open("/tmp/logview_marks_roundtrip.log", data, "");
    app.cursor_line = Some(2);
    app.toggle_mark(data, 0);
    assert_eq!(app.marks.len(), 1);
    assert_eq!(app.marks[0].bm.line, 2);
    assert_eq!(app.marks[0].bm.head, "three", "指纹取的是那一行的内容");

    let (path, text) = app.marks_to_write().expect("there is something to write");
    app.marks_written(Ok(()));
    assert_eq!(
        path,
        sidecar_path(Platform::Linux, "/tmp/logview_marks_roundtrip.log"),
        "标记应写在日志旁边的侧车文件里"
    );
    assert!(text.contains("\"head\":\"three\""), "侧车内容：{text}");
    assert!(app.marks_to_write().is_none(), "what was written is not written again");

    let again = open("/tmp/logview_marks_roundtrip.log", data, &text);
    assert_eq!(again.marks.len(), 1, "重开应读回上次的标记");
    assert_eq!(again.marks[0].anchor, AnchorState::Fresh);
    assert_eq!(again.marks[0].bm.head, "three");
    assert!(again.show_marks, "有上次留下的标记时面板应自动展开");
}

#[test]
fn a_rewritten_line_is_stale_and_never_jumped_to() {
    let data = b"alpha line\nbeta line\n";
    let stale = Bookmark {
        offset: 0,
        line: 0,
        head: "这里原本是别的内容".to_string(),
        note: String::new(),
        at: 0,
    };
    let sidecar = render_sidecar(&[stale]);

    let mut app = open("/tmp/logview_marks_stale.log", data, &sidecar);
    assert_eq!(app.marks.len(), 1);
    assert_eq!(
        app.marks[0].anchor,
        AnchorState::Stale,
        "偏移处的内容对不上就该判失效"
    );

    app.cursor_line = None;
    app.top_line = 0;
    app.goto_mark(1);
    assert!(app.pending_jump.is_none(), "失效的标记不该跳");
}

#[test]
fn refind_moves_anchors_after_the_file_changed() {
    let data = b"first\nsecond\nthird\n";
    let mut app = open("/tmp/logview_marks_refind.log", data, "");
    app.cursor_line = Some(1);
    app.toggle_mark(data, 0);
    let (_, text) = app.marks_to_write().unwrap();

    let data = b"x\ny\nfirst\nsecond\nthird\n";
    let mut again = open("/tmp/logview_marks_refind.log", data, &text);
    assert_eq!(again.marks.len(), 1);
    assert_eq!(
        again.marks[0].anchor,
        AnchorState::Stale,
        "偏移已经漂了，先判失效而不是硬跳"
    );

    again.refind_marks(None, data);
    assert_eq!(
        again.marks[0].anchor,
        AnchorState::Fresh,
        "按原文应能找回来"
    );
    assert_eq!(again.marks[0].bm.line, 3, "行号也要更新成现在的");
}

#[test]
fn jumping_to_a_mark_outside_the_filter_turns_it_off() {
    let data = b"ERROR one\nplain\nstill plain\nERROR two\n";
    let mut app = open("/tmp/logview_marks_filter.log", data, "");
    app.cursor_line = Some(1);
    app.toggle_mark(data, 0);

    app.query = "ERROR".to_string();
    app.run_search(OnSearchDone::GotoFirstMatch);
    settle_app(&mut app, data);
    app.only_matched = true;
    app.top_line = 0;
    app.cursor_line = None;

    app.jump_to_file_line(1);
    assert!(!app.only_matched, "那行不在命中里，应自动关掉过滤");
    assert_eq!(app.pending_jump, Some(1), "关掉过滤后可以直接用文件行号");

    app.only_matched = true;
    app.jump_to_file_line(3);
    assert!(app.only_matched, "命中行不该把过滤关掉");
    assert_eq!(app.pending_jump, Some(1), "第 4 行是第 2 个命中");
}

#[test]
fn a_note_is_committed_and_saved_with_the_mark() {
    let data = b"one\ntwo\n";
    let mut app = open("/tmp/logview_marks_note.log", data, "");
    app.cursor_line = Some(0);
    app.toggle_mark(data, 0);

    app.note_buf = "OOM 前最后一条 ERROR".to_string();
    app.editing_note = Some(app.marks[0].bm.offset);
    app.commit_note();
    assert_eq!(app.marks[0].bm.note, "OOM 前最后一条 ERROR");
    assert!(app.editing_note.is_none(), "提交后应退出编辑");
    assert!(app.marks_dirty);

    let (_, text) = app.marks_to_write().unwrap();
    let again = open("/tmp/logview_marks_note.log", data, &text);
    assert_eq!(again.marks[0].bm.note, "OOM 前最后一条 ERROR");
}

#[test]
fn the_mark_highlight_tracks_the_last_mark_jump() {
    let data = b"one\ntwo\nthree\nfour\n";
    let mut app = open("/tmp/logview_marks_focus.log", data, "");
    app.cursor_line = Some(2);
    app.toggle_mark(data, 0);
    assert_eq!(app.focused_mark, Some(2), "刚按 b 标下的那条就是当前那条");

    app.focused_mark = None;
    app.jump_to_file_line(2);
    assert_eq!(app.focused_mark, Some(2), "面板点击要聚焦那一行");
    app.focused_mark = None;
    app.goto_mark(1);
    assert_eq!(app.focused_mark, Some(2), "F2 跳到的那条也要聚焦");

    app.jump_to_file_line(2);
    app.query = "one".to_string();
    app.run_search(OnSearchDone::GotoFirstMatch);
    settle_app(&mut app, data);
    app.apply_search_outcome();
    assert_eq!(app.focused_mark, None, "搜索跳转之后不该留着标记高亮");

    app.jump_to_file_line(2);
    app.jump_to_line(0);
    assert_eq!(app.focused_mark, None, "g 跳开头之后不该留着标记高亮");

    app.jump_to_file_line(2);
    app.select_line(1);
    assert_eq!(app.focused_mark, None, "点行号之后不该留着标记高亮");
}

#[test]
fn removing_a_mark_clears_its_highlight() {
    let data = b"one\ntwo\nthree\n";
    let mut app = open("/tmp/logview_marks_focus_remove.log", data, "");

    app.cursor_line = Some(1);
    app.toggle_mark(data, 0);
    assert_eq!(app.focused_mark, Some(1));
    app.toggle_mark(data, 0);
    assert!(app.marks.is_empty());
    assert_eq!(app.focused_mark, None, "取消标记后高亮要一起收掉");

    app.cursor_line = Some(2);
    app.toggle_mark(data, 0);
    let offset = app.marks[0].bm.offset;
    app.remove_mark(offset);
    assert!(app.marks.is_empty());
    assert_eq!(app.focused_mark, None, "删除标记后高亮要一起收掉");

    app.jump_to_file_line(0);
    let other = b"alpha\nbeta\n";
    let store = LogStore::open("/tmp/logview_marks_focus_other.log", other, other.len());
    app.open_path(Platform::Linux, Ok(store), "", other);
    settle_app(&mut app, other);
    assert_eq!(app.focused_mark, None, "换文件后不该留着上一份文件的高亮");
}

#[test]
fn a_file_that_cannot_be_opened_changes_only_the_error() {
    let mut app = app_with_hits("failed");
    app.open_path(Platform::Linux, Err("打不开".to_string()), "", HITS);
    assert_eq!(app.error.as_deref(), Some("打不开"));
    assert_eq!(app.store.as_ref().unwrap().matches().len(), 2);
    let items = app.status_items(None);
    let last = items.last().unwrap();
    assert_eq!(last.text, "打不开");
    assert_eq!(last.tone, Tone::Error);
}

#[test]
fn escape_drops_the_search() {
    let mut app = app_with_hits("escape");
    app.search_has_focus = true;
    let surrender = press(&mut app, HITS, Keys { escape: true, ..Keys::default() });
    assert!(surrender);
    assert!(app.query.is_empty());
    assert!(!app.search_has_focus);
    assert!(app.store.as_ref().unwrap().matches().is_empty());
}

#[test]
fn command_keys_work_in_the_search_box() {
    let mut app = app_with_hits("command");
    app.search_has_focus = true;
    press(&mut app, HITS, Keys { panel: true, ..Keys::default() });
    assert!(app.show_marks);
    press(&mut app, HITS, Keys { find: true, ..Keys::default() });
    assert!(app.focus_search);
    let open_key = Keys { open: true, ..Keys::default() };
    assert!(app.wants_open_dialog(open_key));
    app.editing_note = Some(0);
    assert!(!app.wants_open_dialog(open_key));
    press(&mut app, HITS, Keys { panel: true, ..Keys::default() });
    assert!(app.show_marks, "a note that is being typed takes all keys");
}

#[test]
fn g_goes_to_either_end() {
    let data = big_log(500);
    let mut app = big_app("ends", &data);
    press(&mut app, &data, shifted(Keys { g: true, ..Keys::default() }));
    assert!(app.jump_to_end);
    app.settle_jump_to_end();
    assert!(!app.jump_to_end);
    assert_eq!(app.take_jump(), Some(499));
    assert_eq!(app.take_jump(), None);
    press(&mut app, &data, Keys { g: true, ..Keys::default() });
    assert_eq!(app.take_jump(), Some(0));
}

#[test]
fn going_to_a_hit_stops_at_the_ends() {
    let mut app = app_with_hits("ends_of_hits");
    app.follow = true;
    app.goto_match(5);
    assert_eq!(app.match_cursor, 1);
    assert!(!app.follow);
    assert_eq!(app.current_match_line(), Some(2));
    assert_eq!(app.match_label(), "2 / 2");
    app.goto_match(-5);
    assert_eq!(app.match_cursor, 0);
    app.only_matched = true;
    app.goto_match(1);
    assert_eq!(app.take_jump(), Some(1), "among matching lines a row is a hit");
}

#[test]
fn rows_are_lines_or_hits() {
    let mut app = app_with_hits("rows");
    assert_eq!(app.row_count(), 3);
    assert_eq!(app.line_in_row(1), Some(1));
    assert!(app.placeholder().is_none());
    app.only_matched = true;
    app.filter_changed();
    assert_eq!(app.row_count(), 2);
    assert_eq!(app.line_in_row(1), Some(2));
    assert_eq!(app.line_in_row(2), None);
    assert_eq!(app.take_jump(), Some(0));
    app.scrolled(1, 30);
    assert_eq!(app.top_line, 2);
    assert_eq!(app.visible_rows, 30);
    app.follow = true;
    assert!(!app.sticks(), "matching lines do not follow the end of the file");
    app.only_matched = false;
    assert!(app.sticks());
}

#[test]
fn there_is_a_word_for_an_empty_view() {
    let mut app = LogViewApp::new();
    assert_eq!(app.placeholder(), Some("把日志文件拖到这里"));
    app.store = Some(LogStore::open("empty.log", b"", 0));
    assert_eq!(app.placeholder(), Some("正在建立索引…"));
    settle_app(&mut app, b"");
    assert_eq!(app.placeholder(), Some("文件为空"));
}

#[test]
fn a_mark_needs_a_finished_line() {
    let data = b"one\nhalf";
    let mut app = open("/tmp/half.log", data, "");
    app.cursor_line = Some(1);
    app.toggle_mark(data, 0);
    assert!(app.marks.is_empty());
    assert_eq!(app.take_flash().as_deref(), Some("这一行还没进索引，稍后再试"));
    app.cursor_line = Some(0);
    app.toggle_mark(data, 0);
    assert_eq!(app.take_flash().as_deref(), Some("已标记第 1 行（共 1 条）"));
    assert_eq!(app.take_flash(), None);
    assert!(app.is_marked(0));
    assert!(!app.is_marked(1));
}

#[test]
fn marks_are_kept_in_the_order_of_the_file() {
    let data = b"one\ntwo\nthree\n";
    let mut app = open("/tmp/order.log", data, "");
    for line in [2usize, 0, 1] {
        app.cursor_line = Some(line);
        app.toggle_mark(data, 7);
    }
    let offsets: Vec<u64> = app.marks.iter().map(|m| m.bm.offset).collect();
    assert_eq!(offsets, vec![0, 4, 8]);
    let rows = app.mark_rows(7);
    assert_eq!(rows.len(), 3);
    assert_eq!(rows[1].number(), "2");
    assert_eq!(rows[1].head, "two");
    assert_eq!(rows[1].time, "刚刚");
    assert_eq!(rows[1].note_text(), "＋备注");
    assert_eq!(rows[1].on_click(), Some(MarkAct::Goto(4)));
    assert!(rows[1].why().is_none());
    assert!(rows[1].is_focused(Some(1)));
    assert!(!rows[1].is_focused(None));
}

#[test]
fn the_list_of_marks_acts() {
    let data = b"one\ntwo\nthree\n";
    let mut app = open("/tmp/acts.log", data, "");
    for line in [0usize, 2] {
        app.cursor_line = Some(line);
        app.toggle_mark(data, 0);
    }
    app.apply_mark_act(MarkAct::Goto(8), data);
    assert_eq!(app.take_jump(), Some(2));
    assert_eq!(app.focused_mark, Some(2));
    app.apply_mark_act(MarkAct::StartNote(8), data);
    assert_eq!(app.editing_note, Some(8));
    app.note_buf = "看这里".to_string();
    app.apply_mark_act(MarkAct::CommitNote, data);
    assert_eq!(app.marks[1].bm.note, "看这里");
    app.apply_mark_act(MarkAct::StartNote(8), data);
    assert_eq!(app.note_buf, "看这里");
    app.apply_mark_act(MarkAct::Delete(0), data);
    assert_eq!(app.marks.len(), 1);
    app.show_marks = true;
    app.apply_mark_act(MarkAct::Hide, data);
    assert!(!app.show_marks);
}

#[test]
fn marks_that_do_not_hold_say_why() {
    let data = b"one\ntwo\n";
    let items = [
        Bookmark { offset: 0, line: 0, head: "other".to_string(), note: String::new(), at: 0 },
        Bookmark { offset: 4, line: 1, head: "two".to_string(), note: String::new(), at: 0 },
        Bookmark { offset: 99, line: 9, head: "x".to_string(), note: String::new(), at: 0 },
    ];
    let mut app = open("/tmp/why.log", data, &render_sidecar(&items));
    assert_eq!(app.take_flash().as_deref(), Some("读回 3 条标记，其中 2 条已失效"));
    let states: Vec<AnchorState> = app.marks.iter().map(|m| m.anchor).collect();
    assert_eq!(states, vec![AnchorState::Stale, AnchorState::Fresh, AnchorState::Lost]);
    let rows = app.mark_rows(0);
    assert_eq!(rows[0].why(), Some("内容已变"));
    assert_eq!(rows[2].why(), Some("超出文件尾"));
    assert_eq!(rows[0].on_click(), None);
    assert_eq!(app.stale_marks(), 2);
    app.goto_mark(1);
    assert_eq!(app.cursor_line, Some(1));
    app.goto_mark(1);
    assert_eq!(app.cursor_line, Some(1), "the only mark that holds comes again");
    app.drop_stale_marks();
    assert_eq!(app.marks.len(), 1);
    assert_eq!(app.take_flash().as_deref(), Some("清掉 2 条失效标记"));
}

#[test]
fn refinding_counts_what_was_missed() {
    let data = b"one\ntwo\n";
    let items = [
        Bookmark { offset: 0, line: 0, head: "two".to_string(), note: String::new(), at: 0 },
        Bookmark { offset: 1, line: 0, head: "gone".to_string(), note: String::new(), at: 0 },
    ];
    let mut app = open("/tmp/missed.log", data, &render_sidecar(&items));
    app.take_flash();
    app.apply_mark_act(MarkAct::RefindAll, data);
    assert_eq!(app.take_flash().as_deref(), Some("回找完成：重定位 1 条，未找到 1 条"));
    assert!(app.marks_dirty);
    let there: Vec<(u64, AnchorState)> =
        app.marks.iter().map(|m| (m.bm.offset, m.anchor)).collect();
    assert_eq!(there, vec![(1, AnchorState::Stale), (4, AnchorState::Fresh)]);
}

#[test]
fn without_marks_there_is_nothing_to_go_to() {
    let mut app = open("/tmp/nomarks.log", HITS, "");
    app.goto_mark(1);
    assert_eq!(app.take_flash().as_deref(), Some("还没有标记"));
    assert_eq!(app.export_name(Platform::Linux), None);
    assert_eq!(app.take_flash().as_deref(), Some("还没有标记"));
}

#[test]
fn marks_are_exported_under_the_name_of_the_log() {
    let data = b"one\ntwo\n";
    let mut app = open("/var/log/app.log", data, "");
    app.cursor_line = Some(1);
    app.toggle_mark(data, 1_000);
    assert_eq!(app.export_name(Platform::Linux).as_deref(), Some("app.log"));
    let text = app.export_text("app.log", 1_600);
    assert!(text.contains("two"));
    assert!(text.contains("10 分钟前"));
    app.exported(Ok(()));
    assert_eq!(app.take_flash().as_deref(), Some("已导出 1 条标记"));
    app.exported(Err("只读".to_string()));
    assert_eq!(app.take_flash().as_deref(), Some("导出失败：只读"));
}

#[test]
fn marks_that_cannot_be_written_are_kept_for_the_session() {
    let data = b"one\n";
    let mut app = open("/readonly/app.log", data, "");
    app.cursor_line = Some(0);
    app.toggle_mark(data, 0);
    assert_eq!(app.marks_footer(), "侧车：/readonly/app.log.logview.jsonl");
    assert!(app.marks_to_write().is_some());
    app.marks_written(Err("权限不足".to_string()));
    assert_eq!(
        app.marks_footer(),
        "日志目录写不进去（权限不足），标记只在本次会话有效"
    );
    assert!(!app.marks_dirty);
    app.marks_dirty = true;
    assert!(app.marks_to_write().is_none());
    assert_eq!(app.marks.len(), 1);
}

#[test]
fn a_mark_survives_a_line_that_is_written_on() {
    let data = "第一行\n写到一半\n".as_bytes();
    let mut app = open("/tmp/grow.log", data, "");
    app.cursor_line = Some(1);
    app.toggle_mark(data, 0);
    let grown = "第一行\n写到一半，补完了\n".as_bytes();
    if let Some(s) = &mut app.store {
        s.refresh(grown.len(), Remap::Mapped(grown.len()));
    }
    settle_app(&mut app, grown);
    app.validate_marks(grown);
    assert_eq!(app.marks[0].anchor, AnchorState::Fresh);
    let other = "第一行\n完全不同的另一行\n".as_bytes();
    app.validate_marks(other);
    assert_eq!(app.marks[0].anchor, AnchorState::Stale);
    app.validate_marks(b"");
    assert_eq!(app.marks[0].anchor, AnchorState::Lost);
}

#[test]
fn reopening_gives_the_same_marks() {
    let data = b"one\ntwo\nthree\n";
    let mut app = open("/tmp/same.log", data, "");
    for line in [0usize, 2] {
        app.cursor_line = Some(line);
        app.toggle_mark(data, 5);
    }
    let (_, text) = app.marks_to_write().unwrap();
    assert_eq!(parse_sidecar(&text), app.bookmarks());
    let again = open("/tmp/same.log", data, &text);
    assert_eq!(again.bookmarks(), app.bookmarks());
}

#[test]
fn a_regular_expression_is_compiled_for_the_lines() {
    let data = b"id=12\nplain\n";
    let mut app = open("/tmp/regex.log", data, "");
    app.query = "ID=[0-9]+".to_string();
    assert!(app.compiled_highlight_regex().is_none());
    app.use_regex = true;
    app.run_search(OnSearchDone::GotoFirstMatch);
    settle_app(&mut app, data);
    let re = app.highlight_regex.as_ref().expect("the pattern compiles");
    assert!(re.is_match("id=12"));
    assert_eq!(app.store.as_ref().unwrap().matches(), &[0]);
    app.case_sensitive = true;
    app.run_search(OnSearchDone::GotoFirstMatch);
    settle_app(&mut app, data);
    assert!(app.store.as_ref().unwrap().matches().is_empty());
    app.query = "(".to_string();
    app.run_search(OnSearchDone::GotoFirstMatch);
    settle_app(&mut app, data);
    assert!(app.highlight_regex.is_none());
    assert!(app.store.as_ref().unwrap().regex_error().is_some());
}

#[test]
fn a_new_file_is_searched_for_the_query() {
    let mut app = LogViewApp::new();
    app.query = "ERROR".to_string();
    app.match_cursor = 9;
    app.open_path(Platform::Linux, Ok(LogStore::open("/tmp/new.log", HITS, HITS.len())), "", HITS);
    assert_eq!(app.match_cursor, 0);
    settle_app(&mut app, HITS);
    assert_eq!(app.store.as_ref().unwrap().matches().len(), 2);
}

#[test]
fn the_status_says_what_is_shown() {
    let app = LogViewApp::new();
    let items = app.status_items(Some("x"));
    assert_eq!(items.len(), 1);
    assert_eq!(items[0].text, "就绪");

    let mut app = app_with_hits("status");
    let texts: Vec<String> =
        app.status_items(Some("刚才")).into_iter().map(|i| i.text).collect();
    assert_eq!(texts, vec!["3 行", "26 B", "UTF-8", "就绪", "2 匹配", "刚才"]);

    app.cursor_line = Some(0);
    app.toggle_mark(HITS, 0);
    app.query.clear();
    let texts: Vec<String> = app.status_items(None).into_iter().map(|i| i.text).collect();
    assert_eq!(texts, vec!["3 行", "26 B", "UTF-8", "就绪", "标记 1"]);

    app.store = Some(LogStore::open("busy.log", HITS, HITS.len()));
    app.query = "(".to_string();
    app.use_regex = true;
    app.run_search(OnSearchDone::GotoFirstMatch);
    let items = app.status_items(None);
    assert_eq!(items[3].text, "索引中（完成后自动检索）…");
    settle_app(&mut app, HITS);
    let items = app.status_items(None);
    assert!(items[4].text.starts_with("正则无效："));
    assert_eq!(items[4].tone, Tone::Error);
}

#[test]
fn pauses_end_when_they_are_over() {
    assert!(!search_is_due(0));
    assert!(!search_is_due(250));
    assert!(search_is_due(251));
    assert!(!refresh_is_due(250));
    assert!(refresh_is_due(251));
    assert!(notice_is_shown(0));
    assert!(notice_is_shown(3999));
    assert!(!notice_is_shown(4000));
}

#[test]
fn a_line_with_colours_of_a_terminal_keeps_its_mark() {
    let data = b"plain\n\x1b[31mERROR\x1b[0m gone\n";
    let mut app = open("/tmp/colours.log", data, "");
    app.cursor_line = Some(1);
    app.toggle_mark(data, 7);
    let (_, content) = app.marks_to_write().expect("the mark is written");
    let again = open("/tmp/colours.log", data, &content);
    assert_eq!(again.marks.len(), 1);
    assert_eq!(again.marks[0].bm.head, "\u{1b}[31mERROR\u{1b}[0m gone");
    assert_eq!(again.marks[0].anchor, AnchorState::Fresh);
}

#[test]
fn the_key_that_marks_takes_the_mark_away() {
    let data = b"one\ntwo\nthree\n";
    let mut app = open("/tmp/twice.log", data, "{\"offset\":8,\"head\":\"three\"}\n");
    app.cursor_line = Some(1);
    app.toggle_mark(data, 7);
    let offsets: Vec<u64> = app.marks.iter().map(|m| m.bm.offset).collect();
    assert_eq!(offsets, vec![4, 8]);
    assert_eq!(app.marks[0].bm.head, "two");
    assert_eq!(app.focused_mark, Some(1));
    assert!(app.marks_dirty);
    app.toggle_mark(data, 9);
    assert_eq!(app.marks.len(), 1);
    assert_eq!(app.marks[0].bm.offset, 8);
    assert_eq!(app.focused_mark, None);
    assert!(app.marks_dirty);
}

#[test]
fn on_windows_a_log_is_named_without_its_directory() {
    let data = b"one\n";
    let mut app = LogViewApp::new();
    let store = LogStore::open("C:\\logs\\app.log", data, data.len());
    app.open_path(Platform::Windows, Ok(store), "{\"offset\":0,\"head\":\"one\"}\n", data);
    assert_eq!(app.marks_path.as_deref(), Some("C:\\logs\\app.log.logview.jsonl"));
    assert_eq!(app.export_name(Platform::Windows).as_deref(), Some("app.log"));
}
