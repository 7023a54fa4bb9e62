use egui::Color32;
use logview::labels::{human_size, truncated_hits_label};
use logview::linehead::{find_level, parse_line_head, scan_timestamp, LineHead, Span};
use logview::render::{
    floor_char_boundary, layout_line, match_ranges, styled_sections, take_chars, word_at, Section,
    MAX_RENDER_CHARS,
};
use logview::style::{
    hex, hit_colors, mark_dot_color, mark_row_bg, match_row_bg, muted_text, next_theme,
    row_bg_kind, theme_label, Level, Rgb, RowBg, PRIMARY_FILL,
};
use logview::text::is_white_space;
use std::sync::Arc;

const BLACK: Rgb = Rgb { r: 0, g: 0, b: 0 };

fn sections_for(line: &str, query: &str) -> Vec<Section> {
    styled_sections(
        line.len(),
        &parse_line_head(line),
        &match_ranges(line, query, true, None),
        BLACK,
        muted_text(false),
        false,
    )
}

fn sections_text(line: &str, sections: &[Section]) -> String {
    sections.iter().map(|s| &line[s.start..s.end]).collect()
}

fn slice(line: &str, r: Option<Span>) -> Option<&str> {
    r.map(|r| &line[r.start..r.end])
}

#[test]
fn truncated_label_reports_reach_and_total() {
    assert_eq!(
        truncated_hits_label(50_000, 50_000, 296_899),
        "可跳转前 50000 行（到第 50000 行）；全文共 296899 处命中"
    );
}

fn setup_ctx() -> egui::Context {
    let ctx = egui::Context::default();
    let _ = ctx.run(Default::default(), |_| {});
    ctx
}

fn layout(ctx: &egui::Context, text: &str) -> Arc<egui::Galley> {
    let font_id = egui::FontId::monospace(14.0);
    ctx.fonts(|f| {
        f.layout_job(egui::text::LayoutJob::single_section(
            text.to_string(),
            egui::TextFormat::simple(font_id, Color32::WHITE),
        ))
    })
}

fn cw(ctx: &egui::Context) -> f32 {
    ctx.fonts(|f| f.glyph_width(&egui::FontId::monospace(14.0), 'a'))
}

fn word_in(galley: &egui::Galley, pos: egui::Vec2) -> Option<String> {
    word_at(galley.text(), galley.cursor_from_pos(pos).ccursor.index)
}

#[test]
fn picks_identifier_around_click() {
    let ctx = setup_ctx();
    let galley = layout(&ctx, "user=zhangsan status=OK");
    let pos = egui::vec2(cw(&ctx) * 7.0, 5.0);
    assert_eq!(word_in(&galley, pos).as_deref(), Some("zhangsan"));
}

#[test]
fn picks_chinese_run_as_one_word() {
    let ctx = setup_ctx();
    let galley = layout(&ctx, "处理订单失败 orderId=123");
    let pos = egui::vec2(cw(&ctx) * 1.0, 5.0);
    assert_eq!(word_in(&galley, pos).as_deref(), Some("处理订单失败"));
}

#[test]
fn picks_value_after_equals_sign() {
    let ctx = setup_ctx();
    let galley = layout(&ctx, "orderId=12345 done");
    let pos = egui::vec2(cw(&ctx) * 9.0, 5.0);
    assert_eq!(word_in(&galley, pos).as_deref(), Some("12345"));
}

#[test]
fn returns_none_when_nothing_but_separators() {
    let ctx = setup_ctx();
    let galley = layout(&ctx, "     ");
    assert_eq!(word_in(&galley, egui::vec2(1.0, 5.0)), None);
}

#[test]
fn words_at_the_ends_of_a_line() {
    assert_eq!(word_at("one two", 0).as_deref(), Some("one"));
    assert_eq!(word_at("one two", 3).as_deref(), Some("one"));
    assert_eq!(word_at("one two", 4).as_deref(), Some("two"));
    assert_eq!(word_at("one two", 99).as_deref(), Some("two"));
    assert_eq!(word_at("", 0), None);
    assert_eq!(word_at("[a/b]", 2).as_deref(), Some("a"));
    assert_eq!(word_at("a\u{3000}b", 2).as_deref(), Some("b"));
}

#[test]
fn parses_timestamp_and_level() {
    let line = "2026-09-11 14:33:41.561 INFO c.s.pspace.X - hello";
    let head = parse_line_head(line);
    assert_eq!(slice(line, head.date), Some("2026-09-11"));
    assert_eq!(slice(line, head.time), Some("14:33:41.561"));
    let (r, lv) = head.level.expect("应识别出级别");
    assert_eq!(&line[r.start..r.end], "INFO");
    assert_eq!(lv, Level::Info);
}

#[test]
fn level_word_inside_the_message_is_not_the_level() {
    let line = "2026-09-11 14:33:41.561 INFO c.s.X - 检测到 3 个 ERROR 已忽略";
    assert_eq!(parse_line_head(line).level_of(), Some(Level::Info));

    let no_level = "2026-09-11 14:33:41.561 c.s.X - 检测到 3 个 ERROR 已忽略";
    assert_eq!(parse_line_head(no_level).level_of(), None);
}

#[test]
fn chinese_prefix_stops_the_level_lookup() {
    assert_eq!(parse_line_head("正在检查 ERROR 日志").level_of(), None);
    assert_eq!(
        parse_line_head("2026-09-11 14:33:41.561 检测到 ERROR 已忽略").level_of(),
        None
    );
}

#[test]
fn level_must_be_a_whole_token() {
    assert_eq!(
        parse_line_head("ERROR 已处理").level_of(),
        Some(Level::Error)
    );
    assert_eq!(parse_line_head("ERRORS 已处理").level_of(), None);
    assert_eq!(parse_line_head("ERROR_CODE=5").level_of(), None);
    assert_eq!(
        parse_line_head("c.s.X - 检测到 ERROR 已忽略").level_of(),
        None
    );
}

#[test]
fn tolerates_common_layouts() {
    assert_eq!(
        parse_line_head("INFO 服务已启动").level_of(),
        Some(Level::Info)
    );
    assert_eq!(
        parse_line_head("WARN 磁盘剩余 5%").level_of(),
        Some(Level::Warn)
    );

    let bracketed = "[2026-09-11 14:33:41,561] [main] ERROR c.s.X - 慢查询";
    let head = parse_line_head(bracketed);
    assert_eq!(
        slice(bracketed, head.date),
        Some("2026-09-11"),
        "带方括号与逗号小数秒也要认出日期"
    );
    assert_eq!(head.level_of(), Some(Level::Error));
}

#[test]
fn picks_the_level_right_after_the_timestamp() {
    let line = "2026-09-11 14:33:41.561 WARN c.s.X - 上一行报的是 ERROR，这里是 WARN";
    assert_eq!(parse_line_head(line).level_of(), Some(Level::Warn));
}

#[test]
fn every_level_word_is_known() {
    for (word, level) in [
        ("CRITICAL", Level::Error),
        ("FATAL", Level::Error),
        ("SEVERE", Level::Error),
        ("ERROR", Level::Error),
        ("WARNING", Level::Warn),
        ("WARN", Level::Warn),
        ("NOTICE", Level::Info),
        ("INFO", Level::Info),
        ("DEBUG", Level::Debug),
        ("TRACE", Level::Debug),
    ] {
        let found = find_level(format!("{word} x").as_bytes(), 0).expect(word);
        assert_eq!(found.1, level);
        assert_eq!((found.0.start, found.0.end), (0, word.len()));
    }
    assert_eq!(find_level(b"error x", 0), None);
    assert_eq!(find_level(b"ERROR", 6), None);
}

#[test]
fn the_level_is_one_of_the_first_words() {
    assert_eq!(parse_line_head("a b ERROR x").level_of(), Some(Level::Error));
    assert_eq!(parse_line_head("a b c ERROR x").level_of(), None);
    assert_eq!(parse_line_head("[a]|b ERROR").level_of(), Some(Level::Error));
    assert_eq!(parse_line_head("订单 ERROR").level_of(), None);
    let stuck = "2026-09-11 14:33:41ERROR x";
    assert_eq!(parse_line_head(stuck).level_of(), Some(Level::Error));
}

#[test]
fn timestamps_have_a_date_and_a_time() {
    assert_eq!(scan_timestamp(b"2026-09-11 14:33:41", 0), Some((10, 19)));
    assert_eq!(scan_timestamp(b"2026-09-11T14:33:41.5Z", 0), Some((10, 21)));
    assert_eq!(scan_timestamp(b"2026-09-11 14:33", 0), None);
    assert_eq!(scan_timestamp(b"2026-9-11 14:33:41", 0), None);
    assert_eq!(scan_timestamp(b"", 0), None);
    assert_eq!(scan_timestamp(b"", 1), None);
    assert_eq!(scan_timestamp(b"2026-09-11 14:33:41", 20), None);
}

#[test]
fn sections_cover_the_line_exactly_once() {
    let line = format!("ERROR {}{}", "a".repeat(192), "查找");
    assert!(!line.is_char_boundary(200), "前提：构造的行应跨越字符边界");
    assert_eq!(sections_text(&line, &sections_for(&line, "查找")), line);
}

#[test]
fn overlapping_highlight_and_structure_stay_consistent() {
    for line in [
        "2026-09-11 14:33:41.561 INFO c.s.X - INFO 又出现一次",
        "2026-09-11 14:33:41.561 ERROR 时间戳里也有 14:33",
        "没有可识别结构的一行中文日志",
    ] {
        for query in ["INFO", "ERROR", "14:33", "2026-09-11", "不存在"] {
            let sections = sections_for(line, query);
            assert_eq!(sections_text(line, &sections), line, "query={query} line={line}");
        }
    }
}

fn luminance(c: Color32) -> f32 {
    let ch = |v: u8| {
        let s = v as f32 / 255.0;
        if s <= 0.03928 {
            s / 12.92
        } else {
            ((s + 0.055) / 1.055).powf(2.4)
        }
    };
    0.2126 * ch(c.r()) + 0.7152 * ch(c.g()) + 0.0722 * ch(c.b())
}

fn contrast(a: Color32, b: Color32) -> f32 {
    let (x, y) = (luminance(a), luminance(b));
    let (hi, lo) = if x > y { (x, y) } else { (y, x) };
    (hi + 0.05) / (lo + 0.05)
}

fn color(c: Rgb) -> Color32 {
    Color32::from_rgb(c.r, c.g, c.b)
}

#[test]
fn text_meets_wcag_aa_on_both_themes() {
    for dark in [false, true] {
        let visuals = if dark {
            egui::Visuals::dark()
        } else {
            egui::Visuals::light()
        };
        let bg = visuals.panel_fill;
        let name = if dark { "深色" } else { "浅色" };

        let ratio = contrast(color(muted_text(dark)), bg);
        assert!(
            ratio >= 4.5,
            "{name}主题下时间戳对比度只有 {ratio:.2}:1，低于 WCAG AA 的 4.5:1"
        );

        let body = contrast(visuals.text_color(), visuals.extreme_bg_color);
        assert!(body >= 4.5, "{name}主题下正文对比度只有 {body:.2}:1");

        let primary = color(hex(PRIMARY_FILL));
        let on_fill = contrast(Color32::WHITE, primary);
        assert!(
            on_fill >= 4.5,
            "{name}主题下主按钮的白字对比度只有 {on_fill:.2}:1"
        );
        let vs_bg = contrast(primary, bg);
        assert!(
            vs_bg >= 3.0,
            "{name}主题下主按钮相对背景只有 {vs_bg:.2}:1，作为 UI 元素应 ≥ 3:1"
        );

        for lv in [Level::Error, Level::Warn, Level::Info, Level::Debug] {
            let st = lv.style(dark);
            let r = contrast(color(st.fg), st.bg.map(color).unwrap_or(bg));
            assert!(
                r >= 4.5,
                "{name}主题下 {lv:?} 级别的文字对比度只有 {r:.2}:1"
            );
        }
    }
}

#[test]
fn styles_are_applied_to_the_expected_ranges() {
    let line = "2026-09-11 14:33:41.561 ERROR c.s.X - boom";
    let sections = sections_for(line, "");
    let head = parse_line_head(line);

    let section_at = |at: usize| sections.iter().find(|s| s.start <= at && at < s.end);
    let date = section_at(head.date.unwrap().start).unwrap().color;
    let time = section_at(head.time.unwrap().start).unwrap().color;
    let level = head.level.unwrap().0.start;
    let lv_sec = section_at(level).unwrap();
    assert_eq!(lv_sec.color, Level::Error.style(false).fg);
    assert_eq!(lv_sec.background, Level::Error.style(false).bg);
    assert_eq!(date, time, "日期与时间应同为可读的次要灰");
    assert_ne!(time, BLACK, "时间不该用正文色");
}

#[test]
fn theme_cycles_through_all_three_states() {
    assert_eq!(next_theme(None), Some(false), "跟随系统之后应到浅色");
    assert_eq!(next_theme(Some(false)), Some(true), "浅色之后应到深色");
    assert_eq!(next_theme(Some(true)), None, "深色之后应回到跟随系统");

    let back = next_theme(next_theme(next_theme(None)));
    assert_eq!(back, None, "三次点击应回到起点");
}

#[test]
fn the_theme_button_names_the_theme() {
    assert_eq!(theme_label(None).0, '◑');
    assert_eq!(theme_label(Some(false)).1, "浅色（点击改为深色）");
    assert_eq!(theme_label(Some(true)).0, '🌙');
}

#[test]
fn the_mark_wins_over_the_current_hit() {
    assert_eq!(row_bg_kind(5, Some(5), Some(5)), RowBg::Mark);
    assert_eq!(row_bg_kind(5, Some(5), None), RowBg::Mark);
    assert_eq!(row_bg_kind(5, None, Some(5)), RowBg::Match);
    assert_eq!(
        row_bg_kind(5, Some(4), Some(5)),
        RowBg::Match,
        "标记在别的行上时不该抢这一行"
    );
    assert_eq!(row_bg_kind(5, Some(4), Some(6)), RowBg::Plain);
}

#[test]
fn colours_are_read_from_their_digits() {
    assert_eq!(hex(0x2563EB), Rgb { r: 0x25, g: 0x63, b: 0xEB });
    assert_eq!(mark_dot_color(true), hex(0xAFA9EC));
    assert_eq!(mark_row_bg(false), hex(0xE7E3F8));
    assert_eq!(match_row_bg(true), Rgb { r: 30, g: 44, b: 62 });
    assert_eq!(hit_colors(false).1, Rgb { r: 255, g: 226, b: 130 });
}

#[test]
fn a_hit_outdoes_the_rest() {
    let line = "2026-09-11 14:33:41.561 ERROR boom";
    let sections = sections_for(line, "ERROR");
    let level = parse_line_head(line).level.unwrap().0.start;
    let hit = sections.iter().find(|s| s.start <= level && level < s.end).unwrap();
    assert_eq!(hit.background, Some(hit_colors(false).1));
}

#[test]
fn hits_in_a_line_are_in_order_and_apart() {
    let spans = |query: &str, cs: bool| -> Vec<(usize, usize)> {
        match_ranges("Error error 错误 ERROR", query, cs, None)
            .iter()
            .map(|s| (s.start, s.end))
            .collect()
    };
    assert_eq!(spans("error", true), vec![(6, 11)]);
    assert_eq!(spans("error", false), vec![(0, 5), (6, 11), (19, 24)]);
    assert_eq!(spans("错误", true), vec![(12, 18)]);
    assert_eq!(spans("", true), vec![]);
}

#[test]
fn hits_of_a_regular_expression() {
    let re = regex::Regex::new("[0-9]+").unwrap();
    let spans: Vec<(usize, usize)> = match_ranges("a12 中3", "unused", true, Some(&re))
        .iter()
        .map(|s| (s.start, s.end))
        .collect();
    assert_eq!(spans, vec![(1, 3), (7, 8)]);
    let empty = regex::Regex::new("x*").unwrap();
    let spans: Vec<(usize, usize)> = match_ranges("axb", "unused", true, Some(&empty))
        .iter()
        .map(|s| (s.start, s.end))
        .collect();
    assert_eq!(spans, vec![(1, 2)], "what is empty cannot be shown");
}

#[test]
fn a_long_line_is_cut_between_characters() {
    assert_eq!(floor_char_boundary("中文", 4), "中");
    assert_eq!(floor_char_boundary("中文", 6), "中文");
    assert_eq!(floor_char_boundary("中文", 2), "");
    assert_eq!(take_chars("中文🎯é", 3), "中文🎯");
    assert_eq!(take_chars("中文", 2), "中文");
    assert_eq!(take_chars("中文", 0), "");
    for (line, count) in [
        (format!("a{}", "中".repeat(MAX_RENDER_CHARS)), MAX_RENDER_CHARS),
        ("中".repeat(2000), 2000),
        ("x".repeat(MAX_RENDER_CHARS), MAX_RENDER_CHARS),
    ] {
        let (shown, sections) =
            layout_line(&line, &parse_line_head(&line), "中", true, None, BLACK, true);
        assert_eq!(shown.chars().count(), count, "characters count, not bytes");
        assert!(line.starts_with(shown));
        assert_eq!(sections_text(shown, &sections), shown);
    }
}

#[test]
fn an_empty_line_is_one_section() {
    let head = LineHead { date: None, time: None, level: None };
    let sections = styled_sections(0, &head, &[], BLACK, muted_text(true), true);
    assert_eq!(sections.len(), 1);
    assert_eq!((sections[0].start, sections[0].end), (0, 0));
}

#[test]
fn sizes_read_as_they_are_printed() {
    let printed = |n: usize| -> String {
        let kb = 1024.0f64;
        let n = n as f64;
        if n < kb {
            format!("{n:.0} B")
        } else if n < kb * kb {
            format!("{:.1} KB", n / kb)
        } else if n < kb * kb * kb {
            format!("{:.1} MB", n / kb / kb)
        } else {
            format!("{:.2} GB", n / kb / kb / kb)
        }
    };
    assert_eq!(human_size(0), "0 B");
    assert_eq!(human_size(1023), "1023 B");
    assert_eq!(human_size(1024), "1.0 KB");
    let mut samples: Vec<usize> = vec![1280, 1075, 1126, 1152, 1331, 1048575, 1048576, 1310720];
    let mut x: usize = 12345;
    for k in 0..20_000usize {
        x = x.wrapping_mul(6364136223846793005).wrapping_add(1442695040888963407);
        samples.push(x >> (k % 64));
        samples.push(1024 * k + 51);
        samples.push(52 * k);
    }
    samples.push(usize::MAX);
    samples.push((1usize << 53) + 1);
    for n in samples {
        assert_eq!(human_size(n), printed(n), "{n}");
    }
}

#[test]
fn white_space_is_that_of_unicode() {
    for code in 0..=0x10ffffu32 {
        if let Some(c) = char::from_u32(code) {
            assert_eq!(is_white_space(c), c.is_whitespace(), "{code:x}");
        }
    }
}
