use logview::fonts::{
    cjk_candidates, font_dirs, font_sort_key, is_cjk_font_file, is_font_name, pick_by_rank,
    pick_cjk_font, pick_index, FontScan, FONT_HINT, SCAN_MAX_DEPTH, SCAN_MAX_ENTRIES,
};
use logview::startup::{
    command_text, default_renderer, help_text, names_a_file, panic_text, preferred_renderer,
    renderer_override, search_hint, session_kind_from, startup_advice, startup_failure, wgpu_note,
    Platform, Renderer, RendererChoice,
};

const PLATFORMS: [Platform; 4] =
    [Platform::MacOs, Platform::Windows, Platform::Linux, Platform::Other];

#[test]
fn recognizes_cjk_font_files() {
    assert!(is_cjk_font_file(Platform::Linux, "wqy-zenhei.ttc"));
    assert!(is_cjk_font_file(Platform::Linux, "wqy-microhei.ttc"));
    assert!(is_cjk_font_file(Platform::Linux, "NotoSansCJK-Regular.ttc"));
    assert!(is_cjk_font_file(Platform::Linux, "NotoSansSC-Regular.otf"));
    assert!(is_cjk_font_file(Platform::Linux, "DroidSansFallbackFull.ttf"));

    assert!(
        !is_cjk_font_file(Platform::Linux, "DejaVuSans.ttf"),
        "拉丁字体不该被当成 CJK"
    );
    assert!(!is_cjk_font_file(Platform::Linux, "fonts.dir"), "不是字体扩展名");
    assert!(
        !is_cjk_font_file(Platform::Linux, "wqy-zenhei.ttc.bak"),
        "扩展名不对就不算，别把备份文件喂给字体解析器"
    );
}

#[test]
fn picks_by_priority_then_name() {
    let picked = pick_cjk_font(&[
        "uming.ttc",
        "wqy-zenhei.ttc",
        "NotoSansCJK-Regular.ttc",
        "NotoSansCJK-Bold.ttc",
    ]);
    assert_eq!(
        picked.as_deref(),
        Some("wqy-zenhei.ttc"),
        "wqy-zenhei 排在 noto 之前"
    );

    let picked = pick_cjk_font(&[
        "uming.ttc",
        "NotoSansCJK-Bold.ttc",
        "NotoSansCJK-Regular.ttc",
    ]);
    assert_eq!(
        picked.as_deref(),
        Some("NotoSansCJK-Regular.ttc"),
        "同一套字体里 Regular 优先，Bold 当界面字体太重"
    );

    assert_eq!(pick_cjk_font(&["DejaVuSans.ttf", "fonts.dir"]), None);
    assert_eq!(pick_cjk_font(&[]), None);
}

#[test]
fn names_in_lower_case_decide() {
    assert!(is_font_name(Platform::Linux, "uming.otc"));
    assert!(!is_font_name(Platform::Linux, "UMING.OTC"));
    assert!(!is_font_name(Platform::Linux, ".uming"));
    assert!(!is_font_name(Platform::Linux, "uming"));
    assert!(is_font_name(Platform::Linux, "fonts/ukai.ttf"));
    assert!(is_font_name(Platform::Windows, "fonts\\ukai.ttf"));
    assert!(is_font_name(Platform::Windows, "ukai.ttf\\"));
    assert!(!is_font_name(Platform::Linux, "ukai.ttf\\"));
    assert!(is_font_name(Platform::Linux, "c:.ukai.ttf"));
    assert!(!is_font_name(Platform::Windows, "ukai\\c:\\.ttf"));
    let lowers = ["b-uming.ttf".to_string(), "a-uming.ttf".to_string()];
    assert_eq!(pick_by_rank(&["B-uming.ttf", "A-uming.ttf"], &lowers), Some(1));
}

#[test]
fn the_order_of_the_files_does_not_matter() {
    let names = ["NotoSansCJK-Bold.ttc", "NotoSansCJK-Regular.ttc", "notosanscjk-thin.ttc"];
    let mut turned = names;
    turned.reverse();
    assert_eq!(pick_cjk_font(&names), pick_cjk_font(&turned));
    assert_eq!(pick_index(&names), Some(1));
    assert_eq!(pick_index(&turned), Some(1));
    assert_eq!(pick_index(&["a-uming.ttc", "a-uming.ttc"]), Some(0));
}

#[test]
fn fonts_are_ordered_by_weight_length_and_name() {
    assert_eq!(
        font_sort_key("Uming-Regular.ttc"),
        (false, 17, "uming-regular.ttc".to_string())
    );
    assert_eq!(font_sort_key("明Uming.ttc").1, 12);
    assert_eq!(pick_index(&["uming-long.ttc", "uming.ttc"]), Some(1));
}

#[test]
fn each_platform_has_its_fonts() {
    assert_eq!(cjk_candidates(Platform::MacOs)[0], "/System/Library/Fonts/PingFang.ttc");
    assert_eq!(cjk_candidates(Platform::Windows)[4], "C:\\Windows\\Fonts\\Deng.ttf");
    assert_eq!(cjk_candidates(Platform::Linux).len(), 7);
    assert_eq!(cjk_candidates(Platform::Linux), cjk_candidates(Platform::Other));
    assert_eq!(font_dirs(Platform::Linux, None), vec!["/usr/share/fonts", "/usr/local/share/fonts"]);
    assert_eq!(
        font_dirs(Platform::Linux, Some("/home/u")),
        vec![
            "/usr/share/fonts",
            "/usr/local/share/fonts",
            "/home/u/.local/share/fonts",
            "/home/u/.fonts",
        ]
    );
    assert!(FONT_HINT.contains("fonts-wqy-zenhei"));
}

#[test]
fn a_search_for_fonts_goes_down_and_chooses() {
    let mut scan = FontScan::new(Platform::Linux, 2);
    assert_eq!(scan.next_dir(), Some(0));
    assert!(scan.saw(10, true, None));
    assert!(scan.saw(11, false, Some("uming.ttc")));
    assert!(scan.saw(12, false, Some("readme.txt")));
    assert!(scan.saw(13, false, None));
    assert_eq!(scan.next_dir(), Some(10));
    assert!(scan.saw(20, false, Some("wqy-zenhei.ttc")));
    assert_eq!(scan.next_dir(), Some(1));
    assert_eq!(scan.next_dir(), None);
    assert_eq!(scan.chosen(), Some(20));
    assert_eq!(FontScan::new(Platform::Linux, 0).chosen(), None);
}

#[test]
fn a_search_for_fonts_stays_within_its_limits() {
    let mut scan = FontScan::new(Platform::Linux, 1);
    let mut read = 0;
    while let Some(dir) = scan.next_dir() {
        assert!(dir <= SCAN_MAX_DEPTH);
        read += 1;
        assert!(scan.saw(dir + 1, true, None));
    }
    assert_eq!(read, SCAN_MAX_DEPTH + 1);

    let mut scan = FontScan::new(Platform::Linux, 2);
    assert_eq!(scan.next_dir(), Some(0));
    assert!(scan.saw(7, false, Some("ukai.ttf")));
    for i in 1..SCAN_MAX_ENTRIES {
        assert!(scan.saw(i, false, Some("other")));
    }
    assert!(!scan.saw(1, false, Some("wqy-zenhei.ttc")));
    assert_eq!(scan.next_dir(), None, "the rest is not looked at");
    assert_eq!(scan.chosen(), Some(7));
}

#[test]
fn detects_remote_sessions() {
    assert_eq!(session_kind_from(Some("RDP-Tcp#12")), "远程桌面会话");
    assert_eq!(session_kind_from(Some("Console")), "本地会话");
    assert_eq!(session_kind_from(None), "未知");
}

#[test]
fn parses_renderer_override() {
    for p in PLATFORMS {
        assert_eq!(renderer_override(p, None), None);
        assert_eq!(renderer_override(p, Some("")), None);
        assert_eq!(renderer_override(p, Some("   ")), None);
        assert_eq!(renderer_override(p, Some("vulkan")), None);
    }
    for p in [Platform::Windows, Platform::Linux] {
        assert!(matches!(
            renderer_override(p, Some("wgpu")),
            Some(("wgpu", Renderer::Wgpu))
        ));
        assert!(
            matches!(
                renderer_override(p, Some("  WGPU ")),
                Some(("wgpu", Renderer::Wgpu))
            ),
            "应忽略大小写与空白"
        );
    }
    for p in [Platform::MacOs, Platform::Linux, Platform::Other] {
        assert!(matches!(
            renderer_override(p, Some("glow")),
            Some(("glow", Renderer::Glow))
        ));
    }
    assert_eq!(
        renderer_override(Platform::Windows, Some("glow")),
        None,
        "Windows 产物里没有编 glow，这个值应被当成不可用"
    );
    assert_eq!(renderer_override(Platform::MacOs, Some("wgpu")), None);
}

#[test]
fn default_backend_matches_platform() {
    for p in PLATFORMS {
        let (name, _renderer) = default_renderer(p);
        if matches!(p, Platform::Windows | Platform::Linux) {
            assert_eq!(name, "wgpu");
        } else {
            assert_eq!(name, "glow");
        }
    }
}

#[test]
fn advice_suggests_the_other_backend() {
    for p in PLATFORMS {
        let advice = startup_advice(p, "glow");
        if p == Platform::Linux {
            assert!(
                advice.contains("LOGVIEW_RENDERER=wgpu"),
                "Linux 上 glow 走不通时该建议换 wgpu：{advice}"
            );
        } else {
            assert!(
                !advice.contains("LOGVIEW_RENDERER"),
                "本平台只编了一个后端，不该建议换：{advice}"
            );
        }

        if p == Platform::Linux {
            let advice = startup_advice(p, "wgpu");
            assert!(
                advice.contains("LOGVIEW_RENDERER=glow"),
                "反过来也一样：{advice}"
            );
            assert!(
                advice.contains("WGPU_BACKEND"),
                "wgpu 还有子后端可挑，值得提一句：{advice}"
            );
        }
    }
}

#[test]
fn a_renderer_that_cannot_be_had_is_told_of() {
    let (choice, warning) = preferred_renderer(Platform::Windows, Some(" glow "));
    assert_eq!(choice.name, "wgpu");
    assert!(!choice.from_env);
    assert_eq!(choice.describe(), "wgpu（平台默认）");
    assert_eq!(
        warning.as_deref(),
        Some("LOGVIEW_RENDERER=glow 未生效（取值有误，或本平台未编入该后端），按默认后端运行")
    );
    let (choice, warning) = preferred_renderer(Platform::Linux, Some("Glow"));
    assert_eq!(choice.renderer, Renderer::Glow);
    assert_eq!(choice.describe(), "glow（来自 LOGVIEW_RENDERER）");
    assert_eq!(warning, None);
    assert_eq!(preferred_renderer(Platform::Linux, Some("  ")).1, None);
    assert_eq!(preferred_renderer(Platform::Linux, None).1, None);
}

#[test]
fn what_limits_wgpu_is_told_of() {
    let wgpu = RendererChoice { name: "wgpu", renderer: Renderer::Wgpu, from_env: false };
    let glow = RendererChoice { name: "glow", renderer: Renderer::Glow, from_env: false };
    assert_eq!(
        wgpu_note(&wgpu, Some(" gl ")).as_deref(),
        Some("WGPU_BACKEND=gl（wgpu 的子后端被限定为这个）")
    );
    assert_eq!(wgpu_note(&wgpu, Some(" ")), None);
    assert_eq!(wgpu_note(&wgpu, None), None);
    assert_eq!(wgpu_note(&glow, Some("gl")), None);
}

#[test]
fn a_failure_is_told_in_full() {
    let choice = RendererChoice { name: "glow", renderer: Renderer::Glow, from_env: true };
    assert_eq!(
        startup_failure(Platform::MacOs, "没有适配器", &choice, "未知"),
        "logview 无法创建窗口，已退出。\n\n原因：没有适配器\n\n渲染后端：glow（来自 \
         LOGVIEW_RENDERER）\n\n运行环境：未知\n\n若提示与图形有关，可以试：\n· 在本机登录（而不是\
         远程桌面）后运行\n· 安装或更新显卡驱动"
    );
    assert_eq!(
        panic_text(Some(("a.rs", 3, 14)), Some("boom")),
        "logview 遇到未预期的错误，已停止运行。\n\n位置：a.rs:3:14\n\nboom"
    );
    assert_eq!(panic_text(None, None), "logview 遇到未预期的错误，已停止运行。\n");
}

#[test]
fn options_are_no_files() {
    assert!(names_a_file("app.log"));
    assert!(names_a_file(""));
    assert!(!names_a_file("--help"));
}

#[test]
fn keys_are_written_as_on_the_platform() {
    assert_eq!(command_text(Platform::MacOs), "⌘");
    assert_eq!(search_hint(Platform::Linux), "搜索（Ctrl+F 或 / 聚焦，n / N 跳转）");
    assert!(help_text(Platform::MacOs).contains("\n⌘O — 打开文件\n"));
}
