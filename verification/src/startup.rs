//! What is decided and said before there is a window.

use crate::text;
use vstd::prelude::*;
use vstd::string::*;

verus! {

/// The system the viewer runs on.
#[derive(Clone, Copy, Debug, PartialEq, Eq, Structural)]
pub enum Platform {
    MacOs,
    Windows,
    Linux,
    Other,
}

/// The way in which the window is drawn.
#[derive(Clone, Copy, Debug, PartialEq, Eq, Structural)]
pub enum Renderer {
    Glow,
    Wgpu,
}

/// The way in which the window is drawn, and whether it was asked for.
#[derive(Clone, Copy, Debug)]
pub struct RendererChoice {
    pub name: &'static str,
    pub renderer: Renderer,
    pub from_env: bool,
}

/// The name of a renderer.
pub open spec fn renderer_name(r: Renderer) -> Seq<char> {
    match r {
        Renderer::Glow => "glow"@,
        Renderer::Wgpu => "wgpu"@,
    }
}

/// The renderer that a platform has from the start.
pub open spec fn usual_renderer(p: Platform) -> Renderer {
    match p {
        Platform::Windows => Renderer::Wgpu,
        Platform::Linux => Renderer::Wgpu,
        Platform::MacOs => Renderer::Glow,
        Platform::Other => Renderer::Glow,
    }
}

/// The renderer is built in on a platform.
pub open spec fn has_renderer(p: Platform, r: Renderer) -> bool {
    match r {
        Renderer::Glow => !(p is Windows),
        Renderer::Wgpu => p is Windows || p is Linux,
    }
}

/// A letter of ASCII in lower case; other characters stay.
pub open spec fn lower_char(c: char) -> char {
    if 'A' <= c <= 'Z' {
        (c as u32 + 32) as char
    } else {
        c
    }
}

/// The texts are equal up to the case of the letters of ASCII.
pub open spec fn same_letters(a: Seq<char>, b: Seq<char>) -> bool {
    a.len() == b.len() && forall|i: int|
        0 <= i < a.len() ==> lower_char(#[trigger] a[i]) == lower_char(b[i])
}

fn to_lower_char(c: char) -> (r: char)
    ensures
        r == lower_char(c),
{
    if 'A' <= c && c <= 'Z' {
        ((c as u8) + 32) as char
    } else {
        c
    }
}

fn is_same_letters(a: &[char], b: &str) -> (r: bool)
    ensures
        r == same_letters(a@, b@),
{
    let letters = text::chars_of(b);
    if a.len() != letters.len() {
        return false;
    }
    let mut i: usize = 0;
    while i < a.len()
        invariant
            i <= a@.len(),
            letters@ == b@,
            a@.len() == b@.len(),
            forall|k: int| 0 <= k < i ==> lower_char(#[trigger] a@[k]) == lower_char(b@[k]),
        decreases a@.len() - i,
    {
        if to_lower_char(a[i]) != to_lower_char(letters[i]) {
            assert(lower_char(a@[i as int]) != lower_char(b@[i as int]));
            return false;
        }
        i += 1;
    }
    true
}

/// The renderer that a platform has from the start, with its name.
pub fn default_renderer(p: Platform) -> (r: (&'static str, Renderer))
    ensures
        r.1 == usual_renderer(p),
        r.0@ == renderer_name(r.1),
{
    match p {
        Platform::Windows => ("wgpu", Renderer::Wgpu),
        Platform::Linux => ("wgpu", Renderer::Wgpu),
        Platform::MacOs => ("glow", Renderer::Glow),
        Platform::Other => ("glow", Renderer::Glow),
    }
}

/// The renderer that was asked for: its name, up to case and white space, if it is built in.
pub open spec fn asked_renderer(p: Platform, value: Option<Seq<char>>) -> Option<Renderer> {
    match value {
        Some(v) => if has_renderer(p, Renderer::Glow) && same_letters(text::trim(v), "glow"@) {
            Some(Renderer::Glow)
        } else if has_renderer(p, Renderer::Wgpu) && same_letters(text::trim(v), "wgpu"@) {
            Some(Renderer::Wgpu)
        } else {
            None
        },
        None => None,
    }
}

/// The renderer that was asked for, with its name. A name that is misspelt, or a renderer that
/// is not built in, is as good as none.
pub fn renderer_override(p: Platform, value: Option<&str>) -> (r: Option<(&'static str, Renderer)>)
    ensures
        ({
            let asked = asked_renderer(
                p,
                match value {
                    Some(v) => Some(v@),
                    None => None,
                },
            );
            match r {
                Some((name, renderer)) => asked == Some(renderer) && name@ == renderer_name(
                    renderer,
                ),
                None => asked is None,
            }
        }),
{
    match value {
        Some(v) => {
            let chars = text::chars_of(v);
            let (a, b) = text::trimmed_bounds(chars.as_slice());
            let want: &[char] = &chars[a..b];
            if p != Platform::Windows && is_same_letters(want, "glow") {
                return Some(("glow", Renderer::Glow));
            }
            if (p == Platform::Windows || p == Platform::Linux) && is_same_letters(want, "wgpu") {
                return Some(("wgpu", Renderer::Wgpu));
            }
            None
        },
        None => None,
    }
}

/// What is said when a renderer was asked for and cannot be had.
pub open spec fn override_warning(value: Seq<char>) -> Seq<char> {
    "LOGVIEW_RENDERER="@ + value + " 未生效（取值有误，或本平台未编入该后端），按默认后端运行"@
}

/// Chooses the renderer: the one that was asked for, or else that of the platform. With it
/// comes what is to be said if something was asked for in vain.
pub fn preferred_renderer(p: Platform, requested: Option<&str>) -> (r: (
    RendererChoice,
    Option<String>,
))
    ensures
        ({
            let value = match requested {
                Some(v) => Some(v@),
                None => None,
            };
            let asked = asked_renderer(p, value);
            &&& r.0.from_env == (asked is Some)
            &&& r.0.renderer == (match asked {
                Some(x) => x,
                None => usual_renderer(p),
            })
            &&& r.0.name@ == renderer_name(r.0.renderer)
            &&& match r.1 {
                Some(w) => asked is None && value is Some && text::trim(value->0).len() > 0 && w@
                    == override_warning(text::trim(value->0)),
                None => asked is Some || value is None || text::trim(value->0).len() == 0,
            }
        }),
{
    match renderer_override(p, requested) {
        Some((name, renderer)) => (RendererChoice { name, renderer, from_env: true }, None),
        None => {
            let (name, renderer) = default_renderer(p);
            let choice = RendererChoice { name, renderer, from_env: false };
            let warning = match requested {
                Some(v) => {
                    let chars = text::chars_of(v);
                    let (a, b) = text::trimmed_bounds(chars.as_slice());
                    if a < b {
                        let value = text::string_of(chars.as_slice(), a, b);
                        let mut w = String::new();
                        w.push_str("LOGVIEW_RENDERER=");
                        w.push_str(value.as_str());
                        w.push_str(
                            " 未生效（取值有误，或本平台未编入该后端），按默认后端运行",
                        );
                        assert(w@ =~= override_warning(value@));
                        Some(w)
                    } else {
                        assert(text::trim(chars@).len() == 0);
                        None
                    }
                },
                None => None,
            };
            (choice, warning)
        },
    }
}

/// A renderer in one phrase: its name, and where it comes from.
pub open spec fn described(name: Seq<char>, from_env: bool) -> Seq<char> {
    name + (if from_env {
        "（来自 LOGVIEW_RENDERER）"@
    } else {
        "（平台默认）"@
    })
}

impl RendererChoice {
    /// The choice in one phrase.
    pub fn describe(&self) -> (r: String)
        ensures
            r@ == described(self.name@, self.from_env),
    {
        let mut r = String::new();
        r.push_str(self.name);
        if self.from_env {
            r.push_str("（来自 LOGVIEW_RENDERER）");
        } else {
            r.push_str("（平台默认）");
        }
        assert(r@ =~= described(self.name@, self.from_env));
        r
    }
}

/// Where the viewer runs, by the name of the session.
pub open spec fn session_of(name: Option<Seq<char>>) -> Seq<char> {
    match name {
        Some(s) => if text::starts_with(s, "RDP"@) {
            "远程桌面会话"@
        } else {
            "本地会话"@
        },
        None => "未知"@,
    }
}

/// Where the viewer runs, by the name of the session.
pub fn session_kind_from(name: Option<&str>) -> (r: &'static str)
    ensures
        r@ == session_of(
            match name {
                Some(s) => Some(s@),
                None => None,
            },
        ),
{
    match name {
        Some(s) => if begins_with(s, "RDP") {
            "远程桌面会话"
        } else {
            "本地会话"
        },
        None => "未知",
    }
}

fn begins_with(s: &str, prefix: &str) -> (r: bool)
    ensures
        r == text::starts_with(s@, prefix@),
{
    let chars = text::chars_of(s);
    let part = text::chars_of(prefix);
    let r = text::is_at(chars.as_slice(), part.as_slice(), 0);
    proof {
        if part@.len() <= chars@.len() {
            assert(chars@.subrange(0, part@.len() as int) =~= chars@.take(part@.len() as int));
        }
    }
    r
}

/// What can be tried when there is no window. Another renderer is named only where there is
/// another one.
pub open spec fn advice(p: Platform, backend: Seq<char>) -> Seq<char> {
    if p is Linux {
        "· 换渲染后端：LOGVIEW_RENDERER="@ + (if backend == "glow"@ {
            "wgpu"@
        } else {
            "glow"@
        }) + " ./logview\n"@
            + "· 换一条图形路径：在 Wayland 会话里运行，或加 LIBGL_ALWAYS_SOFTWARE=1\n"@ + (
        if backend == "wgpu"@ {
            "· 指定 wgpu 的子后端：WGPU_BACKEND=gl ./logview（或 vulkan）\n"@
        } else {
            Seq::empty()
        }) + "· 在本机登录（而不是远程桌面 / 远程 X 会话）后运行\n· 安装或更新显卡驱动"@
    } else {
        "· 在本机登录（而不是远程桌面）后运行\n· 安装或更新显卡驱动"@
    }
}

/// What can be tried when there is no window.
pub fn startup_advice(p: Platform, backend_name: &str) -> (r: String)
    ensures
        r@ == advice(p, backend_name@),
{
    let mut r = String::new();
    if p == Platform::Linux {
        r.push_str("· 换渲染后端：LOGVIEW_RENDERER=");
        if text::is_text(backend_name, "glow") {
            r.push_str("wgpu");
        } else {
            r.push_str("glow");
        }
        r.push_str(" ./logview\n");
        r.push_str("· 换一条图形路径：在 Wayland 会话里运行，或加 LIBGL_ALWAYS_SOFTWARE=1\n");
        if text::is_text(backend_name, "wgpu") {
            r.push_str("· 指定 wgpu 的子后端：WGPU_BACKEND=gl ./logview（或 vulkan）\n");
        }
        r.push_str("· 在本机登录（而不是远程桌面 / 远程 X 会话）后运行\n· 安装或更新显卡驱动");
    } else {
        r.push_str("· 在本机登录（而不是远程桌面）后运行\n· 安装或更新显卡驱动");
    }
    assert(r@ =~= advice(p, backend_name@));
    r
}

/// What is said when there is no window.
pub open spec fn failure_text(
    p: Platform,
    reason: Seq<char>,
    name: Seq<char>,
    from_env: bool,
    session: Seq<char>,
) -> Seq<char> {
    "logview 无法创建窗口，已退出。\n\n原因："@ + reason + "\n\n渲染后端："@ + described(
        name,
        from_env,
    ) + "\n\n运行环境："@ + session + "\n\n若提示与图形有关，可以试：\n"@ + advice(p, name)
}

/// What is said when there is no window: why, how it was to be drawn, where, and what can be
/// tried.
pub fn startup_failure(p: Platform, reason: &str, choice: &RendererChoice, session: &str) -> (r:
    String)
    ensures
        r@ == failure_text(p, reason@, choice.name@, choice.from_env, session@),
{
    let mut r = String::new();
    r.push_str("logview 无法创建窗口，已退出。\n\n原因：");
    r.push_str(reason);
    r.push_str("\n\n渲染后端：");
    r.push_str(choice.describe().as_str());
    r.push_str("\n\n运行环境：");
    r.push_str(session);
    r.push_str("\n\n若提示与图形有关，可以试：\n");
    r.push_str(startup_advice(p, choice.name).as_str());
    assert(r@ =~= failure_text(p, reason@, choice.name@, choice.from_env, session@));
    r
}

/// What is said of the variable that limits wgpu, if it is set and wgpu is used.
pub fn wgpu_note(choice: &RendererChoice, value: Option<&str>) -> (r: Option<String>)
    ensures
        match r {
            Some(t) => choice.name@ == "wgpu"@ && value is Some && text::trim((value->0)@).len() > 0
                && t@ == "WGPU_BACKEND="@ + text::trim((value->0)@)
                + "（wgpu 的子后端被限定为这个）"@,
            None => choice.name@ != "wgpu"@ || value is None || text::trim((value->0)@).len()
                == 0,
        },
{
    if !text::is_text(choice.name, "wgpu") {
        return None;
    }
    match value {
        Some(v) => {
            let chars = text::chars_of(v);
            let (a, b) = text::trimmed_bounds(chars.as_slice());
            if a >= b {
                assert(text::trim(chars@).len() == 0);
                return None;
            }
            let trimmed = text::string_of(chars.as_slice(), a, b);
            let mut t = String::new();
            t.push_str("WGPU_BACKEND=");
            t.push_str(trimmed.as_str());
            t.push_str("（wgpu 的子后端被限定为这个）");
            assert(t@ =~= "WGPU_BACKEND="@ + trimmed@ + "（wgpu 的子后端被限定为这个）"@);
            Some(t)
        },
        None => None,
    }
}

/// Whether an argument names a file to open: it does if it does not begin with a dash.
pub fn names_a_file(argument: &str) -> (r: bool)
    ensures
        r == !(argument@.len() > 0 && argument@[0] == '-'),
{
    let chars = text::chars_of(argument);
    !(chars.len() > 0 && chars[0] == '-')
}

/// How the command key is written.
pub open spec fn command_key(p: Platform) -> Seq<char> {
    if p is MacOs {
        "⌘"@
    } else {
        "Ctrl+"@
    }
}

/// How the command key is written on a platform.
pub fn command_text(p: Platform) -> (r: &'static str)
    ensures
        r@ == command_key(p),
{
    if p == Platform::MacOs {
        "⌘"
    } else {
        "Ctrl+"
    }
}

/// What the empty search box says.
pub fn search_hint(p: Platform) -> (r: String)
    ensures
        r@ == "搜索（"@ + command_key(p) + "F 或 / 聚焦，n / N 跳转）"@,
{
    let mut r = String::new();
    r.push_str("搜索（");
    r.push_str(command_text(p));
    r.push_str("F 或 / 聚焦，n / N 跳转）");
    assert(r@ =~= "搜索（"@ + command_key(p) + "F 或 / 聚焦，n / N 跳转）"@);
    r
}

/// What the keys do, in words.
pub open spec fn help(p: Platform) -> Seq<char> {
    "快捷键\n"@ + command_key(p)
        + "F 或 / — 聚焦搜索框\nn / N — 下 / 上一个命中\ng / G — 跳到开头 / 末尾\nEsc — 清空检索\n"@
        + command_key(p) + "O — 打开文件\n双击行内文字 — 就地搜索该词，视图不移动"@
}

/// What the keys do, in words.
pub fn help_text(p: Platform) -> (r: String)
    ensures
        r@ == help(p),
{
    let mut r = String::new();
    r.push_str("快捷键\n");
    r.push_str(command_text(p));
    r.push_str(
        "F 或 / — 聚焦搜索框\nn / N — 下 / 上一个命中\ng / G — 跳到开头 / 末尾\nEsc — 清空检索\n",
    );
    r.push_str(command_text(p));
    r.push_str("O — 打开文件\n双击行内文字 — 就地搜索该词，视图不移动");
    assert(r@ =~= help(p));
    r
}

/// What is said when the viewer stops on an error: where, and why, as far as that is known.
pub open spec fn panic_message(
    place: Option<(Seq<char>, u32, u32)>,
    message: Option<Seq<char>>,
) -> Seq<char> {
    "logview 遇到未预期的错误，已停止运行。\n"@ + (match place {
        Some((file, line, column)) => "\n位置："@ + file + ":"@ + text::decimal(line as nat) + ":"@
            + text::decimal(column as nat) + "\n"@,
        None => Seq::empty(),
    }) + (match message {
        Some(m) => "\n"@ + m,
        None => Seq::empty(),
    })
}

/// What is said when the viewer stops on an error.
pub fn panic_text(place: Option<(&str, u32, u32)>, message: Option<&str>) -> (r: String)
    ensures
        r@ == panic_message(
            match place {
                Some((file, line, column)) => Some((file@, line, column)),
                None => None,
            },
            match message {
                Some(m) => Some(m@),
                None => None,
            },
        ),
{
    let mut r = String::new();
    r.push_str("logview 遇到未预期的错误，已停止运行。\n");
    if let Some((file, line, column)) = place {
        r.push_str("\n位置：");
        r.push_str(file);
        r.push_str(":");
        text::push_decimal(&mut r, line as u64);
        r.push_str(":");
        text::push_decimal(&mut r, column as u64);
        r.push_str("\n");
    }
    if let Some(m) = message {
        r.push_str("\n");
        r.push_str(m);
    }
    assert(r@ =~= panic_message(
        match place {
            Some((file, line, column)) => Some((file@, line, column)),
            None => None,
        },
        match message {
            Some(m) => Some(m@),
            None => None,
        },
    ));
    r
}

/// The characters are the same letter, in whatever case, or the same character.
pub open spec fn same_char(a: char, b: char) -> bool {
    ||| a == b
    ||| 65 <= a as u32 <= 90 && b as u32 == a as u32 + 32
    ||| 65 <= b as u32 <= 90 && a as u32 == b as u32 + 32
}

proof fn lemma_same_char(a: char, b: char)
    ensures
        lower_char(a) == lower_char(b) <==> same_char(a, b),
{
}

/// Names are compared letter by letter, and only the case of letters of ASCII is passed over.
pub proof fn law_names_up_to_case(a: Seq<char>, b: Seq<char>)
    ensures
        same_letters(a, b) <==> a.len() == b.len() && forall|i: int|
            0 <= i < a.len() ==> same_char(#[trigger] a[i], b[i]),
{
    if same_letters(a, b) {
        assert forall|i: int| 0 <= i < a.len() implies same_char(#[trigger] a[i], b[i]) by {
            lemma_same_char(a[i], b[i]);
        }
    }
    if a.len() == b.len() && forall|i: int| 0 <= i < a.len() ==> same_char(#[trigger] a[i], b[i]) {
        assert forall|i: int| 0 <= i < a.len() implies lower_char(#[trigger] a[i]) == lower_char(
            b[i],
        ) by {
            lemma_same_char(a[i], b[i]);
        }
    }
}

/// The renderer that a platform has from the start is built in there. Only Linux has a choice;
/// what is chosen is built in, and it is the one that was named.
pub proof fn law_renderer_is_there(p: Platform, value: Option<Seq<char>>)
    ensures
        has_renderer(p, usual_renderer(p)),
        p is Linux || p is Windows ==> usual_renderer(p) is Wgpu,
        p is MacOs || p is Other ==> usual_renderer(p) is Glow,
        has_renderer(p, Renderer::Glow) && has_renderer(p, Renderer::Wgpu) <==> p is Linux,
        asked_renderer(p, value) is Some ==> value is Some && has_renderer(
            p,
            asked_renderer(p, value)->0,
        ) && same_letters(text::trim(value->0), renderer_name(asked_renderer(p, value)->0)),
        value is Some && !(p is Windows) && same_letters(text::trim(value->0), "glow"@)
            ==> asked_renderer(p, value) == Some(Renderer::Glow),
        value is Some && (p is Windows || p is Linux) && same_letters(
            text::trim(value->0),
            "wgpu"@,
        ) ==> asked_renderer(p, value) == Some(Renderer::Wgpu),
        renderer_name(Renderer::Glow) == seq!['g', 'l', 'o', 'w'],
        renderer_name(Renderer::Wgpu) == seq!['w', 'g', 'p', 'u'],
{
    reveal_strlit("glow");
    reveal_strlit("wgpu");
    assert("glow"@ =~= seq!['g', 'l', 'o', 'w']);
    assert("wgpu"@ =~= seq!['w', 'g', 'p', 'u']);
    if value is Some {
        let t = text::trim(value->0);
        if same_letters(t, "glow"@) && same_letters(t, "wgpu"@) {
            assert(lower_char(t[0]) == lower_char("glow"@[0]));
            assert(lower_char(t[0]) == lower_char("wgpu"@[0]));
        }
    }
}

/// A session is a remote one if its name begins with `RDP`. Of one without a name nothing is
/// known.
pub proof fn law_remote_sessions(name: Seq<char>)
    ensures
        session_of(None) == "未知"@,
        name.len() >= 3 && name[0] == 'R' && name[1] == 'D' && name[2] == 'P' ==> session_of(
            Some(name),
        ) == "远程桌面会话"@,
        !(name.len() >= 3 && name[0] == 'R' && name[1] == 'D' && name[2] == 'P') ==> session_of(
            Some(name),
        ) == "本地会话"@,
{
    reveal_strlit("RDP");
    let part = "RDP"@;
    assert(part.len() == 3 && part[0] == 'R' && part[1] == 'D' && part[2] == 'P');
    crate::text_laws::law_starts_with(name, part);
    if text::starts_with(name, part) {
        assert(name[0] == part[0] && name[1] == part[1] && name[2] == part[2]);
    }
}

/// What can be tried names the renderer that was not used, where there are two, and no renderer
/// elsewhere.
pub proof fn law_advice_names_the_other_renderer(p: Platform)
    ensures
        p is Linux ==> text::starts_with(
            advice(p, renderer_name(Renderer::Glow)),
            "· 换渲染后端：LOGVIEW_RENDERER="@ + renderer_name(Renderer::Wgpu),
        ),
        p is Linux ==> text::starts_with(
            advice(p, renderer_name(Renderer::Wgpu)),
            "· 换渲染后端：LOGVIEW_RENDERER="@ + renderer_name(Renderer::Glow),
        ),
        !(p is Linux) ==> advice(p, renderer_name(Renderer::Glow)) == advice(
            p,
            renderer_name(Renderer::Wgpu),
        ),
{
    reveal_strlit("glow");
    reveal_strlit("wgpu");
    assert("glow"@[0] == 'g' && "wgpu"@[0] == 'w');
    let front = "· 换渲染后端：LOGVIEW_RENDERER="@;
    let a = advice(p, "glow"@);
    let b = advice(p, "wgpu"@);
    if p is Linux {
        assert(a.take((front + "wgpu"@).len() as int) =~= front + "wgpu"@);
        assert(b.take((front + "glow"@).len() as int) =~= front + "glow"@);
    }
}

/// The command key is written as a sign on macOS and in letters elsewhere.
pub proof fn law_command_key(p: Platform)
    ensures
        p is MacOs ==> command_key(p) == seq!['⌘'],
        !(p is MacOs) ==> command_key(p) == seq!['C', 't', 'r', 'l', '+'],
{
    reveal_strlit("⌘");
    reveal_strlit("Ctrl+");
    assert("⌘"@ =~= seq!['⌘']);
    assert("Ctrl+"@ =~= seq!['C', 't', 'r', 'l', '+']);
}

/// An error is told with the file, the line and the column where it came about, in this order,
/// and with its message, as far as they are known.
pub proof fn law_errors_are_told(file: Seq<char>, line: u32, column: u32, message: Seq<char>)
    ensures
        ({
            let front = "logview 遇到未预期的错误，已停止运行。\n"@;
            let place = "\n位置："@ + file + seq![':'] + text::decimal(line as nat) + seq![':']
                + text::decimal(column as nat) + seq!['\n'];
            &&& panic_message(None, None) == front
            &&& panic_message(None, Some(message)) == front + (seq!['\n'] + message)
            &&& panic_message(Some((file, line, column)), None) == front + place
            &&& panic_message(Some((file, line, column)), Some(message)) == front + place + (seq![
                '\n',
            ] + message)
        }),
{
    reveal_strlit(":");
    reveal_strlit("\n");
    assert(":"@ =~= seq![':']);
    assert("\n"@ =~= seq!['\n']);
    let front = "logview 遇到未预期的错误，已停止运行。\n"@;
    let place = "\n位置："@ + file + seq![':'] + text::decimal(line as nat) + seq![':']
        + text::decimal(column as nat) + seq!['\n'];
    assert(panic_message(None, None) =~= front);
    assert(panic_message(None, Some(message)) =~= front + (seq!['\n'] + message));
    assert(panic_message(Some((file, line, column)), None) =~= front + place);
}

/// What is said when there is no window holds the reason, the renderer and where it comes from,
/// the session, and what can be tried, in this order.
pub proof fn law_failure_is_told(
    p: Platform,
    reason: Seq<char>,
    name: Seq<char>,
    session: Seq<char>,
)
    ensures
        failure_text(p, reason, name, true, session)
            == "logview 无法创建窗口，已退出。\n\n原因："@ + reason + "\n\n渲染后端："@ + (name
            + "（来自 LOGVIEW_RENDERER）"@) + "\n\n运行环境："@ + session
            + "\n\n若提示与图形有关，可以试：\n"@ + advice(p, name),
        failure_text(p, reason, name, false, session)
            == "logview 无法创建窗口，已退出。\n\n原因："@ + reason + "\n\n渲染后端："@ + (name
            + "（平台默认）"@) + "\n\n运行环境："@ + session
            + "\n\n若提示与图形有关，可以试：\n"@ + advice(p, name),
{
}

} // verus!
