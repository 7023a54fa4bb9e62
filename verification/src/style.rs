//! Colours.

use vstd::prelude::*;

verus! {

/// A colour.
#[derive(Clone, Copy, Debug, PartialEq, Eq, Structural)]
pub struct Rgb {
    pub r: u8,
    pub g: u8,
    pub b: u8,
}

/// The colour that is written `0xRRGGBB`.
pub open spec fn rgb(v: u32) -> Rgb {
    Rgb { r: (v / 0x10000 % 0x100) as u8, g: (v / 0x100 % 0x100) as u8, b: (v % 0x100) as u8 }
}

/// The colour that is written `0xRRGGBB`.
pub fn hex(v: u32) -> (r: Rgb)
    ensures
        r == rgb(v),
{
    Rgb { r: (v / 0x10000 % 0x100) as u8, g: (v / 0x100 % 0x100) as u8, b: (v % 0x100) as u8 }
}

/// The fill of the one button that stands out. It is the same in both themes: white text on
/// it can be read, and it stands out from either background.
pub const PRIMARY_FILL: u32 = 0x2563EB;

/// The colour of the dot at a marked line.
pub fn mark_dot_color(dark: bool) -> (r: Rgb)
    ensures
        r == rgb(
            if dark {
                0xAFA9EC
            } else {
                0x534AB7
            },
        ),
{
    if dark {
        hex(0xAFA9EC)
    } else {
        hex(0x534AB7)
    }
}

/// The background of the mark that was jumped to last.
pub fn mark_row_bg(dark: bool) -> (r: Rgb)
    ensures
        r == rgb(
            if dark {
                0x322C52
            } else {
                0xE7E3F8
            },
        ),
{
    if dark {
        hex(0x322C52)
    } else {
        hex(0xE7E3F8)
    }
}

/// The background of the line of the current hit.
pub fn match_row_bg(dark: bool) -> (r: Rgb)
    ensures
        dark ==> r == (Rgb { r: 30, g: 44, b: 62 }),
        !dark ==> r == (Rgb { r: 226, g: 240, b: 253 }),
{
    if dark {
        Rgb { r: 30, g: 44, b: 62 }
    } else {
        Rgb { r: 226, g: 240, b: 253 }
    }
}

/// The colour of text that matters less, and can still be read.
pub fn muted_text(dark: bool) -> (r: Rgb)
    ensures
        r == muted(dark),
{
    if dark {
        hex(0xB4B2A9)
    } else {
        hex(0x5F5E5A)
    }
}

/// The value of [`muted_text`].
pub open spec fn muted(dark: bool) -> Rgb {
    rgb(
        if dark {
            0xB4B2A9
        } else {
            0x5F5E5A
        },
    )
}

/// The background of a hit.
pub open spec fn hit_bg(dark: bool) -> Rgb {
    if dark {
        Rgb { r: 140, g: 110, b: 20 }
    } else {
        Rgb { r: 255, g: 226, b: 130 }
    }
}

/// The text colour of a hit.
pub open spec fn hit_fg(dark: bool) -> Rgb {
    if dark {
        Rgb { r: 255, g: 245, b: 220 }
    } else {
        Rgb { r: 60, g: 40, b: 0 }
    }
}

/// The text colour and the background of a hit.
pub fn hit_colors(dark: bool) -> (r: (Rgb, Rgb))
    ensures
        r == (hit_fg(dark), hit_bg(dark)),
{
    if dark {
        (Rgb { r: 255, g: 245, b: 220 }, Rgb { r: 140, g: 110, b: 20 })
    } else {
        (Rgb { r: 60, g: 40, b: 0 }, Rgb { r: 255, g: 226, b: 130 })
    }
}

/// What the background of a line stands for.
#[derive(Clone, Copy, Debug, PartialEq, Eq, Structural)]
pub enum RowBg {
    Plain,
    /// The line of the current hit.
    Match,
    /// The mark that was jumped to last.
    Mark,
}

/// What the background of `line` stands for. The mark comes first: it is what was asked for
/// last, and the hit is only where a search stands.
pub fn row_bg_kind(line: usize, focused_mark: Option<usize>, current_match: Option<usize>) -> (r:
    RowBg)
    ensures
        r is Mark <==> focused_mark == Some(line),
        r is Match <==> focused_mark != Some(line) && current_match == Some(line),
{
    if focused_mark == Some(line) {
        RowBg::Mark
    } else if current_match == Some(line) {
        RowBg::Match
    } else {
        RowBg::Plain
    }
}

/// How serious a line is.
#[derive(Clone, Copy, Debug, PartialEq, Eq, Structural)]
pub enum Level {
    Error,
    Warn,
    Info,
    Debug,
}

/// The colours of a level. Only warnings and errors have a background and a rule at the left:
/// if every line had one, none would stand out.
#[derive(Clone, Copy, Debug, PartialEq, Eq, Structural)]
pub struct LevelStyle {
    pub bg: Option<Rgb>,
    pub fg: Rgb,
    pub rule: Option<Rgb>,
}

/// The colours of `level`.
pub open spec fn level_style(level: Level, dark: bool) -> LevelStyle {
    match level {
        Level::Error => LevelStyle {
            bg: Some(
                rgb(
                    if dark {
                        0x501313
                    } else {
                        0xFCEBEB
                    },
                ),
            ),
            fg: rgb(
                if dark {
                    0xF7C1C1
                } else {
                    0x791F1F
                },
            ),
            rule: Some(rgb(0xE24B4A)),
        },
        Level::Warn => LevelStyle {
            bg: Some(
                rgb(
                    if dark {
                        0x412402
                    } else {
                        0xFAEEDA
                    },
                ),
            ),
            fg: rgb(
                if dark {
                    0xFAC775
                } else {
                    0x633806
                },
            ),
            rule: Some(rgb(0xEF9F27)),
        },
        Level::Info => LevelStyle {
            bg: None,
            fg: rgb(
                if dark {
                    0x78BEFF
                } else {
                    0x145ABE
                },
            ),
            rule: None,
        },
        Level::Debug => LevelStyle { bg: None, fg: muted(dark), rule: None },
    }
}

impl Level {
    /// The colours of the level.
    pub fn style(self, dark: bool) -> (r: LevelStyle)
        ensures
            r == level_style(self, dark),
    {
        match self {
            Level::Error => if dark {
                LevelStyle {
                    bg: Some(hex(0x501313)),
                    fg: hex(0xF7C1C1),
                    rule: Some(hex(0xE24B4A)),
                }
            } else {
                LevelStyle {
                    bg: Some(hex(0xFCEBEB)),
                    fg: hex(0x791F1F),
                    rule: Some(hex(0xE24B4A)),
                }
            },
            Level::Warn => if dark {
                LevelStyle {
                    bg: Some(hex(0x412402)),
                    fg: hex(0xFAC775),
                    rule: Some(hex(0xEF9F27)),
                }
            } else {
                LevelStyle {
                    bg: Some(hex(0xFAEEDA)),
                    fg: hex(0x633806),
                    rule: Some(hex(0xEF9F27)),
                }
            },
            Level::Info => LevelStyle {
                bg: None,
                fg: hex(
                    if dark {
                        0x78BEFF
                    } else {
                        0x145ABE
                    },
                ),
                rule: None,
            },
            Level::Debug => LevelStyle { bg: None, fg: muted_text(dark), rule: None },
        }
    }
}

/// The theme after `current`: first that of the system, then light, then dark.
pub open spec fn theme_after(current: Option<bool>) -> Option<bool> {
    match current {
        None => Some(false),
        Some(false) => Some(true),
        Some(true) => None,
    }
}

/// The theme that a click on the button leads to.
pub fn next_theme(current: Option<bool>) -> (r: Option<bool>)
    ensures
        r == theme_after(current),
{
    match current {
        None => Some(false),
        Some(false) => Some(true),
        Some(true) => None,
    }
}

/// Three clicks lead back to where they began, and fewer do not.
pub proof fn law_themes_cycle(current: Option<bool>)
    ensures
        theme_after(theme_after(theme_after(current))) == current,
        theme_after(current) != current,
        theme_after(theme_after(current)) != current,
{
}

/// What the button for the theme shows, and what it says: the theme now, and the next.
pub fn theme_label(current: Option<bool>) -> (r: (char, &'static str))
    ensures
        r.0 == (match current {
            None => '◑',
            Some(false) => '☀',
            Some(true) => '🌙',
        }),
        r.1@ == (match current {
            None => "跟随系统（点击改为浅色）"@,
            Some(false) => "浅色（点击改为深色）"@,
            Some(true) => "深色（点击改为跟随系统）"@,
        }),
{
    match current {
        None => ('◑', "跟随系统（点击改为浅色）"),
        Some(false) => ('☀', "浅色（点击改为深色）"),
        Some(true) => ('🌙', "深色（点击改为跟随系统）"),
    }
}

/// The theme goes from that of the system to the light one, then to the dark one.
pub proof fn law_light_comes_before_dark()
    ensures
        theme_after(None) == Some(false),
        theme_after(Some(false)) == Some(true),
        theme_after(Some(true)) is None,
{
}

/// A colour is written by its red, its green and its blue, two hexadecimal digits each.
pub proof fn law_colours_are_written_so(r: u8, g: u8, b: u8)
    ensures
        rgb((r * 0x10000 + g * 0x100 + b) as u32) == (Rgb { r, g, b }),
{
    let v = (r * 0x10000 + g * 0x100 + b) as u32;
    assert(v / 0x10000 == r);
    assert(v / 0x100 == r * 0x100 + g);
}

} // verus!
