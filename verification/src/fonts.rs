//! The choice of a font that has Chinese characters.

use crate::outside;
use crate::paths;
use crate::startup::Platform;
use crate::text;
use vstd::prelude::*;
use vstd::string::*;
use vstd::utf8::*;

verus! {

/// How far below a directory of fonts the search goes.
pub const SCAN_MAX_DEPTH: usize = 4;

/// How many entries the search looks at.
pub const SCAN_MAX_ENTRIES: usize = 20_000;

/// What is said when there is no font.
pub const FONT_HINT: &'static str =
    "装一个即可：yum/dnf install wqy-zenhei-fonts ｜ apt install fonts-wqy-zenhei";

/// The texts of some strings.
pub open spec fn texts(names: Seq<&str>) -> Seq<Seq<char>> {
    Seq::new(names.len(), |i: int| names[i]@)
}

/// The texts of some owned strings.
pub open spec fn owned_texts(names: Seq<String>) -> Seq<Seq<char>> {
    Seq::new(names.len(), |i: int| names[i]@)
}

/// What the file names of fonts with Chinese characters hold, the most wanted first.
pub open spec fn font_keys() -> Seq<Seq<char>> {
    seq![
        "wqy-zenhei"@,
        "wqy-microhei"@,
        "notosanscjk"@,
        "notosanssc"@,
        "sourcehansans"@,
        "droidsansfallback"@,
        "wenquanyi"@,
        "uming"@,
        "ukai"@,
    ]
}

/// How many such parts there are.
pub const FONT_KEY_COUNT: usize = 9;

fn font_key(i: usize) -> (r: &'static str)
    requires
        i < FONT_KEY_COUNT,
    ensures
        r@ == font_keys()[i as int],
{
    if i == 0 {
        "wqy-zenhei"
    } else if i == 1 {
        "wqy-microhei"
    } else if i == 2 {
        "notosanscjk"
    } else if i == 3 {
        "notosanssc"
    } else if i == 4 {
        "sourcehansans"
    } else if i == 5 {
        "droidsansfallback"
    } else if i == 6 {
        "wenquanyi"
    } else if i == 7 {
        "uming"
    } else {
        "ukai"
    }
}

/// `part` stands somewhere in `s`.
pub open spec fn holds(s: Seq<char>, part: Seq<char>) -> bool {
    text::find_from(s, part, 0) is Some
}

fn is_held(s: &str, part: &str) -> (r: bool)
    ensures
        r == holds(s@, part@),
{
    let chars = text::chars_of(s);
    let wanted = text::chars_of(part);
    text::find(chars.as_slice(), wanted.as_slice()).is_some()
}

/// The last place of a dot before position `e`, or -1.
pub open spec fn last_dot(s: Seq<char>, e: int) -> int
    decreases e,
{
    if e <= 0 {
        -1
    } else if s[e - 1] == '.' {
        e - 1
    } else {
        last_dot(s, e - 1)
    }
}

/// What stands behind the last dot of the name at the end of a path. A name with nothing before
/// its last dot has no such ending.
pub open spec fn extension_of(p: Platform, path: Seq<char>) -> Option<Seq<char>> {
    match paths::name_of(p, path) {
        Some(name) => {
            let dot = last_dot(name, name.len() as int);
            if dot > 0 {
                Some(name.subrange(dot + 1, name.len() as int))
            } else {
                None
            }
        },
        None => None,
    }
}

fn extension(p: Platform, path: &str) -> (r: Option<String>)
    ensures
        match r {
            Some(e) => extension_of(p, path@) == Some(e@),
            None => extension_of(p, path@) is None,
        },
{
    match paths::file_name(p, path) {
        Some(name) => {
            let chars = text::chars_of(name.as_str());
            let mut e: usize = chars.len();
            while e > 0 && chars[e - 1] != '.'
                invariant
                    e <= chars@.len(),
                    last_dot(chars@, chars@.len() as int) == last_dot(chars@, e as int),
                decreases e,
            {
                e -= 1;
            }
            if e > 1 {
                Some(text::string_of(chars.as_slice(), e, chars.len()))
            } else {
                None
            }
        },
        None => None,
    }
}

/// The ending is one of fonts.
pub open spec fn font_ending(e: Seq<char>) -> bool {
    e == "ttf"@ || e == "ttc"@ || e == "otf"@ || e == "otc"@
}

/// A name in lower case is that of a font with Chinese characters: it has the ending of a font
/// and holds one of the known parts.
pub open spec fn font_name(p: Platform, lower: Seq<char>) -> bool {
    &&& extension_of(p, lower) is Some
    &&& font_ending(extension_of(p, lower)->0)
    &&& exists|k: int| 0 <= k < FONT_KEY_COUNT && holds(lower, #[trigger] font_keys()[k])
}

/// Whether a name in lower case is that of a font with Chinese characters.
pub fn is_font_name(p: Platform, lower: &str) -> (r: bool)
    ensures
        r == font_name(p, lower@),
{
    match extension(p, lower) {
        Some(e) => {
            let e: &str = e.as_str();
            if !(text::is_text(e, "ttf") || text::is_text(e, "ttc") || text::is_text(e, "otf") || text::is_text(e, "otc")) {
                return false;
            }
        },
        None => {
            return false;
        },
    }
    let mut k: usize = 0;
    while k < FONT_KEY_COUNT
        invariant
            k <= FONT_KEY_COUNT,
            extension_of(p, lower@) is Some,
            font_ending(extension_of(p, lower@)->0),
            forall|q: int| 0 <= q < k ==> !holds(lower@, #[trigger] font_keys()[q]),
        decreases FONT_KEY_COUNT - k,
    {
        if is_held(lower, font_key(k)) {
            return true;
        }
        k += 1;
    }
    false
}

/// Whether a file is a font with Chinese characters, by its name.
pub fn is_cjk_font_file(p: Platform, name: &str) -> (r: bool)
    ensures
        r == font_name(p, outside::lowercase_text(name@)),
{
    is_font_name(p, outside::lowercase(name).as_str())
}

/// What fonts of one kind are ordered by: the regular ones first, then by the length of the
/// name, then by the name in lower case.
pub struct FontRank {
    pub heavy: bool,
    pub len: nat,
    pub lower: Seq<char>,
}

/// The text comes before the other one in the order of the characters' codes.
pub open spec fn text_before(a: Seq<char>, b: Seq<char>) -> bool
    decreases a.len(),
{
    if b.len() == 0 {
        false
    } else if a.len() == 0 {
        true
    } else if a[0] == b[0] {
        text_before(a.drop_first(), b.drop_first())
    } else {
        a[0] < b[0]
    }
}

/// The rank comes before the other one.
pub open spec fn rank_before(a: FontRank, b: FontRank) -> bool {
    if a.heavy != b.heavy {
        !a.heavy
    } else if a.len != b.len {
        a.len < b.len
    } else {
        text_before(a.lower, b.lower)
    }
}

/// The rank of a font, by its name and the name in lower case.
pub open spec fn rank(name: Seq<char>, lower: Seq<char>) -> FontRank {
    FontRank { heavy: !holds(lower, "regular"@), len: encode_utf8(name).len(), lower }
}

/// What a font is ordered by among those of its kind.
pub fn font_sort_key(name: &str) -> (r: (bool, usize, String))
    ensures
        rank(name@, outside::lowercase_text(name@)) == (FontRank {
            heavy: r.0,
            len: r.1 as nat,
            lower: r.2@,
        }),
{
    let lower = outside::lowercase(name);
    (!is_held(lower.as_str(), "regular"), name.as_bytes().len(), lower)
}

fn is_text_before(a: &str, b: &str) -> (r: bool)
    ensures
        r == text_before(a@, b@),
{
    let x = text::chars_of(a);
    let y = text::chars_of(b);
    let mut i: usize = 0;
    proof {
        assert(a@.skip(0) =~= a@);
        assert(b@.skip(0) =~= b@);
    }
    while i < x.len() && i < y.len()
        invariant
            x@ == a@,
            y@ == b@,
            i <= x@.len(),
            i <= y@.len(),
            text_before(a@, b@) == text_before(a@.skip(i as int), b@.skip(i as int)),
        decreases x@.len() - i,
    {
        if x[i] != y[i] {
            return x[i] < y[i];
        }
        proof {
            assert(a@.skip(i as int).drop_first() =~= a@.skip(i + 1));
            assert(b@.skip(i as int).drop_first() =~= b@.skip(i + 1));
        }
        i += 1;
    }
    i < y.len()
}

fn is_rank_before(a: &str, a_lower: &str, b: &str, b_lower: &str) -> (r: bool)
    ensures
        r == rank_before(rank(a@, a_lower@), rank(b@, b_lower@)),
{
    let a_heavy = !is_held(a_lower, "regular");
    let b_heavy = !is_held(b_lower, "regular");
    if a_heavy != b_heavy {
        !a_heavy
    } else if a.as_bytes().len() != b.as_bytes().len() {
        a.as_bytes().len() < b.as_bytes().len()
    } else {
        is_text_before(a_lower, b_lower)
    }
}

/// The best of the first `n` fonts that hold a part, the first one where two are as good.
pub open spec fn best(
    names: Seq<Seq<char>>,
    lowers: Seq<Seq<char>>,
    key: Seq<char>,
    n: int,
) -> Option<int>
    decreases n,
{
    if n <= 0 {
        None
    } else {
        let before = best(names, lowers, key, n - 1);
        if holds(lowers[n - 1], key) && (before is None || rank_before(
            rank(names[n - 1], lowers[n - 1]),
            rank(names[before->0], lowers[before->0]),
        )) {
            Some(n - 1)
        } else {
            before
        }
    }
}

/// The best font for the first part, from part `k` on, that some font holds.
pub open spec fn pick_from(names: Seq<Seq<char>>, lowers: Seq<Seq<char>>, k: int) -> Option<int>
    decreases FONT_KEY_COUNT - k,
{
    if k < 0 || k >= FONT_KEY_COUNT {
        None
    } else {
        match best(names, lowers, font_keys()[k], names.len() as int) {
            Some(i) => Some(i),
            None => pick_from(names, lowers, k + 1),
        }
    }
}

/// The names in lower case.
pub open spec fn lowered(names: Seq<Seq<char>>) -> Seq<Seq<char>> {
    Seq::new(names.len(), |i: int| outside::lowercase_text(names[i]))
}

/// Picks a font by the names and the names in lower case.
pub fn pick_by_rank(names: &[&str], lowers: &[String]) -> (r: Option<usize>)
    requires
        names@.len() == lowers@.len(),
    ensures
        match r {
            Some(i) => i < names@.len() && pick_from(
                texts(names@),
                owned_texts(lowers@),
                0,
            ) == Some(i as int),
            None => pick_from(texts(names@), owned_texts(lowers@), 0) is None,
        },
{
    let ghost ns = texts(names@);
    let ghost ls = owned_texts(lowers@);
    let mut k: usize = 0;
    while k < FONT_KEY_COUNT
        invariant
            k <= FONT_KEY_COUNT,
            names@.len() == lowers@.len(),
            ns == texts(names@),
            ls == owned_texts(lowers@),
            pick_from(ns, ls, 0) == pick_from(ns, ls, k as int),
        decreases FONT_KEY_COUNT - k,
    {
        let key = font_key(k);
        let mut found: Option<usize> = None;
        let mut i: usize = 0;
        while i < names.len()
            invariant
                i <= names@.len(),
                names@.len() == lowers@.len(),
                ns == texts(names@),
                ls == owned_texts(lowers@),
                match found {
                    Some(j) => j < i && best(ns, ls, key@, i as int) == Some(j as int),
                    None => best(ns, ls, key@, i as int) is None,
                },
            decreases names@.len() - i,
        {
            if is_held(lowers[i].as_str(), key) {
                let better = match found {
                    Some(j) => is_rank_before(
                        names[i],
                        lowers[i].as_str(),
                        names[j],
                        lowers[j].as_str(),
                    ),
                    None => true,
                };
                if better {
                    found = Some(i);
                }
            }
            i += 1;
        }
        if found.is_some() {
            return found;
        }
        k += 1;
    }
    None
}

/// Picks a font with Chinese characters by its place among the names of files.
pub fn pick_index(names: &[&str]) -> (r: Option<usize>)
    ensures
        match r {
            Some(i) => i < names@.len() && pick_from(
                texts(names@),
                lowered(texts(names@)),
                0,
            ) == Some(i as int),
            None => pick_from(texts(names@), lowered(texts(names@)), 0) is None,
        },
{
    let mut lowers: Vec<String> = Vec::new();
    let mut i: usize = 0;
    while i < names.len()
        invariant
            i <= names@.len(),
            lowers@.len() == i,
            forall|j: int| 0 <= j < i ==> (#[trigger] lowers@[j])@ == outside::lowercase_text(
                names@[j]@,
            ),
        decreases names@.len() - i,
    {
        lowers.push(outside::lowercase(names[i]));
        i += 1;
    }
    assert(owned_texts(lowers@) =~= lowered(texts(names@)));
    pick_by_rank(names, lowers.as_slice())
}

/// The name of the font that is picked among the names of files.
pub open spec fn picked(names: Seq<Seq<char>>) -> Option<Seq<char>> {
    match pick_from(names, lowered(names), 0) {
        Some(i) => Some(names[i]),
        None => None,
    }
}

/// Picks a font with Chinese characters among the names of files.
pub fn pick_cjk_font(names: &[&str]) -> (r: Option<String>)
    ensures
        match r {
            Some(name) => picked(texts(names@)) == Some(name@),
            None => picked(texts(names@)) is None,
        },
{
    match pick_index(names) {
        Some(i) => Some(names[i].to_owned()),
        None => None,
    }
}

/// The files that are tried first, by platform.
pub open spec fn candidates(p: Platform) -> Seq<Seq<char>> {
    match p {
        Platform::MacOs => seq![
            "/System/Library/Fonts/PingFang.ttc"@,
            "/System/Library/Fonts/STHeiti Light.ttc"@,
            "/System/Library/Fonts/Hiragino Sans GB.ttc"@,
            "/Library/Fonts/Arial Unicode.ttf"@,
            "/System/Library/Fonts/Supplemental/Songti.ttc"@,
        ],
        Platform::Windows => seq![
            "C:\\Windows\\Fonts\\msyh.ttc"@,
            "C:\\Windows\\Fonts\\msyh.ttf"@,
            "C:\\Windows\\Fonts\\simhei.ttf"@,
            "C:\\Windows\\Fonts\\simsun.ttc"@,
            "C:\\Windows\\Fonts\\Deng.ttf"@,
        ],
        _ => seq![
            "/usr/share/fonts/opentype/noto/NotoSansCJK-Regular.ttc"@,
            "/usr/share/fonts/truetype/noto/NotoSansCJK-Regular.ttc"@,
            "/usr/share/fonts/opentype/noto/NotoSansCJKsc-Regular.otf"@,
            "/usr/share/fonts/truetype/wqy/wqy-zenhei.ttc"@,
            "/usr/share/fonts/truetype/wqy/wqy-microhei.ttc"@,
            "/usr/share/fonts/truetype/arphic/uming.ttc"@,
            "/usr/share/fonts/google-noto/NotoSansCJK-Regular.ttc"@,
        ],
    }
}

/// The files that are tried first, the most wanted first.
pub fn cjk_candidates(p: Platform) -> (r: Vec<&'static str>)
    ensures
        texts(r@) == candidates(p),
{
    let r = match p {
        Platform::MacOs => vec![
            "/System/Library/Fonts/PingFang.ttc",
            "/System/Library/Fonts/STHeiti Light.ttc",
            "/System/Library/Fonts/Hiragino Sans GB.ttc",
            "/Library/Fonts/Arial Unicode.ttf",
            "/System/Library/Fonts/Supplemental/Songti.ttc",
        ],
        Platform::Windows => vec![
            "C:\\Windows\\Fonts\\msyh.ttc",
            "C:\\Windows\\Fonts\\msyh.ttf",
            "C:\\Windows\\Fonts\\simhei.ttf",
            "C:\\Windows\\Fonts\\simsun.ttc",
            "C:\\Windows\\Fonts\\Deng.ttf",
        ],
        _ => vec![
            "/usr/share/fonts/opentype/noto/NotoSansCJK-Regular.ttc",
            "/usr/share/fonts/truetype/noto/NotoSansCJK-Regular.ttc",
            "/usr/share/fonts/opentype/noto/NotoSansCJKsc-Regular.otf",
            "/usr/share/fonts/truetype/wqy/wqy-zenhei.ttc",
            "/usr/share/fonts/truetype/wqy/wqy-microhei.ttc",
            "/usr/share/fonts/truetype/arphic/uming.ttc",
            "/usr/share/fonts/google-noto/NotoSansCJK-Regular.ttc",
        ],
    };
    assert(texts(r@) =~= candidates(p));
    r
}

/// The directories that hold fonts.
pub open spec fn dirs(p: Platform, home: Option<Seq<char>>) -> Seq<Seq<char>> {
    let shared = seq!["/usr/share/fonts"@, "/usr/local/share/fonts"@];
    match home {
        Some(h) => shared.push(paths::path_in(p, h, ".local/share/fonts"@)).push(
            paths::path_in(p, h, ".fonts"@),
        ),
        None => shared,
    }
}

/// The directories that hold fonts: those of the system, then those of the user.
pub fn font_dirs(p: Platform, home: Option<&str>) -> (r: Vec<String>)
    ensures
        owned_texts(r@) == dirs(
            p,
            match home {
                Some(h) => Some(h@),
                None => None,
            },
        ),
{
    let mut r: Vec<String> = Vec::new();
    r.push("/usr/share/fonts".to_owned());
    r.push("/usr/local/share/fonts".to_owned());
    if let Some(h) = home {
        r.push(paths::joined(p, h, ".local/share/fonts"));
        r.push(paths::joined(p, h, ".fonts"));
    }
    assert(owned_texts(r@) =~= dirs(
        p,
        match home {
            Some(h) => Some(h@),
            None => None,
        },
    ));
    r
}

/// A search for fonts through directories. Directories and files go by numbers that the caller
/// gives them; the first numbers are those of the directories that the search starts from.
pub struct FontScan {
    platform: Platform,
    roots: usize,
    next_root: usize,
    stack: Vec<(usize, usize)>,
    depth: usize,
    visited: usize,
    names: Vec<String>,
    files: Vec<usize>,
}

/// What a search has yet to do and what it has found.
pub struct Scan {
    /// The system that the names come from.
    pub platform: Platform,
    /// How many directories the search starts from.
    pub roots: nat,
    /// The next one of these.
    pub next_root: nat,
    /// The directories below that are to be read, each with its depth; the last comes first.
    pub stack: Seq<(usize, usize)>,
    /// The depth of the directory that is being read.
    pub depth: nat,
    /// How many entries were seen.
    pub visited: nat,
    /// The names of the fonts that were found.
    pub names: Seq<Seq<char>>,
    /// The numbers of these.
    pub files: Seq<usize>,
}

/// The directories that are left when those too far down are dropped from the end.
pub open spec fn near(stack: Seq<(usize, usize)>) -> Seq<(usize, usize)>
    decreases stack.len(),
{
    if stack.len() > 0 && stack.last().1 > SCAN_MAX_DEPTH {
        near(stack.drop_last())
    } else {
        stack
    }
}

impl Scan {
    /// The search has seen more than it is to see.
    pub open spec fn over(self) -> bool {
        self.visited > SCAN_MAX_ENTRIES
    }

    /// The search stays within its limits.
    pub open spec fn wf(self) -> bool {
        &&& self.next_root <= self.roots
        &&& self.depth <= SCAN_MAX_DEPTH
        &&& self.visited <= SCAN_MAX_ENTRIES + 1
        &&& self.names.len() == self.files.len()
        &&& self.names.len() <= self.visited
        &&& self.names.len() <= SCAN_MAX_ENTRIES
        &&& forall|i: int|
            0 <= i < self.names.len() ==> font_name(
                self.platform,
                outside::lowercase_text(#[trigger] self.names[i]),
            )
    }

    /// The directory to be read next, and the search when that is begun.
    pub open spec fn step(self) -> (Scan, Option<usize>) {
        let stack = near(self.stack);
        if self.over() {
            (self, None)
        } else if stack.len() > 0 {
            (
                Scan { stack: stack.drop_last(), depth: stack.last().1 as nat, ..self },
                Some(stack.last().0),
            )
        } else if self.next_root < self.roots {
            (
                Scan { stack, next_root: self.next_root + 1, depth: 0, ..self },
                Some(self.next_root as usize),
            )
        } else {
            (Scan { stack, ..self }, None)
        }
    }

    /// The search after one more entry of the directory that is being read.
    pub open spec fn saw(self, id: usize, is_dir: bool, name: Option<Seq<char>>) -> Scan {
        let more = Scan { visited: self.visited + 1, ..self };
        if self.over() {
            self
        } else if more.over() {
            more
        } else if is_dir {
            Scan { stack: self.stack.push((id, (self.depth + 1) as usize)), ..more }
        } else if name is Some && font_name(
            self.platform,
            outside::lowercase_text(name->0),
        ) {
            Scan { names: self.names.push(name->0), files: self.files.push(id), ..more }
        } else {
            more
        }
    }
}

impl View for FontScan {
    type V = Scan;

    closed spec fn view(&self) -> Scan {
        Scan {
            platform: self.platform,
            roots: self.roots as nat,
            next_root: self.next_root as nat,
            stack: self.stack@,
            depth: self.depth as nat,
            visited: self.visited as nat,
            names: owned_texts(self.names@),
            files: self.files@,
        }
    }
}

impl FontScan {
    /// A search that starts from directories with the numbers below `roots`.
    pub fn new(p: Platform, roots: usize) -> (r: Self)
        ensures
            r@ == (Scan {
                platform: p,
                roots: roots as nat,
                next_root: 0,
                stack: Seq::empty(),
                depth: 0,
                visited: 0,
                names: Seq::empty(),
                files: Seq::empty(),
            }),
            r@.wf(),
    {
        let r = FontScan {
            platform: p,
            roots,
            next_root: 0,
            stack: Vec::new(),
            depth: 0,
            visited: 0,
            names: Vec::new(),
            files: Vec::new(),
        };
        assert(r@.names =~= Seq::empty());
        r
    }

    /// The number of the directory to be read next; nothing if the search is done.
    pub fn next_dir(&mut self) -> (r: Option<usize>)
        requires
            old(self)@.wf(),
        ensures
            final(self)@ == old(self)@.step().0,
            r == old(self)@.step().1,
            final(self)@.wf(),
    {
        if self.visited > SCAN_MAX_ENTRIES {
            return None;
        }
        while self.stack.len() > 0 && self.stack[self.stack.len() - 1].1 > SCAN_MAX_DEPTH
            invariant
                self@.wf(),
                !self@.over(),
                near(self@.stack) == near(old(self)@.stack),
                self@ == (Scan { stack: self@.stack, ..old(self)@ }),
            decreases self.stack@.len(),
        {
            let ghost before = self@.stack;
            let _ = self.stack.pop();
            assert(self@.stack =~= before.drop_last());
        }
        let ghost mid = self@.stack;
        assert(near(mid) == mid);
        match self.stack.pop() {
            Some((id, depth)) => {
                self.depth = depth;
                assert(self@.stack =~= mid.drop_last());
                Some(id)
            },
            None => {
                assert(self@.stack =~= mid);
                if self.next_root < self.roots {
                    let id = self.next_root;
                    self.next_root = id + 1;
                    self.depth = 0;
                    Some(id)
                } else {
                    None
                }
            },
        }
    }

    /// Takes in one entry of the directory that is being read. It comes back whether the search
    /// goes on.
    pub fn saw(&mut self, id: usize, is_dir: bool, name: Option<&str>) -> (r: bool)
        requires
            old(self)@.wf(),
        ensures
            final(self)@ == old(self)@.saw(
                id,
                is_dir,
                match name {
                    Some(n) => Some(n@),
                    None => None,
                },
            ),
            r == !final(self)@.over(),
            final(self)@.wf(),
    {
        if self.visited > SCAN_MAX_ENTRIES {
            return false;
        }
        self.visited = self.visited + 1;
        if self.visited > SCAN_MAX_ENTRIES {
            return false;
        }
        if is_dir {
            self.stack.push((id, self.depth + 1));
            return true;
        }
        if let Some(n) = name {
            if is_cjk_font_file(self.platform, n) {
                let ghost before = self.names@;
                self.names.push(n.to_owned());
                self.files.push(id);
                assert(owned_texts(self.names@) =~= owned_texts(before).push(n@));
            }
        }
        true
    }

    /// The number of the font that was chosen among those that were found.
    pub fn chosen(&self) -> (r: Option<usize>)
        requires
            self@.wf(),
        ensures
            match pick_from(self@.names, lowered(self@.names), 0) {
                Some(i) => 0 <= i < self@.files.len() && r == Some(self@.files[i]),
                None => r is None,
            },
    {
        let mut names: Vec<&str> = Vec::new();
        let mut i: usize = 0;
        while i < self.names.len()
            invariant
                i <= self.names@.len(),
                names@.len() == i,
                forall|j: int| 0 <= j < i ==> (#[trigger] names@[j])@ == self.names@[j]@,
            decreases self.names@.len() - i,
        {
            names.push(self.names[i].as_str());
            i += 1;
        }
        assert(texts(names@) =~= self@.names);
        match pick_index(names.as_slice()) {
            Some(k) => Some(self.files[k]),
            None => None,
        }
    }
}

proof fn lemma_text_order(a: Seq<char>, b: Seq<char>, c: Seq<char>)
    ensures
        !text_before(a, a),
        text_before(a, b) && text_before(b, c) ==> text_before(a, c),
        !text_before(a, b) && !text_before(b, a) ==> a == b,
    decreases a.len(),
{
    if a.len() > 0 {
        lemma_text_order(a.drop_first(), a.drop_first(), a.drop_first());
    }
    if a.len() > 0 && b.len() > 0 && a[0] == b[0] {
        if c.len() > 0 {
            lemma_text_order(a.drop_first(), b.drop_first(), c.drop_first());
        } else {
            lemma_text_order(a.drop_first(), b.drop_first(), c);
        }
        if a.drop_first() == b.drop_first() {
            assert(a =~= seq![a[0]] + a.drop_first());
            assert(b =~= seq![b[0]] + b.drop_first());
        }
    }
    if a.len() == 0 && b.len() == 0 {
        assert(a =~= b);
    }
}

proof fn lemma_rank_order(a: FontRank, b: FontRank, c: FontRank)
    ensures
        !rank_before(a, a),
        rank_before(a, b) && rank_before(b, c) ==> rank_before(a, c),
        !rank_before(a, b) && !rank_before(b, a) ==> a == b,
{
    lemma_text_order(a.lower, b.lower, c.lower);
}

proof fn lemma_best(names: Seq<Seq<char>>, lowers: Seq<Seq<char>>, key: Seq<char>, n: int)
    requires
        0 <= n <= names.len(),
        names.len() == lowers.len(),
    ensures
        match best(names, lowers, key, n) {
            Some(i) => {
                &&& 0 <= i < n
                &&& holds(lowers[i], key)
                &&& forall|j: int|
                    0 <= j < n && holds(#[trigger] lowers[j], key) ==> !rank_before(
                        rank(names[j], lowers[j]),
                        rank(names[i], lowers[i]),
                    )
            },
            None => forall|j: int| 0 <= j < n ==> !holds(#[trigger] lowers[j], key),
        },
    decreases n,
{
    if n > 0 {
        lemma_best(names, lowers, key, n - 1);
        let last = rank(names[n - 1], lowers[n - 1]);
        lemma_rank_order(last, last, last);
        match best(names, lowers, key, n - 1) {
            Some(i) => {
                let kept = rank(names[i], lowers[i]);
                assert forall|j: int|
                    0 <= j < n - 1 && holds(#[trigger] lowers[j], key) && rank_before(
                        last,
                        kept,
                    ) implies !rank_before(rank(names[j], lowers[j]), last) by {
                    lemma_rank_order(rank(names[j], lowers[j]), last, kept);
                }
            },
            None => {},
        }
    }
}

/// Font `i` holds part `k`, no font holds a part before that one, and no font with the part comes
/// before font `i`.
pub open spec fn best_for(
    names: Seq<Seq<char>>,
    lowers: Seq<Seq<char>>,
    i: int,
    k: int,
) -> bool {
    &&& holds(lowers[i], font_keys()[k])
    &&& forall|q: int, j: int|
        0 <= q < k && 0 <= j < names.len() ==> !holds(
            #[trigger] lowers[j],
            #[trigger] font_keys()[q],
        )
    &&& forall|j: int|
        0 <= j < names.len() && holds(#[trigger] lowers[j], font_keys()[k]) ==> !rank_before(
            rank(names[j], lowers[j]),
            rank(names[i], lowers[i]),
        )
}

proof fn lemma_pick_is_best(names: Seq<Seq<char>>, lowers: Seq<Seq<char>>)
    requires
        names.len() == lowers.len(),
    ensures
        match pick_from(names, lowers, 0) {
            Some(i) => 0 <= i < names.len() && exists|k: int|
                0 <= k < FONT_KEY_COUNT && #[trigger] best_for(names, lowers, i, k),
            None => forall|q: int, j: int|
                0 <= q < FONT_KEY_COUNT && 0 <= j < names.len() ==> !holds(
                    #[trigger] lowers[j],
                    #[trigger] font_keys()[q],
                ),
        },
{
    lemma_pick_from(names, lowers, 0);
}

proof fn lemma_pick_from(names: Seq<Seq<char>>, lowers: Seq<Seq<char>>, from: int)
    requires
        names.len() == lowers.len(),
        0 <= from <= FONT_KEY_COUNT,
        forall|q: int, j: int|
            0 <= q < from && 0 <= j < names.len() ==> !holds(
                #[trigger] lowers[j],
                #[trigger] font_keys()[q],
            ),
    ensures
        match pick_from(names, lowers, from) {
            Some(i) => 0 <= i < names.len() && exists|k: int|
                0 <= k < FONT_KEY_COUNT && #[trigger] best_for(names, lowers, i, k),
            None => forall|q: int, j: int|
                0 <= q < FONT_KEY_COUNT && 0 <= j < names.len() ==> !holds(
                    #[trigger] lowers[j],
                    #[trigger] font_keys()[q],
                ),
        },
    decreases FONT_KEY_COUNT - from,
{
    if from < FONT_KEY_COUNT {
        lemma_best(names, lowers, font_keys()[from], names.len() as int);
        match best(names, lowers, font_keys()[from], names.len() as int) {
            Some(i) => {
                assert(best_for(names, lowers, i, from));
            },
            None => {
                lemma_pick_from(names, lowers, from + 1);
            },
        }
    }
}

proof fn lemma_pick_ignores_the_order(
    names: Seq<Seq<char>>,
    lowers: Seq<Seq<char>>,
    other_names: Seq<Seq<char>>,
    other_lowers: Seq<Seq<char>>,
)
    requires
        names.len() == lowers.len(),
        other_names.len() == other_lowers.len(),
        forall|i: int| #![trigger names[i]]
            0 <= i < names.len() ==> exists|j: int| #![trigger other_names[j]]
                0 <= j < other_names.len() && other_names[j] == names[i] && other_lowers[j]
                    == lowers[i],
        forall|j: int| #![trigger other_names[j]]
            0 <= j < other_names.len() ==> exists|i: int| #![trigger names[i]]
                0 <= i < names.len() && other_names[j] == names[i] && other_lowers[j] == lowers[i],
        forall|i: int, j: int|
            0 <= i < names.len() && 0 <= j < names.len() && #[trigger] lowers[i]
                == #[trigger] lowers[j] ==> names[i] == names[j],
    ensures
        match (pick_from(names, lowers, 0), pick_from(other_names, other_lowers, 0)) {
            (Some(i), Some(j)) => names[i] == other_names[j],
            (None, None) => true,
            _ => false,
        },
{
    lemma_pick_is_best(names, lowers);
    lemma_pick_is_best(other_names, other_lowers);
    match pick_from(names, lowers, 0) {
        Some(i) => {
            let k = choose|k: int|
                0 <= k < FONT_KEY_COUNT && #[trigger] best_for(names, lowers, i, k);
            assert(names[i] == names[i]);
            let there = choose|j: int| #![trigger other_names[j]]
                0 <= j < other_names.len() && other_names[j] == names[i] && other_lowers[j]
                    == lowers[i];
            assert(holds(other_lowers[there], font_keys()[k]));
            match pick_from(other_names, other_lowers, 0) {
                Some(j) => {
                    let m = choose|m: int|
                        0 <= m < FONT_KEY_COUNT && #[trigger] best_for(
                            other_names,
                            other_lowers,
                            j,
                            m,
                        );
                    assert(other_names[j] == other_names[j]);
                    let here = choose|x: int| #![trigger names[x]]
                        0 <= x < names.len() && other_names[j] == names[x] && other_lowers[j]
                            == lowers[x];
                    assert(holds(lowers[here], font_keys()[m]));
                    assert(m == k);
                    lemma_rank_order(
                        rank(names[i], lowers[i]),
                        rank(names[here], lowers[here]),
                        rank(names[i], lowers[i]),
                    );
                    assert(lowers[i] == lowers[here]);
                },
                None => {},
            }
        },
        None => {
            match pick_from(other_names, other_lowers, 0) {
                Some(j) => {
                    assert(other_names[j] == other_names[j]);
                    let here = choose|x: int| #![trigger names[x]]
                        0 <= x < names.len() && other_names[j] == names[x] && other_lowers[j]
                            == lowers[x];
                    let m = choose|m: int|
                        0 <= m < FONT_KEY_COUNT && #[trigger] best_for(
                            other_names,
                            other_lowers,
                            j,
                            m,
                        );
                    assert(holds(lowers[here], font_keys()[m]));
                },
                None => {},
            }
        },
    }
}

/// The name holds part `k`, no name holds a part before that one, and no name with the part comes
/// before it. So a regular font is picked, if there is one.
pub open spec fn best_name(names: Seq<Seq<char>>, name: Seq<char>, k: int) -> bool {
    let lower = outside::lowercase_text(name);
    &&& holds(lower, font_keys()[k])
    &&& forall|q: int, j: int|
        0 <= q < k && 0 <= j < names.len() ==> !holds(
            outside::lowercase_text(#[trigger] names[j]),
            #[trigger] font_keys()[q],
        )
    &&& forall|j: int|
        0 <= j < names.len() && holds(
            outside::lowercase_text(#[trigger] names[j]),
            font_keys()[k],
        ) ==> !rank_before(
            rank(names[j], outside::lowercase_text(names[j])),
            rank(name, lower),
        ) && (holds(outside::lowercase_text(names[j]), "regular"@) ==> holds(lower, "regular"@))
}

/// The font that is picked is one of those given. It holds the most wanted part that any of them
/// holds, and none with that part comes before it. Nothing is picked only if none holds a known
/// part.
pub proof fn law_pick_is_best(names: Seq<Seq<char>>)
    ensures
        picked(names) is Some ==> names.contains(picked(names)->0) && exists|k: int|
            0 <= k < FONT_KEY_COUNT && #[trigger] best_name(names, picked(names)->0, k),
        picked(names) is None <==> forall|q: int, j: int|
            0 <= q < FONT_KEY_COUNT && 0 <= j < names.len() ==> !holds(
                outside::lowercase_text(#[trigger] names[j]),
                #[trigger] font_keys()[q],
            ),
{
    let lowers = lowered(names);
    lemma_pick_is_best(names, lowers);
    match pick_from(names, lowers, 0) {
        Some(i) => {
            let k = choose|k: int|
                0 <= k < FONT_KEY_COUNT && #[trigger] best_for(names, lowers, i, k);
            assert forall|q: int, j: int| 0 <= q < k && 0 <= j < names.len() implies !holds(
                outside::lowercase_text(#[trigger] names[j]),
                #[trigger] font_keys()[q],
            ) by {
                assert(!holds(lowers[j], font_keys()[q]));
            }
            assert forall|j: int|
                0 <= j < names.len() && holds(
                    outside::lowercase_text(#[trigger] names[j]),
                    font_keys()[k],
                ) implies !rank_before(
                rank(names[j], outside::lowercase_text(names[j])),
                rank(names[i], lowers[i]),
            ) && (holds(outside::lowercase_text(names[j]), "regular"@) ==> holds(
                lowers[i],
                "regular"@,
            )) by {
                assert(holds(lowers[j], font_keys()[k]));
            }
            assert(picked(names) == Some(names[i]));
            assert(names.contains(names[i]));
            assert(best_name(names, picked(names)->0, k));
        },
        None => {
            assert forall|q: int, j: int|
                0 <= q < FONT_KEY_COUNT && 0 <= j < names.len() implies !holds(
                outside::lowercase_text(#[trigger] names[j]),
                #[trigger] font_keys()[q],
            ) by {
                assert(!holds(lowers[j], font_keys()[q]));
            }
        },
    }
}

/// The choice does not hang on the order in which the directories were walked: the same names in
/// another order give the same font, if no two of them are alike but for case.
pub proof fn law_pick_ignores_the_order(names: Seq<Seq<char>>, other: Seq<Seq<char>>)
    requires
        names.to_multiset() == other.to_multiset(),
        forall|i: int, j: int|
            0 <= i < names.len() && 0 <= j < names.len() && outside::lowercase_text(
                #[trigger] names[i],
            ) == outside::lowercase_text(#[trigger] names[j]) ==> names[i] == names[j],
    ensures
        picked(names) == picked(other),
{
    broadcast use vstd::seq_lib::group_to_multiset_ensures;

    let a = lowered(names);
    let b = lowered(other);
    assert forall|i: int| #![trigger names[i]] 0 <= i < names.len() implies exists|j: int|
        #![trigger other[j]]
        0 <= j < other.len() && other[j] == names[i] && b[j] == a[i] by {
        assert(names.to_multiset().count(names[i]) > 0);
        assert(other.contains(names[i]));
        let j = choose|j: int| 0 <= j < other.len() && other[j] == names[i];
        assert(other[j] == names[i] && b[j] == a[i]);
    }
    assert forall|j: int| #![trigger other[j]] 0 <= j < other.len() implies exists|i: int|
        #![trigger names[i]]
        0 <= i < names.len() && other[j] == names[i] && b[j] == a[i] by {
        assert(other.to_multiset().count(other[j]) > 0);
        assert(names.contains(other[j]));
        let i = choose|i: int| 0 <= i < names.len() && names[i] == other[j];
        assert(other[j] == names[i] && b[j] == a[i]);
    }
    assert forall|i: int, j: int|
        0 <= i < names.len() && 0 <= j < names.len() && #[trigger] a[i]
            == #[trigger] a[j] implies names[i] == names[j] by {
        assert(outside::lowercase_text(names[i]) == outside::lowercase_text(names[j]));
    }
    lemma_pick_ignores_the_order(names, a, other, b);
}

proof fn lemma_last_dot(s: Seq<char>, e: int)
    requires
        0 <= e <= s.len(),
    ensures
        -1 <= last_dot(s, e) < e || e == 0 && last_dot(s, e) == -1,
        last_dot(s, e) >= 0 ==> s[last_dot(s, e)] == '.',
        forall|k: int| last_dot(s, e) < k < e ==> #[trigger] s[k] != '.',
    decreases e,
{
    if e > 0 && s[e - 1] != '.' {
        lemma_last_dot(s, e - 1);
    }
}

/// The ending of a name is what stands behind its last dot, if something stands before that dot.
pub proof fn law_ending_stands_behind_the_last_dot(p: Platform, path: Seq<char>)
    ensures
        paths::name_of(p, path) is None ==> extension_of(p, path) is None,
        paths::name_of(p, path) is Some && extension_of(p, path) is Some ==> {
            let name = paths::name_of(p, path)->0;
            let e = extension_of(p, path)->0;
            let dot = name.len() - e.len() - 1;
            &&& dot > 0 && name[dot] == '.'
            &&& forall|k: int| 0 <= k < e.len() ==> #[trigger] e[k] == name[dot + 1 + k] && e[k]
                != '.'
        },
        paths::name_of(p, path) is Some && extension_of(p, path) is None ==> forall|k: int|
            0 < k < (paths::name_of(p, path)->0).len() ==> #[trigger] (paths::name_of(
                p,
                path,
            )->0)[k] != '.',
{
    if paths::name_of(p, path) is Some {
        let name = paths::name_of(p, path)->0;
        lemma_last_dot(name, name.len() as int);
    }
}

/// The endings of fonts.
pub proof fn law_endings_of_fonts(e: Seq<char>)
    ensures
        font_ending(e) <==> e.len() == 3 && (e[0] == 't' && e[1] == 't' && (e[2] == 'f' || e[2]
            == 'c') || e[0] == 'o' && e[1] == 't' && (e[2] == 'f' || e[2] == 'c')),
{
    reveal_strlit("ttf");
    reveal_strlit("ttc");
    reveal_strlit("otf");
    reveal_strlit("otc");
    if e.len() == 3 {
        if e[0] == 't' && e[1] == 't' && e[2] == 'f' {
            assert(e =~= "ttf"@);
        }
        if e[0] == 't' && e[1] == 't' && e[2] == 'c' {
            assert(e =~= "ttc"@);
        }
        if e[0] == 'o' && e[1] == 't' && e[2] == 'f' {
            assert(e =~= "otf"@);
        }
        if e[0] == 'o' && e[1] == 't' && e[2] == 'c' {
            assert(e =~= "otc"@);
        }
    }
}

/// `a` comes before `b` if it is where they first differ, at `k`, that `a` has the smaller
/// character or ends.
pub open spec fn differ_first_at(a: Seq<char>, b: Seq<char>, k: int) -> bool {
    &&& 0 <= k <= a.len() && k < b.len()
    &&& forall|j: int| 0 <= j < k ==> #[trigger] a[j] == b[j]
    &&& k == a.len() || a[k] < b[k]
}

/// Names are ordered by the first character in which they differ; the beginning of a name comes
/// before the name.
pub proof fn law_order_of_names(a: Seq<char>, b: Seq<char>)
    ensures
        text_before(a, b) <==> exists|k: int| #[trigger] differ_first_at(a, b, k),
    decreases a.len(),
{
    if a.len() > 0 && b.len() > 0 && a[0] == b[0] {
        let x = a.drop_first();
        let y = b.drop_first();
        law_order_of_names(x, y);
        if exists|k: int| #[trigger] differ_first_at(x, y, k) {
            let k = choose|k: int| #[trigger] differ_first_at(x, y, k);
            assert forall|j: int| 0 <= j < k + 1 implies #[trigger] a[j] == b[j] by {
                if j > 0 {
                    assert(x[j - 1] == y[j - 1]);
                }
            }
            assert(differ_first_at(a, b, k + 1));
        }
        if exists|k: int| #[trigger] differ_first_at(a, b, k) {
            let k = choose|k: int| #[trigger] differ_first_at(a, b, k);
            assert(k > 0);
            assert forall|j: int| 0 <= j < k - 1 implies #[trigger] x[j] == y[j] by {
                assert(a[j + 1] == b[j + 1]);
            }
            assert(differ_first_at(x, y, k - 1));
        }
    } else {
        if text_before(a, b) {
            assert(differ_first_at(a, b, 0));
        }
        if exists|k: int| #[trigger] differ_first_at(a, b, k) {
            let k = choose|k: int| #[trigger] differ_first_at(a, b, k);
            if k > 0 {
                assert(a[0] == b[0]);
            }
        }
    }
}

/// A regular font comes before one of another weight; of two regular ones, or two others, the
/// one with the shorter name comes first.
pub proof fn law_regular_fonts_come_first(
    a: Seq<char>,
    low_a: Seq<char>,
    b: Seq<char>,
    low_b: Seq<char>,
)
    ensures
        holds(low_a, "regular"@) && !holds(low_b, "regular"@) ==> rank_before(
            rank(a, low_a),
            rank(b, low_b),
        ) && !rank_before(rank(b, low_b), rank(a, low_a)),
        holds(low_a, "regular"@) == holds(low_b, "regular"@) && encode_utf8(a).len() < encode_utf8(
            b,
        ).len() ==> rank_before(rank(a, low_a), rank(b, low_b)) && !rank_before(
            rank(b, low_b),
            rank(a, low_a),
        ),
{
}

/// The parts of names by which fonts are known, the most wanted first.
pub proof fn law_known_fonts()
    ensures
        FONT_KEY_COUNT == font_keys().len() == 9,
        font_keys()[0] == "wqy-zenhei"@,
        font_keys()[1] == "wqy-microhei"@,
        font_keys()[2] == "notosanscjk"@,
        font_keys()[3] == "notosanssc"@,
        font_keys()[4] == "sourcehansans"@,
        font_keys()[5] == "droidsansfallback"@,
        font_keys()[6] == "wenquanyi"@,
        font_keys()[7] == "uming"@,
        font_keys()[8] == "ukai"@,
{
}

/// A directory that is read next lies at most four below the one it was reached from, and comes
/// from the stack, the last one first, or is the next root. Nothing is read once more than 20000
/// entries were seen.
pub proof fn law_directories_are_read(s: Scan)
    requires
        s.roots <= usize::MAX,
    ensures
        ({
            let (t, d) = s.step();
            &&& s.visited > 20_000 ==> d is None
            &&& d is Some ==> t.depth <= 4
            &&& d is Some ==> (t.next_root == s.next_root && exists|k: int|
                0 <= k < s.stack.len() && #[trigger] s.stack[k] == (d->0, t.depth as usize)
                    && t.stack == s.stack.take(k) && forall|j: int|
                    k < j < s.stack.len() ==> (#[trigger] s.stack[j]).1 > 4) || (d->0
                == s.next_root < s.roots && t.next_root == s.next_root + 1 && t.depth == 0
                && forall|j: int| 0 <= j < s.stack.len() ==> (#[trigger] s.stack[j]).1 > 4)
            &&& d is None && s.visited <= 20_000 ==> s.next_root >= s.roots && forall|j: int|
                0 <= j < s.stack.len() ==> (#[trigger] s.stack[j]).1 > 4
            &&& t.names == s.names && t.visited == s.visited
        }),
{
    lemma_near(s.stack);
    let stack = near(s.stack);
    if stack.len() > 0 {
        let k = stack.len() - 1;
        assert(s.stack[k] == stack.last());
        assert(stack.drop_last() =~= s.stack.take(k));
    }
}

proof fn lemma_near(stack: Seq<(usize, usize)>)
    ensures
        near(stack).len() <= stack.len(),
        near(stack) == stack.take(near(stack).len() as int),
        near(stack).len() > 0 ==> near(stack).last().1 <= 4,
        forall|j: int| near(stack).len() <= j < stack.len() ==> (#[trigger] stack[j]).1 > 4,
    decreases stack.len(),
{
    if stack.len() > 0 && stack.last().1 > SCAN_MAX_DEPTH {
        let front = stack.drop_last();
        lemma_near(front);
        assert(near(stack) =~= stack.take(near(stack).len() as int));
        assert forall|j: int| near(stack).len() <= j < stack.len() implies (#[trigger] stack[j]).1
            > 4 by {
            if j < front.len() {
                assert(front[j] == stack[j]);
            }
        }
    } else {
        assert(stack.take(stack.len() as int) =~= stack);
    }
}

/// Each entry that is seen counts, up to one more than 20000. A directory is kept to be read
/// later, one further down; a font is kept with its number; nothing else is kept.
pub proof fn law_entries_are_seen(s: Scan, id: usize, is_dir: bool, name: Option<Seq<char>>)
    ensures
        ({
            let t = s.saw(id, is_dir, name);
            let font = name is Some && font_name(s.platform, outside::lowercase_text(name->0));
            &&& s.visited > 20_000 ==> t == s
            &&& s.visited <= 20_000 ==> t.visited == s.visited + 1
            &&& s.visited < 20_000 && is_dir ==> t.stack == s.stack.push(
                (id, (s.depth + 1) as usize),
            ) && t.names == s.names
            &&& s.visited < 20_000 && !is_dir && font ==> t.names == s.names.push(name->0)
                && t.files == s.files.push(id) && t.stack == s.stack
            &&& s.visited >= 20_000 || !is_dir && !font ==> t.stack == s.stack && t.names
                == s.names && t.files == s.files
            &&& t.next_root == s.next_root && t.depth == s.depth
        }),
{
}

/// A name holds a part if every character of the part stands somewhere in it.
pub proof fn law_what_a_name_holds(s: Seq<char>, part: Seq<char>)
    ensures
        holds(s, part) <==> exists|k: int| #[trigger] crate::text_laws::spelled_at(s, part, k),
{
    crate::text_laws::law_find(s, part, 0);
    if exists|k: int| #[trigger] crate::text_laws::spelled_at(s, part, k) {
        let k = choose|k: int| #[trigger] crate::text_laws::spelled_at(s, part, k);
        if text::find_from(s, part, 0) is None {
            assert(!crate::text_laws::spelled_at(s, part, k));
        }
    }
}

/// Fonts are looked for in the two directories of the system, and in two below that of the user
/// if there is one.
pub proof fn law_directories_with_fonts(p: Platform, home: Seq<char>)
    ensures
        dirs(p, None).len() == 2 && dirs(p, Some(home)).len() == 4,
        dirs(p, None)[0] == "/usr/share/fonts"@ && dirs(p, None)[1] == "/usr/local/share/fonts"@,
        dirs(p, Some(home)).take(2) == dirs(p, None),
        dirs(p, Some(home))[2] == paths::path_in(p, home, ".local/share/fonts"@),
        dirs(p, Some(home))[3] == paths::path_in(p, home, ".fonts"@),
{
    assert(dirs(p, Some(home)).take(2) =~= dirs(p, None));
}

} // verus!
