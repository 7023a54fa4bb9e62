//! Directories and names in paths, as each system reads them.
//!
//! On Windows a path may begin with a prefix: a drive (`C:`), a share (`\\server\share`), a
//! device (`\\.\COM1`), or one that is taken to the letter (`\\?\` and what it names). Behind the
//! last kind only backslashes part components, and a dot is a component like any other.

use crate::startup::Platform;
use crate::text;
use vstd::prelude::*;
use vstd::string::*;

verus! {

/// A character parts the components of a path: a slash, and on Windows a backslash too.
pub open spec fn is_separator(p: Platform, c: char) -> bool {
    c == '/' || (p is Windows && c == '\\')
}

/// A character parts the components behind a prefix that is, or is not, taken to the letter.
pub open spec fn splits(p: Platform, strict: bool, c: char) -> bool {
    if strict {
        c == '\\'
    } else {
        is_separator(p, c)
    }
}

/// The character that is put between two components.
pub open spec fn separator(p: Platform) -> char {
    if p is Windows {
        '\\'
    } else {
        '/'
    }
}

/// Where the component that begins at `i` ends.
pub open spec fn part_end(p: Platform, strict: bool, path: Seq<char>, i: int) -> int
    decreases path.len() - i,
{
    if 0 <= i < path.len() && !splits(p, strict, path[i]) {
        part_end(p, strict, path, i + 1)
    } else {
        i
    }
}

/// A letter and a colon stand at position `i`.
pub open spec fn drive_at(path: Seq<char>, i: int) -> bool {
    i + 2 <= path.len() && ('a' <= path[i] <= 'z' || 'A' <= path[i] <= 'Z') && path[i + 1] == ':'
}

/// The path begins with a drive.
pub open spec fn has_drive(p: Platform, path: Seq<char>) -> bool {
    p is Windows && drive_at(path, 0)
}

/// The path begins with two separators, which only mean something on Windows.
pub open spec fn begins_twice(p: Platform, path: Seq<char>) -> bool {
    p is Windows && path.len() >= 2 && is_separator(p, path[0]) && is_separator(p, path[1])
}

/// The path begins with a prefix that is taken to the letter.
pub open spec fn is_strict(p: Platform, path: Seq<char>) -> bool {
    p is Windows && path.len() >= 4 && path[0] == '\\' && path[1] == '\\' && path[2] == '?'
        && path[3] == '\\'
}

/// The path begins with a device.
pub open spec fn has_device(p: Platform, path: Seq<char>) -> bool {
    begins_twice(p, path) && path.len() >= 4 && path[2] == '.' && is_separator(p, path[3])
}

/// Where the prefix of a path ends that is taken to the letter: behind a share, behind a drive,
/// or behind one component.
pub open spec fn strict_prefix_end(p: Platform, path: Seq<char>) -> int {
    if path.len() >= 8 && path[4] == 'U' && path[5] == 'N' && path[6] == 'C' && is_separator(
        p,
        path[7],
    ) {
        let server = part_end(p, true, path, 8);
        let share = part_end(p, true, path, server + 1);
        if server < path.len() && share > server + 1 {
            share
        } else {
            server
        }
    } else if drive_at(path, 4) && (path.len() == 6 || is_separator(p, path[6])) {
        6
    } else {
        part_end(p, true, path, 4)
    }
}

/// How many characters at the beginning of a path are its prefix.
pub open spec fn prefix_len(p: Platform, path: Seq<char>) -> int {
    if is_strict(p, path) {
        strict_prefix_end(p, path)
    } else if has_device(p, path) {
        part_end(p, false, path, 4)
    } else if begins_twice(p, path) {
        let server = part_end(p, false, path, 2);
        let share = part_end(p, false, path, server + 1);
        if server > 2 && server < path.len() && share > server + 1 {
            share
        } else {
            0
        }
    } else if has_drive(p, path) {
        2
    } else {
        0
    }
}

/// A separator stands behind the prefix: the path leads from the root.
pub open spec fn has_root(p: Platform, path: Seq<char>) -> bool {
    let d = prefix_len(p, path);
    d < path.len() && is_separator(p, path[d])
}

/// Where the components of a path begin that come behind its prefix, and behind its root or a
/// leading dot.
pub open spec fn body_start(p: Platform, path: Seq<char>) -> int {
    let d = prefix_len(p, path);
    if has_root(p, path) {
        d + 1
    } else if (d == 0 || has_drive(p, path)) && d < path.len() && path[d] == '.' && (path.len() == d
        + 1 || is_separator(p, path[d + 1])) {
        d + 1
    } else {
        d
    }
}

/// Where the last component before `e` starts: behind a separator, or at `from`.
pub open spec fn component_start(
    p: Platform,
    strict: bool,
    path: Seq<char>,
    from: int,
    e: int,
) -> int
    decreases e - from,
{
    if from < e && !splits(p, strict, path[e - 1]) {
        component_start(p, strict, path, from, e - 1)
    } else {
        e
    }
}

/// The component says nothing: it is empty, or a dot that is not taken to the letter.
pub open spec fn idle(strict: bool, component: Seq<char>) -> bool {
    component.len() == 0 || (!strict && component == seq!['.'])
}

/// The end of the path once its last component, which starts at `c`, is taken off together
/// with the separator before it.
pub open spec fn before_component(from: int, c: int) -> int {
    if c > from {
        c - 1
    } else {
        from
    }
}

/// The end of a path without the components at its end that say nothing.
pub open spec fn drop_idle(p: Platform, strict: bool, path: Seq<char>, from: int, e: int) -> int
    decreases e - from,
{
    let c = component_start(p, strict, path, from, e);
    if from < e && from <= c <= e && idle(strict, path.subrange(c, e)) && before_component(from, c)
        < e {
        drop_idle(p, strict, path, from, before_component(from, c))
    } else {
        e
    }
}

/// The component is one or two dots: it is no name.
pub open spec fn is_dots(component: Seq<char>) -> bool {
    component == seq!['.'] || component == seq!['.', '.']
}

/// Where the last component of a path begins and ends, if it is a name.
pub open spec fn name_bounds(p: Platform, path: Seq<char>) -> Option<(int, int)> {
    let strict = is_strict(p, path);
    let from = body_start(p, path);
    let e = drop_idle(p, strict, path, from, path.len() as int);
    let c = component_start(p, strict, path, from, e);
    if e <= from || is_dots(path.subrange(c, e)) {
        None
    } else {
        Some((c, e))
    }
}

/// The name of the file that a path leads to. A path that ends in two dots has none.
pub open spec fn name_of(p: Platform, path: Seq<char>) -> Option<Seq<char>> {
    match name_bounds(p, path) {
        Some((c, e)) => Some(path.subrange(c, e)),
        None => None,
    }
}

/// The root as a component.
pub open spec fn root_part() -> Seq<char> {
    seq!['\\']
}

/// The components from position `i` on that say something.
pub open spec fn parts_from(strict: bool, path: Seq<char>, i: int) -> Seq<Seq<char>>
    decreases path.len() - i,
{
    let e = part_end(Platform::Windows, strict, path, i);
    if i < 0 || i >= path.len() || e < i {
        Seq::empty()
    } else {
        let part = path.subrange(i, e);
        (if idle(strict, part) {
            Seq::empty()
        } else {
            seq![part]
        }) + (if e < path.len() {
            parts_from(strict, path, e + 1)
        } else {
            Seq::empty()
        })
    }
}

/// The root, if the path leads from it, and the components of the path.
pub open spec fn body_parts(strict: bool, path: Seq<char>) -> Seq<Seq<char>> {
    let w = Platform::Windows;
    (if has_root(w, path) {
        seq![root_part()]
    } else {
        Seq::empty()
    }) + parts_from(strict, path, body_start(w, path))
}

/// The prefix, the root and the components of a path, with one more component behind them: the
/// root takes the place of all but the prefix, and two dots that of a name.
pub open spec fn with_part(parts: Seq<Seq<char>>, part: Seq<char>) -> Seq<Seq<char>> {
    if part == root_part() {
        parts.take(1).push(part)
    } else if part == seq!['.', '.'] {
        if parts.len() > 1 && parts.last() != root_part() && !is_dots(parts.last()) {
            parts.drop_last()
        } else {
            parts
        }
    } else {
        parts.push(part)
    }
}

/// The same with several components.
pub open spec fn with_parts(parts: Seq<Seq<char>>, more: Seq<Seq<char>>) -> Seq<Seq<char>>
    decreases more.len(),
{
    if more.len() == 0 {
        parts
    } else {
        with_part(with_parts(parts, more.drop_last()), more.last())
    }
}

/// The path with these components: a backslash between each two, of which none is the root.
pub open spec fn written(parts: Seq<Seq<char>>) -> Seq<char>
    decreases parts.len(),
{
    if parts.len() == 0 {
        Seq::empty()
    } else if parts.len() == 1 || parts.last() == root_part() || parts[parts.len() - 2]
        == root_part() {
        written(parts.drop_last()) + parts.last()
    } else {
        written(parts.drop_last()).push('\\') + parts.last()
    }
}

/// `dir`, which is taken to the letter, with `name` in it. Dots in the name are worked out.
pub open spec fn strict_path_in(dir: Seq<char>, name: Seq<char>) -> Seq<char> {
    let front = seq![dir.take(prefix_len(Platform::Windows, dir))] + body_parts(true, dir);
    written(with_parts(front, body_parts(false, name)))
}

/// `dir` with `name` in it. A name with a prefix stands for itself, and one that leads from the
/// root for itself behind the prefix of `dir`.
pub open spec fn path_in(p: Platform, dir: Seq<char>, name: Seq<char>) -> Seq<char> {
    if prefix_len(p, name) > 0 {
        name
    } else if is_strict(p, dir) && name.len() > 0 {
        strict_path_in(dir, name)
    } else if has_root(p, name) {
        dir.take(prefix_len(p, dir)) + name
    } else if dir.len() == 0 || is_separator(p, dir.last()) || (has_drive(p, dir) && dir.len()
        == 2) {
        dir + name
    } else {
        dir.push(separator(p)) + name
    }
}

/// The path of the file `name` next to the file that `path` leads to. A path without a name is
/// taken for the directory.
pub open spec fn sibling(p: Platform, path: Seq<char>, name: Seq<char>) -> Seq<char> {
    let from = body_start(p, path);
    match name_bounds(p, path) {
        Some((c, _)) => path_in(
            p,
            path.take(drop_idle(p, is_strict(p, path), path, from, before_component(from, c))),
            name,
        ),
        None => path_in(p, path, name),
    }
}

fn parts_at(p: Platform, strict: bool, c: char) -> (r: bool)
    ensures
        r == splits(p, strict, c),
{
    if strict {
        c == '\\'
    } else {
        c == '/' || (p == Platform::Windows && c == '\\')
    }
}

fn find_part_end(p: Platform, strict: bool, path: &[char], i: usize) -> (e: usize)
    requires
        i <= path@.len(),
    ensures
        e == part_end(p, strict, path@, i as int),
        i <= e <= path@.len(),
{
    let mut e: usize = i;
    while e < path.len() && !parts_at(p, strict, path[e])
        invariant
            i <= e <= path@.len(),
            part_end(p, strict, path@, i as int) == part_end(p, strict, path@, e as int),
        decreases path@.len() - e,
    {
        e += 1;
    }
    e
}

fn is_drive_at(path: &[char], i: usize) -> (r: bool)
    requires
        i <= path@.len(),
    ensures
        r == drive_at(path@, i as int),
{
    path.len() - i >= 2 && (('a' <= path[i] && path[i] <= 'z') || ('A' <= path[i] && path[i]
        <= 'Z')) && path[i + 1] == ':'
}

fn starts_strict(p: Platform, path: &[char]) -> (r: bool)
    ensures
        r == is_strict(p, path@),
{
    p == Platform::Windows && path.len() >= 4 && path[0] == '\\' && path[1] == '\\' && path[2] == '?'
        && path[3] == '\\'
}

/// Where the share ends whose server begins at `i`, and where the server ends.
fn find_share(p: Platform, strict: bool, path: &[char], i: usize) -> (r: (usize, usize))
    requires
        i <= path@.len(),
    ensures
        r.0 == part_end(p, strict, path@, i as int),
        i <= r.0 <= r.1 <= path@.len(),
        ({
            let share = part_end(p, strict, path@, r.0 + 1);
            if r.0 < path@.len() && share > r.0 + 1 {
                r.1 == share
            } else {
                r.1 == r.0
            }
        }),
{
    let server = find_part_end(p, strict, path, i);
    if server < path.len() {
        let share = find_part_end(p, strict, path, server + 1);
        if share > server + 1 {
            return (server, share);
        }
    }
    (server, server)
}

fn find_prefix(p: Platform, path: &[char]) -> (d: usize)
    ensures
        d == prefix_len(p, path@),
        d <= path@.len(),
{
    let n: usize = path.len();
    if p != Platform::Windows || n < 2 {
        return 0;
    }
    if starts_strict(p, path) {
        if n >= 8 && path[4] == 'U' && path[5] == 'N' && path[6] == 'C' && parts_at(
            p,
            false,
            path[7],
        ) {
            return find_share(p, true, path, 8).1;
        }
        if is_drive_at(path, 4) && (n == 6 || parts_at(p, false, path[6])) {
            return 6;
        }
        return find_part_end(p, true, path, 4);
    }
    if parts_at(p, false, path[0]) && parts_at(p, false, path[1]) {
        if n >= 4 && path[2] == '.' && parts_at(p, false, path[3]) {
            return find_part_end(p, false, path, 4);
        }
        let (server, share) = find_share(p, false, path, 2);
        return if server > 2 && share > server {
            share
        } else {
            0
        };
    }
    if is_drive_at(path, 0) {
        2
    } else {
        0
    }
}

fn leads_from_root(p: Platform, path: &[char], d: usize) -> (r: bool)
    requires
        d == prefix_len(p, path@),
    ensures
        r == has_root(p, path@),
{
    d < path.len() && parts_at(p, false, path[d])
}

fn find_body(p: Platform, path: &[char]) -> (from: usize)
    ensures
        from == body_start(p, path@),
        from <= path@.len(),
{
    let n: usize = path.len();
    let d = find_prefix(p, path);
    if leads_from_root(p, path, d) {
        return d + 1;
    }
    let relative: bool = d == 0 || (p == Platform::Windows && is_drive_at(path, 0));
    if relative && d < n && path[d] == '.' && (n == d + 1 || parts_at(p, false, path[d + 1])) {
        d + 1
    } else {
        d
    }
}

fn find_component(p: Platform, strict: bool, path: &[char], from: usize, e: usize) -> (c: usize)
    requires
        from <= e <= path@.len(),
    ensures
        c == component_start(p, strict, path@, from as int, e as int),
        from <= c <= e,
{
    let mut c: usize = e;
    while from < c && !parts_at(p, strict, path[c - 1])
        invariant
            from <= c <= e <= path@.len(),
            component_start(p, strict, path@, from as int, e as int) == component_start(
                p,
                strict,
                path@,
                from as int,
                c as int,
            ),
        decreases c,
    {
        c -= 1;
    }
    c
}

fn is_one_dot(path: &[char], c: usize, e: usize) -> (r: bool)
    requires
        c <= e <= path@.len(),
    ensures
        r == (path@.subrange(c as int, e as int) == seq!['.']),
{
    let r: bool = e - c == 1 && path[c] == '.';
    proof {
        let part = path@.subrange(c as int, e as int);
        if r {
            assert(part =~= seq!['.']);
        }
        if part == seq!['.'] {
            assert(part.len() == 1 && part[0] == '.');
        }
    }
    r
}

fn is_two_dots(path: &[char], c: usize, e: usize) -> (r: bool)
    requires
        c <= e <= path@.len(),
    ensures
        r == (path@.subrange(c as int, e as int) == seq!['.', '.']),
{
    let r: bool = e - c == 2 && path[c] == '.' && path[c + 1] == '.';
    proof {
        let part = path@.subrange(c as int, e as int);
        if r {
            assert(part =~= seq!['.', '.']);
        }
        if part == seq!['.', '.'] {
            assert(part.len() == 2 && part[0] == '.' && part[1] == '.');
        }
    }
    r
}

fn skip_idle(p: Platform, strict: bool, path: &[char], from: usize, e: usize) -> (r: usize)
    requires
        from <= e <= path@.len(),
    ensures
        r == drop_idle(p, strict, path@, from as int, e as int),
        from <= r <= e,
    decreases e,
{
    if from >= e {
        return e;
    }
    let c = find_component(p, strict, path, from, e);
    if c == e || (!strict && is_one_dot(path, c, e)) {
        let before: usize = if c > from {
            c - 1
        } else {
            from
        };
        skip_idle(p, strict, path, from, before)
    } else {
        e
    }
}

fn find_name(p: Platform, path: &[char]) -> (r: Option<(usize, usize)>)
    ensures
        match r {
            Some((c, e)) => name_bounds(p, path@) == Some((c as int, e as int)) && body_start(
                p,
                path@,
            ) <= c <= e <= path@.len(),
            None => name_bounds(p, path@) is None,
        },
{
    let strict = starts_strict(p, path);
    let from = find_body(p, path);
    let e = skip_idle(p, strict, path, from, path.len());
    let c = find_component(p, strict, path, from, e);
    if e <= from || is_one_dot(path, c, e) || is_two_dots(path, c, e) {
        None
    } else {
        Some((c, e))
    }
}

/// The name of the file that a path leads to.
pub fn file_name(p: Platform, path: &str) -> (r: Option<String>)
    ensures
        match r {
            Some(name) => name_of(p, path@) == Some(name@),
            None => name_of(p, path@) is None,
        },
{
    let chars = text::chars_of(path);
    match find_name(p, chars.as_slice()) {
        Some((c, e)) => Some(text::string_of(chars.as_slice(), c, e)),
        None => None,
    }
}

/// The values of some components.
pub open spec fn parts_of(parts: Seq<Vec<char>>) -> Seq<Seq<char>> {
    parts.map_values(|v: Vec<char>| v@)
}

fn copy_part(path: &[char], i: usize, e: usize) -> (r: Vec<char>)
    requires
        i <= e <= path@.len(),
    ensures
        r@ == path@.subrange(i as int, e as int),
{
    let mut r: Vec<char> = Vec::new();
    let mut k: usize = i;
    while k < e
        invariant
            i <= k <= e <= path@.len(),
            r@ == path@.subrange(i as int, k as int),
        decreases e - k,
    {
        r.push(path[k]);
        k += 1;
        assert(r@ =~= path@.subrange(i as int, k as int));
    }
    r
}

fn push_part(parts: &mut Vec<Vec<char>>, part: Vec<char>)
    ensures
        parts_of(final(parts)@) == parts_of(old(parts)@).push(part@),
        final(parts)@.len() == old(parts)@.len() + 1,
{
    let ghost before = parts@;
    parts.push(part);
    assert(parts_of(parts@) =~= parts_of(before).push(part@));
}

fn root_chars() -> (r: Vec<char>)
    ensures
        r@ == root_part(),
{
    let mut r: Vec<char> = Vec::new();
    r.push('\\');
    assert(r@ =~= root_part());
    r
}

fn is_root(part: &Vec<char>) -> (r: bool)
    ensures
        r == (part@ == root_part()),
{
    let r: bool = part.len() == 1 && part[0] == '\\';
    proof {
        if r {
            assert(part@ =~= root_part());
        }
    }
    r
}

/// Appends the root, if the path leads from it, and the components of the path.
fn push_body(strict: bool, path: &[char], parts: &mut Vec<Vec<char>>)
    ensures
        parts_of(final(parts)@) == parts_of(old(parts)@) + body_parts(strict, path@),
{
    let w = Platform::Windows;
    let ghost start = parts_of(parts@);
    let d = find_prefix(w, path);
    if leads_from_root(w, path, d) {
        push_part(parts, root_chars());
    }
    let from = find_body(w, path);
    let n: usize = path.len();
    let mut i: usize = from;
    let mut more: bool = true;
    let ghost all = start + body_parts(strict, path@);
    assert(all =~= parts_of(parts@) + parts_from(strict, path@, i as int));
    while more && i < n
        invariant
            n == path@.len(),
            i <= n,
            w is Windows,
            more ==> all == parts_of(parts@) + parts_from(strict, path@, i as int),
            !more ==> all == parts_of(parts@),
        decreases n - i, (if more { 1int } else { 0 }),
    {
        let e = find_part_end(w, strict, path, i);
        let ghost before = parts_of(parts@);
        let ghost part = path@.subrange(i as int, e as int);
        let ghost rest = if e < n {
            parts_from(strict, path@, e + 1)
        } else {
            Seq::empty()
        };
        if !(e == i || (!strict && is_one_dot(path, i, e))) {
            push_part(parts, copy_part(path, i, e));
            assert(before + (seq![part] + rest) =~= parts_of(parts@) + rest);
        } else {
            assert(before + (Seq::<Seq<char>>::empty() + rest) =~= parts_of(parts@) + rest);
        }
        if e < n {
            i = e + 1;
        } else {
            more = false;
            assert(parts_of(parts@) + rest =~= parts_of(parts@));
        }
    }
    assert(more ==> parts_of(parts@) + parts_from(strict, path@, i as int) =~= parts_of(parts@));
}

fn add_part(parts: &mut Vec<Vec<char>>, part: &Vec<char>)
    requires
        old(parts)@.len() > 0,
    ensures
        parts_of(final(parts)@) == with_part(parts_of(old(parts)@), part@),
        final(parts)@.len() > 0,
{
    let ghost before = parts@;
    if is_root(part) {
        parts.truncate(1);
        assert(parts_of(parts@) =~= parts_of(before).take(1));
        push_part(parts, root_chars());
        return;
    }
    let own: &[char] = part.as_slice();
    assert(own@.subrange(0, own@.len() as int) =~= part@);
    if is_two_dots(own, 0, own.len()) {
        let n: usize = parts.len();
        let last: &Vec<char> = &parts[n - 1];
        assert(parts_of(parts@).last() == last@);
        let chars: &[char] = last.as_slice();
        assert(chars@.subrange(0, chars@.len() as int) =~= last@);
        if n > 1 && !is_root(last) && !is_one_dot(chars, 0, chars.len()) && !is_two_dots(
            chars,
            0,
            chars.len(),
        ) {
            let _ = parts.pop();
            assert(parts_of(parts@) =~= parts_of(before).drop_last());
        }
        return;
    }
    push_part(parts, copy_part(own, 0, own.len()));
}

fn write_parts(parts: &Vec<Vec<char>>) -> (r: String)
    ensures
        r@ == written(parts_of(parts@)),
{
    let ghost all = parts_of(parts@);
    let mut r = String::new();
    let mut k: usize = 0;
    assert(all.take(0) =~= Seq::empty());
    assert(r@ =~= Seq::empty());
    while k < parts.len()
        invariant
            k <= parts@.len(),
            all == parts_of(parts@),
            r@ == written(all.take(k as int)),
        decreases parts@.len() - k,
    {
        let part: &Vec<char> = &parts[k];
        proof {
            let now = all.take(k + 1);
            assert(now.drop_last() =~= all.take(k as int));
            assert(now.last() == part@);
            if k > 0 {
                assert(now[now.len() - 2] == parts@[k - 1]@);
            }
        }
        let ghost before = r@;
        if !(k == 0 || is_root(part) || is_root(&parts[k - 1])) {
            r.push('\\');
        }
        let own = text::string_of(part.as_slice(), 0, part.len());
        assert(own@ =~= part@);
        r.push_str(own.as_str());
        k += 1;
    }
    assert(all.take(k as int) =~= all);
    r
}

fn join_strict(dir: &[char], name: &[char]) -> (r: String)
    ensures
        r@ == strict_path_in(dir@, name@),
{
    let mut parts: Vec<Vec<char>> = Vec::new();
    let d = find_prefix(Platform::Windows, dir);
    push_part(&mut parts, copy_part(dir, 0, d));
    assert(parts_of(parts@) =~= seq![dir@.take(d as int)]);
    push_body(true, dir, &mut parts);
    let ghost front = parts_of(parts@);
    assert(front.len() == parts@.len());
    let mut more: Vec<Vec<char>> = Vec::new();
    assert(parts_of(more@) =~= Seq::empty());
    push_body(false, name, &mut more);
    let ghost all = body_parts(false, name@);
    assert(parts_of(more@) =~= all);
    let mut k: usize = 0;
    assert(all.take(0) =~= Seq::empty());
    while k < more.len()
        invariant
            k <= more@.len(),
            parts@.len() > 0,
            all == parts_of(more@),
            parts_of(parts@) == with_parts(front, all.take(k as int)),
        decreases more@.len() - k,
    {
        proof {
            assert(all.take(k + 1).drop_last() =~= all.take(k as int));
            assert(all.take(k + 1).last() == more@[k as int]@);
        }
        add_part(&mut parts, &more[k]);
        k += 1;
    }
    assert(all.take(k as int) =~= all);
    write_parts(&parts)
}

fn join_path(p: Platform, dir: &[char], end: usize, name: &str) -> (r: String)
    requires
        end <= dir@.len(),
    ensures
        r@ == path_in(p, dir@.take(end as int), name@),
{
    let base: &[char] = &dir[0..end];
    assert(base@ =~= dir@.take(end as int));
    let named = text::chars_of(name);
    let d = find_prefix(p, named.as_slice());
    if d > 0 {
        return name.to_owned();
    }
    if starts_strict(p, base) && named.len() > 0 {
        return join_strict(base, named.as_slice());
    }
    if leads_from_root(p, named.as_slice(), d) {
        let drive = find_prefix(p, base);
        let mut r = text::string_of(base, 0, drive);
        assert(r@ =~= base@.take(drive as int));
        r.push_str(name);
        return r;
    }
    let mut r = text::string_of(base, 0, end);
    assert(r@ =~= base@);
    let bare: bool = p == Platform::Windows && end == 2 && is_drive_at(base, 0);
    if end > 0 && !parts_at(p, false, base[end - 1]) && !bare {
        r.push(
            if p == Platform::Windows {
                '\\'
            } else {
                '/'
            },
        );
    }
    r.push_str(name);
    assert(r@ =~= path_in(p, base@, name@));
    r
}

/// `dir` with `name` in it.
pub fn joined(p: Platform, dir: &str, name: &str) -> (r: String)
    ensures
        r@ == path_in(p, dir@, name@),
{
    let chars = text::chars_of(dir);
    assert(chars@.take(chars@.len() as int) =~= chars@);
    join_path(p, chars.as_slice(), chars.len(), name)
}

/// The path of the file `name` next to the file that `path` leads to.
pub fn next_to(p: Platform, path: &str, name: &str) -> (r: String)
    ensures
        r@ == sibling(p, path@, name@),
{
    let chars = text::chars_of(path);
    let from = find_body(p, chars.as_slice());
    match find_name(p, chars.as_slice()) {
        Some((c, _)) => {
            let before: usize = if c > from {
                c - 1
            } else {
                from
            };
            let strict = starts_strict(p, chars.as_slice());
            let dir = skip_idle(p, strict, chars.as_slice(), from, before);
            join_path(p, chars.as_slice(), dir, name)
        },
        None => {
            assert(chars@.take(chars@.len() as int) =~= path@);
            join_path(p, chars.as_slice(), chars.len(), name)
        },
    }
}

proof fn lemma_component_start(p: Platform, strict: bool, path: Seq<char>, from: int, e: int)
    requires
        0 <= from <= e <= path.len(),
    ensures
        ({
            let c = component_start(p, strict, path, from, e);
            &&& from <= c <= e
            &&& forall|k: int| c <= k < e ==> !splits(p, strict, #[trigger] path[k])
            &&& c > from ==> splits(p, strict, path[c - 1])
        }),
    decreases e - from,
{
    if from < e && !splits(p, strict, path[e - 1]) {
        lemma_component_start(p, strict, path, from, e - 1);
    }
}

proof fn lemma_component_start_is(
    p: Platform,
    strict: bool,
    path: Seq<char>,
    from: int,
    e: int,
    c: int,
)
    requires
        0 <= from <= c <= e <= path.len(),
        forall|k: int| c <= k < e ==> !splits(p, strict, #[trigger] path[k]),
        c > from ==> splits(p, strict, path[c - 1]),
    ensures
        component_start(p, strict, path, from, e) == c,
{
    lemma_component_start(p, strict, path, from, e);
    let d = component_start(p, strict, path, from, e);
    if d < c {
        assert(!splits(p, strict, path[c - 1]));
    } else if c < d {
        assert(!splits(p, strict, path[d - 1]));
    }
}

/// The name at the end of a path is what stands behind its last separator, if that is neither
/// empty nor made of one dot or two.
pub proof fn law_name_stands_behind_the_last_separator(p: Platform, path: Seq<char>, c: int)
    requires
        0 <= body_start(p, path) <= c < path.len(),
        forall|k: int|
            c <= k < path.len() ==> !splits(p, is_strict(p, path), #[trigger] path[k]),
        c > body_start(p, path) ==> splits(p, is_strict(p, path), path[c - 1]),
        path.skip(c) != seq!['.'],
        path.skip(c) != seq!['.', '.'],
    ensures
        name_bounds(p, path) == Some((c, path.len() as int)),
        name_of(p, path) == Some(path.skip(c)),
{
    let strict = is_strict(p, path);
    let from = body_start(p, path);
    let n = path.len() as int;
    lemma_component_start_is(p, strict, path, from, n, c);
    assert(path.subrange(c, n) =~= path.skip(c));
    assert(drop_idle(p, strict, path, from, n) == n);
}

/// `name` can be that of a file where a slash parts the components: it is not empty, holds no
/// slash, and is not one dot or two.
pub open spec fn plain_name(name: Seq<char>) -> bool {
    &&& name.len() > 0
    &&& forall|k: int| 0 <= k < name.len() ==> #[trigger] name[k] != '/'
    &&& !(name.len() == 1 && name[0] == '.')
    &&& !(name.len() == 2 && name[0] == '.' && name[1] == '.')
}

/// Where only a slash parts the components, the path `dir/name` leads to `name`, whatever the
/// directory; so does `name` alone.
pub proof fn law_name_of_a_file(p: Platform, dir: Seq<char>, name: Seq<char>)
    requires
        !(p is Windows),
        plain_name(name),
    ensures
        name_of(p, dir.push('/') + name) == Some(name),
        name_of(p, name) == Some(name),
{
    let path = dir.push('/') + name;
    let c = dir.len() as int + 1;
    assert(path.skip(c) =~= name);
    assert forall|k: int| c <= k < path.len() implies !splits(p, false, #[trigger] path[k]) by {
        assert(path[k] == name[k - c]);
    }
    assert(path[c - 1] == '/');
    assert(body_start(p, path) <= c);
    lemma_not_dots(name);
    law_name_stands_behind_the_last_separator(p, path, c);
    assert(name.skip(0) =~= name);
    assert(name[0] != '/');
    assert(body_start(p, name) == 0) by {
        if name[0] == '.' && name.len() > 1 {
            assert(name[1] != '/');
        }
    }
    law_name_stands_behind_the_last_separator(p, name, 0);
}

proof fn lemma_not_dots(name: Seq<char>)
    requires
        plain_name(name),
    ensures
        name != seq!['.'],
        name != seq!['.', '.'],
{
    if name == seq!['.'] {
        assert(name.len() == 1 && name[0] == '.');
    }
    if name == seq!['.', '.'] {
        assert(name.len() == 2 && name[0] == '.' && name[1] == '.');
    }
}

/// A file in a directory: a slash stands between the two, unless the directory ends in one or
/// is empty.
pub proof fn law_file_in_a_directory(p: Platform, dir: Seq<char>, name: Seq<char>)
    requires
        !(p is Windows),
        plain_name(name),
    ensures
        dir.len() == 0 ==> path_in(p, dir, name) == name,
        dir.len() > 0 && dir.last() == '/' ==> path_in(p, dir, name) == dir + name,
        dir.len() > 0 && dir.last() != '/' ==> path_in(p, dir, name) == dir + seq!['/'] + name,
        name_of(p, path_in(p, dir, name)) == Some(name),
{
    assert(name[0] != '/');
    law_name_of_a_file(p, dir, name);
    if dir.len() == 0 {
        assert(dir + name =~= name);
    } else if dir.last() == '/' {
        law_name_of_a_file(p, dir.drop_last(), name);
        assert(dir.drop_last().push('/') =~= dir);
    } else {
        assert(dir.push('/') + name =~= dir + seq!['/'] + name);
    }
}

/// A file next to another one lies in the same directory: only the name is another.
pub proof fn law_file_next_to_another(
    p: Platform,
    dir: Seq<char>,
    name: Seq<char>,
    other: Seq<char>,
)
    requires
        !(p is Windows),
        plain_name(name),
        plain_name(other),
        dir.len() > 0,
        dir.last() != '/',
        dir.last() != '.',
    ensures
        sibling(p, dir + seq!['/'] + name, other) == dir + seq!['/'] + other,
        sibling(p, name, other) == other,
{
    let path = dir + seq!['/'] + name;
    assert(path =~= dir.push('/') + name);
    let n = dir.len() as int;
    let c = n + 1;
    let from = body_start(p, path);
    assert(path.skip(c) =~= name);
    assert forall|k: int| c <= k < path.len() implies !splits(p, false, #[trigger] path[k]) by {
        assert(path[k] == name[k - c]);
    }
    assert(path[n] == '/');
    assert(path[n - 1] == dir.last());
    assert(from <= n);
    lemma_not_dots(name);
    law_name_stands_behind_the_last_separator(p, path, c);
    assert(before_component(from, c) == n);
    lemma_component_start(p, false, path, from, n);
    let d = component_start(p, false, path, from, n);
    if from < n {
        assert(d < n) by {
            if d == n {
                if d > from {
                    assert(splits(p, false, path[n - 1]));
                }
            }
        }
        let part = path.subrange(d, n);
        assert(part[part.len() - 1] == dir.last());
        assert(!idle(false, part)) by {
            if part == seq!['.'] {
                assert(part[0] == '.');
            }
        }
    }
    assert(drop_idle(p, false, path, from, n) == n);
    assert(path.take(n) =~= dir);
    law_file_in_a_directory(p, dir, other);
    assert(name.skip(0) =~= name);
    assert(name[0] != '/');
    assert(body_start(p, name) == 0) by {
        if name[0] == '.' && name.len() > 1 {
            assert(name[1] != '/');
        }
    }
    law_name_stands_behind_the_last_separator(p, name, 0);
    assert(name.take(0) =~= Seq::empty());
    assert(drop_idle(p, false, name, 0, 0) == 0);
    law_file_in_a_directory(p, Seq::empty(), other);
}

/// A slash parts the components of a path, and on Windows a backslash does too. On Windows a
/// backslash is put between two of them, and a slash elsewhere.
pub proof fn law_what_parts_components(p: Platform, c: char)
    ensures
        is_separator(p, c) <==> c as u32 == 0x2f || p is Windows && c as u32 == 0x5c,
        p is Windows ==> separator(p) as u32 == 0x5c,
        !(p is Windows) ==> separator(p) as u32 == 0x2f,
{
}

/// On Windows the path `dir\\name` leads to `name`, where `dir` begins with a drive.
pub proof fn law_name_of_a_file_on_a_drive(dir: Seq<char>, name: Seq<char>)
    requires
        plain_name(name),
        forall|k: int| 0 <= k < name.len() ==> #[trigger] name[k] != '\\',
        dir.len() >= 2,
        'a' <= dir[0] <= 'z' || 'A' <= dir[0] <= 'Z',
        dir[1] == ':',
    ensures
        name_of(Platform::Windows, dir.push('\\') + name) == Some(name),
        prefix_len(Platform::Windows, dir.push('\\') + name) == 2,
{
    let p = Platform::Windows;
    let path = dir.push('\\') + name;
    let c = dir.len() as int + 1;
    assert(path[0] == dir[0] && path[1] == ':');
    assert(path.skip(c) =~= name);
    assert forall|k: int| c <= k < path.len() implies !splits(p, false, #[trigger] path[k]) by {
        assert(path[k] == name[k - c]);
    }
    assert(path[c - 1] == '\\');
    assert(!is_strict(p, path));
    assert(prefix_len(p, path) == 2);
    assert(body_start(p, path) <= c);
    lemma_not_dots(name);
    law_name_stands_behind_the_last_separator(p, path, c);
}

/// A separator at the end of a path, or one with a dot behind it, says nothing: the path leads
/// to the same file. A path that ends in two dots leads to none by name.
pub proof fn law_end_that_says_nothing(p: Platform, dir: Seq<char>, name: Seq<char>)
    requires
        !(p is Windows),
        plain_name(name),
    ensures
        name_of(p, dir + seq!['/'] + name + seq!['/']) == Some(name),
        name_of(p, dir + seq!['/'] + name + seq!['/', '.']) == Some(name),
        name_of(p, dir + seq!['/'] + name + seq!['/', '.', '.']) is None,
{
    let c = dir.len() as int + 1;
    let n = c + name.len();
    let front = dir + seq!['/'] + name;
    lemma_not_dots(name);
    let ends = seq![seq!['/'], seq!['/', '.'], seq!['/', '.', '.']];
    assert forall|t: int| 0 <= t < 3 implies {
        let path = front + #[trigger] ends[t];
        let from = body_start(p, path);
        &&& 0 <= from <= c
        &&& component_start(p, false, path, from, n) == c
        &&& path.subrange(c, n) == name
        &&& drop_idle(p, false, path, from, n) == n
        &&& component_start(p, false, path, from, n + 1) == n + 1
        &&& drop_idle(p, false, path, from, n + 1) == n
    } by {
        let path = front + ends[t];
        let from = body_start(p, path);
        assert(ends[t][0] == '/');
        assert(path[n] == '/');
        assert(path[c - 1] == '/');
        assert forall|k: int| c <= k < n implies !splits(p, false, #[trigger] path[k]) by {
            assert(path[k] == name[k - c]);
        }
        lemma_component_start_is(p, false, path, from, n, c);
        assert(path.subrange(c, n) =~= name);
        lemma_component_start_is(p, false, path, from, n + 1, n + 1);
        assert(path.subrange(n + 1, n + 1).len() == 0);
        assert(!idle(false, name));
        assert(drop_idle(p, false, path, from, n) == n);
        assert(before_component(from, n + 1) == n);
        assert(drop_idle(p, false, path, from, n + 1) == n);
    }
    let one = front + seq!['/'];
    assert(one == front + ends[0]);
    assert(one.len() == n + 1);
    let two = front + seq!['/', '.'];
    assert(two == front + ends[1]);
    let from = body_start(p, two);
    assert(two[n] == '/' && two[n + 1] == '.');
    lemma_component_start_is(p, false, two, from, n + 2, n + 1);
    assert(two.subrange(n + 1, n + 2) =~= seq!['.']);
    assert(drop_idle(p, false, two, from, n) == n);
    assert(before_component(from, n + 1) == n);
    let three = front + seq!['/', '.', '.'];
    assert(three == front + ends[2]);
    let start = body_start(p, three);
    assert(three[n] == '/' && three[n + 1] == '.' && three[n + 2] == '.');
    lemma_component_start_is(p, false, three, start, n + 3, n + 1);
    assert(three.subrange(n + 1, n + 3) =~= seq!['.', '.']);
    assert(seq!['.', '.'].len() == 2 && seq!['.'].len() == 1);
    assert(!idle(false, three.subrange(n + 1, n + 3)));
}

} // verus!
