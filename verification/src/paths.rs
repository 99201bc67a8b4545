//! File paths as texts: when two are the same, and a name in a directory.
//!
//! On Unix and on macOS `/` stands between the components of a path. On Windows
//! `\` and `/` do, and a path may start with a prefix: a disk (`C:`), a share or a
//! device (`\\server\share`, `\\.\COM1`), or a verbatim one (`\\?\C:`), behind
//! which only `\` separates.

use vstd::prelude::*;
use vstd::string::*;

use crate::platform::Platform;
use crate::text::{self, chars_eq, chars_of, has_prefix, is_text, skip_chars, string_of, take_chars};

verus! {

// ---------------------------------------------------------------------------
// Prefixes

/// What a path on Windows starts with.
#[derive(Debug, Clone, Copy, PartialEq, Eq, Structural)]
pub enum PrefixKind {
    Absent,
    /// A drive letter and a colon.
    Disk,
    /// A share or a device.
    Network,
    /// Anything behind `\\?\`.
    Verbatim,
}

/// `c`, or `\` where it is a separator on Windows.
pub open spec fn backslashed_char(c: char) -> char {
    if c == '/' {
        '\\'
    } else {
        c
    }
}

/// `path` with `\` for each `/`.
pub open spec fn backslashed(path: Seq<char>) -> Seq<char> {
    path.map_values(|c: char| backslashed_char(c))
}

fn with_backslashes(path: &[char]) -> (r: Vec<char>)
    ensures
        r@ == backslashed(path@),
{
    let mut r: Vec<char> = Vec::new();
    for i in 0..path.len()
        invariant
            r@ == backslashed(path@.take(i as int)),
    {
        r.push(if path[i] == '/' { '\\' } else { path[i] });
        assert(r@ =~= backslashed(path@.take(i + 1)));
    }
    assert(path@.take(path@.len() as int) =~= path@);
    r
}

/// Whether a drive letter and a colon stand at index `i`.
pub open spec fn is_drive_at(path: Seq<char>, i: int) -> bool {
    i + 2 <= path.len() && text::is_ascii_letter(path[i]) && path[i + 1] == ':'
}

fn has_drive_at(path: &[char], i: usize) -> (r: bool)
    requires
        i <= path@.len(),
    ensures
        r == is_drive_at(path@, i as int),
{
    path.len() - i >= 2 && text::ascii_letter(path[i]) && path[i + 1] == ':'
}

/// Where the second of two names, with `\` between them, ends, from `from` on; where
/// there is no second one, where the first ends.
pub open spec fn two_names_end(path: Seq<char>, from: int) -> int {
    let first = text::position_of(path, '\\', from);
    let second = text::position_of(path, '\\', first + 1);
    if first + 1 < second {
        second
    } else {
        first
    }
}

fn end_of_two_names(path: &[char], from: usize) -> (r: usize)
    requires
        from <= path@.len(),
    ensures
        r == two_names_end(path@, from as int),
        r <= path@.len(),
{
    let first: usize = text::position(path, '\\', from);
    if first == path.len() {
        return first;
    }
    let second: usize = text::position(path, '\\', first + 1);
    if first + 1 < second {
        second
    } else {
        first
    }
}

/// The prefix of a path on Windows, and its length.
pub open spec fn windows_prefix(path: Seq<char>) -> (PrefixKind, int) {
    let plain = backslashed(path);
    if "\\\\?\\"@.is_prefix_of(path) {
        if "\\\\?\\UNC\\"@.is_prefix_of(path) {
            (PrefixKind::Verbatim, two_names_end(path, 8))
        } else if is_drive_at(path, 4) && (path.len() == 6 || path[6] == '\\') {
            (PrefixKind::Verbatim, 6)
        } else {
            (PrefixKind::Verbatim, text::position_of(path, '\\', 4))
        }
    } else if "\\\\.\\"@.is_prefix_of(plain) {
        (PrefixKind::Network, text::position_of(plain, '\\', 4))
    } else if "\\\\"@.is_prefix_of(plain) {
        let server = text::position_of(plain, '\\', 2);
        let share = text::position_of(plain, '\\', server + 1);
        if 2 < server && server + 1 < share {
            (PrefixKind::Network, share)
        } else {
            (PrefixKind::Absent, 0)
        }
    } else if is_drive_at(path, 0) {
        (PrefixKind::Disk, 2)
    } else {
        (PrefixKind::Absent, 0)
    }
}

fn find_windows_prefix(path: &[char]) -> (r: (PrefixKind, usize))
    ensures
        windows_prefix(path@) == (r.0, r.1 as int),
        r.1 <= path@.len(),
{
    proof {
        reveal_strlit("\\\\?\\");
        reveal_strlit("\\\\?\\UNC\\");
        reveal_strlit("\\\\.\\");
        reveal_strlit("\\\\");
    }
    let plain = with_backslashes(path);
    if has_prefix(path, "\\\\?\\") {
        if has_prefix(path, "\\\\?\\UNC\\") {
            return (PrefixKind::Verbatim, end_of_two_names(path, 8));
        }
        if has_drive_at(path, 4) && (path.len() == 6 || path[6] == '\\') {
            return (PrefixKind::Verbatim, 6);
        }
        return (PrefixKind::Verbatim, text::position(path, '\\', 4));
    }
    if has_prefix(&plain, "\\\\.\\") {
        return (PrefixKind::Network, text::position(&plain, '\\', 4));
    }
    if has_prefix(&plain, "\\\\") {
        let server: usize = text::position(&plain, '\\', 2);
        if 2 < server && server < plain.len() {
            let share: usize = text::position(&plain, '\\', server + 1);
            if server + 1 < share {
                return (PrefixKind::Network, share);
            }
        }
        return (PrefixKind::Absent, 0);
    }
    if has_drive_at(path, 0) {
        return (PrefixKind::Disk, 2);
    }
    (PrefixKind::Absent, 0)
}

// ---------------------------------------------------------------------------
// Components

/// The kind of prefix that a path has, and its length. There is none but on Windows.
pub open spec fn prefix_of(platform: Platform, path: Seq<char>) -> (PrefixKind, int) {
    if platform is Windows {
        windows_prefix(path)
    } else {
        (PrefixKind::Absent, 0)
    }
}

fn find_prefix(platform: Platform, path: &[char]) -> (r: (PrefixKind, usize))
    ensures
        prefix_of(platform, path@) == (r.0, r.1 as int),
        r.1 <= path@.len(),
{
    match platform {
        Platform::Windows => find_windows_prefix(path),
        _ => (PrefixKind::Absent, 0),
    }
}

/// What stands between two components.
pub open spec fn separator(platform: Platform) -> char {
    if platform is Windows {
        '\\'
    } else {
        '/'
    }
}

fn separator_on(platform: Platform) -> (r: char)
    ensures
        r == separator(platform),
{
    match platform {
        Platform::Windows => '\\',
        _ => '/',
    }
}

/// A path with one kind of separator: that of the platform.
pub open spec fn evened(platform: Platform, path: Seq<char>) -> Seq<char> {
    if platform is Windows && !(windows_prefix(path).0 is Verbatim) {
        backslashed(path)
    } else {
        path
    }
}

/// Whether the part at index `i` of a path counts as a component: it is not
/// empty, and not `.`, except at the start of a path without a root and behind a
/// verbatim prefix.
pub open spec fn is_component(part: Seq<char>, i: int, rooted: bool, verbatim: bool) -> bool {
    part.len() > 0 && (part != "."@ || verbatim || (i == 0 && !rooted))
}

/// The components among the parts of a path.
pub open spec fn components_among(
    parts: Seq<Seq<char>>,
    rooted: bool,
    verbatim: bool,
) -> Seq<Seq<char>>
    decreases parts.len(),
{
    if parts.len() == 0 {
        Seq::empty()
    } else {
        let before = components_among(parts.drop_last(), rooted, verbatim);
        if is_component(parts.last(), parts.len() - 1, rooted, verbatim) {
            before.push(parts.last())
        } else {
            before
        }
    }
}

/// A path, as far as it matters which one it is.
#[verifier::ext_equal]
pub struct PathModel {
    pub kind: PrefixKind,
    /// The prefix, with drive letters in upper case.
    pub prefix: Seq<char>,
    /// Whether the components start at a root.
    pub rooted: bool,
    /// Repeated and trailing separators, and `.` inside a path, give no component.
    pub components: Seq<Seq<char>>,
}

/// Whether a prefix ends with a drive letter and a colon.
pub open spec fn names_drive(kind: PrefixKind, prefix: Seq<char>) -> bool {
    kind is Disk || (kind is Verbatim && prefix.len() == 6 && is_drive_at(prefix, 4))
}

/// What a path says.
pub open spec fn path_model(platform: Platform, path: Seq<char>) -> PathModel {
    let (kind, len) = prefix_of(platform, path);
    let prefix = evened(platform, path).take(len);
    let rest = evened(platform, path).skip(len);
    let rooted = kind is Network || (rest.len() > 0 && rest[0] == separator(platform));
    PathModel {
        kind,
        prefix: if names_drive(kind, prefix) {
            text::ascii_upper(prefix)
        } else {
            prefix
        },
        rooted,
        components: components_among(
            text::split_parts(rest, separator(platform)),
            rooted,
            kind is Verbatim,
        ),
    }
}

struct ParsedPath {
    kind: PrefixKind,
    prefix: Vec<char>,
    rooted: bool,
    components: Vec<Vec<char>>,
}

impl View for ParsedPath {
    type V = PathModel;

    closed spec fn view(&self) -> PathModel {
        PathModel {
            kind: self.kind,
            prefix: self.prefix@,
            rooted: self.rooted,
            components: text::texts(self.components@),
        }
    }
}

fn components_of(rest: &[char], sep: char, rooted: bool, verbatim: bool) -> (r: Vec<Vec<char>>)
    ensures
        text::texts(r@) == components_among(text::split_parts(rest@, sep), rooted, verbatim),
{
    let parts = text::split_chars(rest, sep);
    let ghost all = text::split_parts(rest@, sep);
    let mut r: Vec<Vec<char>> = Vec::new();
    assert(text::texts(r@) =~= components_among(all.take(0), rooted, verbatim));
    for i in 0..parts.len()
        invariant
            text::texts(parts@) == all,
            text::texts(r@) == components_among(all.take(i as int), rooted, verbatim),
    {
        proof {
            assert(all[i as int] == parts@[i as int]@);
            assert(all.take(i + 1).drop_last() =~= all.take(i as int));
            assert(all.take(i + 1).last() == parts@[i as int]@);
        }
        let part = &parts[i];
        if part.len() > 0 && (!is_text(part, ".") || verbatim || (i == 0 && !rooted)) {
            let copy = vstd::slice::slice_to_vec(part.as_slice());
            let ghost before = text::texts(r@);
            r.push(copy);
            assert(text::texts(r@) =~= before.push(part@));
        }
    }
    assert(all.take(all.len() as int) =~= all);
    r
}

fn parse_path(platform: Platform, path: &[char]) -> (r: ParsedPath)
    ensures
        r@ == path_model(platform, path@),
{
    let (kind, len) = find_prefix(platform, path);
    let verbatim = kind == PrefixKind::Verbatim;
    let windows = match platform {
        Platform::Windows => true,
        _ => false,
    };
    let even = if windows && !verbatim {
        with_backslashes(path)
    } else {
        vstd::slice::slice_to_vec(path)
    };
    assert(even@ == evened(platform, path@));
    let prefix = take_chars(&even, len);
    let rest = skip_chars(&even, len);
    let sep = separator_on(platform);
    let rooted = kind == PrefixKind::Network || (rest.len() > 0 && rest[0] == sep);
    let drive = kind == PrefixKind::Disk || (verbatim && prefix.len() == 6 && has_drive_at(
        prefix,
        4,
    ));
    let prefix = if drive {
        text::to_ascii_upper(prefix)
    } else {
        vstd::slice::slice_to_vec(prefix)
    };
    ParsedPath { kind, prefix, rooted, components: components_of(rest, sep, rooted, verbatim) }
}

// ---------------------------------------------------------------------------
// The same path

/// Whether two paths are the same: the same prefix, both with a root or both
/// without, and the same components.
pub open spec fn is_same_path_on(platform: Platform, a: Seq<char>, b: Seq<char>) -> bool {
    path_model(platform, a) == path_model(platform, b)
}

fn same_texts(x: &Vec<Vec<char>>, y: &Vec<Vec<char>>) -> (r: bool)
    ensures
        r == (text::texts(x@) == text::texts(y@)),
{
    let ghost p = text::texts(x@);
    let ghost q = text::texts(y@);
    assert(p.len() == x@.len() && q.len() == y@.len());
    if x.len() != y.len() {
        return false;
    }
    for i in 0..x.len()
        invariant
            text::texts(x@) == p,
            text::texts(y@) == q,
            p.len() == q.len(),
            x@.len() == p.len(),
            forall|j: int| 0 <= j < i ==> p[j] == q[j],
    {
        assert(p[i as int] == x@[i as int]@ && q[i as int] == y@[i as int]@);
        if !chars_eq(&x[i], &y[i]) {
            return false;
        }
    }
    assert(p =~= q);
    true
}

/// Whether two paths are the same on a platform.
pub fn same_path_on(platform: Platform, a: &str, b: &str) -> (r: bool)
    ensures
        r == is_same_path_on(platform, a@, b@),
{
    let x = parse_path(platform, &chars_of(a));
    let y = parse_path(platform, &chars_of(b));
    x.kind == y.kind && chars_eq(&x.prefix, &y.prefix) && x.rooted == y.rooted && same_texts(
        &x.components,
        &y.components,
    )
}

// ---------------------------------------------------------------------------
// A name in a directory

/// The components of a directory, followed by some more: `.` changes nothing, and
/// `..` takes the component before it away.
pub open spec fn resolved(dir: Seq<Seq<char>>, more: Seq<Seq<char>>) -> Seq<Seq<char>>
    decreases more.len(),
{
    if more.len() == 0 {
        dir
    } else {
        let before = resolved(dir, more.drop_last());
        if more.last() == "."@ {
            before
        } else if more.last() != ".."@ {
            before.push(more.last())
        } else if before.len() > 0 && before.last() != "."@ && before.last() != ".."@ {
            before.drop_last()
        } else {
            before
        }
    }
}

fn resolve(dir: Vec<Vec<char>>, more: Vec<Vec<char>>) -> (r: Vec<Vec<char>>)
    ensures
        text::texts(r@) == resolved(text::texts(dir@), text::texts(more@)),
{
    let mut r = dir;
    let ghost first = text::texts(dir@);
    let ghost all = text::texts(more@);
    assert(resolved(first, all.take(0)) == first);
    for i in 0..more.len()
        invariant
            all == text::texts(more@),
            text::texts(r@) == resolved(first, all.take(i as int)),
    {
        let ghost before = text::texts(r@);
        proof {
            assert(all[i as int] == more@[i as int]@);
            assert(all.take(i + 1).drop_last() =~= all.take(i as int));
            assert(all.take(i + 1).last() == more@[i as int]@);
            assert(before.len() == r@.len());
        }
        let part = &more[i];
        if is_text(part, "..") {
            proof {
                reveal_strlit(".");
                reveal_strlit("..");
            }
            if r.len() > 0 {
                assert(before.last() == r@.last()@);
                if !is_text(&r[r.len() - 1], ".") && !is_text(&r[r.len() - 1], "..") {
                    r.pop();
                    assert(text::texts(r@) =~= before.drop_last());
                }
            }
        } else if !is_text(part, ".") {
            r.push(vstd::slice::slice_to_vec(part.as_slice()));
            assert(text::texts(r@) =~= before.push(part@));
        }
    }
    assert(all.take(all.len() as int) =~= all);
    r
}

/// Components, each with a `\` before it.
pub open spec fn written_out(components: Seq<Seq<char>>) -> Seq<char>
    decreases components.len(),
{
    if components.len() == 0 {
        Seq::empty()
    } else {
        written_out(components.drop_last()) + "\\"@ + components.last()
    }
}

/// The path of `name`, which is not empty and has no prefix, in a directory with a
/// verbatim prefix of length `len`: written out anew.
pub open spec fn verbatim_joined(dir: Seq<char>, len: int, name: Seq<char>) -> Seq<char> {
    let d = path_model(Platform::Windows, dir);
    let n = path_model(Platform::Windows, name);
    let components = resolved(
        if n.rooted {
            Seq::empty()
        } else {
            d.components
        },
        n.components,
    );
    if components.len() == 0 && (d.rooted || n.rooted) {
        dir.take(len) + "\\"@
    } else {
        dir.take(len) + written_out(components)
    }
}

fn join_verbatim(dir: &[char], len: usize, name: &[char]) -> (r: String)
    requires
        len <= dir@.len(),
    ensures
        r@ == verbatim_joined(dir@, len as int, name@),
{
    let d = parse_path(Platform::Windows, dir);
    let n = parse_path(Platform::Windows, name);
    let none: Vec<Vec<char>> = Vec::new();
    assert(text::texts(none@) =~= Seq::empty());
    let components = resolve(
        if n.rooted {
            none
        } else {
            d.components
        },
        n.components,
    );
    let ghost all = text::texts(components@);
    let mut r = string_of(take_chars(dir, len));
    let ghost front = r@;
    if components.len() == 0 && (d.rooted || n.rooted) {
        r.append("\\");
        return r;
    }
    assert(front + written_out(all.take(0)) =~= front);
    for i in 0..components.len()
        invariant
            all == text::texts(components@),
            r@ == front + written_out(all.take(i as int)),
    {
        proof {
            assert(all[i as int] == components@[i as int]@);
            assert(all.take(i + 1).drop_last() =~= all.take(i as int));
            assert(front + written_out(all.take(i as int)) + "\\"@ + all[i as int] =~= front
                + written_out(all.take(i + 1)));
        }
        r.append("\\");
        r.append(&string_of(&components[i]));
    }
    assert(all.take(all.len() as int) =~= all);
    r
}

/// Whether a path starts with a separator.
pub open spec fn starts_at_root(platform: Platform, path: Seq<char>) -> bool {
    path.len() > 0 && is_separator_on(platform, path.first())
}

/// Whether `c` separates components.
pub open spec fn is_separator_on(platform: Platform, c: char) -> bool {
    c == '/' || (platform is Windows && c == '\\')
}

fn separates_on(platform: Platform, c: char) -> (r: bool)
    ensures
        r == is_separator_on(platform, c),
{
    match platform {
        Platform::Windows => c == '/' || c == '\\',
        _ => c == '/',
    }
}

/// The path of `name` in the directory `dir`. A `name` that starts with a prefix is a
/// path of its own, and one that starts at a root keeps only the prefix of `dir`.
pub open spec fn joined_on(platform: Platform, dir: Seq<char>, name: Seq<char>) -> Seq<char> {
    let (kind, len) = prefix_of(platform, dir);
    if !(prefix_of(platform, name).0 is Absent) {
        name
    } else if kind is Verbatim && name.len() > 0 {
        verbatim_joined(dir, len, name)
    } else if starts_at_root(platform, name) {
        dir.take(len) + name
    } else if dir.len() == 0 || is_separator_on(platform, dir.last()) || (kind is Disk && len
        == dir.len()) {
        dir + name
    } else {
        dir + seq![separator(platform)] + name
    }
}

/// The path of `name` in the directory `dir` on a platform.
pub fn join_on(platform: Platform, dir: &str, name: &str) -> (r: String)
    ensures
        r@ == joined_on(platform, dir@, name@),
{
    let d = chars_of(dir);
    let n = chars_of(name);
    let (kind, len) = find_prefix(platform, &d);
    if find_prefix(platform, &n).0 != PrefixKind::Absent {
        return name.to_owned();
    }
    if kind == PrefixKind::Verbatim && n.len() > 0 {
        return join_verbatim(&d, len, &n);
    }
    if n.len() > 0 && separates_on(platform, n[0]) {
        let mut r = string_of(take_chars(&d, len));
        r.append(name);
        return r;
    }
    let mut r = dir.to_owned();
    if d.len() > 0 && !separates_on(platform, d[d.len() - 1]) && !(kind == PrefixKind::Disk && len
        == d.len()) {
        r.push(separator_on(platform));
        assert(r@ =~= dir@ + seq![separator(platform)]);
    }
    r.append(name);
    r
}

// ---------------------------------------------------------------------------
// Laws

/// Behind the first part of a path, the parts give their components one by one.
proof fn lemma_components_behind(
    front: Seq<Seq<char>>,
    back: Seq<Seq<char>>,
    rooted: bool,
    verbatim: bool,
)
    requires
        front.len() > 0,
    ensures
        components_among(front + back, rooted, verbatim) == components_among(
            front,
            rooted,
            verbatim,
        ) + components_among(back, true, verbatim),
    decreases back.len(),
{
    if back.len() == 0 {
        assert(front + back =~= front);
    } else {
        assert((front + back).drop_last() =~= front + back.drop_last());
        lemma_components_behind(front, back.drop_last(), rooted, verbatim);
    }
}

/// A name behind a separator is the last component of a path: those before it are
/// the directory's. Two names in one directory give the same path only if they are
/// the same.
pub proof fn a_name_is_the_last_component(
    platform: Platform,
    dir: Seq<char>,
    a: Seq<char>,
    b: Seq<char>,
)
    requires
        !(platform is Windows),
        a.len() > 0 && !a.contains('/') && a != "."@,
        b.len() > 0 && !b.contains('/') && b != "."@,
    ensures
        path_model(platform, dir + seq!['/'] + a).components == path_model(
            platform,
            dir,
        ).components.push(a),
        path_model(platform, dir + seq!['/'] + a).rooted == (dir.len() == 0 || dir[0] == '/'),
        is_same_path_on(platform, dir + seq!['/'] + a, dir + seq!['/'] + b) ==> a == b,
{
    lemma_name_behind(platform, dir, a);
    lemma_name_behind(platform, dir, b);
    let before = path_model(platform, dir).components;
    assert(before.push(a).last() == a);
    assert(before.push(b).last() == b);
}

proof fn lemma_name_behind(platform: Platform, dir: Seq<char>, name: Seq<char>)
    requires
        !(platform is Windows),
        name.len() > 0 && !name.contains('/') && name != "."@,
    ensures
        path_model(platform, dir + seq!['/'] + name).components == path_model(
            platform,
            dir,
        ).components.push(name),
        path_model(platform, dir + seq!['/'] + name).rooted == (dir.len() == 0 || dir[0] == '/'),
{
    let path = dir + seq!['/'] + name;
    assert(path.skip(0) =~= path);
    assert(dir.skip(0) =~= dir);
    text::a_separator_parts_two_texts(dir, '/', name);
    text::a_text_without_separators_is_one_part(name, '/');
    text::parts_are_what_separators_part(dir, '/');
    let rooted = path_model(platform, path).rooted;
    lemma_components_behind(text::split_parts(dir, '/'), seq![name], rooted, false);
    assert(components_among(seq![name], true, false) =~= seq![name]) by {
        assert(seq![name].drop_last() =~= Seq::empty());
        reveal_with_fuel(components_among, 2);
    }
    if dir.len() == 0 {
        reveal_strlit(".");
        text::a_text_without_separators_is_one_part(dir, '/');
        assert(seq![dir].drop_last() =~= Seq::empty());
        reveal_with_fuel(components_among, 2);
    }
}

/// Separators that follow each other count once, one at the end of a path does not
/// count, and neither does a dot between two of them.
pub proof fn separators_count_once(platform: Platform, a: Seq<char>, b: Seq<char>)
    requires
        !(platform is Windows),
    ensures
        is_same_path_on(platform, a + seq!['/'] + (seq!['/'] + b), a + seq!['/'] + b),
        is_same_path_on(platform, a + seq!['/'] + (seq!['.', '/'] + b), a + seq!['/'] + b),
        a.len() > 0 ==> is_same_path_on(platform, a + seq!['/'], a),
{
    let nothing = Seq::<char>::empty();
    let dot = seq!['.'];
    reveal_strlit(".");
    assert("."@ =~= dot);
    text::a_separator_parts_two_texts(a, '/', b);
    text::a_separator_parts_two_texts(a, '/', seq!['/'] + b);
    text::a_separator_parts_two_texts(a, '/', seq!['.', '/'] + b);
    text::a_separator_parts_two_texts(a, '/', nothing);
    text::a_separator_parts_two_texts(nothing, '/', b);
    text::a_separator_parts_two_texts(dot, '/', b);
    text::a_text_without_separators_is_one_part(nothing, '/');
    text::a_text_without_separators_is_one_part(dot, '/');
    assert(nothing + seq!['/'] + b =~= seq!['/'] + b);
    assert(dot + seq!['/'] + b =~= seq!['.', '/'] + b);
    assert(a + seq!['/'] + nothing =~= a + seq!['/']);
    text::parts_are_what_separators_part(a, '/');
    let front = text::split_parts(a, '/');
    let back = text::split_parts(b, '/');
    let rooted = a.len() == 0 || a[0] == '/';
    assert(components_among(seq![nothing], true, false) =~= Seq::empty()) by {
        assert(seq![nothing].drop_last() =~= Seq::empty());
        reveal_with_fuel(components_among, 2);
    }
    assert(components_among(seq![dot], true, false) =~= Seq::empty()) by {
        assert(seq![dot].drop_last() =~= Seq::empty());
        reveal_with_fuel(components_among, 2);
    }
    lemma_components_behind(front, back, rooted, false);
    lemma_components_behind(front, seq![nothing] + back, rooted, false);
    lemma_components_behind(front, seq![dot] + back, rooted, false);
    lemma_components_behind(front, seq![nothing], rooted, false);
    lemma_components_behind(seq![nothing], back, true, false);
    lemma_components_behind(seq![dot], back, true, false);
    let long = a + seq!['/'] + (seq!['/'] + b);
    let dotted = a + seq!['/'] + (seq!['.', '/'] + b);
    let short = a + seq!['/'] + b;
    assert(long.skip(0) =~= long);
    assert(dotted.skip(0) =~= dotted);
    assert(short.skip(0) =~= short);
    assert((a + seq!['/']).skip(0) =~= a + seq!['/']);
    assert(a.skip(0) =~= a);
    assert(long.take(0) =~= short.take(0));
    assert(dotted.take(0) =~= short.take(0));
    assert((a + seq!['/']).take(0) =~= a.take(0));
}

/// A path from the root is another than the same path without it.
pub proof fn a_root_makes_another_path(platform: Platform, path: Seq<char>)
    requires
        !(platform is Windows),
        path.len() > 0,
        path[0] != '/',
    ensures
        !is_same_path_on(platform, seq!['/'] + path, path),
{
    assert(path.skip(0) =~= path);
    assert((seq!['/'] + path).skip(0) =~= seq!['/'] + path);
}

/// On Windows it does not matter which of the two separators stands in a path without
/// a verbatim prefix.
pub proof fn either_separator_will_do(a: Seq<char>, b: Seq<char>)
    requires
        a.len() == b.len(),
        forall|i: int|
            0 <= i < a.len() ==> #[trigger] a[i] == b[i] || (a[i] == '/' && b[i] == '\\') || (a[i]
                == '\\' && b[i] == '/'),
        !"\\\\?\\"@.is_prefix_of(a),
        !"\\\\?\\"@.is_prefix_of(b),
    ensures
        is_same_path_on(Platform::Windows, a, b),
{
    assert(backslashed(a) =~= backslashed(b));
    assert(is_drive_at(a, 0) == is_drive_at(b, 0)) by {
        if a.len() >= 2 {
            assert(a[0] == b[0] || (a[0] == '/' && b[0] == '\\') || (a[0] == '\\' && b[0] == '/'));
            assert(a[1] == b[1] || (a[1] == '/' && b[1] == '\\') || (a[1] == '\\' && b[1] == '/'));
        }
    }
    assert(windows_prefix(a) == windows_prefix(b));
}

/// A letter and a colon at the start of a path on Windows are a disk, in upper case or
/// lower case the same one. What starts neither with those nor with two separators
/// has no prefix, and nothing has one elsewhere.
pub proof fn a_disk_is_a_letter_and_a_colon(c: char, rest: Seq<char>, path: Seq<char>)
    requires
        'a' <= c <= 'z',
    ensures
        prefix_of(Platform::Windows, seq![c, ':'] + rest) == (PrefixKind::Disk, 2int),
        is_same_path_on(
            Platform::Windows,
            seq![c, ':'] + rest,
            seq![(c as int - 32) as char, ':'] + rest,
        ),
        path.len() > 1 && path[1] != ':' && path[1] != '/' && path[1] != '\\' ==> prefix_of(
            Platform::Windows,
            path,
        ).0 is Absent,
        prefix_of(Platform::Unix, path).0 is Absent,
        prefix_of(Platform::MacOs, path).0 is Absent,
{
    reveal_strlit("\\\\?\\");
    reveal_strlit("\\\\.\\");
    reveal_strlit("\\\\");
    let low = seq![c, ':'] + rest;
    let upper = (c as int - 32) as char;
    let high = seq![upper, ':'] + rest;
    assert(low[0] == c && low[1] == ':');
    assert(high[0] == upper && high[1] == ':');
    lemma_no_share(low);
    lemma_no_share(high);
    assert(backslashed(low).skip(2) =~= backslashed(high).skip(2));
    assert(text::ascii_upper(backslashed(low).take(2)) =~= text::ascii_upper(
        backslashed(high).take(2),
    ));
    if path.len() > 1 && path[1] != ':' && path[1] != '/' && path[1] != '\\' {
        assert(backslashed(path)[1] == path[1]);
        if "\\\\"@.is_prefix_of(backslashed(path)) {
            assert(backslashed(path).take(2)[1] == '\\');
        }
        if "\\\\.\\"@.is_prefix_of(backslashed(path)) {
            assert(backslashed(path).take(4)[1] == '\\');
        }
        if "\\\\?\\"@.is_prefix_of(path) {
            assert(path.take(4)[1] == '\\');
        }
    }
}

proof fn lemma_no_share(path: Seq<char>)
    requires
        path.len() > 0,
        path[0] != '/',
        path[0] != '\\',
    ensures
        !"\\\\?\\"@.is_prefix_of(path),
        !"\\\\.\\"@.is_prefix_of(backslashed(path)),
        !"\\\\"@.is_prefix_of(backslashed(path)),
{
    reveal_strlit("\\\\?\\");
    reveal_strlit("\\\\.\\");
    reveal_strlit("\\\\");
    assert(backslashed(path)[0] == path[0]);
    assert("\\\\?\\"@[0] == '\\' && "\\\\.\\"@[0] == '\\' && "\\\\"@[0] == '\\');
}

/// A name in a directory follows it with one separator between them. A name that
/// starts at the root, where there are no prefixes, is a path of its own.
pub proof fn one_separator_joins(platform: Platform, dir: Seq<char>, name: Seq<char>)
    requires
        prefix_of(platform, dir).0 is Absent,
        prefix_of(platform, name).0 is Absent,
        name.len() > 0,
        prefix_of(platform, dir).1 == 0,
    ensures
        name[0] == '/' ==> joined_on(platform, dir, name) == name,
        name[0] != '/' && name[0] != '\\' && dir.len() > 0 && dir.last() != '/' && dir.last()
            != '\\' ==> joined_on(platform, dir, name) == dir + seq![
            if platform is Windows {
                '\\'
            } else {
                '/'
            },
        ] + name,
        name[0] != '/' && name[0] != '\\' && dir.len() > 0 && dir.last() == '/' ==> joined_on(
            platform,
            dir,
            name,
        ) == dir + name,
        dir.len() == 0 ==> joined_on(platform, dir, name) == name,
{
    assert(dir.take(0) + name =~= name);
    if dir.len() == 0 {
        assert(dir + name =~= name);
    }
}

/// A component and two dots behind it take each other away, and a dot changes nothing.
pub proof fn two_dots_take_a_component_away(
    dir: Seq<Seq<char>>,
    more: Seq<Seq<char>>,
    name: Seq<char>,
)
    requires
        name != "."@,
        name != ".."@,
    ensures
        resolved(dir, more.push(name)) == resolved(dir, more).push(name),
        resolved(dir, more.push(name).push(".."@)) == resolved(dir, more),
        resolved(dir, more.push("."@)) == resolved(dir, more),
        resolved(dir, Seq::empty()) == dir,
{
    reveal_strlit(".");
    reveal_strlit("..");
    assert(more.push(name).drop_last() =~= more);
    assert(more.push("."@).drop_last() =~= more);
    assert(more.push(name).push(".."@).drop_last() =~= more.push(name));
    let before = resolved(dir, more).push(name);
    assert(".."@.len() == 2 && "."@.len() == 1);
    assert(resolved(dir, more.push(name)) == before);
    assert(before.last() == name);
    assert(before.drop_last() =~= resolved(dir, more));
    assert(resolved(dir, more.push(name).push(".."@)) == before.drop_last());
}

/// Two separators, the name of a server and that of a share, with a separator between
/// them, are a prefix on Windows: all that follows is a path from the root of the
/// share.
pub proof fn a_share_is_a_server_and_a_name(server: Seq<char>, share: Seq<char>, rest: Seq<char>)
    requires
        server.len() > 1 && !server.contains('\\') && !server.contains('/'),
        share.len() > 0 && !share.contains('\\') && !share.contains('/'),
        rest.len() == 0 || rest[0] == '\\',
    ensures
        ({
            let path = seq!['\\', '\\'] + server + seq!['\\'] + share + rest;
            &&& prefix_of(Platform::Windows, path) == (
                PrefixKind::Network,
                (3 + server.len() + share.len()) as int,
            )
            &&& path_model(Platform::Windows, path).rooted
        }),
{
    reveal_strlit("\\\\?\\");
    reveal_strlit("\\\\.\\");
    reveal_strlit("\\\\");
    let path = seq!['\\', '\\'] + server + seq!['\\'] + share + rest;
    let plain = backslashed(path);
    let n = server.len() as int;
    let m = share.len() as int;
    assert forall|i: int| 2 <= i < 2 + n implies #[trigger] path[i] != '\\' && path[i] != '/' by {
        assert(path[i] == server[i - 2]);
        assert(server.contains(server[i - 2]));
    }
    assert forall|i: int| 3 + n <= i < 3 + n + m implies #[trigger] path[i] != '\\' && path[i]
        != '/' by {
        assert(path[i] == share[i - 3 - n]);
        assert(share.contains(share[i - 3 - n]));
    }
    assert(path[3] != '\\' && path[3] != '/');
    assert(plain[3] == path[3]);
    assert("\\\\?\\"@[3] == '\\' && "\\\\.\\"@[3] == '\\');
    assert("\\\\"@ =~= plain.take(2));
    assert("\\\\"@.is_prefix_of(plain));
    text::lemma_position_of(plain, '\\', 2);
    let k = text::position_of(plain, '\\', 2);
    assert(plain[2 + n] == '\\');
    if k < 2 + n {
        assert(path[k] != '\\' && path[k] != '/');
    }
    assert(k == 2 + n);
    text::lemma_position_of(plain, '\\', k + 1);
    let e = text::position_of(plain, '\\', k + 1);
    if e < 3 + n + m {
        assert(path[e] != '\\' && path[e] != '/');
    }
    if rest.len() > 0 {
        assert(plain[3 + n + m] == '\\');
    }
    assert(e == 3 + n + m);
}

/// Components are written out one by one, each behind a `\`. In a directory with a
/// verbatim prefix, a name follows the components that are there.
pub proof fn components_are_written_one_by_one(
    components: Seq<Seq<char>>,
    name: Seq<char>,
    dir: Seq<char>,
    len: int,
)
    ensures
        written_out(Seq::empty()).len() == 0,
        written_out(components.push(name)) == written_out(components) + seq!['\\'] + name,
        ({
            let d = path_model(Platform::Windows, dir);
            let n = path_model(Platform::Windows, name);
            let all = resolved(d.components, n.components);
            &&& !n.rooted && all.len() > 0 ==> verbatim_joined(dir, len, name) == dir.take(len)
                + written_out(all)
            &&& !n.rooted && all.len() == 0 && d.rooted ==> verbatim_joined(dir, len, name)
                == dir.take(len) + seq!['\\']
            &&& n.rooted && resolved(Seq::empty(), n.components).len() == 0 ==> verbatim_joined(
                dir,
                len,
                name,
            ) == dir.take(len) + seq!['\\']
        }),
{
    reveal_strlit("\\");
    assert("\\"@ =~= seq!['\\']);
    assert(components.push(name).drop_last() =~= components);
}

} // verus!
