//! File names for downloads: making a suggested name safe, and avoiding names
//! that are taken.

use vstd::prelude::*;
use vstd::string::*;

use crate::text::{
    self, chars_of, is_text, skip_chars, string_of, take_chars, to_ascii_upper, trim_chars,
    width_of,
};

verus! {

/// The name that is used where nothing usable is left of a suggested one.
pub const FALLBACK_FILENAME: &'static str = "download";

/// The length, in bytes, that a sanitized name has at most.
pub const MAX_FILENAME_BYTES: usize = 200;

/// The number of numbered names that are tried for a name that is taken.
pub const MAX_ATTEMPTS: u32 = 10_000;

// ---------------------------------------------------------------------------
// Parts of a name

/// What stands after the last `/` or `\`.
pub open spec fn last_segment(s: Seq<char>) -> Seq<char>
    decreases s.len(),
{
    if s.len() == 0 || s.last() == '/' || s.last() == '\\' {
        Seq::empty()
    } else {
        last_segment(s.drop_last()).push(s.last())
    }
}

fn segment_start(s: &[char]) -> (r: usize)
    ensures
        r <= s@.len(),
        s@.skip(r as int) == last_segment(s@),
{
    let mut i: usize = s.len();
    assert(s@.take(i as int) =~= s@);
    assert(last_segment(s@) + Seq::empty() =~= last_segment(s@));
    while i > 0 && s[i - 1] != '/' && s[i - 1] != '\\'
        invariant
            i <= s@.len(),
            last_segment(s@) == last_segment(s@.take(i as int)) + s@.skip(i as int),
        decreases i,
    {
        proof {
            let before = last_segment(s@.take(i - 1));
            assert(s@.take(i as int).drop_last() =~= s@.take(i - 1));
            assert(before.push(s@[i - 1]) + s@.skip(i as int) =~= before + s@.skip(i - 1));
        }
        i = i - 1;
    }
    assert(Seq::<char>::empty() + s@.skip(i as int) =~= s@.skip(i as int));
    i
}

/// `s` without its control characters.
pub open spec fn without_controls(s: Seq<char>) -> Seq<char> {
    s.filter(|c: char| !text::is_control_char(c))
}

/// `s` without its control characters.
pub fn strip_control_chars(s: &[char]) -> (r: Vec<char>)
    ensures
        r@ == without_controls(s@),
{
    let mut r: Vec<char> = Vec::new();
    let ghost keep = |c: char| !text::is_control_char(c);
    proof {
        reveal(Seq::filter);
    }
    assert(s@.take(0).filter(keep) =~= Seq::empty());
    for i in 0..s.len()
        invariant
            keep == (|c: char| !text::is_control_char(c)),
            r@ == s@.take(i as int).filter(keep),
    {
        proof {
            s@.take(i as int).lemma_filter_push(s@[i as int], keep);
            assert(s@.take(i as int).push(s@[i as int]) =~= s@.take(i + 1));
        }
        if !s[i].is_control() {
            r.push(s[i]);
        }
    }
    assert(s@.take(s@.len() as int) =~= s@);
    r
}

/// `s` without the dots and spaces that it ends with.
pub open spec fn without_trailing_dots(s: Seq<char>) -> Seq<char>
    decreases s.len(),
{
    if s.len() > 0 && (s.last() == '.' || s.last() == ' ') {
        without_trailing_dots(s.drop_last())
    } else {
        s
    }
}

fn strip_trailing_dots(s: &[char]) -> (r: &[char])
    ensures
        r@ == without_trailing_dots(s@),
{
    let mut end: usize = s.len();
    assert(s@.take(end as int) =~= s@);
    while end > 0 && (s[end - 1] == '.' || s[end - 1] == ' ')
        invariant
            end <= s@.len(),
            without_trailing_dots(s@) == without_trailing_dots(s@.take(end as int)),
        decreases end,
    {
        assert(s@.take(end as int).drop_last() =~= s@.take(end - 1));
        end = end - 1;
    }
    take_chars(s, end)
}

/// A name split into its stem and its extension, which is what follows the
/// first dot. A name that has no dot, or starts with its first one, has no
/// extension.
pub open spec fn stem_and_extension(name: Seq<char>) -> (Seq<char>, Option<Seq<char>>) {
    let dot = text::position_of(name, '.', 0);
    if 0 < dot < name.len() {
        (name.take(dot), Some(name.skip(dot + 1)))
    } else {
        (name, None)
    }
}

fn split_stem_and_ext(name: &[char]) -> (r: (&[char], Option<&[char]>))
    ensures
        r.0@ == stem_and_extension(name@).0,
        match r.1 {
            Some(e) => stem_and_extension(name@).1 == Some(e@),
            None => stem_and_extension(name@).1 is None,
        },
{
    let dot: usize = text::position(name, '.', 0);
    if 0 < dot && dot < name.len() {
        (take_chars(name, dot), Some(skip_chars(name, dot + 1)))
    } else {
        (name, None)
    }
}

// ---------------------------------------------------------------------------
// Reserved names

/// The part of a name before its first dot, in upper case.
pub open spec fn device_part(name: Seq<char>) -> Seq<char> {
    text::ascii_upper(name.take(text::position_of(name, '.', 0)))
}

/// Whether a name is that of a device on Windows: `CON`, `PRN`, `AUX`, `NUL`,
/// `COM1` to `COM9` and `LPT1` to `LPT9`, in any case, with any extension.
pub open spec fn is_reserved(name: Seq<char>) -> bool {
    let base = device_part(name);
    ||| base == "CON"@
    ||| base == "PRN"@
    ||| base == "AUX"@
    ||| base == "NUL"@
    ||| ("COM"@.is_prefix_of(base) || "LPT"@.is_prefix_of(base)) && base.len() == 4 && '1' <= base[3]
        <= '9'
}

fn is_windows_reserved_name(name: &[char]) -> (r: bool)
    ensures
        r == is_reserved(name@),
{
    let dot: usize = text::position(name, '.', 0);
    let base = to_ascii_upper(take_chars(name, dot));
    if is_text(&base, "CON") || is_text(&base, "PRN") || is_text(&base, "AUX") || is_text(
        &base,
        "NUL",
    ) {
        return true;
    }
    if text::has_prefix(&base, "COM") || text::has_prefix(&base, "LPT") {
        return base.len() == 4 && '1' <= base[3] && base[3] <= '9';
    }
    false
}

// ---------------------------------------------------------------------------
// Length

/// The longest prefix of `s` that takes at most `max` bytes.
pub open spec fn longest_prefix(s: Seq<char>, max: nat) -> Seq<char>
    decreases s.len(),
{
    if s.len() == 0 || text::byte_len(s) <= max {
        s
    } else {
        longest_prefix(s.drop_last(), max)
    }
}

proof fn lemma_longest_prefix(s: Seq<char>, k: int, max: nat)
    requires
        0 <= k <= s.len(),
        text::byte_len(s.take(k)) <= max,
        k < s.len() ==> text::byte_len(s.take(k + 1)) > max,
    ensures
        longest_prefix(s, max) == s.take(k),
    decreases s.len(),
{
    if k == s.len() {
        assert(s.take(k) =~= s);
    } else {
        text::lemma_byte_len_grows(s, k + 1, s.len() as int);
        assert(s.take(s.len() as int) =~= s);
        let shorter = s.drop_last();
        assert(shorter.take(k) =~= s.take(k));
        assert(k < shorter.len() ==> shorter.take(k + 1) =~= s.take(k + 1));
        lemma_longest_prefix(shorter, k, max);
    }
}

fn truncate_at_char_boundary(s: &[char], max: usize) -> (r: &[char])
    ensures
        r@ == longest_prefix(s@, max as nat),
{
    let mut left: usize = max;
    let mut i: usize = 0;
    while i < s.len() && width_of(s[i]) <= left
        invariant
            i <= s@.len(),
            left <= max,
            text::byte_len(s@.take(i as int)) == max - left,
        decreases s@.len() - i,
    {
        assert(s@.take(i + 1).drop_last() =~= s@.take(i as int));
        left = left - width_of(s[i]);
        i = i + 1;
    }
    proof {
        if i < s@.len() {
            assert(s@.take(i + 1).drop_last() =~= s@.take(i as int));
        }
        lemma_longest_prefix(s@, i as int, max as nat);
    }
    take_chars(s, i)
}

/// A name cut to `max` bytes. Where it has an extension that leaves room for a
/// stem, the stem is cut and the extension kept.
pub open spec fn truncated(name: Seq<char>, max: nat) -> Seq<char> {
    let (stem, extension) = stem_and_extension(name);
    if text::byte_len(name) <= max {
        name
    } else {
        match extension {
            Some(e) => if text::byte_len(e) + 1 < max {
                longest_prefix(stem, (max - text::byte_len(e) - 1) as nat) + "."@ + e
            } else {
                longest_prefix(name, max)
            },
            None => longest_prefix(name, max),
        }
    }
}

fn byte_len_below(s: &[char], limit: usize) -> (r: Option<usize>)
    ensures
        match r {
            Some(n) => n == text::byte_len(s@) && n < limit,
            None => text::byte_len(s@) >= limit,
        },
{
    let mut n: usize = 0;
    if limit == 0 {
        return None;
    }
    for i in 0..s.len()
        invariant
            n == text::byte_len(s@.take(i as int)),
            n < limit,
    {
        let w: usize = width_of(s[i]);
        proof {
            assert(s@.take(i + 1).drop_last() =~= s@.take(i as int));
            text::lemma_byte_len_grows(s@, i + 1, s@.len() as int);
            assert(s@.take(s@.len() as int) =~= s@);
        }
        if w >= limit - n {
            return None;
        }
        n = n + w;
    }
    assert(s@.take(s@.len() as int) =~= s@);
    Some(n)
}

fn truncate_filename(name: &[char], max: usize) -> (r: String)
    ensures
        r@ == truncated(name@, max as nat),
{
    if text::fits_in_bytes(name, max) {
        return string_of(name);
    }
    let (stem, ext) = split_stem_and_ext(name);
    if let Some(e) = ext {
        if max > 0 {
            if let Some(n) = byte_len_below(e, max - 1) {
                let mut r = string_of(truncate_at_char_boundary(stem, max - n - 1));
                r.append(".");
                r.append(&string_of(e));
                return r;
            }
        }
    }
    string_of(truncate_at_char_boundary(name, max))
}

// ---------------------------------------------------------------------------
// Sanitizing

/// What is left of a suggested name once its directory, its control characters,
/// the white space around it and the dots and spaces at its end are gone.
pub open spec fn usable_part(raw: Seq<char>) -> Seq<char> {
    let bare = text::trimmed(without_controls(last_segment(raw)));
    if bare == "."@ || bare == ".."@ {
        Seq::empty()
    } else {
        without_trailing_dots(bare)
    }
}

/// A usable name that is not the name of a device.
pub open spec fn unreserved(name: Seq<char>) -> Seq<char> {
    if is_reserved(name) {
        "_"@ + name
    } else {
        name
    }
}

/// The safe name for a suggested one.
pub open spec fn sanitized(raw: Seq<char>) -> Seq<char> {
    let name = usable_part(raw);
    if name.len() == 0 {
        FALLBACK_FILENAME@
    } else {
        truncated(unreserved(name), MAX_FILENAME_BYTES as nat)
    }
}

/// Turns a file name that a server suggests into a safe one without a directory.
///
/// - Only what stands after the last `/` or `\` is kept.
/// - Control characters are dropped, white space at either end is trimmed, and
///   so are dots and spaces at the end.
/// - `.` and `..` are not used.
/// - The names of devices on Windows get a `_` before them.
/// - A name of more than [`MAX_FILENAME_BYTES`] bytes is cut, keeping its
///   extension where that leaves room for a stem.
/// - Where nothing is left, the name is [`FALLBACK_FILENAME`].
pub fn sanitize_filename(raw: &str) -> (r: String)
    ensures
        r@ == sanitized(raw@),
{
    let chars = chars_of(raw);
    let start: usize = segment_start(&chars);
    let cleaned = strip_control_chars(skip_chars(&chars, start));
    let bare = trim_chars(&cleaned);
    if is_text(bare, ".") || is_text(bare, "..") {
        return FALLBACK_FILENAME.to_owned();
    }
    let name = strip_trailing_dots(bare);
    if name.len() == 0 {
        return FALLBACK_FILENAME.to_owned();
    }
    if is_windows_reserved_name(name) {
        let mut prefixed = "_".to_owned();
        prefixed.append(&string_of(name));
        truncate_filename(&chars_of(&prefixed), MAX_FILENAME_BYTES)
    } else {
        truncate_filename(name, MAX_FILENAME_BYTES)
    }
}

// ---------------------------------------------------------------------------
// Names that are not taken

/// A name with a number in brackets at the end of its stem.
pub open spec fn numbered(name: Seq<char>, number: nat) -> Seq<char> {
    let (stem, extension) = stem_and_extension(name);
    let marked = stem + " ("@ + text::decimal(number) + ")"@;
    match extension {
        Some(e) => marked + "."@ + e,
        None => marked,
    }
}

/// A name with a number in brackets at the end of its stem.
pub fn numbered_filename(name: &str, number: u128) -> (r: String)
    ensures
        r@ == numbered(name@, number as nat),
{
    let chars = chars_of(name);
    let (stem, ext) = split_stem_and_ext(&chars);
    let mut r = string_of(stem);
    r.append(" (");
    r.append(&text::decimal_of(number));
    r.append(")");
    if let Some(e) = ext {
        r.append(".");
        r.append(&string_of(e));
    }
    r
}

/// The names that are tried in turn: the name itself, then with a number.
pub open spec fn attempt(name: Seq<char>, n: int) -> Seq<char> {
    if n == 0 {
        name
    } else {
        numbered(name, n as nat)
    }
}

/// Whether a predicate on names can answer `answer` for `name`.
pub open spec fn may_answer<F: Fn(&str) -> bool>(taken: F, name: Seq<char>, answer: bool) -> bool {
    exists|s: &str| s@ == name && #[trigger] call_ensures(taken, (s,), answer)
}

/// `std::time::SystemTime::now`, as nanoseconds since the Unix epoch; zero
/// where the clock stands before it. Nothing is claimed of the result: it
/// depends on the clock of the machine.
#[verifier::external_body]
fn nanos_now() -> (n: u128)
{
    std::time::SystemTime::now().duration_since(std::time::UNIX_EPOCH).map(
        |d| d.as_nanos(),
    ).unwrap_or_default()
}

/// The first name that is not taken: `filename` itself, or else the first of
/// `stem (1).ext`, `stem (2).ext`, and so on. Where [`MAX_ATTEMPTS`] of those are
/// taken too, the time takes the place of the number.
pub fn unique_filename<F: Fn(&str) -> bool>(filename: &str, taken: F) -> (r: String)
    requires
        forall|s: &str| call_requires(taken, (s,)),
    ensures
        (exists|n: int| #[trigger]
            is_first_free(taken, filename@, n) && r@ == attempt(filename@, n)) || (
        all_taken(taken, filename@, MAX_ATTEMPTS + 1) && exists|number: nat|
            r@ == #[trigger] numbered(filename@, number)),
{
    if !taken(filename) {
        assert(may_answer(taken, attempt(filename@, 0), false));
        assert(is_first_free(taken, filename@, 0));
        return filename.to_owned();
    }
    assert(may_answer(taken, attempt(filename@, 0), true));
    let mut n: u32 = 1;
    while n <= MAX_ATTEMPTS
        invariant
            forall|s: &str| call_requires(taken, (s,)),
            1 <= n <= MAX_ATTEMPTS + 1,
            all_taken(taken, filename@, n as int),
        decreases MAX_ATTEMPTS + 1 - n,
    {
        let candidate = numbered_filename(filename, n as u128);
        if !taken(candidate.as_str()) {
            assert(may_answer(taken, attempt(filename@, n as int), false));
            assert(is_first_free(taken, filename@, n as int));
            return candidate;
        }
        assert(may_answer(taken, attempt(filename@, n as int), true));
        n = n + 1;
    }
    numbered_filename(filename, nanos_now())
}

/// Whether a predicate on names was able to answer that each of the first `n`
/// attempts is taken.
pub open spec fn all_taken<F: Fn(&str) -> bool>(taken: F, name: Seq<char>, n: int) -> bool {
    forall|k: int| 0 <= k < n ==> #[trigger] may_answer(taken, attempt(name, k), true)
}

/// Whether attempt `n` is the first that is not taken.
pub open spec fn is_first_free<F: Fn(&str) -> bool>(taken: F, name: Seq<char>, n: int) -> bool {
    &&& 0 <= n <= MAX_ATTEMPTS
    &&& all_taken(taken, name, n)
    &&& may_answer(taken, attempt(name, n), false)
}

// ---------------------------------------------------------------------------
// Laws

/// Whether `c` is harmless in a file name: no path separator and no control
/// character.
pub open spec fn is_harmless(c: char) -> bool {
    c != '/' && c != '\\' && !text::is_control_char(c)
}

/// Whether every character of a name is harmless.
pub open spec fn is_clean(s: Seq<char>) -> bool {
    forall|i: int| 0 <= i < s.len() ==> is_harmless(#[trigger] s[i])
}

/// A sanitized name holds no path separator and no control character.
pub proof fn a_sanitized_name_is_clean(raw: Seq<char>)
    ensures
        is_clean(sanitized(raw)),
{
    lemma_usable_part_is_clean(raw);
    let name = unreserved(usable_part(raw));
    reveal_strlit("download");
    reveal_strlit("_");
    reveal_strlit(".");
    assert(is_clean(name));
    let (stem, extension) = stem_and_extension(name);
    text::lemma_position_of(name, '.', 0);
    lemma_prefix_is_clean(name, MAX_FILENAME_BYTES as nat);
    if let Some(e) = extension {
        assert(is_clean(stem) && is_clean(e));
        lemma_prefix_is_clean(stem, (MAX_FILENAME_BYTES - text::byte_len(e) - 1) as nat);
    }
}

/// A sanitized name is not empty and takes at most [`MAX_FILENAME_BYTES`] bytes.
pub proof fn a_sanitized_name_fits(raw: Seq<char>)
    ensures
        0 < text::byte_len(sanitized(raw)) <= MAX_FILENAME_BYTES,
{
    lemma_sanitized_size(raw);
}

/// A sanitized name is never `.` or `..`.
pub proof fn a_sanitized_name_is_no_directory(raw: Seq<char>)
    ensures
        sanitized(raw) != "."@,
        sanitized(raw) != ".."@,
{
    reveal_strlit(".");
    reveal_strlit("..");
    reveal_strlit("_");
    reveal_strlit("download");
    lemma_sanitized_size(raw);
    lemma_no_trailing_dot(text::trimmed(without_controls(last_segment(raw))));
    assert(text::byte_len("."@) <= 4 && text::byte_len(".."@) <= 8) by {
        lemma_byte_len_bounds("."@);
        lemma_byte_len_bounds(".."@);
    }
}

/// A sanitized name that was not cut ends with neither a dot nor a space, and is
/// not the name of a device on Windows.
pub proof fn an_uncut_name_is_usable_on_windows(raw: Seq<char>)
    requires
        text::byte_len(unreserved(usable_part(raw))) <= MAX_FILENAME_BYTES,
    ensures
        sanitized(raw).last() != '.',
        sanitized(raw).last() != ' ',
        !is_reserved(sanitized(raw)),
{
    reveal_strlit("_");
    reveal_strlit("download");
    let bare = text::trimmed(without_controls(last_segment(raw)));
    lemma_no_trailing_dot(bare);
    let name = usable_part(raw);
    if name.len() == 0 {
        lemma_fallback_is_unreserved();
    } else if is_reserved(name) {
        lemma_prefixed_is_unreserved(name);
    }
}

/// A name that is cut keeps an extension that leaves room for a stem, and then ends
/// with neither a dot nor a space.
pub proof fn a_sanitized_name_keeps_its_extension(raw: Seq<char>, extension: Seq<char>)
    requires
        stem_and_extension(unreserved(usable_part(raw))).1 == Some(extension),
        text::byte_len(extension) + 1 < MAX_FILENAME_BYTES,
    ensures
        ("."@ + extension).is_suffix_of(sanitized(raw)),
        sanitized(raw).last() != '.',
        sanitized(raw).last() != ' ',
{
    reveal_strlit("_");
    reveal_strlit(".");
    lemma_no_trailing_dot(text::trimmed(without_controls(last_segment(raw))));
    let name = unreserved(usable_part(raw));
    let (stem, _) = stem_and_extension(name);
    text::lemma_position_of(name, '.', 0);
    assert(name =~= stem + ("."@ + extension));
    assert(name.last() != '.' && name.last() != ' ');
    assert(extension.len() > 0 && extension.last() == name.last());
    let room = (MAX_FILENAME_BYTES - text::byte_len(extension) - 1) as nat;
    let cut = longest_prefix(stem, room);
    assert(cut + "."@ + extension =~= cut + ("."@ + extension));
}

/// Two different numbers never give the same name.
pub proof fn numbered_names_are_distinct(name: Seq<char>, m: nat, n: nat)
    requires
        numbered(name, m) == numbered(name, n),
    ensures
        m == n,
{
    let (stem, extension) = stem_and_extension(name);
    let front = stem + " ("@;
    let back = match extension {
        Some(e) => ")"@ + "."@ + e,
        None => ")"@,
    };
    assert(numbered(name, m) =~= front + text::decimal(m) + back);
    assert(numbered(name, n) =~= front + text::decimal(n) + back);
    let whole = numbered(name, m);
    assert(whole.subrange(front.len() as int, whole.len() - back.len()) =~= text::decimal(m));
    assert(whole.subrange(front.len() as int, whole.len() - back.len()) =~= text::decimal(n));
    text::lemma_decimal_digits(m);
    text::lemma_decimal_digits(n);
}

proof fn lemma_no_trailing_dot(s: Seq<char>)
    ensures
        without_trailing_dots(s).len() > 0 ==> without_trailing_dots(s).last() != '.'
            && without_trailing_dots(s).last() != ' ',
        without_trailing_dots(s).is_prefix_of(s),
    decreases s.len(),
{
    if s.len() > 0 && (s.last() == '.' || s.last() == ' ') {
        lemma_no_trailing_dot(s.drop_last());
    }
}

spec fn has_no_separator(s: Seq<char>) -> bool {
    forall|i: int| 0 <= i < s.len() ==> #[trigger] s[i] != '/' && s[i] != '\\'
}

proof fn lemma_last_segment_has_no_separator(s: Seq<char>)
    ensures
        has_no_separator(last_segment(s)),
    decreases s.len(),
{
    if s.len() > 0 && s.last() != '/' && s.last() != '\\' {
        lemma_last_segment_has_no_separator(s.drop_last());
    }
}

proof fn lemma_without_controls_is_clean(s: Seq<char>)
    requires
        has_no_separator(s),
    ensures
        is_clean(without_controls(s)),
    decreases s.len(),
{
    reveal(Seq::filter);
    if s.len() > 0 {
        lemma_without_controls_is_clean(s.drop_last());
    }
}

proof fn lemma_usable_part_is_clean(raw: Seq<char>)
    ensures
        is_clean(usable_part(raw)),
{
    let segment = last_segment(raw);
    lemma_last_segment_has_no_separator(raw);
    lemma_without_controls_is_clean(segment);
    let cleaned = without_controls(segment);
    let (i, j) = text::lemma_trimmed_is_part(cleaned);
    let bare = text::trimmed(cleaned);
    assert(is_clean(bare));
    lemma_no_trailing_dot(bare);
}

proof fn lemma_prefix_is_clean(s: Seq<char>, max: nat)
    requires
        is_clean(s),
    ensures
        is_clean(longest_prefix(s, max)),
    decreases s.len(),
{
    if s.len() > 0 && text::byte_len(s) > max {
        lemma_prefix_is_clean(s.drop_last(), max);
    }
}

proof fn lemma_byte_len_bounds(s: Seq<char>)
    ensures
        s.len() <= text::byte_len(s) <= 4 * s.len(),
    decreases s.len(),
{
    if s.len() > 0 {
        lemma_byte_len_bounds(s.drop_last());
    }
}

proof fn lemma_byte_len_of_concat(a: Seq<char>, b: Seq<char>)
    ensures
        text::byte_len(a + b) == text::byte_len(a) + text::byte_len(b),
    decreases b.len(),
{
    if b.len() == 0 {
        assert(a + b =~= a);
    } else {
        assert((a + b).drop_last() =~= a + b.drop_last());
        lemma_byte_len_of_concat(a, b.drop_last());
    }
}

proof fn lemma_longest_prefix_size(s: Seq<char>, max: nat)
    ensures
        text::byte_len(longest_prefix(s, max)) <= max,
        text::byte_len(s) > max ==> text::byte_len(longest_prefix(s, max)) + 4 > max,
    decreases s.len(),
{
    if s.len() > 0 && text::byte_len(s) > max {
        lemma_longest_prefix_size(s.drop_last(), max);
    }
}

proof fn lemma_sanitized_size(raw: Seq<char>)
    ensures
        0 < text::byte_len(sanitized(raw)) <= MAX_FILENAME_BYTES,
        text::byte_len(unreserved(usable_part(raw))) > MAX_FILENAME_BYTES ==> text::byte_len(
            sanitized(raw),
        ) > MAX_FILENAME_BYTES - 4,
{
    reveal_strlit("download");
    reveal_strlit(".");
    reveal_strlit("_");
    let max = MAX_FILENAME_BYTES as nat;
    let name = unreserved(usable_part(raw));
    lemma_byte_len_bounds(FALLBACK_FILENAME@);
    lemma_byte_len_bounds(name);
    lemma_byte_len_bounds(usable_part(raw));
    lemma_longest_prefix_size(name, max);
    let (stem, extension) = stem_and_extension(name);
    if let Some(e) = extension {
        let dot = text::position_of(name, '.', 0);
        text::lemma_position_of(name, '.', 0);
        assert(name =~= stem + "."@ + e);
        lemma_byte_len_of_concat(stem + "."@, e);
        lemma_byte_len_of_concat(stem, "."@);
        assert(text::byte_len("."@) == 1) by {
            assert("."@.drop_last() =~= Seq::<char>::empty());
            assert(text::byte_len("."@.drop_last()) == 0);
        }
        let room = (max - text::byte_len(e) - 1) as nat;
        lemma_longest_prefix_size(stem, room);
        let cut = longest_prefix(stem, room);
        lemma_byte_len_of_concat(cut + "."@, e);
        lemma_byte_len_of_concat(cut, "."@);
    }
}

proof fn lemma_fallback_is_unreserved()
    ensures
        !is_reserved(FALLBACK_FILENAME@),
{
    reveal_strlit("download");
    reveal_strlit("CON");
    reveal_strlit("PRN");
    reveal_strlit("AUX");
    reveal_strlit("NUL");
    reveal_strlit("COM");
    reveal_strlit("LPT");
    let name = FALLBACK_FILENAME@;
    text::lemma_position_of(name, '.', 0);
    assert(device_part(name).len() == 8);
}

proof fn lemma_prefixed_is_unreserved(name: Seq<char>)
    ensures
        !is_reserved("_"@ + name),
{
    reveal_strlit("_");
    reveal_strlit("CON");
    reveal_strlit("PRN");
    reveal_strlit("AUX");
    reveal_strlit("NUL");
    reveal_strlit("COM");
    reveal_strlit("LPT");
    let prefixed = "_"@ + name;
    text::lemma_position_of(prefixed, '.', 0);
    let base = device_part(prefixed);
    assert(prefixed[0] == '_');
    assert(text::position_of(prefixed, '.', 0) >= 1);
    assert(base[0] == '_');
    assert("CON"@[0] == 'C' && "PRN"@[0] == 'P' && "AUX"@[0] == 'A' && "NUL"@[0] == 'N');
    assert("COM"@[0] == 'C' && "LPT"@[0] == 'L');
}

/// A harmless name that is short enough is kept as it is, and the directory before
/// it goes.
pub proof fn a_harmless_name_is_kept(dir: Seq<char>, name: Seq<char>)
    requires
        dir.len() == 0 || dir.last() == '/' || dir.last() == '\\',
        name.len() > 0,
        forall|i: int|
            0 <= i < name.len() ==> #[trigger] name[i] != '/' && name[i] != '\\' && name[i] > '\u{1f}'
                && !('\u{7f}' <= name[i] <= '\u{9f}'),
        !text::is_white_space(name.first()),
        !text::is_white_space(name.last()),
        name.last() != '.',
        !is_reserved(name),
        text::byte_len(name) <= 200,
    ensures
        sanitized(dir + name) == name,
{
    lemma_harmless_name_is_usable(dir, name);
}

proof fn lemma_harmless_name_is_usable(dir: Seq<char>, name: Seq<char>)
    requires
        dir.len() == 0 || dir.last() == '/' || dir.last() == '\\',
        name.len() > 0,
        is_clean(name),
        !text::is_white_space(name.first()),
        !text::is_white_space(name.last()),
        name.last() != '.',
    ensures
        usable_part(dir + name) == name,
{
    lemma_last_segment_behind(dir, name);
    lemma_without_controls_keeps(name);
    let nothing = Seq::<char>::empty();
    text::trimming_finds_what_is_inside(nothing, name, nothing);
    assert(nothing + name + nothing =~= name);
    reveal_strlit(".");
    reveal_strlit("..");
}

proof fn lemma_last_segment_behind(dir: Seq<char>, name: Seq<char>)
    requires
        dir.len() == 0 || dir.last() == '/' || dir.last() == '\\',
        is_clean(name),
    ensures
        last_segment(dir + name) == name,
    decreases name.len(),
{
    if name.len() == 0 {
        assert(dir + name =~= dir);
        assert(name =~= Seq::empty());
    } else {
        assert(is_harmless(name[name.len() - 1]));
        assert((dir + name).drop_last() =~= dir + name.drop_last());
        assert forall|i: int| 0 <= i < name.drop_last().len() implies is_harmless(
            #[trigger] name.drop_last()[i],
        ) by {
            assert(is_harmless(name[i]));
        }
        lemma_last_segment_behind(dir, name.drop_last());
        assert(name.drop_last().push(name.last()) =~= name);
    }
}

proof fn lemma_without_controls_keeps(name: Seq<char>)
    requires
        is_clean(name),
    ensures
        without_controls(name) == name,
    decreases name.len(),
{
    reveal(Seq::filter);
    if name.len() > 0 {
        let shorter = name.drop_last();
        assert forall|i: int| 0 <= i < shorter.len() implies is_harmless(#[trigger] shorter[i]) by {
            assert(is_harmless(name[i]));
        }
        lemma_without_controls_keeps(shorter);
        assert(is_harmless(name[name.len() - 1]));
        assert(shorter.push(name.last()) =~= name);
    }
}

/// A number stands in brackets, behind a space, before the first dot of a name, or at
/// its end where there is no dot but the one that it starts with.
pub proof fn a_number_stands_before_the_extension(stem: Seq<char>, extension: Seq<char>, n: nat)
    requires
        !stem.contains('.'),
    ensures
        stem.len() > 0 ==> numbered(stem + seq!['.'] + extension, n) == stem + " ("@
            + text::decimal(n) + ")."@ + extension,
        numbered(stem, n) == stem + " ("@ + text::decimal(n) + ")"@,
        numbered(seq!['.'] + extension, n) == seq!['.'] + extension + " ("@ + text::decimal(n)
            + ")"@,
{
    reveal_strlit(".");
    reveal_strlit(")");
    reveal_strlit(").");
    let name = stem + seq!['.'] + extension;
    let dot = text::position_of(name, '.', 0);
    text::lemma_position_of(name, '.', 0);
    assert(name[stem.len() as int] == '.');
    if dot < stem.len() {
        assert(stem[dot] == '.');
    }
    assert(dot == stem.len());
    assert(name.take(dot) =~= stem);
    assert(name.skip(dot + 1) =~= extension);
    assert(")"@ + "."@ =~= ")."@);
    assert(stem + " ("@ + text::decimal(n) + ")"@ + "."@ + extension =~= stem + " ("@
        + text::decimal(n) + ")."@ + extension);
    text::lemma_position_of(stem, '.', 0);
    if text::position_of(stem, '.', 0) < stem.len() {
        assert(stem[text::position_of(stem, '.', 0)] == '.');
    }
    text::lemma_position_of(seq!['.'] + extension, '.', 0);
    assert((seq!['.'] + extension)[0] == '.');
}

/// The name of a device gets an underscore before it, whatever its case and its
/// extension; a name that is not as long as one of a device gets none.
pub proof fn devices_get_an_underscore(base: Seq<char>, extension: Seq<char>)
    requires
        !base.contains('.'),
        extension.len() == 0 || extension[0] == '.',
    ensures
        ({
            let upper = text::ascii_upper(base);
            &&& upper == "CON"@ || upper == "PRN"@ || upper == "AUX"@ || upper == "NUL"@
                ==> unreserved(base + extension) == "_"@ + base + extension
            &&& base.len() == 4 && (upper.take(3) == "COM"@ || upper.take(3) == "LPT"@) && '1'
                <= base[3] <= '9' ==> unreserved(base + extension) == "_"@ + base + extension
            &&& base.len() == 4 && !('1' <= base[3] <= '9') ==> unreserved(base + extension) == base
                + extension
            &&& base.len() < 3 || base.len() > 4 ==> unreserved(base + extension) == base
                + extension
        }),
{
    reveal_strlit("CON");
    reveal_strlit("PRN");
    reveal_strlit("AUX");
    reveal_strlit("NUL");
    reveal_strlit("COM");
    reveal_strlit("LPT");
    let name = base + extension;
    let dot = text::position_of(name, '.', 0);
    text::lemma_position_of(name, '.', 0);
    if dot < base.len() {
        assert(name[dot] == base[dot]);
        assert(base.contains('.'));
    }
    if extension.len() > 0 {
        assert(name[base.len() as int] == '.');
    }
    assert(dot == base.len());
    assert(name.take(dot) =~= base);
    let upper = text::ascii_upper(base);
    assert(upper.len() == base.len());
    assert("_"@ + base + extension =~= "_"@ + name);
    if base.len() == 4 {
        assert("COM"@.is_prefix_of(upper) <==> upper.take(3) =~= "COM"@);
        assert("LPT"@.is_prefix_of(upper) <==> upper.take(3) =~= "LPT"@);
        assert(upper[3] == text::ascii_upper_char(base[3]));
    }
}

/// A name is cut where the next character would no longer fit: what is left takes at
/// most the bytes allowed, and one character more would take more.
pub proof fn a_cut_name_is_as_long_as_can_be(s: Seq<char>, max: nat) -> (k: int)
    ensures
        0 <= k <= s.len(),
        longest_prefix(s, max) == s.take(k),
        text::byte_len(s.take(k)) <= max,
        k < s.len() ==> text::byte_len(s.take(k + 1)) > max,
    decreases s.len(),
{
    if s.len() == 0 || text::byte_len(s) <= max {
        assert(s.take(s.len() as int) =~= s);
        s.len() as int
    } else {
        let shorter = s.drop_last();
        let k = a_cut_name_is_as_long_as_can_be(shorter, max);
        assert(shorter.take(k) =~= s.take(k));
        if k < shorter.len() {
            assert(shorter.take(k + 1) =~= s.take(k + 1));
        } else {
            assert(s.take(k + 1) =~= s);
        }
        k
    }
}

/// A name that is too long loses the end of its stem, and keeps its extension, where
/// that leaves room for a stem.
pub proof fn the_stem_is_what_is_cut(stem: Seq<char>, extension: Seq<char>, max: nat)
    requires
        stem.len() > 0,
        !stem.contains('.'),
        text::byte_len(stem) + 1 + text::byte_len(extension) > max,
        text::byte_len(extension) + 1 < max,
    ensures
        truncated(stem + seq!['.'] + extension, max) == longest_prefix(
            stem,
            (max - text::byte_len(extension) - 1) as nat,
        ) + seq!['.'] + extension,
        truncated(stem, max) == longest_prefix(stem, max),
{
    reveal_strlit(".");
    let name = stem + seq!['.'] + extension;
    let dot = text::position_of(name, '.', 0);
    text::lemma_position_of(name, '.', 0);
    assert(name[stem.len() as int] == '.');
    if dot < stem.len() {
        assert(stem[dot] == '.');
    }
    assert(name.take(dot) =~= stem);
    assert(name.skip(dot + 1) =~= extension);
    assert("."@ =~= seq!['.']);
    assert(seq!['.'].drop_last() =~= Seq::empty());
    reveal_with_fuel(text::byte_len, 2);
    lemma_byte_len_of_concat(stem, seq!['.']);
    lemma_byte_len_of_concat(stem + seq!['.'], extension);
    text::lemma_position_of(stem, '.', 0);
    if text::position_of(stem, '.', 0) < stem.len() {
        assert(stem[text::position_of(stem, '.', 0)] == '.');
    }
}

/// A free name is looked for among the name itself and the numbers from 1 to 10,000, in
/// this order.
pub proof fn numbers_are_tried_in_turn<F: Fn(&str) -> bool>(taken: F, name: Seq<char>, n: int)
    ensures
        is_first_free(taken, name, n) ==> 0 <= n <= 10_000,
        n == 0 && may_answer(taken, name, false) ==> is_first_free(taken, name, n),
        1 <= n <= 10_000 && all_taken(taken, name, n) && may_answer(
            taken,
            numbered(name, n as nat),
            false,
        ) ==> is_first_free(taken, name, n),
        is_first_free(taken, name, n) && n > 0 ==> may_answer(taken, name, true) && forall|k: int|
            1 <= k < n ==> may_answer(taken, #[trigger] numbered(name, k as nat), true),
{
    if is_first_free(taken, name, n) && n > 0 {
        assert(may_answer(taken, attempt(name, 0), true));
        assert forall|k: int| 1 <= k < n implies may_answer(
            taken,
            #[trigger] numbered(name, k as nat),
            true,
        ) by {
            assert(may_answer(taken, attempt(name, k), true));
        }
    }
}

} // verus!
