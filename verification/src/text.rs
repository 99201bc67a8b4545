//! Text as sequences of characters: the string operations that the rest of the
//! library is built from, each stated over `Seq<char>`.

use vstd::prelude::*;
use vstd::slice::{slice_subrange, slice_to_vec};
use vstd::string::*;

verus! {

/// The Unicode property `White_Space`.
pub open spec fn is_white_space(c: char) -> bool {
    ||| '\u{9}' <= c <= '\u{d}'
    ||| c == ' '
    ||| c == '\u{85}'
    ||| c == '\u{a0}'
    ||| c == '\u{1680}'
    ||| '\u{2000}' <= c <= '\u{200a}'
    ||| c == '\u{2028}'
    ||| c == '\u{2029}'
    ||| c == '\u{202f}'
    ||| c == '\u{205f}'
    ||| c == '\u{3000}'
}

/// The Unicode general category `Cc`.
pub open spec fn is_control_char(c: char) -> bool {
    c <= '\u{1f}' || '\u{7f}' <= c <= '\u{9f}'
}

/// `char::is_whitespace` tests for the Unicode property `White_Space`.
pub assume_specification[ char::is_whitespace ](c: char) -> (b: bool)
    ensures
        b == is_white_space(c),
;

/// `char::is_control` tests for the Unicode general category `Cc`.
pub assume_specification[ char::is_control ](c: char) -> (b: bool)
    ensures
        b == is_control_char(c),
;

/// `String::push` appends one character.
pub assume_specification[ String::push ](s: &mut String, c: char)
    ensures
        final(s)@ == old(s)@.push(c),
;

/// The characters of `s`, in order.
pub fn chars_of(s: &str) -> (v: Vec<char>)
    ensures
        v@ == s@,
{
    let mut v: Vec<char> = Vec::new();
    for c in it: s.chars()
        invariant
            it.seq() == s@,
            v@ == s@.take(it.index() as int),
    {
        v.push(c);
    }
    v
}

/// The string whose characters are `chars`.
pub fn string_of(chars: &[char]) -> (s: String)
    ensures
        s@ == chars@,
{
    let mut s = String::new();
    for i in 0..chars.len()
        invariant
            s@ == chars@.take(i as int),
    {
        s.push(chars[i]);
    }
    assert(chars@.take(chars@.len() as int) == chars@);
    s
}

/// Whether two character slices hold the same characters.
pub fn chars_eq(a: &[char], b: &[char]) -> (r: bool)
    ensures
        r == (a@ == b@),
{
    if a.len() != b.len() {
        return false;
    }
    for i in 0..a.len()
        invariant
            a@.len() == b@.len(),
            forall|j: int| 0 <= j < i ==> a@[j] == b@[j],
    {
        if a[i] != b[i] {
            return false;
        }
    }
    assert(a@ =~= b@);
    true
}

/// Whether two strings hold the same characters.
pub fn str_eq(a: &str, b: &str) -> (r: bool)
    ensures
        r == (a@ == b@),
{
    let x = chars_of(a);
    let y = chars_of(b);
    chars_eq(&x, &y)
}

// ---------------------------------------------------------------------------
// Trimming

/// `s` without its leading white space.
pub open spec fn trimmed_start(s: Seq<char>) -> Seq<char>
    decreases s.len(),
{
    if s.len() > 0 && is_white_space(s.first()) {
        trimmed_start(s.drop_first())
    } else {
        s
    }
}

/// `s` without its trailing white space.
pub open spec fn trimmed_end(s: Seq<char>) -> Seq<char>
    decreases s.len(),
{
    if s.len() > 0 && is_white_space(s.last()) {
        trimmed_end(s.drop_last())
    } else {
        s
    }
}

/// `s` without leading and trailing white space.
pub open spec fn trimmed(s: Seq<char>) -> Seq<char> {
    trimmed_end(trimmed_start(s))
}

/// The part of `s` that is left after trimming, as its bounds.
fn trim_bounds(s: &[char]) -> (r: (usize, usize))
    ensures
        r.0 <= r.1 <= s@.len(),
        s@.subrange(r.0 as int, r.1 as int) == trimmed(s@),
{
    let mut i: usize = 0;
    assert(s@.skip(0) =~= s@);
    while i < s.len() && s[i].is_whitespace()
        invariant
            i <= s@.len(),
            trimmed_start(s@) == trimmed_start(s@.skip(i as int)),
        decreases s@.len() - i,
    {
        assert(s@.skip(i as int).drop_first() =~= s@.skip(i + 1));
        i = i + 1;
    }
    let mut j: usize = s.len();
    assert(s@.skip(i as int) =~= s@.subrange(i as int, j as int));
    while j > i && s[j - 1].is_whitespace()
        invariant
            i <= j <= s@.len(),
            trimmed(s@) == trimmed_end(s@.subrange(i as int, j as int)),
        decreases j,
    {
        assert(s@.subrange(i as int, j as int).drop_last() =~= s@.subrange(i as int, j - 1));
        j = j - 1;
    }
    (i, j)
}

/// `s` without leading and trailing white space.
pub fn trim_chars(s: &[char]) -> (r: &[char])
    ensures
        r@ == trimmed(s@),
{
    let (i, j) = trim_bounds(s);
    slice_subrange(s, i, j)
}

/// `s` without leading and trailing white space.
pub fn trim(s: &str) -> (r: &str)
    ensures
        r@ == trimmed(s@),
{
    let v = chars_of(s);
    let (i, j) = trim_bounds(&v);
    s.substring_char(i, j)
}

/// Trimming removes no character that is not white space, and leaves none at
/// either end.
pub proof fn lemma_trimmed_ends(s: Seq<char>)
    ensures
        trimmed(s).len() > 0 ==> !is_white_space(trimmed(s).first()) && !is_white_space(
            trimmed(s).last(),
        ),
{
    lemma_trimmed_start_first(s);
    lemma_trimmed_end_last(trimmed_start(s));
}

proof fn lemma_trimmed_start_first(s: Seq<char>)
    ensures
        trimmed_start(s).len() > 0 ==> !is_white_space(trimmed_start(s).first()),
    decreases s.len(),
{
    if s.len() > 0 && is_white_space(s.first()) {
        lemma_trimmed_start_first(s.drop_first());
    }
}

proof fn lemma_trimmed_end_last(s: Seq<char>)
    ensures
        trimmed_end(s).len() > 0 ==> !is_white_space(trimmed_end(s).last()) && trimmed_end(
            s,
        ).first() == s.first(),
    decreases s.len(),
{
    if s.len() > 0 && is_white_space(s.last()) {
        lemma_trimmed_end_last(s.drop_last());
    }
}

/// Trimming twice is trimming once.
pub proof fn trimmed_is_idempotent(s: Seq<char>)
    ensures
        trimmed(trimmed(s)) == trimmed(s),
{
    lemma_trimmed_ends(s);
}

/// What trimming leaves is a part of the text.
pub proof fn lemma_trimmed_is_part(s: Seq<char>) -> (r: (int, int))
    ensures
        0 <= r.0 <= r.1 <= s.len(),
        trimmed(s) == s.subrange(r.0, r.1),
{
    let i = lemma_trimmed_start_is_suffix(s);
    let rest = trimmed_start(s);
    let j = lemma_trimmed_end_is_prefix(rest);
    assert(trimmed(s) =~= s.subrange(i, i + j));
    (i, i + j)
}

proof fn lemma_trimmed_start_is_suffix(s: Seq<char>) -> (i: int)
    ensures
        0 <= i <= s.len(),
        trimmed_start(s) == s.skip(i),
    decreases s.len(),
{
    if s.len() > 0 && is_white_space(s.first()) {
        let k = lemma_trimmed_start_is_suffix(s.drop_first());
        assert(s.drop_first().skip(k) =~= s.skip(k + 1));
        k + 1
    } else {
        assert(s.skip(0) =~= s);
        0
    }
}

proof fn lemma_trimmed_end_is_prefix(s: Seq<char>) -> (j: int)
    ensures
        0 <= j <= s.len(),
        trimmed_end(s) == s.take(j),
    decreases s.len(),
{
    if s.len() > 0 && is_white_space(s.last()) {
        let k = lemma_trimmed_end_is_prefix(s.drop_last());
        assert(s.drop_last().take(k) =~= s.take(k));
        k
    } else {
        assert(s.take(s.len() as int) =~= s);
        s.len() as int
    }
}

// ---------------------------------------------------------------------------
// Searching

/// Whether `needle` stands in `hay` at index `i`.
pub open spec fn occurs_at(hay: Seq<char>, needle: Seq<char>, i: int) -> bool {
    0 <= i && i + needle.len() <= hay.len() && hay.subrange(i, i + needle.len()) == needle
}

/// The least index, from `from` on, at which `needle` stands in `hay`.
pub open spec fn first_occurrence(hay: Seq<char>, needle: Seq<char>, from: int) -> Option<int>
    decreases hay.len() + 1 - from,
{
    if from + needle.len() > hay.len() {
        None
    } else if occurs_at(hay, needle, from) {
        Some(from)
    } else {
        first_occurrence(hay, needle, from + 1)
    }
}

/// Whether `needle` stands anywhere in `hay`.
pub open spec fn contains_text(hay: Seq<char>, needle: Seq<char>) -> bool {
    exists|i: int| occurs_at(hay, needle, i)
}

/// Whether `needle` stands in `hay` at index `i`.
pub fn matches_at(hay: &[char], needle: &[char], i: usize) -> (r: bool)
    ensures
        r == occurs_at(hay@, needle@, i as int),
{
    if i > hay.len() || needle.len() > hay.len() - i {
        return false;
    }
    for k in 0..needle.len()
        invariant
            i + needle@.len() <= hay@.len() <= usize::MAX,
            forall|j: int| 0 <= j < k ==> hay@[i + j] == needle@[j],
    {
        if hay[i + k] != needle[k] {
            assert(hay@.subrange(i as int, i + needle@.len())[k as int] == hay@[i + k]);
            return false;
        }
    }
    assert(hay@.subrange(i as int, i + needle@.len()) =~= needle@);
    true
}

/// The least index, from `from` on, at which `needle` stands in `hay`.
pub fn find_from(hay: &[char], needle: &[char], from: usize) -> (r: Option<usize>)
    ensures
        match r {
            Some(i) => first_occurrence(hay@, needle@, from as int) == Some(i as int) && from <= i
                && i + needle@.len() <= hay@.len(),
            None => first_occurrence(hay@, needle@, from as int) is None,
        },
{
    let mut i: usize = from;
    while i <= hay.len() && needle.len() <= hay.len() - i
        invariant
            from <= i,
            first_occurrence(hay@, needle@, from as int) == first_occurrence(
                hay@,
                needle@,
                i as int,
            ),
        decreases hay@.len() + 1 - i,
    {
        if matches_at(hay, needle, i) {
            return Some(i);
        }
        if i == hay.len() {
            assert(first_occurrence(hay@, needle@, i + 1) is None);
            return None;
        }
        i = i + 1;
    }
    None
}

/// A first occurrence exists exactly where some occurrence does, and no earlier
/// index holds one.
pub proof fn lemma_first_occurrence(hay: Seq<char>, needle: Seq<char>, from: int)
    requires
        from >= 0,
    ensures
        match first_occurrence(hay, needle, from) {
            Some(i) => from <= i && occurs_at(hay, needle, i) && forall|j: int|
                from <= j < i ==> !occurs_at(hay, needle, j),
            None => forall|j: int| from <= j ==> !occurs_at(hay, needle, j),
        },
    decreases hay.len() + 1 - from,
{
    if from + needle.len() > hay.len() {
    } else if occurs_at(hay, needle, from) {
    } else {
        lemma_first_occurrence(hay, needle, from + 1);
    }
}

/// Whether `needle` stands anywhere in `hay`.
pub fn contains_chars(hay: &[char], needle: &[char]) -> (r: bool)
    ensures
        r == contains_text(hay@, needle@),
{
    let r = find_from(hay, needle, 0);
    proof {
        lemma_first_occurrence(hay@, needle@, 0);
    }
    r.is_some()
}

/// Whether `needle` stands anywhere in `hay`.
pub fn contains(hay: &str, needle: &str) -> (r: bool)
    ensures
        r == contains_text(hay@, needle@),
{
    let h = chars_of(hay);
    let n = chars_of(needle);
    contains_chars(&h, &n)
}

/// The least index, from `from` on, that holds `c`; the length of `s` where none does.
pub open spec fn position_of(s: Seq<char>, c: char, from: int) -> int
    decreases s.len() - from,
{
    if from >= s.len() {
        s.len() as int
    } else if s[from] == c {
        from
    } else {
        position_of(s, c, from + 1)
    }
}

/// The least index, from `from` on, that holds `c`; the length of `s` where none does.
pub fn position(s: &[char], c: char, from: usize) -> (r: usize)
    requires
        from <= s@.len(),
    ensures
        r == position_of(s@, c, from as int),
        from <= r <= s@.len(),
        r < s@.len() ==> s@[r as int] == c,
        forall|j: int| from <= j < r ==> s@[j] != c,
{
    let mut i: usize = from;
    while i < s.len() && s[i] != c
        invariant
            from <= i <= s@.len(),
            position_of(s@, c, from as int) == position_of(s@, c, i as int),
            forall|j: int| from <= j < i ==> s@[j] != c,
        decreases s@.len() - i,
    {
        i = i + 1;
    }
    i
}

/// What the index of a character is, stated without recursion.
pub proof fn lemma_position_of(s: Seq<char>, c: char, from: int)
    requires
        0 <= from <= s.len(),
    ensures
        from <= position_of(s, c, from) <= s.len(),
        position_of(s, c, from) < s.len() ==> s[position_of(s, c, from)] == c,
        forall|j: int| from <= j < position_of(s, c, from) ==> s[j] != c,
    decreases s.len() - from,
{
    if from < s.len() && s[from] != c {
        lemma_position_of(s, c, from + 1);
    }
}

/// The greatest index that holds `c`; `None` where none does.
pub open spec fn last_position_of(s: Seq<char>, c: char) -> Option<int>
    decreases s.len(),
{
    if s.len() == 0 {
        None
    } else if s.last() == c {
        Some(s.len() - 1)
    } else {
        last_position_of(s.drop_last(), c)
    }
}

/// The greatest index that holds `c`.
pub fn last_position(s: &[char], c: char) -> (r: Option<usize>)
    ensures
        match r {
            Some(i) => last_position_of(s@, c) == Some(i as int) && i < s@.len() && s@[i as int]
                == c,
            None => last_position_of(s@, c) is None,
        },
{
    let mut i: usize = s.len();
    assert(s@.take(s@.len() as int) =~= s@);
    while i > 0
        invariant
            i <= s@.len(),
            last_position_of(s@, c) == last_position_of(s@.take(i as int), c),
        decreases i,
    {
        assert(s@.take(i as int).drop_last() =~= s@.take(i - 1));
        if s[i - 1] == c {
            return Some(i - 1);
        }
        i = i - 1;
    }
    None
}

// ---------------------------------------------------------------------------
// ASCII case

/// `c`, in lower case if it is an ASCII letter.
pub open spec fn ascii_lower_char(c: char) -> char {
    if 'A' <= c <= 'Z' {
        (c as int + 32) as char
    } else {
        c
    }
}

/// `c`, in upper case if it is an ASCII letter.
pub open spec fn ascii_upper_char(c: char) -> char {
    if 'a' <= c <= 'z' {
        (c as int - 32) as char
    } else {
        c
    }
}

/// `s` with its ASCII letters in lower case.
pub open spec fn ascii_lower(s: Seq<char>) -> Seq<char> {
    s.map_values(|c: char| ascii_lower_char(c))
}

/// `s` with its ASCII letters in upper case.
pub open spec fn ascii_upper(s: Seq<char>) -> Seq<char> {
    s.map_values(|c: char| ascii_upper_char(c))
}

/// `c`, in lower case if it is an ASCII letter.
pub fn to_ascii_lower_char(c: char) -> (r: char)
    ensures
        r == ascii_lower_char(c),
{
    if 'A' <= c && c <= 'Z' {
        (c as u8 + 32) as char
    } else {
        c
    }
}

/// `c`, in upper case if it is an ASCII letter.
pub fn to_ascii_upper_char(c: char) -> (r: char)
    ensures
        r == ascii_upper_char(c),
{
    if 'a' <= c && c <= 'z' {
        (c as u8 - 32) as char
    } else {
        c
    }
}

/// `s` with its ASCII letters in lower case.
pub fn to_ascii_lower(s: &[char]) -> (r: Vec<char>)
    ensures
        r@ == ascii_lower(s@),
{
    let mut r: Vec<char> = Vec::new();
    for i in 0..s.len()
        invariant
            r@ == ascii_lower(s@.take(i as int)),
    {
        r.push(to_ascii_lower_char(s[i]));
        assert(r@ =~= ascii_lower(s@.take(i + 1)));
    }
    assert(s@.take(s@.len() as int) == s@);
    r
}

/// `s` with its ASCII letters in upper case.
pub fn to_ascii_upper(s: &[char]) -> (r: Vec<char>)
    ensures
        r@ == ascii_upper(s@),
{
    let mut r: Vec<char> = Vec::new();
    for i in 0..s.len()
        invariant
            r@ == ascii_upper(s@.take(i as int)),
    {
        r.push(to_ascii_upper_char(s[i]));
        assert(r@ =~= ascii_upper(s@.take(i + 1)));
    }
    assert(s@.take(s@.len() as int) == s@);
    r
}

// ---------------------------------------------------------------------------
// Splitting

/// The contents of a list of texts.
pub open spec fn texts(v: Seq<Vec<char>>) -> Seq<Seq<char>> {
    v.map_values(|t: Vec<char>| t@)
}

/// The parts of `s` between occurrences of `sep`: one more than there are
/// occurrences.
pub open spec fn split_parts(s: Seq<char>, sep: char) -> Seq<Seq<char>>
    decreases s.len(),
    via split_parts_decreases
{
    let n = position_of(s, sep, 0);
    if n >= s.len() {
        seq![s]
    } else {
        seq![s.take(n)] + split_parts(s.skip(n + 1), sep)
    }
}

#[via_fn]
proof fn split_parts_decreases(s: Seq<char>, sep: char) {
    lemma_position_of(s, sep, 0);
}

/// The parts of `s` between occurrences of `sep`.
pub fn split_chars(s: &[char], sep: char) -> (r: Vec<Vec<char>>)
    ensures
        texts(r@) == split_parts(s@, sep),
{
    let mut parts: Vec<Vec<char>> = Vec::new();
    let mut start: usize = 0;
    assert(s@.skip(0) =~= s@);
    assert(texts(parts@) + split_parts(s@.skip(0), sep) =~= split_parts(s@, sep));
    loop
        invariant
            start <= s@.len(),
            texts(parts@) + split_parts(s@.skip(start as int), sep) == split_parts(s@, sep),
        decreases s@.len() - start,
    {
        let n: usize = position(s, sep, start);
        proof {
            lemma_position_of_skip(s@, sep, start as int);
        }
        let ghost rest = s@.skip(start as int);
        let ghost before = texts(parts@);
        parts.push(slice_to_vec(slice_subrange(s, start, n)));
        proof {
            let part = s@.subrange(start as int, n as int);
            assert(texts(parts@) =~= before.push(part));
            assert(rest.take(n - start) =~= part);
            if n < s@.len() {
                assert(rest.skip(n - start + 1) =~= s@.skip(n + 1));
                assert(before.push(part) + split_parts(s@.skip(n + 1), sep) =~= before + (
                seq![part] + split_parts(s@.skip(n + 1), sep)));
            } else {
                assert(rest =~= part);
                assert(before.push(part) =~= before + seq![rest]);
            }
        }
        if n == s.len() {
            return parts;
        }
        start = n + 1;
    }
}

proof fn lemma_position_of_skip(s: Seq<char>, c: char, from: int)
    requires
        0 <= from <= s.len(),
    ensures
        position_of(s.skip(from), c, 0) == position_of(s, c, from) - from,
{
    lemma_position_of(s, c, from);
    lemma_position_of(s.skip(from), c, 0);
    let p = position_of(s, c, from);
    let q = position_of(s.skip(from), c, 0);
    if p < q + from {
        assert(s.skip(from)[p - from] == s[p]);
    } else if q + from < p {
        assert(s[q + from] == s.skip(from)[q]);
    }
}

/// The words of `s`, which white space separates.
pub open spec fn words(s: Seq<char>) -> Seq<Seq<char>>
    decreases s.len(),
{
    if s.len() == 0 {
        Seq::empty()
    } else {
        let before = words(s.drop_last());
        let c = s.last();
        if is_white_space(c) {
            before
        } else if s.len() >= 2 && !is_white_space(s[s.len() - 2]) {
            before.drop_last().push(before.last().push(c))
        } else {
            before.push(seq![c])
        }
    }
}

/// The words of `s`, which white space separates.
pub fn words_of(s: &[char]) -> (r: Vec<Vec<char>>)
    ensures
        texts(r@) == words(s@),
{
    let mut out: Vec<Vec<char>> = Vec::new();
    assert(texts(out@) =~= words(s@.take(0)));
    for i in 0..s.len()
        invariant
            texts(out@) == words(s@.take(i as int)),
            i > 0 && !is_white_space(s@[i - 1]) ==> out@.len() > 0,
    {
        let ghost before = texts(out@);
        let ghost longer = s@.take(i + 1);
        assert(longer.drop_last() =~= s@.take(i as int));
        let c = s[i];
        if !c.is_whitespace() {
            if i > 0 && !s[i - 1].is_whitespace() {
                let last: usize = out.len() - 1;
                let ghost previous = out@;
                out[last].push(c);
                proof {
                    assert(before.last() == previous[last as int]@);
                    assert(texts(out@) =~= before.drop_last().push(before.last().push(c)));
                }
            } else {
                let mut word: Vec<char> = Vec::new();
                word.push(c);
                assert(word@ =~= seq![c]);
                out.push(word);
                assert(texts(out@) =~= before.push(seq![c]));
            }
        }
    }
    assert(s@.take(s@.len() as int) =~= s@);
    out
}

/// A line without the carriage return that ends it, if one does.
pub open spec fn without_cr(line: Seq<char>) -> Seq<char> {
    if line.len() > 0 && line.last() == '\r' {
        line.drop_last()
    } else {
        line
    }
}

/// The lines of `s`: each ends at a line feed or at the end of the text, a
/// carriage return before the line feed belongs to the line ending, and a text
/// that ends with a line feed has no empty line after it.
pub open spec fn lines(s: Seq<char>) -> Seq<Seq<char>>
    decreases s.len(),
    via lines_decreases
{
    let n = position_of(s, '\n', 0);
    if s.len() == 0 {
        Seq::empty()
    } else if n >= s.len() {
        seq![s]
    } else {
        seq![without_cr(s.take(n))] + lines(s.skip(n + 1))
    }
}

#[via_fn]
proof fn lines_decreases(s: Seq<char>) {
    lemma_position_of(s, '\n', 0);
}

/// The lines of `s`.
pub fn lines_of(s: &[char]) -> (r: Vec<Vec<char>>)
    ensures
        texts(r@) == lines(s@),
{
    let mut out: Vec<Vec<char>> = Vec::new();
    let mut start: usize = 0;
    assert(s@.skip(0) =~= s@);
    assert(texts(out@) + lines(s@.skip(0)) =~= lines(s@));
    while start < s.len()
        invariant
            start <= s@.len(),
            texts(out@) + lines(s@.skip(start as int)) == lines(s@),
        decreases s@.len() - start,
    {
        let n: usize = position(s, '\n', start);
        proof {
            lemma_position_of_skip(s@, '\n', start as int);
        }
        let ghost rest = s@.skip(start as int);
        let ghost before = texts(out@);
        let ghost part = s@.subrange(start as int, n as int);
        assert(rest.take(n - start) =~= part);
        if n == s.len() {
            out.push(slice_to_vec(slice_subrange(s, start, n)));
            proof {
                assert(rest =~= part);
                assert(texts(out@) =~= before + seq![rest]);
            }
            return out;
        }
        let end: usize = if n > start && s[n - 1] == '\r' {
            n - 1
        } else {
            n
        };
        out.push(slice_to_vec(slice_subrange(s, start, end)));
        proof {
            let line = without_cr(part);
            assert(s@.subrange(start as int, end as int) =~= line);
            assert(texts(out@) =~= before.push(line));
            assert(rest.skip(n - start + 1) =~= s@.skip(n + 1));
            assert(before.push(line) + lines(s@.skip(n + 1)) =~= before + (seq![line] + lines(
                s@.skip(n + 1),
            )));
        }
        start = n + 1;
    }
    assert(texts(out@) + Seq::<Seq<char>>::empty() =~= texts(out@));
    out
}

/// The lines of a text that starts with whole lines are those lines, and then
/// the lines of the rest.
pub proof fn lemma_lines_of_concat(s: Seq<char>, t: Seq<char>)
    requires
        s.len() == 0 || s.last() == '\n',
    ensures
        lines(s + t) == lines(s) + lines(t),
    decreases s.len(),
{
    if s.len() == 0 {
        assert(s + t =~= t);
        assert(lines(s) + lines(t) =~= lines(t));
    } else {
        let n = position_of(s, '\n', 0);
        lemma_position_of(s, '\n', 0);
        assert(n < s.len());
        lemma_position_of(s + t, '\n', 0);
        let m = position_of(s + t, '\n', 0);
        assert((s + t)[n] == s[n]);
        assert(m == n) by {
            if m < n {
                assert((s + t)[m] == s[m]);
            }
        }
        let rest = s.skip(n + 1);
        assert((s + t).take(n) =~= s.take(n));
        assert((s + t).skip(n + 1) =~= rest + t);
        assert(rest.len() > 0 ==> rest.last() == s.last());
        lemma_lines_of_concat(rest, t);
        let line = without_cr(s.take(n));
        assert(seq![line] + (lines(rest) + lines(t)) =~= (seq![line] + lines(rest)) + lines(t));
    }
}

/// A text without line endings, and a line feed after it, is one line.
pub proof fn lemma_line_of_one(line: Seq<char>)
    requires
        forall|i: int| 0 <= i < line.len() ==> #[trigger] line[i] != '\n' && line[i] != '\r',
    ensures
        lines(line + seq!['\n']) == seq![line],
{
    let s = line + seq!['\n'];
    lemma_position_of(s, '\n', 0);
    let n = position_of(s, '\n', 0);
    assert(n == line.len()) by {
        assert(s[line.len() as int] == '\n');
        if n < line.len() {
            assert(s[n] == line[n]);
        }
    }
    assert(s.take(n) =~= line);
    assert(s.skip(n + 1) =~= Seq::empty());
    assert(lines(s.skip(n + 1)) =~= Seq::empty());
    assert(seq![line] + Seq::<Seq<char>>::empty() =~= seq![line]);
}

// ---------------------------------------------------------------------------
// Decimal numbers

/// The decimal digits of `n`, without leading zeros.
pub open spec fn decimal(n: nat) -> Seq<char>
    decreases n,
{
    if n < 10 {
        seq![(48 + n) as char]
    } else {
        decimal(n / 10).push((48 + n % 10) as char)
    }
}

/// Appends the decimal digits of `n` to `out`.
pub fn push_decimal(out: &mut Vec<char>, n: u128)
    ensures
        final(out)@ == old(out)@ + decimal(n as nat),
    decreases n,
{
    if n >= 10 {
        push_decimal(out, n / 10);
    }
    out.push((48 + (n % 10) as u8) as char);
    assert(out@ =~= old(out)@ + decimal(n as nat));
}

/// The decimal digits of `n`.
pub fn decimal_of(n: u128) -> (s: String)
    ensures
        s@ == decimal(n as nat),
{
    let mut v: Vec<char> = Vec::new();
    push_decimal(&mut v, n);
    assert(v@ =~= decimal(n as nat));
    string_of(&v)
}

/// Whether `c` is a decimal digit.
pub open spec fn is_digit(c: char) -> bool {
    '0' <= c <= '9'
}

/// Whether every character of `s` is a decimal digit.
pub open spec fn all_digits(s: Seq<char>) -> bool {
    forall|i: int| 0 <= i < s.len() ==> is_digit(#[trigger] s[i])
}

/// The number that a sequence of decimal digits stands for.
pub open spec fn digits_value(s: Seq<char>) -> nat
    decreases s.len(),
{
    if s.len() == 0 {
        0
    } else {
        (10 * digits_value(s.drop_last()) + (s.last() as int - 48)) as nat
    }
}

/// The digits of an unsigned decimal number: what stands after one optional `+`.
pub open spec fn number_digits(s: Seq<char>) -> Seq<char> {
    if s.len() > 0 && s.first() == '+' {
        s.drop_first()
    } else {
        s
    }
}

/// The value of an unsigned decimal number: an optional `+` and one or more
/// digits, at most `max`.
pub open spec fn parsed_number(s: Seq<char>, max: nat) -> Option<nat> {
    let digits = number_digits(s);
    if digits.len() > 0 && all_digits(digits) && digits_value(digits) <= max {
        Some(digits_value(digits))
    } else {
        None
    }
}

/// The value of an unsigned decimal number that is at most `max`.
pub fn parse_number(s: &[char], max: u64) -> (r: Option<u64>)
    ensures
        match r {
            Some(v) => parsed_number(s@, max as nat) == Some(v as nat),
            None => parsed_number(s@, max as nat) is None,
        },
{
    let start: usize = if s.len() > 0 && s[0] == '+' {
        1
    } else {
        0
    };
    let ghost digits = number_digits(s@);
    assert(digits =~= s@.skip(start as int));
    if start == s.len() {
        return None;
    }
    let mut too_large = false;
    let mut value: u64 = 0;
    for i in start..s.len()
        invariant
            start <= s@.len(),
            digits == number_digits(s@),
            digits == s@.skip(start as int),
            forall|j: int| 0 <= j < i - start ==> is_digit(digits[j]),
            value <= max,
            !too_large ==> value == digits_value(digits.take(i - start)),
            too_large ==> digits_value(digits.take(i - start)) > max,
    {
        let c = s[i];
        assert(c == digits[i - start]);
        if c < '0' || c > '9' {
            assert(!is_digit(digits[i - start]));
            return None;
        }
        assert(digits.take(i - start + 1).drop_last() =~= digits.take(i - start));
        let d: u64 = (c as u8 - 48) as u64;
        let next: u128 = value as u128 * 10 + d as u128;
        if too_large || next > max as u128 {
            too_large = true;
        } else {
            value = next as u64;
        }
    }
    assert(digits.take(digits.len() as int) =~= digits);
    if too_large {
        None
    } else {
        Some(value)
    }
}

/// Reading back the digits of a number gives the number.
pub proof fn decimal_reads_back(n: nat, max: nat)
    requires
        n <= max,
    ensures
        parsed_number(decimal(n), max) == Some(n),
{
    lemma_decimal_digits(n);
    assert(is_digit(decimal(n)[0]));
}

/// The digits of a number are digits, and stand for it.
pub proof fn lemma_decimal_digits(n: nat)
    ensures
        decimal(n).len() > 0,
        all_digits(decimal(n)),
        digits_value(decimal(n)) == n,
    decreases n,
{
    let d = decimal(n);
    if n >= 10 {
        lemma_decimal_digits(n / 10);
        assert(d.drop_last() =~= decimal(n / 10));
        assert(forall|i: int| 0 <= i < d.len() - 1 ==> d[i] == decimal(n / 10)[i]);
    } else {
        assert(digits_value(d.drop_last()) == 0);
    }
}

// ---------------------------------------------------------------------------
// Comparing with fixed texts

/// Whether `s` is the text `t`.
pub fn is_text(s: &[char], t: &str) -> (r: bool)
    ensures
        r == (s@ == t@),
{
    let t = chars_of(t);
    chars_eq(s, &t)
}

/// Whether `s` starts with the text `t`.
pub fn has_prefix(s: &[char], t: &str) -> (r: bool)
    ensures
        r == t@.is_prefix_of(s@),
        r ==> t@.len() <= s@.len(),
{
    let p = chars_of(t);
    let r = matches_at(s, &p, 0);
    assert(r == t@.is_prefix_of(s@)) by {
        if p@.len() <= s@.len() {
            assert(s@.subrange(0, p@.len() as int) =~= s@.take(p@.len() as int));
        }
    }
    r
}

/// `s` without its first `n` characters.
pub fn skip_chars(s: &[char], n: usize) -> (r: &[char])
    requires
        n <= s@.len(),
    ensures
        r@ == s@.skip(n as int),
{
    assert(s@.subrange(n as int, s@.len() as int) =~= s@.skip(n as int));
    slice_subrange(s, n, s.len())
}

/// The first `n` characters of `s`.
pub fn take_chars(s: &[char], n: usize) -> (r: &[char])
    requires
        n <= s@.len(),
    ensures
        r@ == s@.take(n as int),
{
    assert(s@.subrange(0, n as int) =~= s@.take(n as int));
    slice_subrange(s, 0, n)
}

/// Whether `c` is an ASCII letter.
pub open spec fn is_ascii_letter(c: char) -> bool {
    'a' <= c <= 'z' || 'A' <= c <= 'Z'
}

/// Whether `c` is an ASCII letter or digit.
pub open spec fn is_ascii_word(c: char) -> bool {
    is_ascii_letter(c) || is_digit(c)
}

/// Whether `c` is an ASCII letter.
pub fn ascii_letter(c: char) -> (r: bool)
    ensures
        r == is_ascii_letter(c),
{
    ('a' <= c && c <= 'z') || ('A' <= c && c <= 'Z')
}

/// Whether `c` is an ASCII letter or digit.
pub fn ascii_word(c: char) -> (r: bool)
    ensures
        r == is_ascii_word(c),
{
    ascii_letter(c) || ('0' <= c && c <= '9')
}

// ---------------------------------------------------------------------------
// Length in bytes

/// The number of bytes that `c` takes in UTF-8.
pub open spec fn char_width(c: char) -> nat {
    if c <= '\u{7f}' {
        1
    } else if c <= '\u{7ff}' {
        2
    } else if c <= '\u{ffff}' {
        3
    } else {
        4
    }
}

/// The number of bytes that `s` takes in UTF-8.
pub open spec fn byte_len(s: Seq<char>) -> nat
    decreases s.len(),
{
    if s.len() == 0 {
        0
    } else {
        byte_len(s.drop_last()) + char_width(s.last())
    }
}

/// The number of bytes that `c` takes in UTF-8.
pub fn width_of(c: char) -> (n: usize)
    ensures
        n == char_width(c),
        1 <= n <= 4,
{
    if c <= '\u{7f}' {
        1
    } else if c <= '\u{7ff}' {
        2
    } else if c <= '\u{ffff}' {
        3
    } else {
        4
    }
}

/// Shorter prefixes take no more bytes.
pub proof fn lemma_byte_len_grows(s: Seq<char>, j: int, k: int)
    requires
        0 <= j <= k <= s.len(),
    ensures
        byte_len(s.take(j)) <= byte_len(s.take(k)),
    decreases k - j,
{
    if j < k {
        assert(s.take(k).drop_last() =~= s.take(k - 1));
        lemma_byte_len_grows(s, j, k - 1);
    }
}

/// Whether `s` takes at most `limit` bytes in UTF-8.
pub fn fits_in_bytes(s: &[char], limit: usize) -> (r: bool)
    ensures
        r == (byte_len(s@) <= limit),
{
    let mut left: usize = limit;
    for i in 0..s.len()
        invariant
            left <= limit,
            byte_len(s@.take(i as int)) == limit - left,
    {
        let w: usize = width_of(s[i]);
        proof {
            assert(s@.take(i + 1).drop_last() =~= s@.take(i as int));
            lemma_byte_len_grows(s@, i + 1, s@.len() as int);
            assert(s@.take(s@.len() as int) =~= s@);
        }
        if w > left {
            return false;
        }
        left = left - w;
    }
    assert(s@.take(s@.len() as int) =~= s@);
    true
}

proof fn lemma_byte_len_first(s: Seq<char>)
    requires
        s.len() > 0,
    ensures
        byte_len(s) == char_width(s.first()) + byte_len(s.drop_first()),
    decreases s.len(),
{
    if s.len() > 1 {
        lemma_byte_len_first(s.drop_last());
        assert(s.drop_last().drop_first() =~= s.drop_first().drop_last());
    } else {
        assert(byte_len(s.drop_last()) == 0);
    }
}

proof fn lemma_char_width_is_that_of_utf8(c: char)
    ensures
        char_width(c) == vstd::utf8::encode_scalar(c as u32).len(),
{
}

/// The length in bytes is that of the UTF-8 encoding.
pub proof fn byte_len_is_that_of_utf8(s: Seq<char>)
    ensures
        byte_len(s) == vstd::utf8::encode_utf8(s).len(),
    decreases s.len(),
{
    if s.len() > 0 {
        lemma_byte_len_first(s);
        byte_len_is_that_of_utf8(s.drop_first());
        lemma_char_width_is_that_of_utf8(s.first());
    }
}

// ---------------------------------------------------------------------------
// Quoting

/// A text in the form that the `Debug` implementation of `str` gives it: in
/// double quotes, with escapes.
pub uninterp spec fn debug_quoted(s: Seq<char>) -> Seq<char>;

/// `<str as std::fmt::Debug>::fmt`, through `format!`: the result depends on the
/// text alone.
#[verifier::external_body]
pub(crate) fn quote(s: &str) -> (r: String)
    ensures
        r@ == debug_quoted(s@),
{
    format!("{:?}", s)
}

// ---------------------------------------------------------------------------
// The order of texts

/// Whether `a` comes before `b`, character by character.
pub open spec fn text_less(a: Seq<char>, b: Seq<char>) -> bool
    decreases a.len(),
{
    if b.len() == 0 {
        false
    } else if a.len() == 0 {
        true
    } else {
        a[0] < b[0] || (a[0] == b[0] && text_less(a.drop_first(), b.drop_first()))
    }
}

fn is_less(a: &[char], b: &[char]) -> (r: bool)
    ensures
        r == text_less(a@, b@),
{
    let mut i: usize = 0;
    assert(a@.skip(0) =~= a@ && b@.skip(0) =~= b@);
    while i < a.len() && i < b.len() && a[i] == b[i]
        invariant
            i <= a@.len(),
            i <= b@.len(),
            text_less(a@, b@) == text_less(a@.skip(i as int), b@.skip(i as int)),
        decreases a@.len() - i,
    {
        assert(a@.skip(i as int).drop_first() =~= a@.skip(i + 1));
        assert(b@.skip(i as int).drop_first() =~= b@.skip(i + 1));
        i = i + 1;
    }
    i < b.len() && (i == a.len() || a[i] < b[i])
}

/// No text comes before itself.
pub proof fn lemma_text_less_is_strict(a: Seq<char>)
    ensures
        !text_less(a, a),
    decreases a.len(),
{
    if a.len() > 0 {
        lemma_text_less_is_strict(a.drop_first());
    }
}

/// Of two different texts, one comes before the other.
pub proof fn lemma_text_less_is_total(a: Seq<char>, b: Seq<char>)
    ensures
        text_less(a, b) || text_less(b, a) || a == b,
    decreases a.len(),
{
    if a.len() > 0 && b.len() > 0 {
        lemma_text_less_is_total(a.drop_first(), b.drop_first());
        if a[0] == b[0] && a.drop_first() == b.drop_first() {
            assert(a =~= seq![a[0]] + a.drop_first());
            assert(b =~= seq![b[0]] + b.drop_first());
        }
    } else if a.len() == 0 && b.len() == 0 {
        assert(a =~= b);
    }
}

/// What comes before a text comes before all that follow it.
pub proof fn lemma_text_less_is_transitive(a: Seq<char>, b: Seq<char>, c: Seq<char>)
    requires
        text_less(a, b),
        text_less(b, c),
    ensures
        text_less(a, c),
    decreases a.len(),
{
    if a.len() > 0 && a[0] == b[0] && b[0] == c[0] {
        lemma_text_less_is_transitive(a.drop_first(), b.drop_first(), c.drop_first());
    }
}

/// Whether `a` comes before `b`.
pub fn less(a: &str, b: &str) -> (r: bool)
    ensures
        r == text_less(a@, b@),
{
    let x = chars_of(a);
    let y = chars_of(b);
    is_less(&x, &y)
}

// ---------------------------------------------------------------------------
// Laws

/// Whether a text is made of white space alone.
pub open spec fn is_blank(s: Seq<char>) -> bool {
    forall|i: int| 0 <= i < s.len() ==> is_white_space(#[trigger] s[i])
}

/// Trimming takes nothing away but white space at either end.
pub proof fn trimming_cuts_white_space_only(s: Seq<char>) -> (around: (Seq<char>, Seq<char>))
    ensures
        s == around.0 + trimmed(s) + around.1,
        is_blank(around.0),
        is_blank(around.1),
{
    let front = lemma_cut_start(s);
    let back = lemma_cut_end(trimmed_start(s));
    assert(front + trimmed(s) + back =~= front + (trimmed(s) + back));
    (front, back)
}

proof fn lemma_cut_start(s: Seq<char>) -> (front: Seq<char>)
    ensures
        s == front + trimmed_start(s),
        is_blank(front),
    decreases s.len(),
{
    if s.len() > 0 && is_white_space(s.first()) {
        let rest = lemma_cut_start(s.drop_first());
        let front = seq![s.first()] + rest;
        assert(s.drop_first() == rest + trimmed_start(s));
        assert(s =~= seq![s.first()] + s.drop_first());
        assert(s =~= front + trimmed_start(s));
        assert forall|i: int| 0 <= i < front.len() implies is_white_space(#[trigger] front[i]) by {
            if i > 0 {
                assert(front[i] == rest[i - 1]);
            }
        }
        front
    } else {
        assert(Seq::<char>::empty() + s =~= s);
        Seq::empty()
    }
}

proof fn lemma_cut_end(s: Seq<char>) -> (back: Seq<char>)
    ensures
        s == trimmed_end(s) + back,
        is_blank(back),
    decreases s.len(),
{
    if s.len() > 0 && is_white_space(s.last()) {
        let rest = lemma_cut_end(s.drop_last());
        let back = rest.push(s.last());
        assert(s.drop_last() == trimmed_end(s) + rest);
        assert(s =~= s.drop_last().push(s.last()));
        assert(s =~= trimmed_end(s) + back);
        back
    } else {
        assert(s + Seq::<char>::empty() =~= s);
        Seq::empty()
    }
}

/// A text without white space at its ends is left as it is, whatever stands around
/// it.
pub proof fn trimming_finds_what_is_inside(front: Seq<char>, s: Seq<char>, back: Seq<char>)
    requires
        is_blank(front),
        is_blank(back),
        s.len() > 0,
        !is_white_space(s.first()),
        !is_white_space(s.last()),
    ensures
        trimmed(front + s + back) == s,
{
    lemma_skip_front(front, s + back);
    assert(front + s + back =~= front + (s + back));
    lemma_skip_back(s, back);
}

proof fn lemma_skip_front(front: Seq<char>, s: Seq<char>)
    requires
        is_blank(front),
        s.len() > 0,
        !is_white_space(s.first()),
    ensures
        trimmed_start(front + s) == s,
    decreases front.len(),
{
    if front.len() == 0 {
        assert(front + s =~= s);
    } else {
        assert((front + s).drop_first() =~= front.drop_first() + s);
        assert(is_white_space(front[0]));
        assert forall|i: int| 0 <= i < front.drop_first().len() implies is_white_space(
            #[trigger] front.drop_first()[i],
        ) by {
            assert(front.drop_first()[i] == front[i + 1]);
        }
        lemma_skip_front(front.drop_first(), s);
    }
}

proof fn lemma_skip_back(s: Seq<char>, back: Seq<char>)
    requires
        is_blank(back),
        s.len() > 0,
        !is_white_space(s.last()),
    ensures
        trimmed_end(s + back) == s,
    decreases back.len(),
{
    if back.len() == 0 {
        assert(s + back =~= s);
    } else {
        assert((s + back).drop_last() =~= s + back.drop_last());
        assert(is_white_space(back[back.len() - 1]));
        lemma_skip_back(s, back.drop_last());
    }
}

/// A text holds another exactly where it is that text with something, or nothing,
/// before and behind it.
pub proof fn a_text_holds_its_parts(hay: Seq<char>, needle: Seq<char>)
    ensures
        contains_text(hay, needle) <==> exists|front: Seq<char>, back: Seq<char>|
            hay == #[trigger] (front + needle + back),
{
    if contains_text(hay, needle) {
        let i = choose|i: int| occurs_at(hay, needle, i);
        let front = hay.take(i);
        let back = hay.skip(i + needle.len());
        assert(hay =~= front + needle + back);
    }
    if exists|front: Seq<char>, back: Seq<char>| hay == #[trigger] (front + needle + back) {
        let (front, back) = choose|front: Seq<char>, back: Seq<char>|
            hay == #[trigger] (front + needle + back);
        let i = front.len() as int;
        assert(hay.subrange(i, i + needle.len()) =~= needle);
        assert(occurs_at(hay, needle, i));
    }
}

/// Texts with a character between each two of them.
pub open spec fn joined_by(parts: Seq<Seq<char>>, sep: char) -> Seq<char>
    decreases parts.len(),
{
    if parts.len() == 0 {
        Seq::empty()
    } else if parts.len() == 1 {
        parts[0]
    } else {
        parts[0] + seq![sep] + joined_by(parts.drop_first(), sep)
    }
}

/// The parts of a text hold no separator, and with separators between them they are
/// the text again.
pub proof fn parts_are_what_separators_part(s: Seq<char>, sep: char)
    ensures
        split_parts(s, sep).len() > 0,
        joined_by(split_parts(s, sep), sep) == s,
        forall|i: int|
            0 <= i < split_parts(s, sep).len() ==> !(#[trigger] split_parts(s, sep)[i]).contains(sep),
    decreases s.len(),
{
    let n = position_of(s, sep, 0);
    lemma_position_of(s, sep, 0);
    let parts = split_parts(s, sep);
    if n < s.len() {
        let rest = split_parts(s.skip(n + 1), sep);
        parts_are_what_separators_part(s.skip(n + 1), sep);
        assert(parts.drop_first() =~= rest);
        assert(s =~= s.take(n) + seq![sep] + s.skip(n + 1));
        assert forall|i: int| 0 <= i < parts.len() implies !(#[trigger] parts[i]).contains(sep) by {
            if i > 0 {
                assert(parts[i] == rest[i - 1]);
            }
        }
    }
}

/// Texts without the separator, with separators between them, have just those texts
/// as their parts.
pub proof fn joined_parts_are_parted_again(parts: Seq<Seq<char>>, sep: char)
    requires
        parts.len() > 0,
        forall|i: int| 0 <= i < parts.len() ==> !(#[trigger] parts[i]).contains(sep),
    ensures
        split_parts(joined_by(parts, sep), sep) == parts,
    decreases parts.len(),
{
    let s = joined_by(parts, sep);
    lemma_position_of(s, sep, 0);
    let n = position_of(s, sep, 0);
    let first = parts[0];
    assert forall|i: int| 0 <= i < first.len() implies first[i] != sep by {
        assert(parts[0].contains(first[i]));
    }
    if parts.len() == 1 {
        assert(n == s.len());
        assert(parts =~= seq![s]);
    } else {
        let rest = parts.drop_first();
        assert forall|i: int| 0 <= i < rest.len() implies !(#[trigger] rest[i]).contains(sep) by {
            assert(rest[i] == parts[i + 1]);
        }
        joined_parts_are_parted_again(rest, sep);
        assert(s[first.len() as int] == sep);
        assert(n == first.len()) by {
            if n < first.len() {
                assert(s[n] == first[n]);
            }
        }
        assert(s.take(n) =~= first);
        assert(s.skip(n + 1) =~= joined_by(rest, sep));
        assert(parts =~= seq![first] + rest);
    }
}

/// A text without white space is one word, and white space between two texts parts
/// their words.
pub proof fn white_space_parts_words(a: Seq<char>, c: char, b: Seq<char>)
    requires
        is_white_space(c),
    ensures
        words(a + seq![c] + b) == words(a) + words(b),
    decreases b.len(),
{
    let s = a + seq![c] + b;
    if b.len() == 0 {
        assert(s.drop_last() =~= a);
        assert(words(a) + words(b) =~= words(a));
    } else {
        let shorter = b.drop_last();
        white_space_parts_words(a, c, shorter);
        assert(s.drop_last() =~= a + seq![c] + shorter);
        if is_white_space(b.last()) {
        } else if b.len() >= 2 && !is_white_space(b[b.len() - 2]) {
            assert(s[s.len() - 2] == b[b.len() - 2]);
            lemma_words_not_empty(shorter);
            assert(words(s) =~= words(a) + words(b));
        } else {
            assert(s[s.len() - 2] == if b.len() >= 2 {
                b[b.len() - 2]
            } else {
                c
            });
            assert(words(s) =~= words(a) + words(b));
        }
    }
}

proof fn lemma_words_not_empty(s: Seq<char>)
    requires
        s.len() > 0,
        !is_white_space(s.last()),
    ensures
        words(s).len() > 0,
{
}

/// A text without white space is one word.
pub proof fn a_text_without_white_space_is_a_word(s: Seq<char>)
    requires
        s.len() > 0,
        forall|i: int| 0 <= i < s.len() ==> !is_white_space(#[trigger] s[i]),
    ensures
        words(s) == seq![s],
    decreases s.len(),
{
    assert(!is_white_space(s[s.len() - 1]));
    if s.len() == 1 {
        assert(s.drop_last() =~= Seq::empty());
        assert(words(s.drop_last()) =~= Seq::empty());
        assert(seq![s.last()] =~= s);
        assert(words(s) =~= seq![s]);
    } else {
        assert(!is_white_space(s[s.len() - 2]));
        assert forall|i: int| 0 <= i < s.drop_last().len() implies !is_white_space(
            #[trigger] s.drop_last()[i],
        ) by {
            assert(s.drop_last()[i] == s[i]);
        }
        a_text_without_white_space_is_a_word(s.drop_last());
        assert(s.drop_last().push(s.last()) =~= s);
        assert(words(s) =~= seq![s]);
    }
}

/// A line ends with a line feed, or with a carriage return and a line feed.
pub proof fn either_line_ending_ends_a_line(line: Seq<char>, rest: Seq<char>)
    requires
        forall|i: int| 0 <= i < line.len() ==> #[trigger] line[i] != '\n' && line[i] != '\r',
    ensures
        lines(line + seq!['\n'] + rest) == seq![line] + lines(rest),
        lines(line + seq!['\r', '\n'] + rest) == seq![line] + lines(rest),
        line.len() > 0 ==> lines(line) == seq![line],
{
    let s = line + seq!['\n'] + rest;
    lemma_position_of(s, '\n', 0);
    let n = position_of(s, '\n', 0);
    assert(n == line.len()) by {
        assert(s[line.len() as int] == '\n');
        if n < line.len() {
            assert(s[n] == line[n]);
        }
    }
    assert(s.take(n) =~= line);
    assert(s.skip(n + 1) =~= rest);
    let t = line + seq!['\r', '\n'] + rest;
    lemma_position_of(t, '\n', 0);
    let m = position_of(t, '\n', 0);
    assert(m == line.len() + 1) by {
        assert(t[line.len() as int + 1] == '\n');
        if m < line.len() {
            assert(t[m] == line[m]);
        } else if m == line.len() {
            assert(t[m] == '\r');
        }
    }
    assert(t.take(m) =~= line.push('\r'));
    assert(t.take(m).drop_last() =~= line);
    assert(t.skip(m + 1) =~= rest);
    if line.len() > 0 {
        lemma_position_of(line, '\n', 0);
    }
}

/// Letters that differ in nothing but their case become the same, no letter stays in
/// upper case, and nothing but letters of ASCII is changed.
pub proof fn case_is_all_that_is_lost(s: Seq<char>)
    ensures
        ascii_lower(s).len() == s.len(),
        ascii_lower(ascii_upper(s)) == ascii_lower(s),
        ascii_upper(ascii_lower(s)) == ascii_upper(s),
        ascii_lower(ascii_lower(s)) == ascii_lower(s),
        forall|i: int|
            0 <= i < s.len() ==> !('A' <= #[trigger] ascii_lower(s)[i] && ascii_lower(s)[i] <= 'Z'),
        forall|i: int|
            0 <= i < s.len() && !('A' <= s[i] && s[i] <= 'Z') ==> #[trigger] ascii_lower(s)[i]
                == s[i],
        forall|i: int|
            0 <= i < s.len() && 'A' <= s[i] && s[i] <= 'Z' ==> #[trigger] ascii_lower(s)[i] as int
                == s[i] as int + 32,
{
    assert(ascii_lower(ascii_upper(s)) =~= ascii_lower(s));
    assert(ascii_upper(ascii_lower(s)) =~= ascii_upper(s));
    assert(ascii_lower(ascii_lower(s)) =~= ascii_lower(s));
}

/// Lower case is taken character by character.
pub proof fn lower_case_of_a_whole_is_that_of_its_parts(a: Seq<char>, b: Seq<char>)
    ensures
        ascii_lower(a + b) == ascii_lower(a) + ascii_lower(b),
{
    assert(ascii_lower(a + b) =~= ascii_lower(a) + ascii_lower(b));
}

/// A plus sign and zeros before a number change nothing of it, and a text that holds
/// anything else is no number.
pub proof fn signs_and_zeros_do_not_count(s: Seq<char>, max: nat)
    ensures
        s.len() > 0 && s[0] != '+' ==> parsed_number(seq!['+'] + s, max) == parsed_number(s, max),
        s.len() > 0 && s[0] != '+' ==> parsed_number(seq!['0'] + s, max) == parsed_number(s, max),
        parsed_number(s, max) matches Some(n) ==> n <= max,
        parsed_number(s, max) is Some ==> s.len() > 0 && forall|i: int|
            0 <= i < s.len() ==> '0' <= #[trigger] s[i] <= '9' || (i == 0 && s[i] == '+' && s.len()
                > 1),
{
    let plus = seq!['+'] + s;
    assert(plus.drop_first() =~= s);
    let zero = seq!['0'] + s;
    if s.len() > 0 && s[0] != '+' {
        assert(all_digits(zero) == all_digits(s)) by {
            if all_digits(s) {
                assert forall|i: int| 0 <= i < zero.len() implies is_digit(#[trigger] zero[i]) by {
                    if i > 0 {
                        assert(zero[i] == s[i - 1]);
                    }
                }
            }
            if all_digits(zero) {
                assert forall|i: int| 0 <= i < s.len() implies is_digit(#[trigger] s[i]) by {
                    assert(zero[i + 1] == s[i]);
                }
            }
        }
        lemma_leading_zero(s);
    }
    if parsed_number(s, max) is Some {
        let digits = number_digits(s);
        assert forall|i: int| 0 <= i < s.len() implies '0' <= #[trigger] s[i] <= '9' || (i == 0
            && s[i] == '+' && s.len() > 1) by {
            if s[0] == '+' {
                if i > 0 {
                    assert(is_digit(digits[i - 1]));
                }
            } else {
                assert(is_digit(digits[i]));
            }
        }
    }
}

proof fn lemma_leading_zero(s: Seq<char>)
    ensures
        digits_value(seq!['0'] + s) == digits_value(s),
    decreases s.len(),
{
    let zero = seq!['0'] + s;
    if s.len() == 0 {
        assert(zero.drop_last() =~= Seq::empty());
        assert(digits_value(zero.drop_last()) == 0);
        assert(zero.last() == '0');
    } else {
        assert(zero.drop_last() =~= seq!['0'] + s.drop_last());
        lemma_leading_zero(s.drop_last());
    }
}

/// Texts are in order by the first character in which they differ, and a text comes
/// before what it starts.
pub proof fn the_first_difference_decides(
    front: Seq<char>,
    a: char,
    b: char,
    x: Seq<char>,
    y: Seq<char>,
)
    ensures
        a < b ==> text_less(front + seq![a] + x, front + seq![b] + y),
        a > b ==> !text_less(front + seq![a] + x, front + seq![b] + y),
        text_less(front, front + seq![a] + x),
        !text_less(front + seq![a] + x, front),
    decreases front.len(),
{
    let s = front + seq![a] + x;
    let t = front + seq![b] + y;
    if front.len() > 0 {
        let rest = front.drop_first();
        assert(s.drop_first() =~= rest + seq![a] + x);
        assert(t.drop_first() =~= rest + seq![b] + y);
        the_first_difference_decides(rest, a, b, x, y);
    }
}

/// The last index that holds a character: none behind it does.
pub proof fn lemma_last_position_of(s: Seq<char>, c: char)
    ensures
        match last_position_of(s, c) {
            Some(i) => 0 <= i < s.len() && s[i] == c && forall|j: int|
                i < j < s.len() ==> s[j] != c,
            None => !s.contains(c),
        },
    decreases s.len(),
{
    if s.len() > 0 && s.last() != c {
        lemma_last_position_of(s.drop_last(), c);
        match last_position_of(s, c) {
            Some(i) => {
                assert forall|j: int| i < j < s.len() implies s[j] != c by {
                    if j < s.len() - 1 {
                        assert(s.drop_last()[j] == s[j]);
                    }
                }
            },
            None => {
                assert forall|j: int| 0 <= j < s.len() implies s[j] != c by {
                    if j < s.len() - 1 {
                        assert(s.drop_last()[j] == s[j]);
                        assert(s.drop_last().contains(s.drop_last()[j]));
                    }
                }
            },
        }
    }
}

/// A separator between two texts parts the parts of the one from those of the other.
pub proof fn a_separator_parts_two_texts(a: Seq<char>, sep: char, b: Seq<char>)
    ensures
        split_parts(a + seq![sep] + b, sep) == split_parts(a, sep) + split_parts(b, sep),
    decreases a.len(),
{
    let s = a + seq![sep] + b;
    lemma_position_of(s, sep, 0);
    lemma_position_of(a, sep, 0);
    let m = position_of(a, sep, 0);
    let n = position_of(s, sep, 0);
    assert(s[a.len() as int] == sep);
    if m < a.len() {
        assert(s[m] == a[m]);
    }
    assert(n == m) by {
        if n < m {
            assert(s[n] == a[n]);
        }
    }
    assert(s.take(n) =~= a.take(n));
    if m < a.len() {
        a_separator_parts_two_texts(a.skip(m + 1), sep, b);
        assert(s.skip(n + 1) =~= a.skip(m + 1) + seq![sep] + b);
        assert(split_parts(s, sep) =~= split_parts(a, sep) + split_parts(b, sep));
    } else {
        assert(a.take(n) =~= a);
        assert(s.skip(n + 1) =~= b);
        assert(split_parts(s, sep) =~= split_parts(a, sep) + split_parts(b, sep));
    }
}

/// A text without a separator is one part.
pub proof fn a_text_without_separators_is_one_part(s: Seq<char>, sep: char)
    requires
        !s.contains(sep),
    ensures
        split_parts(s, sep) == seq![s],
{
    lemma_position_of(s, sep, 0);
    let n = position_of(s, sep, 0);
    if n < s.len() {
        assert(s.contains(s[n]));
    }
}

/// A digit more makes ten times as much and what the digit stands for, in the digits
/// of a number and in what digits stand for; the digits are in order.
pub proof fn a_digit_more_is_ten_times_as_much(n: nat, d: nat, max: nat)
    requires
        d < 10,
        10 * n + d <= max,
    ensures
        decimal(d) == seq!["0123456789"@[d as int]],
        n > 0 ==> decimal(10 * n + d) == decimal(n) + decimal(d),
        parsed_number(decimal(n) + decimal(d), max) == Some((10 * n + d) as nat),
{
    reveal_strlit("0123456789");
    lemma_decimal_digits(n);
    lemma_decimal_digits(d);
    let all = decimal(n) + decimal(d);
    assert(all.drop_last() =~= decimal(n));
    assert((10 * n + d) / 10 == n && (10 * n + d) % 10 == d);
    if n > 0 {
        assert(decimal(10 * n + d) =~= decimal(n).push((48 + d) as char));
    }
    assert(all_digits(all)) by {
        assert forall|i: int| 0 <= i < all.len() implies is_digit(#[trigger] all[i]) by {
            if i < decimal(n).len() {
                assert(is_digit(decimal(n)[i]));
            }
        }
    }
    assert(is_digit(all[0]));
}

} // verus!
