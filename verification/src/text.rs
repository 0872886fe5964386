//! Character-level text operations shared by every part of the pipeline.
//!
//! All contracts are stated over `Seq<char>`, the view of `str` and `String`.
use vstd::prelude::*;
use vstd::string::*;
use vstd::utf8::*;

verus! {

/// The Unicode `White_Space` property, which is what trimming removes.
pub open spec fn white_space(c: char) -> bool {
    let n = c as u32;
    ||| 0x9 <= n <= 0xd
    ||| n == 0x20
    ||| n == 0x85
    ||| n == 0xa0
    ||| n == 0x1680
    ||| 0x2000 <= n <= 0x200a
    ||| n == 0x2028
    ||| n == 0x2029
    ||| n == 0x202f
    ||| n == 0x205f
    ||| n == 0x3000
}

/// Tells whether `c` is Unicode white space.
pub fn is_white_space(c: char) -> (r: bool)
    ensures
        r == white_space(c),
{
    let n: u32 = c as u32;
    (0x9 <= n && n <= 0xd) || n == 0x20 || n == 0x85 || n == 0xa0 || n == 0x1680 || (0x2000 <= n
        && n <= 0x200a) || n == 0x2028 || n == 0x2029 || n == 0x202f || n == 0x205f || n == 0x3000
}

/// The Unicode code point of `c`.
pub fn code_point(c: char) -> (r: u32)
    ensures
        r == c as int,
{
    c as u32
}

/// The characters of `s`, as a vector that can be indexed.
pub fn to_chars(s: &str) -> (r: Vec<char>)
    ensures
        r@ == s@,
{
    let mut out: Vec<char> = Vec::new();
    for c in it: s.chars()
        invariant
            it.seq() == s@,
            out@ == s@.take(it.index() as int),
    {
        out.push(c);
    }
    out
}

/// Tells whether two texts hold the same characters.
pub fn same_text(a: &str, b: &str) -> (r: bool)
    ensures
        r == (a@ == b@),
{
    a.to_owned() == b.to_owned()
}

/// `s` without its leading white space.
pub open spec fn trim_start(s: Seq<char>) -> Seq<char>
    decreases s.len(),
{
    if s.len() > 0 && white_space(s.first()) {
        trim_start(s.drop_first())
    } else {
        s
    }
}

/// `s` without its trailing white space.
pub open spec fn trim_end(s: Seq<char>) -> Seq<char>
    decreases s.len(),
{
    if s.len() > 0 && white_space(s.last()) {
        trim_end(s.drop_last())
    } else {
        s
    }
}

/// `s` without the white space at either end.
pub open spec fn trimmed(s: Seq<char>) -> Seq<char> {
    trim_end(trim_start(s))
}

/// Removes the white space at either end of `s`.
pub fn trim(s: &str) -> (r: &str)
    ensures
        r@ == trimmed(s@),
{
    let chars = to_chars(s);
    let n: usize = chars.len();
    let mut from: usize = 0;
    assert(s@.skip(0) == s@);
    while from < n && is_white_space(chars[from])
        invariant
            chars@ == s@,
            n == chars.len(),
            from <= n,
            trim_start(s@) == trim_start(s@.skip(from as int)),
        decreases n - from,
    {
        assert(s@.skip(from as int).drop_first() == s@.skip(from + 1));
        from = from + 1;
    }
    let ghost rest = s@.skip(from as int);
    assert(trim_start(s@) == rest);
    let mut to: usize = n;
    assert(s@.subrange(from as int, n as int) == rest);
    while from < to && is_white_space(chars[to - 1])
        invariant
            chars@ == s@,
            n == chars.len(),
            from <= to <= n,
            trim_end(rest) == trim_end(s@.subrange(from as int, to as int)),
        decreases to,
    {
        assert(s@.subrange(from as int, to as int).drop_last() == s@.subrange(
            from as int,
            to - 1,
        ));
        to = to - 1;
    }
    assert(trim_end(rest) == s@.subrange(from as int, to as int));
    s.substring_char(from, to)
}

/// Tells whether `needle` occurs in `hay`.
pub open spec fn has_substring(hay: Seq<char>, needle: Seq<char>) -> bool {
    exists|i: int|
        0 <= i <= hay.len() - needle.len() && #[trigger] hay.subrange(i, i + needle.len())
            == needle
}

/// Tells whether `needle` occurs in `hay`.
pub fn contains(hay: &str, needle: &str) -> (r: bool)
    ensures
        r == has_substring(hay@, needle@),
{
    let h = to_chars(hay);
    let m = to_chars(needle);
    if m.len() > h.len() {
        return false;
    }
    let last: usize = h.len() - m.len();
    let mut i: usize = 0;
    while i <= last
        invariant
            h@ == hay@,
            m@ == needle@,
            last == h.len() - m.len(),
            i <= last + 1,
            last < usize::MAX || i <= last,
            forall|k: int|
                0 <= k < i ==> #[trigger] hay@.subrange(k, k + needle@.len()) != needle@,
        decreases last + 1 - i,
    {
        let mut j: usize = 0;
        while j < m.len() && h[i + j] == m[j]
            invariant
                h@ == hay@,
                m@ == needle@,
                i + m.len() <= h.len(),
                j <= m.len(),
                forall|k: int| 0 <= k < j ==> hay@[i + k] == #[trigger] needle@[k],
            decreases m.len() - j,
        {
            j = j + 1;
        }
        if j == m.len() {
            assert(hay@.subrange(i as int, i + needle@.len()) == needle@);
            return true;
        }
        assert(hay@.subrange(i as int, i + needle@.len())[j as int] != needle@[j as int]);
        if i == last {
            assert forall|k: int| 0 <= k <= hay@.len() - needle@.len() implies #[trigger] hay@.subrange(
                k,
                k + needle@.len(),
            ) != needle@ by {}
            return false;
        }
        i = i + 1;
    }
    false
}

/// The position of the first `sep` in `s`, or the length of `s` where there is none.
pub open spec fn first_position(s: Seq<char>, sep: char) -> nat
    decreases s.len(),
{
    if s.len() == 0 || s.first() == sep {
        0
    } else {
        1 + first_position(s.drop_first(), sep)
    }
}

proof fn lemma_first_position(s: Seq<char>, sep: char, at: int)
    requires
        0 <= at <= s.len(),
        forall|k: int| 0 <= k < at ==> s[k] != sep,
        at < s.len() ==> s[at] == sep,
    ensures
        first_position(s, sep) == at as nat,
    decreases s.len(),
{
    if at > 0 {
        assert forall|k: int| 0 <= k < at - 1 implies s.drop_first()[k] != sep by {
            assert(s[k + 1] != sep);
        }
        lemma_first_position(s.drop_first(), sep, at - 1);
    }
}

/// The pieces of `s` between separators, empty ones included.
pub open spec fn pieces(s: Seq<char>, sep: char) -> Seq<Seq<char>>
    decreases s.len(),
{
    let at = first_position(s, sep) as int;
    if at >= s.len() {
        seq![s]
    } else {
        seq![s.take(at)] + pieces(s.skip(at + 1), sep)
    }
}

/// The views of a list of texts.
pub open spec fn texts(list: Seq<&str>) -> Seq<Seq<char>> {
    list.map_values(|t: &str| t@)
}

/// Splits `s` at every `sep`.
pub fn split<'a>(s: &'a str, sep: char) -> (r: Vec<&'a str>)
    ensures
        texts(r@) == pieces(s@, sep),
{
    let chars = to_chars(s);
    let n: usize = chars.len();
    let mut out: Vec<&'a str> = Vec::new();
    let mut start: usize = 0;
    let mut i: usize = 0;
    assert(s@.skip(0) == s@);
    assert(texts(out@) + pieces(s@.skip(0), sep) == pieces(s@, sep));
    while i < n
        invariant
            chars@ == s@,
            n == chars.len(),
            start <= i <= n,
            forall|k: int| start <= k < i ==> s@[k] != sep,
            texts(out@) + pieces(s@.skip(start as int), sep) == pieces(s@, sep),
        decreases n - i,
    {
        if chars[i] == sep {
            let piece = s.substring_char(start, i);
            let ghost rest = s@.skip(start as int);
            let ghost before = texts(out@);
            proof {
                assert forall|k: int| 0 <= k < i - start implies rest[k] != sep by {
                    assert(s@[start + k] != sep);
                }
                lemma_first_position(rest, sep, i - start);
                assert(rest.take(i - start) == s@.subrange(start as int, i as int));
                assert(rest.skip(i - start + 1) == s@.skip(i + 1));
            }
            out.push(piece);
            assert(texts(out@) == before.push(piece@));
            assert(before.push(piece@) + pieces(s@.skip(i + 1), sep) == before + (seq![piece@]
                + pieces(s@.skip(i + 1), sep)));
            start = i + 1;
        }
        i = i + 1;
    }
    let ghost before = texts(out@);
    let ghost rest = s@.skip(start as int);
    proof {
        assert forall|k: int| 0 <= k < rest.len() implies rest[k] != sep by {
            assert(s@[start + k] != sep);
        }
        lemma_first_position(rest, sep, rest.len() as int);
        assert(s@.subrange(start as int, n as int) == rest);
    }
    let piece = s.substring_char(start, n);
    out.push(piece);
    assert(texts(out@) == before.push(piece@));
    assert(before.push(piece@) == before + seq![piece@]);
    out
}

/// What stands before and after the first `sep` of `s`, if there is one.
pub open spec fn cut(s: Seq<char>, sep: char) -> Option<(Seq<char>, Seq<char>)> {
    let at = first_position(s, sep) as int;
    if at < s.len() {
        Some((s.take(at), s.skip(at + 1)))
    } else {
        None
    }
}

/// Splits `s` around its first `sep`.
pub fn split_once<'a>(s: &'a str, sep: char) -> (r: Option<(&'a str, &'a str)>)
    ensures
        match r {
            Some((before, after)) => cut(s@, sep) == Some((before@, after@)),
            None => cut(s@, sep) is None,
        },
{
    let chars = to_chars(s);
    let n: usize = chars.len();
    let mut i: usize = 0;
    while i < n
        invariant
            chars@ == s@,
            n == chars.len(),
            i <= n,
            forall|k: int| 0 <= k < i ==> s@[k] != sep,
        decreases n - i,
    {
        if chars[i] == sep {
            proof {
                lemma_first_position(s@, sep, i as int);
            }
            let before = s.substring_char(0, i);
            let after = s.substring_char(i + 1, n);
            assert(before@ == s@.take(i as int));
            assert(after@ == s@.skip(i + 1));
            return Some((before, after));
        }
        i = i + 1;
    }
    proof {
        lemma_first_position(s@, sep, n as int);
    }
    None
}

/// The number of characters before the first white space of `s`.
pub open spec fn word_length(s: Seq<char>) -> nat
    decreases s.len(),
{
    if s.len() == 0 || white_space(s.first()) {
        0
    } else {
        1 + word_length(s.drop_first())
    }
}

/// Bounds of the two scans that find a word.
pub proof fn lemma_scan_bounds(s: Seq<char>)
    ensures
        word_length(s) <= s.len(),
        trim_start(s).len() <= s.len(),
        trim_start(s).len() > 0 ==> !white_space(trim_start(s).first()) && word_length(
            trim_start(s),
        ) > 0,
    decreases s.len(),
{
    if s.len() > 0 {
        lemma_scan_bounds(s.drop_first());
    }
}

/// The maximal runs of `s` that hold no white space.
pub open spec fn words(s: Seq<char>) -> Seq<Seq<char>>
    decreases s.len(),
{
    let t = trim_start(s);
    if t.len() == 0 {
        seq![]
    } else {
        proof {
            lemma_scan_bounds(s);
            lemma_scan_bounds(t);
        }
        seq![t.take(word_length(t) as int)] + words(t.skip(word_length(t) as int))
    }
}

proof fn lemma_word_length(s: Seq<char>, at: int)
    requires
        0 <= at <= s.len(),
        forall|k: int| 0 <= k < at ==> !white_space(s[k]),
        at < s.len() ==> white_space(s[at]),
    ensures
        word_length(s) == at as nat,
    decreases s.len(),
{
    if at > 0 {
        assert forall|k: int| 0 <= k < at - 1 implies !white_space(s.drop_first()[k]) by {
            assert(!white_space(s[k + 1]));
        }
        lemma_word_length(s.drop_first(), at - 1);
    }
}

/// Splits `s` into its words.
pub fn split_whitespace<'a>(s: &'a str) -> (r: Vec<&'a str>)
    ensures
        texts(r@) == words(s@),
{
    let chars = to_chars(s);
    let n: usize = chars.len();
    let mut out: Vec<&'a str> = Vec::new();
    let mut i: usize = 0;
    assert(s@.skip(0) == s@);
    assert(texts(out@) + words(s@.skip(0)) == words(s@));
    while i < n
        invariant
            chars@ == s@,
            n == chars.len(),
            i <= n,
            texts(out@) + words(s@.skip(i as int)) == words(s@),
        decreases n - i,
    {
        let ghost rest = s@.skip(i as int);
        if is_white_space(chars[i]) {
            assert(rest.drop_first() == s@.skip(i + 1));
            proof {
                lemma_scan_bounds(rest);
                lemma_scan_bounds(rest.drop_first());
            }
            assert(words(rest) == words(rest.drop_first()));
            i = i + 1;
        } else {
            let start: usize = i;
            while i < n && !is_white_space(chars[i])
                invariant
                    chars@ == s@,
                    n == chars.len(),
                    start <= i <= n,
                    forall|k: int| start <= k < i ==> !white_space(s@[k]),
                decreases n - i,
            {
                i = i + 1;
            }
            let piece = s.substring_char(start, i);
            let ghost before = texts(out@);
            proof {
                assert forall|k: int| 0 <= k < i - start implies !white_space(rest[k]) by {
                    assert(!white_space(s@[start + k]));
                }
                lemma_word_length(rest, i - start);
                assert(rest.take(i - start) == piece@);
                assert(rest.skip(i - start) == s@.skip(i as int));
            }
            out.push(piece);
            assert(texts(out@) == before.push(piece@));
            assert(before.push(piece@) + words(s@.skip(i as int)) == before + (seq![piece@]
                + words(s@.skip(i as int))));
        }
    }
    assert(s@.skip(n as int) == Seq::<char>::empty());
    assert(words(Seq::<char>::empty()) == Seq::<Seq<char>>::empty());
    out
}

/// The lower-case form that the standard library gives a text.
pub uninterp spec fn lowercase(s: Seq<char>) -> Seq<char>;

/// `str::to_lowercase`: the lower-case form of the text by the Unicode tables.
pub assume_specification[ str::to_lowercase ](s: &str) -> (r: String)
    ensures
        r@ == lowercase(s@),
;

/// `c` with the letters A to Z put in lower case.
pub open spec fn ascii_lower(c: char) -> char {
    if 'A' <= c <= 'Z' {
        (c as u32 + 32) as char
    } else {
        c
    }
}

/// `str::to_ascii_lowercase`: puts the letters A to Z in lower case and keeps the rest.
pub assume_specification[ str::to_ascii_lowercase ](s: &str) -> (r: String)
    ensures
        r@ == s@.map_values(|c: char| ascii_lower(c)),
;

/// The text that the standard library makes of bytes, with replacement characters where
/// they are no UTF-8.
pub uninterp spec fn utf8_lossy(bytes: Seq<u8>) -> Seq<char>;

/// The text that bytes encode, where they are UTF-8; otherwise the text that the standard library
/// makes of them.
pub open spec fn lossy_text(bytes: Seq<u8>) -> Seq<char> {
    if valid_utf8(bytes) {
        decode_utf8(bytes)
    } else {
        utf8_lossy(bytes)
    }
}

/// `String::from_utf8_lossy`: the text that the bytes encode, where they are UTF-8; where
/// they are not, what stands in for the faulty bytes is left to the standard library.
#[verifier::external_body]
pub(crate) fn decode_lossy(bytes: &[u8]) -> (r: String)
    ensures
        r@ == utf8_lossy(bytes@),
        valid_utf8(bytes@) ==> r@ == decode_utf8(bytes@),
{
    String::from_utf8_lossy(bytes).into_owned()
}

/// `std::str::from_utf8`: the text that the bytes encode, where they are UTF-8.
#[verifier::external_body]
pub(crate) fn decode_strict(bytes: &[u8]) -> (r: Option<String>)
    ensures
        match r {
            Some(s) => valid_utf8(bytes@) && s@ == decode_utf8(bytes@),
            None => !valid_utf8(bytes@),
        },
{
    std::str::from_utf8(bytes).ok().map(|s| s.to_owned())
}

/// Trimming the start stops at a character that is no white space.
pub proof fn lemma_trim_start_append(a: Seq<char>, b: Seq<char>)
    requires
        b.len() > 0,
        !white_space(b.first()),
    ensures
        trim_start(a + b) == trim_start(a) + b,
    decreases a.len(),
{
    if a.len() == 0 {
        assert(a + b == b);
        assert(trim_start(a) + b == b);
    } else {
        assert((a + b).first() == a.first());
        assert((a + b).drop_first() == a.drop_first() + b);
        lemma_trim_start_append(a.drop_first(), b);
    }
}

/// Trimming the end stops at a character that is no white space.
pub proof fn lemma_trim_end_append(a: Seq<char>, b: Seq<char>)
    requires
        a.len() > 0,
        !white_space(a.last()),
    ensures
        trim_end(a + b) == a + trim_end(b),
    decreases b.len(),
{
    if b.len() == 0 {
        assert(a + b == a);
        assert(a + trim_end(b) == a);
    } else {
        assert((a + b).last() == b.last());
        assert((a + b).drop_last() == a + b.drop_last());
        lemma_trim_end_append(a, b.drop_last());
    }
}

proof fn lemma_trim_end_first(c: char, b: Seq<char>)
    ensures
        trim_end(seq![c] + b) == if trim_end(b).len() == 0 && white_space(c) {
            seq![]
        } else {
            seq![c] + trim_end(b)
        },
    decreases b.len(),
{
    let s = seq![c] + b;
    if b.len() == 0 {
        assert(s.last() == c);
        assert(s.drop_last() == Seq::<char>::empty());
        assert(trim_end(s.drop_last()) == Seq::<char>::empty());
        assert(seq![c] + trim_end(b) == s);
    } else {
        assert(s.last() == b.last());
        assert(s.drop_last() == seq![c] + b.drop_last());
        lemma_trim_end_first(c, b.drop_last());
    }
}

/// It does not matter which end is trimmed first.
pub proof fn lemma_trim_order(s: Seq<char>)
    ensures
        trim_start(trim_end(s)) == trim_end(trim_start(s)),
    decreases s.len(),
{
    if s.len() > 0 {
        let c = s.first();
        let b = s.drop_first();
        assert(s == seq![c] + b);
        lemma_trim_end_first(c, b);
        lemma_trim_order(b);
        if white_space(c) {
            if trim_end(b).len() > 0 {
                assert((seq![c] + trim_end(b)).drop_first() == trim_end(b));
            } else {
                assert(trim_end(b) == Seq::<char>::empty());
            }
        }
    }
}

/// Trimming an end that has been trimmed already changes nothing.
pub proof fn lemma_trim_again(s: Seq<char>)
    ensures
        trim_start(trim_start(s)) == trim_start(s),
        trim_end(trim_end(s)) == trim_end(s),
        trimmed(trim_start(s)) == trimmed(s),
        trimmed(trim_end(s)) == trimmed(s),
    decreases s.len(),
{
    if s.len() > 0 {
        lemma_trim_again(s.drop_first());
        lemma_trim_again(s.drop_last());
    }
    lemma_trim_order(s);
    lemma_trim_order(trim_end(s));
}

/// The first position of a separator is where it stands for the first time.
pub proof fn lemma_first_position_is(s: Seq<char>, sep: char)
    ensures
        first_position(s, sep) <= s.len(),
        first_position(s, sep) < s.len() ==> s[first_position(s, sep) as int] == sep,
        forall|k: int| 0 <= k < first_position(s, sep) ==> s[k] != sep,
    decreases s.len(),
{
    if s.len() > 0 && s.first() != sep {
        lemma_first_position_is(s.drop_first(), sep);
        assert forall|k: int| 0 <= k < first_position(s, sep) implies s[k] != sep by {
            if k > 0 {
                assert(s.drop_first()[k - 1] == s[k]);
            }
        }
    }
}

/// A separator and what follows it, up to the end, make one more piece.
pub proof fn lemma_pieces_append(a: Seq<char>, sep: char, b: Seq<char>)
    requires
        !b.contains(sep),
    ensures
        pieces(a + seq![sep] + b, sep) == pieces(a, sep).push(b),
    decreases a.len(),
{
    let s = a + seq![sep] + b;
    let at = first_position(a, sep) as int;
    lemma_first_position_is(a, sep);
    assert forall|k: int| 0 <= k < at implies s[k] != sep by {
        assert(s[k] == a[k]);
    }
    lemma_first_position(s, sep, at);
    if at >= a.len() {
        assert(s.take(at) == a);
        assert(s.skip(at + 1) == b);
        lemma_first_position_is(b, sep);
        assert(pieces(b, sep) == seq![b]);
        assert(pieces(s, sep) == seq![a] + seq![b]);
        assert(seq![a] + seq![b] == seq![a].push(b));
    } else {
        assert(s.take(at) == a.take(at));
        assert(s.skip(at + 1) == a.skip(at + 1) + seq![sep] + b);
        lemma_pieces_append(a.skip(at + 1), sep, b);
        assert(seq![a.take(at)] + pieces(a.skip(at + 1), sep).push(b) == (seq![a.take(at)]
            + pieces(a.skip(at + 1), sep)).push(b));
    }
}

/// A text without separators is one piece.
pub proof fn lemma_pieces_whole(s: Seq<char>, sep: char)
    requires
        !s.contains(sep),
    ensures
        pieces(s, sep) == seq![s],
{
    lemma_first_position_is(s, sep);
}

/// A text is cut at the first separator.
pub proof fn lemma_cut(a: Seq<char>, sep: char, b: Seq<char>)
    requires
        !a.contains(sep),
    ensures
        cut(a + seq![sep] + b, sep) == Some((a, b)),
{
    let s = a + seq![sep] + b;
    assert forall|k: int| 0 <= k < a.len() implies s[k] != sep by {
        assert(s[k] == a[k]);
    }
    lemma_first_position(s, sep, a.len() as int);
    assert(s.take(a.len() as int) == a);
    assert(s.skip((a.len() + 1) as int) == b);
}

/// Tells whether a text holds nothing but white space.
pub open spec fn all_white(s: Seq<char>) -> bool {
    forall|i: int| 0 <= i < s.len() ==> white_space(#[trigger] s[i])
}

proof fn lemma_trim_start_cut(s: Seq<char>) -> (a: Seq<char>)
    ensures
        s == a + trim_start(s),
        all_white(a),
        trim_start(s).len() > 0 ==> !white_space(trim_start(s).first()),
    decreases s.len(),
{
    if s.len() > 0 && white_space(s.first()) {
        let b = lemma_trim_start_cut(s.drop_first());
        let a = seq![s.first()] + b;
        assert(s == seq![s.first()] + s.drop_first());
        assert(s == a + trim_start(s));
        a
    } else {
        assert(s == Seq::<char>::empty() + trim_start(s));
        seq![]
    }
}

proof fn lemma_trim_end_cut(s: Seq<char>) -> (b: Seq<char>)
    ensures
        s == trim_end(s) + b,
        all_white(b),
        trim_end(s).len() > 0 ==> !white_space(trim_end(s).last()),
    decreases s.len(),
{
    if s.len() > 0 && white_space(s.last()) {
        let a = lemma_trim_end_cut(s.drop_last());
        let b = a.push(s.last());
        assert(s == s.drop_last().push(s.last()));
        assert(s == trim_end(s) + b);
        b
    } else {
        assert(s == trim_end(s) + Seq::<char>::empty());
        seq![]
    }
}

/// Trimming takes off white space at the ends and nothing else: a text is what was taken off at the
/// start, what is left, and what was taken off at the end; and what is left neither begins nor ends
/// with white space.
pub proof fn trimming_takes_off_only_white_space(s: Seq<char>) -> (ends: (Seq<char>, Seq<char>))
    ensures
        s == ends.0 + trimmed(s) + ends.1,
        all_white(ends.0),
        all_white(ends.1),
        trimmed(s).len() > 0 ==> !white_space(trimmed(s).first()) && !white_space(
            trimmed(s).last(),
        ),
{
    let a = lemma_trim_start_cut(s);
    let b = lemma_trim_end_cut(trim_start(s));
    assert(s == a + trimmed(s) + b);
    if trimmed(s).len() > 0 {
        assert(trim_start(s)[0] == trimmed(s)[0]);
    }
    (a, b)
}

/// Whatever stands between white space and neither begins nor ends with white space is what trimming
/// leaves.
pub proof fn trimming_leaves_the_middle(a: Seq<char>, middle: Seq<char>, b: Seq<char>)
    requires
        all_white(a),
        all_white(b),
        middle.len() > 0 ==> !white_space(middle.first()) && !white_space(middle.last()),
    ensures
        trimmed(a + middle + b) == middle,
{
    lemma_trim_start_white(a);
    lemma_trim_end_white(b);
    if middle.len() == 0 {
        let s = a + middle + b;
        assert(s == a + b);
        assert(all_white(s));
        lemma_trim_start_white(s);
        assert(trimmed(s) == middle);
    } else {
        assert(a + middle + b == a + (middle + b));
        lemma_trim_start_append(a, middle + b);
        assert(trim_start(a + (middle + b)) == middle + b);
        lemma_trim_end_append(middle, b);
        assert(middle + trim_end(b) == middle);
    }
}

proof fn lemma_trim_start_white(s: Seq<char>)
    requires
        all_white(s),
    ensures
        trim_start(s) == Seq::<char>::empty(),
    decreases s.len(),
{
    if s.len() > 0 {
        assert(white_space(s[0]));
        assert forall|i: int| 0 <= i < s.drop_first().len() implies white_space(
            #[trigger] s.drop_first()[i],
        ) by {
            assert(white_space(s[i + 1]));
        }
        lemma_trim_start_white(s.drop_first());
    }
}

proof fn lemma_trim_end_white(s: Seq<char>)
    requires
        all_white(s),
    ensures
        trim_end(s) == Seq::<char>::empty(),
    decreases s.len(),
{
    if s.len() > 0 {
        assert(white_space(s[s.len() - 1]));
        assert forall|i: int| 0 <= i < s.drop_last().len() implies white_space(
            #[trigger] s.drop_last()[i],
        ) by {
            assert(white_space(s[i]));
        }
        lemma_trim_end_white(s.drop_last());
    }
}

/// What stands in a text is found there, whatever stands before and after it.
pub proof fn substring_is_found(before: Seq<char>, needle: Seq<char>, after: Seq<char>)
    ensures
        has_substring(before + needle + after, needle),
{
    let hay = before + needle + after;
    let i = before.len() as int;
    assert(hay.subrange(i, i + needle.len()) == needle);
}

/// What is found in a text stands there: the text is something, what was found, and something.
pub proof fn found_substring_is_there(hay: Seq<char>, needle: Seq<char>) -> (ends: (
    Seq<char>,
    Seq<char>,
))
    requires
        has_substring(hay, needle),
    ensures
        hay == ends.0 + needle + ends.1,
{
    let i = choose|i: int|
        0 <= i <= hay.len() - needle.len() && #[trigger] hay.subrange(i, i + needle.len())
            == needle;
    assert(hay == hay.take(i) + needle + hay.skip(i + needle.len())) by {
        assert forall|k: int| i <= k < i + needle.len() implies hay[k] == needle[k - i] by {
            assert(hay.subrange(i, i + needle.len())[k - i] == hay[k]);
        }
    }
    (hay.take(i), hay.skip(i + needle.len()))
}

/// A text without the separator is not cut.
pub proof fn lemma_no_cut(s: Seq<char>, sep: char)
    requires
        !s.contains(sep),
    ensures
        cut(s, sep) is None,
{
    lemma_first_position_is(s, sep);
}

/// A separator splits a text: its pieces are those of what stands before and of what stands after.
pub proof fn separator_splits_the_pieces(a: Seq<char>, sep: char, b: Seq<char>)
    ensures
        pieces(a + seq![sep] + b, sep) == pieces(a, sep) + pieces(b, sep),
    decreases a.len(),
{
    let s = a + seq![sep] + b;
    let at = first_position(a, sep) as int;
    lemma_first_position_is(a, sep);
    assert forall|k: int| 0 <= k < at implies s[k] != sep by {
        assert(s[k] == a[k]);
    }
    lemma_first_position(s, sep, at);
    if at >= a.len() {
        assert(s.take(at) == a);
        assert(s.skip(at + 1) == b);
    } else {
        assert(s.take(at) == a.take(at));
        assert(s.skip(at + 1) == a.skip(at + 1) + seq![sep] + b);
        separator_splits_the_pieces(a.skip(at + 1), sep, b);
        assert(seq![a.take(at)] + (pieces(a.skip(at + 1), sep) + pieces(b, sep)) == (seq![
            a.take(at),
        ] + pieces(a.skip(at + 1), sep)) + pieces(b, sep));
    }
}

/// Blank text has no words.
pub proof fn white_space_has_no_words(s: Seq<char>)
    requires
        all_white(s),
    ensures
        words(s) == Seq::<Seq<char>>::empty(),
{
    lemma_trim_start_white(s);
}

/// The words of a text are its first word, which runs up to white space or the end, and the words of
/// what follows; white space before it does not matter.
pub proof fn words_are_set_apart_by_white_space(a: Seq<char>, word: Seq<char>, rest: Seq<char>)
    requires
        all_white(a),
        word.len() > 0,
        forall|i: int| 0 <= i < word.len() ==> !white_space(#[trigger] word[i]),
        rest.len() > 0 ==> white_space(rest.first()),
    ensures
        words(a + word + rest) == seq![word] + words(rest),
{
    let s = a + word + rest;
    let t = word + rest;
    assert(s == a + t);
    assert(!white_space(word[0]));
    assert(t.first() == word[0]);
    lemma_trim_start_append(a, t);
    lemma_trim_start_white(a);
    assert(trim_start(s) == t);
    assert forall|k: int| 0 <= k < word.len() implies !white_space(t[k]) by {
        assert(t[k] == word[k]);
    }
    lemma_word_length(t, word.len() as int);
    assert(t.take(word.len() as int) == word);
    assert(t.skip(word.len() as int) == rest);
}

/// The views of texts are the texts, one for one.
pub proof fn texts_are_kept_whole(list: Seq<&str>)
    ensures
        texts(list).len() == list.len(),
        forall|i: int| 0 <= i < list.len() ==> #[trigger] texts(list)[i] == list[i]@,
{
}

/// Putting letters in lower case changes A to Z and nothing else.
pub proof fn ascii_lower_changes_only_capitals(c: char)
    ensures
        'A' <= c <= 'Z' ==> ascii_lower(c) as u32 == c as u32 + 32,
        !('A' <= c <= 'Z') ==> ascii_lower(c) == c,
{
}

/// Bytes that encode a text stand for that text.
pub proof fn encoded_text_is_read_back(s: Seq<char>)
    ensures
        lossy_text(encode_utf8(s)) == s,
{
    encode_utf8_decode_utf8(s);
    encode_utf8_valid_utf8(s);
}

/// Bytes that encode no text stand for the text that is made of them with replacements.
pub proof fn other_bytes_are_read_with_replacements(bytes: Seq<u8>)
    ensures
        !valid_utf8(bytes) ==> lossy_text(bytes) == utf8_lossy(bytes),
{
}

/// A text with a separator that is not white space is cut in the same place once it is trimmed.
pub proof fn lemma_trimmed_cut(a: Seq<char>, sep: char, b: Seq<char>)
    requires
        !a.contains(sep),
        !white_space(sep),
    ensures
        trimmed(a + seq![sep] + b).len() > 0,
        cut(trimmed(a + seq![sep] + b), sep) matches Some((x, y)) && trimmed(x) == trimmed(a)
            && trimmed(y) == trimmed(b),
{
    let line = a + seq![sep] + b;
    let rest = seq![sep] + b;
    assert(line == a + rest);
    assert(rest.first() == sep);
    lemma_trim_start_append(a, rest);
    let x = trim_start(a);
    assert(trim_start(rest) == rest);
    assert(trim_start(line) == x + rest);
    assert(x + rest == x + seq![sep] + b);
    let head = x + seq![sep];
    assert(head.last() == sep);
    lemma_trim_end_append(head, b);
    let y = trim_end(b);
    assert(trim_end(head) == head);
    assert(trimmed(line) == head + y);
    lemma_trim_order(a);
    lemma_trim_order(b);
    let front = lemma_trim_start_cut(a);
    assert(!x.contains(sep)) by {
        if x.contains(sep) {
            let i = choose|i: int| 0 <= i < x.len() && x[i] == sep;
            assert(a[front.len() + i] == sep);
        }
    }
    lemma_cut(x, sep, y);
    lemma_trim_again(a);
    lemma_trim_again(b);
}

} // verus!
