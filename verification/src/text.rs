//! Text as sequences of characters: searching, trimming, splitting and joining.
use vstd::prelude::*;

verus! {

/// Appends one character to a string.
pub assume_specification[ String::push ](s: &mut String, c: char)
    ensures
        final(s)@ == old(s)@.push(c),
;

// ---------------------------------------------------------------------------
// Models
// ---------------------------------------------------------------------------

/// The first position at or after `from` where `pat` occurs in `s`.
pub open spec fn find_from(s: Seq<char>, pat: Seq<char>, from: int) -> Option<int>
    decreases s.len() - from + 1,
{
    if from < 0 || from + pat.len() > s.len() {
        None
    } else if s.subrange(from, from + pat.len()) == pat {
        Some(from)
    } else {
        find_from(s, pat, from + 1)
    }
}

/// The first position where `pat` occurs in `s`.
pub open spec fn find(s: Seq<char>, pat: Seq<char>) -> Option<int> {
    find_from(s, pat, 0)
}

/// Whether `pat` occurs somewhere in `s`.
pub open spec fn contains(s: Seq<char>, pat: Seq<char>) -> bool {
    find(s, pat) is Some
}

/// Whether `s` begins with `pat`.
pub open spec fn starts_with(s: Seq<char>, pat: Seq<char>) -> bool {
    pat.len() <= s.len() && s.take(pat.len() as int) == pat
}

/// Whether `s` ends with `pat`.
pub open spec fn ends_with(s: Seq<char>, pat: Seq<char>) -> bool {
    pat.len() <= s.len() && s.skip(s.len() - pat.len()) == pat
}

/// The characters with the Unicode `White_Space` property.
pub open spec fn white_space(c: char) -> bool {
    ||| '\u{9}' <= c <= '\u{d}'
    ||| c == ' '
    ||| c == '\u{85}'
    ||| c == '\u{a0}'
    ||| c == '\u{1680}'
    ||| '\u{2000}' <= c <= '\u{200a}'
    ||| c == '\u{2028}'
    ||| c == '\u{2029}'
    ||| c == '\u{202f}'
    ||| c == '\u{205f}'
    ||| c == '\u{3000}'
}

/// `s` without its leading white space.
pub open spec fn trim_start(s: Seq<char>) -> Seq<char>
    decreases s.len(),
{
    if s.len() > 0 && white_space(s[0]) {
        trim_start(s.skip(1))
    } else {
        s
    }
}

/// `s` without its trailing white space.
pub open spec fn trim_end(s: Seq<char>) -> Seq<char>
    decreases s.len(),
{
    if s.len() > 0 && white_space(s.last()) {
        trim_end(s.drop_last())
    } else {
        s
    }
}

/// `s` without white space at either end.
pub open spec fn trim(s: Seq<char>) -> Seq<char> {
    trim_end(trim_start(s))
}

/// `s` without any trailing copies of `c`.
pub open spec fn trim_end_char(s: Seq<char>, c: char) -> Seq<char>
    decreases s.len(),
{
    if s.len() > 0 && s.last() == c {
        trim_end_char(s.drop_last(), c)
    } else {
        s
    }
}

/// `s` without any leading copies of `c`.
pub open spec fn trim_start_char(s: Seq<char>, c: char) -> Seq<char>
    decreases s.len(),
{
    if s.len() > 0 && s[0] == c {
        trim_start_char(s.skip(1), c)
    } else {
        s
    }
}

/// The position of the first `c` in `s`, or the length of `s`.
pub open spec fn char_at_or_end(s: Seq<char>, c: char) -> int
    decreases s.len(),
{
    if s.len() == 0 || s[0] == c {
        0
    } else {
        1 + char_at_or_end(s.skip(1), c)
    }
}

/// The pieces of `s` between the occurrences of `c`; there is always at least one.
pub open spec fn split(s: Seq<char>, c: char) -> Seq<Seq<char>>
    decreases s.len(),
    via split_decreases
{
    let i = char_at_or_end(s, c);
    if i >= s.len() {
        seq![s]
    } else {
        seq![s.take(i)] + split(s.skip(i + 1), c)
    }
}

#[via_fn]
proof fn split_decreases(s: Seq<char>, c: char) {
    lemma_char_at_or_end(s, c);
}

/// The length of the run of characters of `s` up to the first white space.
pub open spec fn word_len(s: Seq<char>) -> int
    decreases s.len(),
{
    if s.len() == 0 || white_space(s[0]) {
        0
    } else {
        1 + word_len(s.skip(1))
    }
}

/// The non-empty runs of characters of `s` that are not white space.
pub open spec fn words(s: Seq<char>) -> Seq<Seq<char>>
    decreases s.len(),
    via words_decreases
{
    let t = trim_start(s);
    if t.len() == 0 {
        seq![]
    } else {
        seq![t.take(word_len(t))] + words(t.skip(word_len(t)))
    }
}

#[via_fn]
proof fn words_decreases(s: Seq<char>) {
    lemma_trim_start(s);
    lemma_word_len(trim_start(s));
}

/// The given parts with `sep` between each two of them.
pub open spec fn join(parts: Seq<Seq<char>>, sep: Seq<char>) -> Seq<char>
    decreases parts.len(),
{
    if parts.len() == 0 {
        seq![]
    } else if parts.len() == 1 {
        parts[0]
    } else {
        join(parts.drop_last(), sep) + sep + parts.last()
    }
}

/// A line without the carriage return at its end.
pub open spec fn without_return(s: Seq<char>) -> Seq<char> {
    if s.len() > 0 && s.last() == '\r' {
        s.drop_last()
    } else {
        s
    }
}

/// The lines of a text. A line ends with a newline, or with a carriage return and a newline;
/// the last one may end without.
pub open spec fn text_lines(s: Seq<char>) -> Seq<Seq<char>>
    decreases s.len(),
    via text_lines_decreases
{
    let i = char_at_or_end(s, '\n');
    if s.len() == 0 {
        seq![]
    } else if i >= s.len() {
        seq![s]
    } else {
        seq![without_return(s.take(i))] + text_lines(s.skip(i + 1))
    }
}

#[via_fn]
proof fn text_lines_decreases(s: Seq<char>) {
    lemma_char_at_or_end(s, '\n');
}

/// The last `n` of the items, or all where there are fewer.
pub open spec fn last_of<T>(items: Seq<T>, n: nat) -> Seq<T> {
    if items.len() <= n {
        items
    } else {
        items.skip(items.len() - n)
    }
}

/// The characters of a text that may be missing.
pub open spec fn opt_str(s: Option<&str>) -> Option<Seq<char>> {
    match s {
        Some(t) => Some(t@),
        None => None,
    }
}

/// The characters of a text that may be missing.
pub open spec fn opt_string(s: Option<String>) -> Option<Seq<char>> {
    match s {
        Some(t) => Some(t@),
        None => None,
    }
}

/// `n` spaces.
pub open spec fn spaces(n: nat) -> Seq<char> {
    Seq::new(n, |i: int| ' ')
}

/// `s` centred in a field of `width` characters; the odd space goes to the right.
pub open spec fn center(s: Seq<char>, width: nat) -> Seq<char> {
    if s.len() >= width {
        s
    } else {
        let pad = (width - s.len()) as nat;
        spaces(pad / 2) + s + spaces((pad - pad / 2) as nat)
    }
}

/// `s` filled up with spaces on the right to `width` characters.
pub open spec fn pad_right(s: Seq<char>, width: nat) -> Seq<char> {
    if s.len() >= width {
        s
    } else {
        s + spaces((width - s.len()) as nat)
    }
}

// ---------------------------------------------------------------------------
// Facts about the models
// ---------------------------------------------------------------------------

pub proof fn lemma_char_at_or_end(s: Seq<char>, c: char)
    ensures
        0 <= char_at_or_end(s, c) <= s.len(),
        forall|j: int| 0 <= j < char_at_or_end(s, c) ==> s[j] != c,
        char_at_or_end(s, c) < s.len() ==> s[char_at_or_end(s, c)] == c,
    decreases s.len(),
{
    if s.len() > 0 && s[0] != c {
        lemma_char_at_or_end(s.skip(1), c);
        assert forall|j: int| 0 <= j < char_at_or_end(s, c) implies s[j] != c by {
            if j > 0 {
                assert(s.skip(1)[j - 1] == s[j]);
            }
        }
    }
}

/// `char_at_or_end` is the only position with the properties that define it.
pub proof fn lemma_char_at_or_end_unique(s: Seq<char>, c: char, i: int)
    requires
        0 <= i <= s.len(),
        forall|j: int| 0 <= j < i ==> s[j] != c,
        i < s.len() ==> s[i] == c,
    ensures
        char_at_or_end(s, c) == i,
{
    lemma_char_at_or_end(s, c);
    let k = char_at_or_end(s, c);
    if k < i {
        assert(s[k] != c);
    } else if i < k {
        assert(s[i] != c);
    }
}

pub proof fn lemma_trim_start(s: Seq<char>)
    ensures
        trim_start(s).len() <= s.len(),
        trim_start(s) == s.skip(s.len() - trim_start(s).len()),
        trim_start(s).len() > 0 ==> !white_space(trim_start(s)[0]),
    decreases s.len(),
{
    if s.len() > 0 && white_space(s[0]) {
        lemma_trim_start(s.skip(1));
        assert(trim_start(s) =~= s.skip(s.len() - trim_start(s).len()));
    } else {
        assert(s =~= s.skip(0));
    }
}

pub proof fn lemma_word_len(s: Seq<char>)
    ensures
        0 <= word_len(s) <= s.len(),
        s.len() > 0 && !white_space(s[0]) ==> word_len(s) > 0,
        forall|j: int| 0 <= j < word_len(s) ==> !white_space(s[j]),
        word_len(s) < s.len() ==> white_space(s[word_len(s)]),
    decreases s.len(),
{
    if s.len() > 0 && !white_space(s[0]) {
        lemma_word_len(s.skip(1));
        assert forall|j: int| 0 <= j < word_len(s) implies !white_space(s[j]) by {
            if j > 0 {
                assert(s.skip(1)[j - 1] == s[j]);
            }
        }
    }
}

pub proof fn lemma_word_len_unique(s: Seq<char>, i: int)
    requires
        0 <= i <= s.len(),
        forall|j: int| 0 <= j < i ==> !white_space(s[j]),
        i < s.len() ==> white_space(s[i]),
    ensures
        word_len(s) == i,
{
    lemma_word_len(s);
    let k = word_len(s);
    if k < i {
        assert(!white_space(s[k]));
    } else if i < k {
        assert(!white_space(s[i]));
    }
}

/// A found position is the first one.
pub proof fn lemma_find_from(s: Seq<char>, pat: Seq<char>, from: int)
    requires
        from >= 0,
    ensures
        find_from(s, pat, from) matches Some(i) ==> {
            &&& from <= i
            &&& i + pat.len() <= s.len()
            &&& s.subrange(i, i + pat.len()) == pat
            &&& forall|j: int|
                #![trigger s.subrange(j, j + pat.len())]
                from <= j < i ==> s.subrange(j, j + pat.len()) != pat
        },
        find_from(s, pat, from) is None ==> forall|j: int|
            #![trigger s.subrange(j, j + pat.len())]
            from <= j && j + pat.len() <= s.len() ==> s.subrange(j, j + pat.len()) != pat,
    decreases s.len() - from + 1,
{
    if from + pat.len() > s.len() {
    } else if s.subrange(from, from + pat.len()) == pat {
    } else {
        lemma_find_from(s, pat, from + 1);
    }
}

pub proof fn lemma_find(s: Seq<char>, pat: Seq<char>)
    ensures
        find(s, pat) matches Some(i) ==> {
            &&& 0 <= i
            &&& i + pat.len() <= s.len()
            &&& s.subrange(i, i + pat.len()) == pat
            &&& forall|j: int|
                #![trigger s.subrange(j, j + pat.len())]
                0 <= j < i ==> s.subrange(j, j + pat.len()) != pat
        },
        find(s, pat) is None ==> forall|j: int|
            #![trigger s.subrange(j, j + pat.len())]
            0 <= j && j + pat.len() <= s.len() ==> s.subrange(j, j + pat.len()) != pat,
{
    lemma_find_from(s, pat, 0);
}

/// Whether `pat` is a part of `s`.
pub open spec fn stands_in(pat: Seq<char>, s: Seq<char>) -> bool {
    exists|i: int| 0 <= i && i + pat.len() <= s.len() && #[trigger] s.subrange(i, i + pat.len()) == pat
}

/// What is contained is a part, and what is a part is contained.
pub proof fn law_contained_stands_somewhere(s: Seq<char>, pat: Seq<char>)
    ensures
        contains(s, pat) <==> stands_in(pat, s),
{
    lemma_find(s, pat);
}

// ---------------------------------------------------------------------------
// Executable functions
// ---------------------------------------------------------------------------

/// The characters of a string.
pub fn chars_of(s: &str) -> (r: Vec<char>)
    ensures
        r@ == s@,
{
    let mut out: Vec<char> = Vec::new();
    for c in it: s.chars()
        invariant
            out@ == it.seq().take(it.index() as int),
            it.seq() == s@,
    {
        out.push(c);
    }
    out
}

/// The string made of the given characters.
pub fn text_of(cs: &[char]) -> (r: String)
    ensures
        r@ == cs@,
{
    let mut out = String::new();
    let n = cs.len();
    let mut i: usize = 0;
    while i < n
        invariant
            i <= n,
            n == cs@.len(),
            out@ == cs@.take(i as int),
        decreases n - i,
    {
        out.push(cs[i]);
        i += 1;
    }
    assert(cs@.take(n as int) =~= cs@);
    out
}

/// Whether two runs of characters are the same.
pub fn same_chars(a: &[char], b: &[char]) -> (r: bool)
    ensures
        r == (a@ == b@),
{
    if a.len() != b.len() {
        return false;
    }
    let n = a.len();
    let mut i: usize = 0;
    while i < n
        invariant
            i <= n,
            n == a@.len(),
            n == b@.len(),
            forall|j: int| 0 <= j < i ==> a@[j] == b@[j],
        decreases n - i,
    {
        if a[i] != b[i] {
            assert(a@[i as int] != b@[i as int]);
            return false;
        }
        i += 1;
    }
    assert(a@ =~= b@);
    true
}

/// Whether two strings are the same.
pub fn same_text(a: &str, b: &str) -> (r: bool)
    ensures
        r == (a@ == b@),
{
    a.to_owned() == b.to_owned()
}

/// Whether `s` begins with `pat`.
pub fn starts_with_chars(s: &[char], pat: &[char]) -> (r: bool)
    ensures
        r == starts_with(s@, pat@),
{
    if pat.len() > s.len() {
        return false;
    }
    same_chars(vstd::slice::slice_subrange(s, 0, pat.len()), pat)
}

/// Whether `s` begins with `pat`.
pub fn starts_with_text(s: &str, pat: &str) -> (r: bool)
    ensures
        r == starts_with(s@, pat@),
{
    starts_with_chars(chars_of(s).as_slice(), chars_of(pat).as_slice())
}

/// Whether `s` ends with `pat`.
pub fn ends_with_text(s: &str, pat: &str) -> (r: bool)
    ensures
        r == ends_with(s@, pat@),
{
    let a = chars_of(s);
    let b = chars_of(pat);
    if b.len() > a.len() {
        return false;
    }
    same_chars(vstd::slice::slice_subrange(a.as_slice(), a.len() - b.len(), a.len()), b.as_slice())
}

/// The first position where `pat` occurs in `s`.
pub fn find_chars(s: &[char], pat: &[char]) -> (r: Option<usize>)
    ensures
        (match r {
            Some(i) => find(s@, pat@) == Some(i as int),
            None => find(s@, pat@) is None,
        }),
{
    let n = s.len();
    let m = pat.len();
    if m > n {
        return None;
    }
    let mut i: usize = 0;
    while i <= n - m
        invariant
            i <= n - m + 1,
            m <= n,
            n == s@.len(),
            m == pat@.len(),
            find(s@, pat@) == find_from(s@, pat@, i as int),
        decreases n - m + 1 - i,
    {
        if same_chars(vstd::slice::slice_subrange(s, i, i + m), pat) {
            return Some(i);
        }
        if i == n - m {
            assert(find_from(s@, pat@, i + 1) is None);
            return None;
        }
        i += 1;
    }
    None
}

/// Whether `pat` occurs somewhere in `s`.
pub fn contains_text(s: &str, pat: &str) -> (r: bool)
    ensures
        r == contains(s@, pat@),
{
    find_chars(chars_of(s).as_slice(), chars_of(pat).as_slice()).is_some()
}

/// Whether a character is white space.
pub fn is_white_space(c: char) -> (r: bool)
    ensures
        r == white_space(c),
        c as u32 <= 0x20 ==> (r <==> 9 <= c as u32 <= 13 || c as u32 == 0x20),
        0x20 < c as u32 <= 0xff ==> (r <==> c as u32 == 0x85 || c as u32 == 0xa0),
        c as u32 > 0xff ==> (r <==> c as u32 == 0x1680 || 0x2000 <= c as u32 <= 0x200a || c as u32
            == 0x2028 || c as u32 == 0x2029 || c as u32 == 0x202f || c as u32 == 0x205f || c as u32
            == 0x3000),
{
    ('\u{9}' <= c && c <= '\u{d}') || c == ' ' || c == '\u{85}' || c == '\u{a0}' || c == '\u{1680}'
        || ('\u{2000}' <= c && c <= '\u{200a}') || c == '\u{2028}' || c == '\u{2029}' || c == '\u{202f}'
        || c == '\u{205f}' || c == '\u{3000}'
}

/// `s` without its leading white space.
pub fn trim_start_chars<'a>(s: &'a [char]) -> (r: &'a [char])
    ensures
        r@ == trim_start(s@),
{
    let n = s.len();
    let mut i: usize = 0;
    assert(s@.skip(0) =~= s@);
    while i < n && is_white_space(s[i])
        invariant
            i <= n,
            n == s@.len(),
            trim_start(s@) == trim_start(s@.skip(i as int)),
        decreases n - i,
    {
        assert(s@.skip(i as int).skip(1) =~= s@.skip(i + 1));
        i += 1;
    }
    vstd::slice::slice_subrange(s, i, n)
}

/// `s` without its trailing white space.
pub fn trim_end_chars<'a>(s: &'a [char]) -> (r: &'a [char])
    ensures
        r@ == trim_end(s@),
{
    let mut n = s.len();
    assert(s@.take(n as int) =~= s@);
    while n > 0 && is_white_space(s[n - 1])
        invariant
            n <= s@.len(),
            trim_end(s@) == trim_end(s@.take(n as int)),
        decreases n,
    {
        assert(s@.take(n as int).drop_last() =~= s@.take(n - 1));
        n -= 1;
    }
    vstd::slice::slice_subrange(s, 0, n)
}

/// `s` without white space at either end.
pub fn trim_text(s: &str) -> (r: String)
    ensures
        r@ == trim(s@),
{
    let cs = chars_of(s);
    text_of(trim_end_chars(trim_start_chars(cs.as_slice())))
}

/// `s` without any trailing copies of `c`.
pub fn trim_end_char_of<'a>(s: &'a [char], c: char) -> (r: &'a [char])
    ensures
        r@ == trim_end_char(s@, c),
{
    let mut n = s.len();
    assert(s@.take(n as int) =~= s@);
    while n > 0 && s[n - 1] == c
        invariant
            n <= s@.len(),
            trim_end_char(s@, c) == trim_end_char(s@.take(n as int), c),
        decreases n,
    {
        assert(s@.take(n as int).drop_last() =~= s@.take(n - 1));
        n -= 1;
    }
    vstd::slice::slice_subrange(s, 0, n)
}

/// `s` without any leading copies of `c`.
pub fn trim_start_char_of<'a>(s: &'a [char], c: char) -> (r: &'a [char])
    ensures
        r@ == trim_start_char(s@, c),
{
    let n = s.len();
    let mut i: usize = 0;
    assert(s@.skip(0) =~= s@);
    while i < n && s[i] == c
        invariant
            i <= n,
            n == s@.len(),
            trim_start_char(s@, c) == trim_start_char(s@.skip(i as int), c),
        decreases n - i,
    {
        assert(s@.skip(i as int).skip(1) =~= s@.skip(i + 1));
        i += 1;
    }
    vstd::slice::slice_subrange(s, i, n)
}

/// The position of the first `c` in `s`, or the length of `s`.
pub fn position_or_end(s: &[char], c: char) -> (r: usize)
    ensures
        r == char_at_or_end(s@, c),
{
    let n = s.len();
    let mut i: usize = 0;
    while i < n && s[i] != c
        invariant
            i <= n,
            n == s@.len(),
            forall|j: int| 0 <= j < i ==> s@[j] != c,
        decreases n - i,
    {
        i += 1;
    }
    proof {
        lemma_char_at_or_end_unique(s@, c, i as int);
    }
    i
}

/// The pieces of `s` between the occurrences of `c`.
pub fn split_chars(s: &[char], c: char) -> (r: Vec<String>)
    ensures
        r.deep_view() == split(s@, c),
{
    let n = s.len();
    let mut out: Vec<String> = Vec::new();
    let mut start: usize = 0;
    assert(s@.skip(0) =~= s@);
    assert(out.deep_view() + split(s@, c) =~= split(s@, c));
    loop
        invariant
            start <= n,
            n == s@.len(),
            out.deep_view() + split(s@.skip(start as int), c) == split(s@, c),
        decreases n - start,
    {
        let rest = vstd::slice::slice_subrange(s, start, n);
        let len = position_or_end(rest, c);
        let ghost before = out.deep_view();
        let ghost tail = s@.skip(start as int);
        proof {
            lemma_char_at_or_end(rest@, c);
            assert(rest@ =~= tail);
        }
        let piece = text_of(vstd::slice::slice_subrange(s, start, start + len));
        assert(piece@ =~= tail.take(len as int));
        out.push(piece);
        assert(out.deep_view() =~= before.push(piece@));
        if len >= rest.len() {
            assert(tail.take(len as int) =~= tail);
            assert(before + seq![tail] =~= before.push(tail));
            return out;
        }
        proof {
            assert(tail.skip(len + 1) =~= s@.skip(start + len + 1));
            assert(split(tail, c) == seq![tail.take(len as int)] + split(tail.skip(len + 1), c));
            assert(before + (seq![piece@] + split(tail.skip(len + 1), c)) =~= before.push(piece@)
                + split(tail.skip(len + 1), c));
        }
        start = start + len + 1;
    }
}

/// The non-empty runs of characters of `s` that are not white space.
pub fn words_of(s: &[char]) -> (r: Vec<String>)
    ensures
        r.deep_view() == words(s@),
{
    let mut out: Vec<String> = Vec::new();
    let mut rest = s;
    assert(out.deep_view() + words(s@) =~= words(s@));
    loop
        invariant
            out.deep_view() + words(rest@) == words(s@),
        decreases rest@.len(),
    {
        let t = trim_start_chars(rest);
        proof {
            lemma_trim_start(rest@);
            lemma_word_len(t@);
        }
        if t.len() == 0 {
            assert(out.deep_view() + Seq::<Seq<char>>::empty() =~= out.deep_view());
            return out;
        }
        let n = t.len();
        let mut i: usize = 0;
        while i < n && !is_white_space(t[i])
            invariant
                i <= n,
                n == t@.len(),
                forall|j: int| 0 <= j < i ==> !white_space(t@[j]),
            decreases n - i,
        {
            i += 1;
        }
        let ghost before = out.deep_view();
        proof {
            lemma_word_len_unique(t@, i as int);
        }
        let word = text_of(vstd::slice::slice_subrange(t, 0, i));
        assert(word@ =~= t@.take(word_len(t@)));
        out.push(word);
        let next = vstd::slice::slice_subrange(t, i, n);
        proof {
            assert(next@ =~= t@.skip(word_len(t@)));
            assert(out.deep_view() =~= before.push(word@));
            assert(before + (seq![word@] + words(next@)) =~= before.push(word@) + words(next@));
        }
        rest = next;
    }
}

/// The given parts with `sep` between each two of them.
pub fn join_texts(parts: &Vec<String>, sep: &str) -> (r: String)
    ensures
        r@ == join(parts.deep_view(), sep@),
{
    let n = parts.len();
    if n == 0 {
        return String::new();
    }
    let mut out = parts[0].clone();
    let mut i: usize = 1;
    let ghost all = parts.deep_view();
    assert(all.take(1) =~= seq![parts@[0]@]);
    while i < n
        invariant
            1 <= i <= n,
            n == parts@.len(),
            all == parts.deep_view(),
            out@ == join(all.take(i as int), sep@),
        decreases n - i,
    {
        proof {
            assert(all.take(i + 1).drop_last() =~= all.take(i as int));
            assert(all.take(i + 1).last() == parts@[i as int]@);
        }
        out.append(sep);
        out.append(parts[i].as_str());
        i += 1;
    }
    assert(all.take(n as int) =~= all);
    out
}

/// The part of a slice from a position.
pub fn tail_of<'a>(s: &'a [char], from: usize) -> (r: &'a [char])
    requires
        from <= s@.len(),
    ensures
        r@ == s@.skip(from as int),
{
    let r = vstd::slice::slice_subrange(s, from, s.len());
    assert(r@ =~= s@.skip(from as int));
    r
}

/// The part of a slice up to a position.
pub fn head_of<'a>(s: &'a [char], to: usize) -> (r: &'a [char])
    requires
        to <= s@.len(),
    ensures
        r@ == s@.take(to as int),
{
    let r = vstd::slice::slice_subrange(s, 0, to);
    assert(r@ =~= s@.take(to as int));
    r
}

/// The lines of a text.
pub fn lines_of(s: &[char]) -> (r: Vec<String>)
    ensures
        r.deep_view() == text_lines(s@),
{
    let mut out: Vec<String> = Vec::new();
    let mut rest = s;
    assert(out.deep_view() + text_lines(s@) =~= text_lines(s@));
    while rest.len() > 0
        invariant
            out.deep_view() + text_lines(rest@) == text_lines(s@),
        decreases rest@.len(),
    {
        let i = position_or_end(rest, '\n');
        let ghost before = out.deep_view();
        proof {
            lemma_char_at_or_end(rest@, '\n');
        }
        if i >= rest.len() {
            out.push(text_of(rest));
            assert(out.deep_view() =~= before + seq![rest@]);
            return out;
        }
        let end: usize = if i > 0 && rest[i - 1] == '\r' {
            i - 1
        } else {
            i
        };
        let line = text_of(head_of(rest, end));
        let next = tail_of(rest, i + 1);
        proof {
            assert(line@ =~= without_return(rest@.take(i as int)));
        }
        out.push(line);
        proof {
            assert(out.deep_view() =~= before.push(line@));
            assert(before + (seq![line@] + text_lines(next@)) =~= before.push(line@) + text_lines(
                next@,
            ));
        }
        rest = next;
    }
    assert(text_lines(rest@) =~= Seq::<Seq<char>>::empty());
    assert(out.deep_view() + text_lines(rest@) =~= out.deep_view());
    out
}

/// The last `n` of the lines, or all where there are fewer.
pub fn keep_last(lines: &Vec<String>, n: usize) -> (r: Vec<String>)
    ensures
        r.deep_view() == last_of(lines.deep_view(), n as nat),
{
    let from: usize = if lines.len() <= n {
        0
    } else {
        lines.len() - n
    };
    let mut out: Vec<String> = Vec::new();
    let ghost all = lines.deep_view();
    for i in from..lines.len()
        invariant
            from <= i,
            from <= lines@.len(),
            all == lines.deep_view(),
            out.deep_view() =~= all.subrange(from as int, i as int),
    {
        let ghost before = out.deep_view();
        out.push(lines[i].clone());
        assert(out.deep_view() =~= before.push(lines[i as int]@));
    }
    assert(out.deep_view() =~= last_of(all, n as nat));
    out
}

/// `n` spaces.
pub fn blank(n: usize) -> (r: String)
    ensures
        r@ == spaces(n as nat),
{
    let mut out = String::new();
    let mut i: usize = 0;
    while i < n
        invariant
            i <= n,
            out@ =~= spaces(i as nat),
        decreases n - i,
    {
        out.push(' ');
        i += 1;
    }
    out
}

/// `s` centred in a field of `width` characters.
pub fn centered(s: &str, width: usize) -> (r: String)
    ensures
        r@ == center(s@, width as nat),
{
    let n = s.unicode_len();
    if n >= width {
        return s.to_owned();
    }
    let pad: usize = width - n;
    let mut out = blank(pad / 2);
    out.append(s);
    out.append(blank(pad - pad / 2).as_str());
    out
}

/// `s` filled up with spaces on the right to `width` characters.
pub fn padded_right(s: &str, width: usize) -> (r: String)
    ensures
        r@ == pad_right(s@, width as nat),
{
    let n = s.unicode_len();
    if n >= width {
        return s.to_owned();
    }
    let mut out = s.to_owned();
    out.append(blank(width - n).as_str());
    out
}

/// A text in the middle of a field has blanks around it, at most one more behind it than in front
/// of it, and fills the field; one that is too wide for it stays as it is.
pub proof fn law_centered(s: Seq<char>, width: nat)
    ensures
        ({
            let c = center(s, width);
            let n = (c.len() - s.len()) / 2;
            &&& s.len() >= width ==> c == s
            &&& s.len() < width ==> c.len() == width
            &&& c.subrange(n, n + s.len()) == s
            &&& forall|i: int|
                0 <= i < n || n + s.len() <= i < c.len() ==> #[trigger] c[i] == ' '
        }),
{
    let c = center(s, width);
    let n = (c.len() - s.len()) / 2;
    assert(c.subrange(n, n + s.len()) =~= s);
}

/// A text at the left of a field has blanks behind it.
pub proof fn law_padded(s: Seq<char>, width: nat)
    ensures
        ({
            let p = pad_right(s, width);
            &&& p.len() == if s.len() < width {
                width
            } else {
                s.len()
            }
            &&& p.take(s.len() as int) == s
            &&& forall|i: int| s.len() <= i < p.len() ==> #[trigger] p[i] == ' '
        }),
{
    assert(pad_right(s, width).take(s.len() as int) =~= s);
}

/// A line that is closed is one of the lines of a text, without what closes it.
pub proof fn law_line_end_is_cut(line: Seq<char>, rest: Seq<char>)
    requires
        forall|i: int| 0 <= i < line.len() ==> #[trigger] line[i] != '\n',
        line.len() == 0 || line.last() != '\r',
    ensures
        text_lines(line + "\n"@ + rest) == seq![line] + text_lines(rest),
        text_lines(line + "\r\n"@ + rest) == seq![line] + text_lines(rest),
{
    reveal_strlit("\n");
    reveal_strlit("\r\n");
    let n = line.len() as int;
    let a = line + "\n"@ + rest;
    lemma_char_at_or_end_unique(a, '\n', n);
    assert(a.take(n) =~= line);
    assert(a.skip(n + 1) =~= rest);
    let b = line + "\r\n"@ + rest;
    lemma_char_at_or_end_unique(b, '\n', n + 1);
    assert(b.take(n + 1) =~= line.push('\r'));
    assert(b.take(n + 1).drop_last() =~= line);
    assert(b.skip(n + 2) =~= rest);
}

} // verus!
