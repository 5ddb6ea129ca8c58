//! Character-sequence helpers shared by the parsers and formatters of this
//! crate. Everything here works on `Seq<char>` models of strings.

use vstd::prelude::*;

verus! {

/// `p` is a prefix of `s`.
pub open spec fn has_prefix(s: Seq<char>, p: Seq<char>) -> bool {
    p.len() <= s.len() && s.subrange(0, p.len() as int) == p
}

/// `p` occurs in `s` starting at index `i`.
pub open spec fn occurs_at(s: Seq<char>, p: Seq<char>, i: int) -> bool {
    0 <= i && i + p.len() <= s.len() && s.subrange(i, i + p.len()) == p
}

/// `p` occurs somewhere in `s`.
pub open spec fn contains(s: Seq<char>, p: Seq<char>) -> bool {
    exists|i: int| occurs_at(s, p, i)
}

/// ASCII lower-casing of one character; every other character is kept.
pub open spec fn ascii_lower(c: char) -> char {
    if 'A' <= c && c <= 'Z' {
        ((c as u32) + 32) as char
    } else {
        c
    }
}

/// `p` occurs in `s` at index `i` when the characters of `s` are lower-cased.
pub open spec fn occurs_at_lowered(s: Seq<char>, p: Seq<char>, i: int) -> bool {
    0 <= i && i + p.len() <= s.len() && forall|k: int|
        0 <= k < p.len() ==> #[trigger] ascii_lower(s[i + k]) == p[k]
}

/// `p` occurs somewhere in the lower-cased `s`.
pub open spec fn contains_lowered(s: Seq<char>, p: Seq<char>) -> bool {
    exists|i: int| occurs_at_lowered(s, p, i)
}

/// The characters with the Unicode `White_Space` property.
pub open spec fn is_ws(c: char) -> bool {
    let u = c as u32;
    (0x09 <= u && u <= 0x0D) || u == 0x20 || u == 0x85 || u == 0xA0 || u == 0x1680 || (0x2000
        <= u && u <= 0x200A) || u == 0x2028 || u == 0x2029 || u == 0x202F || u == 0x205F || u
        == 0x3000
}

/// `s` without its leading white space.
pub open spec fn trim_start(s: Seq<char>) -> Seq<char>
    decreases s.len(),
{
    if s.len() > 0 && is_ws(s[0]) {
        trim_start(s.drop_first())
    } else {
        s
    }
}

/// `s` without its trailing white space.
pub open spec fn trim_end(s: Seq<char>) -> Seq<char>
    decreases s.len(),
{
    if s.len() > 0 && is_ws(s.last()) {
        trim_end(s.drop_last())
    } else {
        s
    }
}

/// `s` without leading and trailing white space.
pub open spec fn trim(s: Seq<char>) -> Seq<char> {
    trim_end(trim_start(s))
}

/// The decimal digit character of `d` (`d < 10`).
pub open spec fn digit_char(d: nat) -> char {
    (48 + d) as char
}

/// The decimal notation of `n`, without leading zeros.
pub open spec fn decimal(n: nat) -> Seq<char>
    decreases n,
{
    if n < 10 {
        seq![digit_char(n)]
    } else {
        decimal(n / 10).push(digit_char(n % 10))
    }
}

/// The number that a string of decimal digits spells.
pub open spec fn digits_value(s: Seq<char>) -> nat
    decreases s.len(),
{
    if s.len() == 0 {
        0
    } else {
        digits_value(s.drop_last()) * 10 + ((s.last() as nat) - 48) as nat
    }
}

/// The decimal notation of `n` is made of digits, spells `n`, and starts
/// with a zero only when it is `0` itself.
pub proof fn lemma_decimal_value(n: nat)
    ensures
        forall|k: int| 0 <= k < decimal(n).len() ==> '0' <= #[trigger] decimal(n)[k] <= '9',
        digits_value(decimal(n)) == n,
        decimal(n).len() >= 1,
        decimal(n)[0] == '0' ==> n == 0 && decimal(n).len() == 1,
    decreases n,
{
    if n >= 10 {
        lemma_decimal_value(n / 10);
        let s = decimal(n);
        assert(s.drop_last() =~= decimal(n / 10));
        assert forall|k: int| 0 <= k < s.len() implies '0' <= #[trigger] s[k] <= '9' by {
            if k < s.len() - 1 {
                assert(s[k] == decimal(n / 10)[k]);
            }
        }
        assert(s[0] == decimal(n / 10)[0]);
        assert(s.last() == digit_char(n % 10));
        assert((digit_char(n % 10) as nat) == 48 + n % 10);
        assert(digits_value(s) == digits_value(decimal(n / 10)) * 10 + n % 10);
        assert((n / 10) * 10 + n % 10 == n);
    } else {
        assert((digit_char(n) as nat) == 48 + n);
        assert(decimal(n).drop_last() =~= Seq::<char>::empty());
        assert(digits_value(Seq::<char>::empty()) == 0);
        assert(decimal(n).last() == digit_char(n));
        assert(digits_value(decimal(n)) == digits_value(decimal(n).drop_last()) * 10 + n);
    }
}

proof fn lemma_trim_start_props(s: Seq<char>)
    ensures
        exists|i: int|
            0 <= i <= s.len() && trim_start(s) == s.skip(i) && (forall|k: int|
                0 <= k < i ==> is_ws(#[trigger] s[k])),
        trim_start(s).len() == 0 || !is_ws(trim_start(s)[0]),
    decreases s.len(),
{
    if s.len() > 0 && is_ws(s[0]) {
        let t = s.drop_first();
        lemma_trim_start_props(t);
        let i = choose|i: int|
            0 <= i <= t.len() && trim_start(t) == t.skip(i) && (forall|k: int|
                0 <= k < i ==> is_ws(#[trigger] t[k]));
        assert(t.skip(i) =~= s.skip(i + 1));
        assert forall|k: int| 0 <= k < i + 1 implies is_ws(#[trigger] s[k]) by {
            if k > 0 {
                assert(s[k] == t[k - 1]);
            }
        }
    } else {
        assert(s.skip(0) =~= s);
    }
}

proof fn lemma_trim_end_props(s: Seq<char>)
    ensures
        exists|j: int|
            0 <= j <= s.len() && trim_end(s) == s.take(j) && (forall|k: int|
                j <= k < s.len() ==> is_ws(#[trigger] s[k])),
        trim_end(s).len() == 0 || !is_ws(trim_end(s).last()),
        trim_end(s).len() == 0 || trim_end(s)[0] == s[0],
    decreases s.len(),
{
    if s.len() > 0 && is_ws(s.last()) {
        let t = s.drop_last();
        lemma_trim_end_props(t);
        let j = choose|j: int|
            0 <= j <= t.len() && trim_end(t) == t.take(j) && (forall|k: int|
                j <= k < t.len() ==> is_ws(#[trigger] t[k]));
        assert(t.take(j) =~= s.take(j));
        assert forall|k: int| j <= k < s.len() implies is_ws(#[trigger] s[k]) by {
            if k < s.len() - 1 {
                assert(s[k] == t[k]);
            }
        }
    } else {
        assert(s.take(s.len() as int) =~= s);
    }
}

/// Trimming removes white space at both ends and nothing else: the result
/// is a contiguous piece of `s`, everything cut off is white space, and
/// the result neither starts nor ends with white space.
pub proof fn lemma_trim(s: Seq<char>)
    ensures
        exists|i: int, j: int|
            0 <= i <= j <= s.len() && trim(s) == s.subrange(i, j) && (forall|k: int|
                0 <= k < i ==> is_ws(#[trigger] s[k])) && (forall|k: int|
                j <= k < s.len() ==> is_ws(#[trigger] s[k])),
        trim(s).len() == 0 || (!is_ws(trim(s)[0]) && !is_ws(trim(s).last())),
{
    lemma_trim_start_props(s);
    let a = trim_start(s);
    lemma_trim_end_props(a);
    let i = choose|i: int|
        0 <= i <= s.len() && a == s.skip(i) && (forall|k: int| 0 <= k < i ==> is_ws(#[trigger] s[k]));
    let j = choose|j: int|
        0 <= j <= a.len() && trim_end(a) == a.take(j) && (forall|k: int|
            j <= k < a.len() ==> is_ws(#[trigger] a[k]));
    assert(trim(s) =~= s.subrange(i, i + j));
    assert forall|k: int| i + j <= k < s.len() implies is_ws(#[trigger] s[k]) by {
        assert(s[k] == a[k - i]);
    }
    let j2 = i + j;
    assert(0 <= i <= j2 <= s.len() && trim(s) == s.subrange(i, j2) && (forall|k: int|
        0 <= k < i ==> is_ws(#[trigger] s[k])) && (forall|k: int|
        j2 <= k < s.len() ==> is_ws(#[trigger] s[k])));
}

/// The upper-case hexadecimal digit character of `d` (`d < 16`).
pub open spec fn hex_char(d: nat) -> char {
    if d < 10 {
        (48 + d) as char
    } else {
        (55 + d) as char
    }
}

/// The two upper-case hexadecimal digits of a byte.
pub open spec fn hex2(b: u8) -> Seq<char> {
    seq![hex_char(b as nat / 16), hex_char(b as nat % 16)]
}

/// The characters of `s`, in order.
pub fn chars_of(s: &str) -> (res: Vec<char>)
    ensures
        res@ == s@,
{
    let mut res: Vec<char> = Vec::new();
    for c in it: s.chars()
        invariant
            res@ == it.seq().take(it.index() as int),
    {
        res.push(c);
    }
    res
}

/// Appends one character to a `String` (std's `String::push`).
#[verifier::external_body]
fn push_char(s: &mut String, c: char)
    ensures
        final(s)@ == old(s)@.push(c),
{
    s.push(c);
}

/// The `String` made of the characters of `v`.
pub fn string_from(v: &Vec<char>) -> (res: String)
    ensures
        res@ == v@,
{
    let mut res = String::new();
    for i in 0..v.len()
        invariant
            res@ == v@.take(i as int),
    {
        push_char(&mut res, v[i]);
        assert(v@.take(i + 1) =~= v@.take(i as int).push(v@[i as int]));
    }
    assert(v@.take(v@.len() as int) =~= v@);
    res
}

/// Appends all characters of `p` to `out`.
pub fn append_chars(out: &mut Vec<char>, p: &Vec<char>)
    ensures
        final(out)@ == old(out)@ + p@,
{
    let ghost start = out@;
    for i in 0..p.len()
        invariant
            out@ == start + p@.take(i as int),
    {
        out.push(p[i]);
        assert(p@.take(i + 1) =~= p@.take(i as int).push(p@[i as int]));
    }
    assert(p@.take(p@.len() as int) =~= p@);
}

/// Whether `p` occurs in `s` at index `i`.
pub fn matches_at(s: &Vec<char>, p: &Vec<char>, i: usize) -> (b: bool)
    ensures
        b == occurs_at(s@, p@, i as int),
{
    if i > s.len() || p.len() > s.len() - i {
        return false;
    }
    let slen = s.len();
    let mut k: usize = 0;
    while k < p.len()
        invariant
            slen == s@.len(),
            i + p@.len() <= s@.len(),
            k <= p@.len(),
            forall|j: int| 0 <= j < k ==> s@[i + j] == p@[j],
        decreases p@.len() - k,
    {
        assert(i + k < s@.len());
        if s[i + k] != p[k] {
            assert(s@.subrange(i as int, i + p@.len())[k as int] != p@[k as int]);
            return false;
        }
        k += 1;
    }
    assert(s@.subrange(i as int, i + p@.len()) =~= p@);
    true
}

/// Whether `p` is a prefix of `s`.
pub fn starts_with(s: &Vec<char>, p: &Vec<char>) -> (b: bool)
    ensures
        b == has_prefix(s@, p@),
{
    matches_at(s, p, 0)
}

/// The first index at which `p` occurs in `s`.
pub fn find(s: &Vec<char>, p: &Vec<char>) -> (res: Option<usize>)
    ensures
        res is Some <==> contains(s@, p@),
        res matches Some(i) ==> occurs_at(s@, p@, i as int) && forall|j: int|
            0 <= j < i ==> !occurs_at(s@, p@, j),
{
    let mut i: usize = 0;
    while i <= s.len()
        invariant_except_break
            i <= s@.len(),
            forall|j: int| 0 <= j < i ==> !occurs_at(s@, p@, j),
        ensures
            forall|j: int| 0 <= j <= s@.len() ==> !occurs_at(s@, p@, j),
        decreases s@.len() + 1 - i,
    {
        if matches_at(s, p, i) {
            return Some(i);
        }
        if i == s.len() {
            break;
        }
        i += 1;
    }
    assert forall|j: int| !occurs_at(s@, p@, j) by {
        if 0 <= j && j + p@.len() <= s@.len() {
            assert(j <= s@.len());
        }
    }
    None
}

/// Whether `p` occurs in `s`.
pub fn has_substring(s: &Vec<char>, p: &Vec<char>) -> (b: bool)
    ensures
        b == contains(s@, p@),
{
    find(s, p).is_some()
}

/// ASCII lower-casing of one character.
pub fn lower_ascii(c: char) -> (r: char)
    ensures
        r == ascii_lower(c),
{
    if 'A' <= c && c <= 'Z' {
        let u: u32 = (c as u32) + 32;
        assert(0x61 <= u <= 0x7A);
        char_from_ascii(u)
    } else {
        c
    }
}

/// The character with an ASCII code point.
fn char_from_ascii(u: u32) -> (c: char)
    requires
        u < 128,
    ensures
        c == u as char,
{
    let b: u8 = u as u8;
    b as char
}

/// Whether `p` occurs in `s` at index `i` once `s` is ASCII lower-cased.
fn matches_lowered_at(s: &Vec<char>, p: &Vec<char>, i: usize) -> (b: bool)
    ensures
        b == occurs_at_lowered(s@, p@, i as int),
{
    if i > s.len() || p.len() > s.len() - i {
        return false;
    }
    let slen = s.len();
    let mut k: usize = 0;
    while k < p.len()
        invariant
            slen == s@.len(),
            i + p@.len() <= s@.len(),
            k <= p@.len(),
            forall|j: int| 0 <= j < k ==> #[trigger] ascii_lower(s@[i + j]) == p@[j],
        decreases p@.len() - k,
    {
        assert(i + k < s@.len());
        if lower_ascii(s[i + k]) != p[k] {
            return false;
        }
        k += 1;
    }
    true
}

/// Whether `p` occurs in `s` once `s` is ASCII lower-cased.
pub fn has_substring_lowered(s: &Vec<char>, p: &Vec<char>) -> (b: bool)
    ensures
        b == contains_lowered(s@, p@),
{
    let mut i: usize = 0;
    while i <= s.len()
        invariant_except_break
            i <= s@.len(),
            forall|j: int| 0 <= j < i ==> !occurs_at_lowered(s@, p@, j),
        ensures
            forall|j: int| 0 <= j <= s@.len() ==> !occurs_at_lowered(s@, p@, j),
        decreases s@.len() + 1 - i,
    {
        if matches_lowered_at(s, p, i) {
            return true;
        }
        if i == s.len() {
            break;
        }
        i += 1;
    }
    assert forall|j: int| !occurs_at_lowered(s@, p@, j) by {
        if 0 <= j && j + p@.len() <= s@.len() {
            assert(j <= s@.len());
        }
    }
    false
}

/// Whether `c` is a Unicode white-space character.
pub fn is_whitespace(c: char) -> (b: bool)
    ensures
        b == is_ws(c),
{
    let u = c as u32;
    (0x09 <= u && u <= 0x0D) || u == 0x20 || u == 0x85 || u == 0xA0 || u == 0x1680 || (0x2000
        <= u && u <= 0x200A) || u == 0x2028 || u == 0x2029 || u == 0x202F || u == 0x205F || u
        == 0x3000
}

/// `s` with leading and trailing white space removed.
pub fn trimmed(s: &Vec<char>) -> (res: Vec<char>)
    ensures
        res@ == trim(s@),
{
    let n = s.len();
    let mut lo: usize = 0;
    assert(s@.subrange(0, n as int) =~= s@);
    while lo < n && is_whitespace(s[lo])
        invariant
            n == s@.len(),
            lo <= n,
            trim_start(s@) == trim_start(s@.subrange(lo as int, n as int)),
        decreases n - lo,
    {
        assert(s@.subrange(lo as int, n as int).drop_first() =~= s@.subrange(lo + 1, n as int));
        lo += 1;
    }
    let ghost w = s@.subrange(lo as int, n as int);
    assert(trim_start(s@) == w);
    let mut hi: usize = n;
    while hi > lo && is_whitespace(s[hi - 1])
        invariant
            lo <= hi <= n,
            n == s@.len(),
            w == s@.subrange(lo as int, n as int),
            trim_end(w) == trim_end(s@.subrange(lo as int, hi as int)),
        decreases hi - lo,
    {
        assert(s@.subrange(lo as int, hi as int).drop_last() =~= s@.subrange(
            lo as int,
            hi - 1,
        ));
        hi -= 1;
    }
    let mut res: Vec<char> = Vec::new();
    let mut k: usize = lo;
    while k < hi
        invariant
            lo <= k <= hi <= n,
            n == s@.len(),
            res@ == s@.subrange(lo as int, k as int),
        decreases hi - k,
    {
        res.push(s[k]);
        assert(s@.subrange(lo as int, k + 1) =~= s@.subrange(lo as int, k as int).push(
            s@[k as int],
        ));
        k += 1;
    }
    res
}

/// Appends the decimal digits of `n` to `out`.
pub fn push_decimal(out: &mut Vec<char>, n: u64)
    ensures
        final(out)@ == old(out)@ + decimal(n as nat),
    decreases n,
{
    if n >= 10 {
        push_decimal(out, n / 10);
    }
    let d: u8 = (n % 10) as u8;
    out.push(char_from_ascii((48 + d) as u32));
    if n >= 10 {
        assert(decimal(n as nat) == decimal((n / 10) as nat).push(digit_char((n % 10) as nat)));
    }
}

/// The upper-case hexadecimal digit of `d`.
fn hex_digit(d: u8) -> (c: char)
    requires
        d < 16,
    ensures
        c == hex_char(d as nat),
{
    if d < 10 {
        char_from_ascii((48 + d) as u32)
    } else {
        char_from_ascii((55 + d) as u32)
    }
}

/// Appends the two upper-case hexadecimal digits of `b` to `out`.
pub fn push_hex2(out: &mut Vec<char>, b: u8)
    ensures
        final(out)@ == old(out)@ + hex2(b),
{
    let ghost start = out@;
    out.push(hex_digit(b / 16));
    out.push(hex_digit(b % 16));
    assert(out@ =~= start + hex2(b));
}

/// The length of the part of `s` before the first `c` (all of `s` if `c`
/// does not occur).
pub open spec fn segment_len(s: Seq<char>, c: char) -> nat
    decreases s.len(),
{
    if s.len() == 0 {
        0
    } else if s[0] == c {
        0
    } else {
        1 + segment_len(s.drop_first(), c)
    }
}

/// The part of `s` before the first `c`: the first item of `s.split(c)`.
pub open spec fn first_segment(s: Seq<char>, c: char) -> Seq<char> {
    s.take(segment_len(s, c) as int)
}

/// `segment_len` is the index of the first `c`, or the length.
pub proof fn lemma_segment_len(s: Seq<char>, c: char, i: int)
    requires
        0 <= i <= s.len(),
        forall|j: int| 0 <= j < i ==> s[j] != c,
        i == s.len() || s[i] == c,
    ensures
        segment_len(s, c) == i,
    decreases i,
{
    if i > 0 {
        let t = s.drop_first();
        assert forall|j: int| 0 <= j < i - 1 implies t[j] != c by {
            assert(t[j] == s[j + 1]);
        }
        if i < s.len() {
            assert(t[i - 1] == s[i]);
        }
        lemma_segment_len(t, c, i - 1);
    }
}

/// The part before the first `c` holds no `c`, and ends at a `c` or at the
/// end of `s`.
pub proof fn lemma_segment_props(s: Seq<char>, c: char)
    ensures
        segment_len(s, c) <= s.len(),
        forall|j: int| 0 <= j < segment_len(s, c) ==> #[trigger] s[j] != c,
        segment_len(s, c) == s.len() || s[segment_len(s, c) as int] == c,
    decreases s.len(),
{
    if s.len() > 0 && s[0] != c {
        let t = s.drop_first();
        lemma_segment_props(t, c);
        assert forall|j: int| 0 <= j < segment_len(s, c) implies #[trigger] s[j] != c by {
            if j > 0 {
                assert(s[j] == t[j - 1]);
            }
        }
        if segment_len(s, c) < s.len() {
            assert(s[segment_len(s, c) as int] == t[segment_len(t, c) as int]);
        }
    }
}

/// The pieces of `s` between occurrences of `c` (empty pieces included),
/// as `str::split` yields them.
pub open spec fn split_on(s: Seq<char>, c: char) -> Seq<Seq<char>>
    decreases s.len(),
{
    let l = segment_len(s, c);
    if l >= s.len() {
        seq![s]
    } else {
        seq![s.take(l as int)] + split_on(s.skip(l + 1 as int), c)
    }
}

/// A copy of `s[lo..hi]`.
pub fn slice_chars(s: &Vec<char>, lo: usize, hi: usize) -> (res: Vec<char>)
    requires
        lo <= hi <= s@.len(),
    ensures
        res@ == s@.subrange(lo as int, hi as int),
{
    let mut res: Vec<char> = Vec::new();
    let mut k: usize = lo;
    while k < hi
        invariant
            lo <= k <= hi <= s@.len(),
            res@ == s@.subrange(lo as int, k as int),
        decreases hi - k,
    {
        res.push(s[k]);
        assert(s@.subrange(lo as int, k + 1) =~= s@.subrange(lo as int, k as int).push(
            s@[k as int],
        ));
        k += 1;
    }
    res
}

/// The index of the first `c` in `s` at or after `from`, or the length.
pub fn segment_end(s: &Vec<char>, from: usize, c: char) -> (e: usize)
    requires
        from <= s@.len(),
    ensures
        from <= e <= s@.len(),
        e == from + segment_len(s@.skip(from as int), c),
        forall|j: int| from <= j < e ==> s@[j] != c,
        e < s@.len() ==> s@[e as int] == c,
{
    let mut e = from;
    while e < s.len() && s[e] != c
        invariant
            from <= e <= s@.len(),
            forall|j: int| from <= j < e ==> s@[j] != c,
        decreases s@.len() - e,
    {
        e += 1;
    }
    proof {
        let w = s@.skip(from as int);
        assert forall|j: int| 0 <= j < e - from implies w[j] != c by {
            assert(w[j] == s@[from + j]);
        }
        if e < s@.len() {
            assert(w[e - from] == s@[e as int]);
        }
        lemma_segment_len(w, c, e - from);
    }
    e
}

/// `dir` joined with `file` as `Path::join` does on Unix: an absolute
/// `file` replaces `dir`, and a separator is added only where needed.
pub open spec fn join_path(dir: Seq<char>, file: Seq<char>) -> Seq<char> {
    if file.len() > 0 && file[0] == '/' {
        file
    } else if dir.len() == 0 {
        file
    } else if dir.last() == '/' {
        dir + file
    } else {
        dir + seq!['/'] + file
    }
}

/// `dir` joined with `file` (see [`join_path`]).
pub fn join_path_chars(dir: &Vec<char>, file: &Vec<char>) -> (res: Vec<char>)
    ensures
        res@ == join_path(dir@, file@),
{
    if file.len() > 0 && file[0] == '/' {
        slice_chars(file, 0, file.len())
    } else if dir.len() == 0 {
        slice_chars(file, 0, file.len())
    } else {
        let mut res = slice_chars(dir, 0, dir.len());
        if dir[dir.len() - 1] != '/' {
            res.push('/');
        }
        append_chars(&mut res, file);
        res
    }
}

} // verus!
