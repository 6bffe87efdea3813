//! Character-level helpers: the JavaScript trim set, Unicode White_Space,
//! and conversions between strings and character vectors.
use vstd::prelude::*;

verus! {

/// The characters of `s`, in order.
pub fn chars_of(s: &str) -> (v: Vec<char>)
    ensures
        v@ == s@,
{
    let mut v: Vec<char> = Vec::new();
    for c in it: s.chars()
        invariant
            v@ == it.seq().take(it.index() as int),
    {
        v.push(c);
    }
    assert(v@ =~= s@);
    v
}

/// Appends one character to a string (`String::push`).
#[verifier::external_body]
fn push_char(s: &mut String, c: char)
    ensures
        final(s)@ == old(s)@.push(c),
{
    s.push(c);
}

/// A string holding exactly the characters of `v`.
pub fn string_from_chars(v: &[char]) -> (s: String)
    ensures
        s@ == v@,
{
    let mut s = String::new();
    let n = v.len();
    let mut i: usize = 0;
    while i < n
        invariant
            n == v@.len(),
            i <= n,
            s@ == v@.take(i as int),
        decreases n - i,
    {
        push_char(&mut s, v[i]);
        i = i + 1;
        assert(s@ =~= v@.take(i as int));
    }
    assert(v@.take(n as int) =~= v@);
    s
}

/// Whether two character slices hold the same characters.
pub fn chars_eq(a: &[char], b: &[char]) -> (r: bool)
    ensures
        r == (a@ == b@),
{
    if a.len() != b.len() {
        return false;
    }
    let n = a.len();
    let mut i: usize = 0;
    while i < n
        invariant
            n == a@.len(),
            n == b@.len(),
            i <= n,
            forall|j: int| 0 <= j < i ==> a@[j] == b@[j],
        decreases n - i,
    {
        if a[i] != b[i] {
            return false;
        }
        i = i + 1;
    }
    assert(a@ =~= b@);
    true
}

/// Whether two strings hold the same characters.
pub fn str_eq(a: &str, b: &str) -> (r: bool)
    ensures
        r == (a@ == b@),
{
    let va = chars_of(a);
    let vb = chars_of(b);
    chars_eq(va.as_slice(), vb.as_slice())
}

/// Whether `prefix` occurs in `s` at index `at`.
pub open spec fn occurs_at(s: Seq<char>, at: int, prefix: Seq<char>) -> bool {
    &&& 0 <= at
    &&& at + prefix.len() <= s.len()
    &&& s.subrange(at, at + prefix.len()) == prefix
}

/// Whether `prefix` occurs in `s` at index `at`.
pub fn chars_occur_at(s: &[char], at: usize, prefix: &[char]) -> (r: bool)
    ensures
        r == occurs_at(s@, at as int, prefix@),
{
    let n = s.len();
    let m = prefix.len();
    if at > n || m > n - at {
        return false;
    }
    let mut j: usize = 0;
    while j < m
        invariant
            n == s@.len(),
            m == prefix@.len(),
            at + m <= n,
            j <= m,
            forall|k: int| 0 <= k < j ==> s@[at + k] == prefix@[k],
        decreases m - j,
    {
        if s[at + j] != prefix[j] {
            assert(s@.subrange(at as int, at + m)[j as int] != prefix@[j as int]);
            return false;
        }
        j = j + 1;
    }
    assert(s@.subrange(at as int, at + m) =~= prefix@);
    true
}

// ---------------------------------------------------------------------
// The JavaScript `String.prototype.trim` set.

/// ECMA-262 WhiteSpace plus LineTerminator: TAB, VT, FF, ZWNBSP (U+FEFF),
/// every Space_Separator code point, LF, CR, LS (U+2028) and PS (U+2029).
/// This is not Unicode White_Space: U+0085 is White_Space and not in this
/// set, U+FEFF is in this set and not White_Space.
pub open spec fn is_js_trim_space(c: char) -> bool {
    ||| c == '\u{0009}'
    ||| c == '\u{000A}'
    ||| c == '\u{000B}'
    ||| c == '\u{000C}'
    ||| c == '\u{000D}'
    ||| c == '\u{0020}'
    ||| c == '\u{00A0}'
    ||| c == '\u{1680}'
    ||| ('\u{2000}' <= c && c <= '\u{200A}')
    ||| c == '\u{2028}'
    ||| c == '\u{2029}'
    ||| c == '\u{202F}'
    ||| c == '\u{205F}'
    ||| c == '\u{3000}'
    ||| c == '\u{FEFF}'
}

/// Whether `c` is removed by JavaScript's `String.prototype.trim`.
pub fn is_trim_space(c: char) -> (b: bool)
    ensures
        b == is_js_trim_space(c),
{
    c == '\u{0009}' || c == '\u{000A}' || c == '\u{000B}' || c == '\u{000C}' || c == '\u{000D}'
        || c == '\u{0020}' || c == '\u{00A0}' || c == '\u{1680}' || ('\u{2000}' <= c && c
        <= '\u{200A}') || c == '\u{2028}' || c == '\u{2029}' || c == '\u{202F}' || c
        == '\u{205F}' || c == '\u{3000}' || c == '\u{FEFF}'
}

/// `s` without its leading characters that satisfy `p`.
pub open spec fn strip_front(s: Seq<char>, p: spec_fn(char) -> bool) -> Seq<char>
    decreases s.len(),
{
    if s.len() > 0 && p(s[0]) {
        strip_front(s.drop_first(), p)
    } else {
        s
    }
}

/// `s` without its trailing characters that satisfy `p`.
pub open spec fn strip_back(s: Seq<char>, p: spec_fn(char) -> bool) -> Seq<char>
    decreases s.len(),
{
    if s.len() > 0 && p(s.last()) {
        strip_back(s.drop_last(), p)
    } else {
        s
    }
}

/// `s` without the leading and trailing characters that satisfy `p`.
pub open spec fn strip(s: Seq<char>, p: spec_fn(char) -> bool) -> Seq<char> {
    strip_back(strip_front(s, p), p)
}

/// JavaScript's `String.prototype.trim` on a character sequence.
pub open spec fn js_trimmed(s: Seq<char>) -> Seq<char> {
    strip(s, |c: char| is_js_trim_space(c))
}

proof fn lemma_strip_front_step(s: Seq<char>, lo: int, p: spec_fn(char) -> bool)
    requires
        0 <= lo < s.len(),
        p(s[lo]),
    ensures
        strip_front(s.subrange(lo, s.len() as int), p) == strip_front(
            s.subrange(lo + 1, s.len() as int),
            p,
        ),
{
    assert(s.subrange(lo, s.len() as int).drop_first() =~= s.subrange(lo + 1, s.len() as int));
}

proof fn lemma_strip_back_step(s: Seq<char>, lo: int, hi: int, p: spec_fn(char) -> bool)
    requires
        0 <= lo < hi <= s.len(),
        p(s[hi - 1]),
    ensures
        strip_back(s.subrange(lo, hi), p) == strip_back(s.subrange(lo, hi - 1), p),
{
    assert(s.subrange(lo, hi).drop_last() =~= s.subrange(lo, hi - 1));
}

/// The trim set (`js`) or White_Space, as the stripping loops test it.
fn strips(js: bool, c: char) -> (b: bool)
    ensures
        b == (if js { is_js_trim_space(c) } else { is_white_space(c) }),
{
    if js {
        is_trim_space(c)
    } else {
        is_whitespace(c)
    }
}

/// The bounds `lo..hi` of `v` that remain after stripping `p` from both ends.
fn strip_bounds(v: &[char], Ghost(p): Ghost<spec_fn(char) -> bool>, js: bool) -> (r: (usize, usize))
    requires
        js ==> p == (|c: char| is_js_trim_space(c)),
        !js ==> p == (|c: char| is_white_space(c)),
    ensures
        r.0 <= r.1 <= v@.len(),
        v@.subrange(r.0 as int, r.1 as int) == strip(v@, p),
{
    let n = v.len();
    let mut lo: usize = 0;
    assert(v@.subrange(0, n as int) =~= v@);
    while lo < n && strips(js, v[lo])
        invariant
            n == v@.len(),
            lo <= n,
            js ==> p == (|c: char| is_js_trim_space(c)),
            !js ==> p == (|c: char| is_white_space(c)),
            strip_front(v@, p) == strip_front(v@.subrange(lo as int, n as int), p),
        decreases n - lo,
    {
        proof {
            lemma_strip_front_step(v@, lo as int, p);
        }
        lo = lo + 1;
    }
    let ghost front = v@.subrange(lo as int, n as int);
    assert(strip_front(v@, p) == front);
    let mut hi: usize = n;
    while hi > lo && strips(js, v[hi - 1])
        invariant
            n == v@.len(),
            lo <= hi <= n,
            js ==> p == (|c: char| is_js_trim_space(c)),
            !js ==> p == (|c: char| is_white_space(c)),
            strip_back(front, p) == strip_back(v@.subrange(lo as int, hi as int), p),
            front == v@.subrange(lo as int, n as int),
        decreases hi - lo,
    {
        proof {
            lemma_strip_back_step(v@, lo as int, hi as int, p);
        }
        hi = hi - 1;
    }
    (lo, hi)
}

/// JavaScript's `String.prototype.trim`, exactly: strip leading and
/// trailing code points in the ECMA-262 trim set.
pub fn js_trim(text: &str) -> (t: &str)
    ensures
        t@ == js_trimmed(text@),
{
    let v = chars_of(text);
    let (lo, hi) = strip_bounds(v.as_slice(), Ghost(|c: char| is_js_trim_space(c)), true);
    text.substring_char(lo, hi)
}

/// The characters of `v` without the leading and trailing characters of
/// the JavaScript trim set.
pub fn js_trim_chars(v: &[char]) -> (r: Vec<char>)
    ensures
        r@ == js_trimmed(v@),
{
    let (lo, hi) = strip_bounds(v, Ghost(|c: char| is_js_trim_space(c)), true);
    slice_chars(v, lo, hi)
}

/// The characters `v[lo..hi]`.
pub fn slice_chars(v: &[char], lo: usize, hi: usize) -> (r: Vec<char>)
    requires
        lo <= hi <= v@.len(),
    ensures
        r@ == v@.subrange(lo as int, hi as int),
{
    let mut r: Vec<char> = Vec::new();
    let mut i = lo;
    while i < hi
        invariant
            lo <= i <= hi <= v@.len(),
            r@ == v@.subrange(lo as int, i as int),
        decreases hi - i,
    {
        r.push(v[i]);
        i = i + 1;
        assert(r@ =~= v@.subrange(lo as int, i as int));
    }
    r
}

// ---------------------------------------------------------------------
// Unicode White_Space, the set `char::is_whitespace` and `str::trim` use.

/// The Unicode White_Space property: U+0009..U+000D, U+0020, U+0085,
/// U+00A0, U+1680, U+2000..U+200A, U+2028, U+2029, U+202F, U+205F, U+3000.
pub open spec fn is_white_space(c: char) -> bool {
    ||| ('\u{0009}' <= c && c <= '\u{000D}')
    ||| c == '\u{0020}'
    ||| c == '\u{0085}'
    ||| c == '\u{00A0}'
    ||| c == '\u{1680}'
    ||| ('\u{2000}' <= c && c <= '\u{200A}')
    ||| c == '\u{2028}'
    ||| c == '\u{2029}'
    ||| c == '\u{202F}'
    ||| c == '\u{205F}'
    ||| c == '\u{3000}'
}

/// Whether `c` has the Unicode White_Space property.
pub fn is_whitespace(c: char) -> (b: bool)
    ensures
        b == is_white_space(c),
{
    ('\u{0009}' <= c && c <= '\u{000D}') || c == '\u{0020}' || c == '\u{0085}' || c == '\u{00A0}'
        || c == '\u{1680}' || ('\u{2000}' <= c && c <= '\u{200A}') || c == '\u{2028}' || c
        == '\u{2029}' || c == '\u{202F}' || c == '\u{205F}' || c == '\u{3000}'
}

/// `s` without leading and trailing White_Space (`str::trim`).
pub open spec fn ws_trimmed(s: Seq<char>) -> Seq<char> {
    strip(s, |c: char| is_white_space(c))
}

/// The characters of `v` without leading and trailing White_Space.
pub fn ws_trim_chars(v: &[char]) -> (r: Vec<char>)
    ensures
        r@ == ws_trimmed(v@),
{
    let (lo, hi) = strip_bounds(v, Ghost(|c: char| is_white_space(c)), false);
    slice_chars(v, lo, hi)
}

/// The string `a` followed by `b`.
pub fn concat2(a: &str, b: &str) -> (s: String)
    ensures
        s@ == a@ + b@,
{
    let mut s = a.to_owned();
    s.append(b);
    s
}

/// The string `a` followed by `b` and `c`.
pub fn concat3(a: &str, b: &str, c: &str) -> (s: String)
    ensures
        s@ == a@ + b@ + c@,
{
    let mut s = a.to_owned();
    s.append(b);
    s.append(c);
    s
}

/// What `format!("{:?}", s)` writes for a string: Rust's Debug quoting.
pub uninterp spec fn debug_quoted(s: Seq<char>) -> Seq<char>;

/// Rust's Debug quoting of a string (`<str as Debug>::fmt`): the string
/// in double quotes, with its quotes, backslashes and unprintable
/// characters escaped.
#[verifier::external_body]
pub(crate) fn debug_str(s: &str) -> (r: String)
    ensures
        r@ == debug_quoted(s@),
{
    format!("{:?}", s)
}

/// The first `m` characters of `s` (all of them when it has fewer).
pub fn chars_prefix(s: &str, m: usize) -> (v: Vec<char>)
    ensures
        v@ == s@.take(if m < s@.len() { m as int } else { s@.len() as int }),
{
    let mut v: Vec<char> = Vec::new();
    if m == 0 {
        assert(v@ =~= s@.take(0));
        return v;
    }
    for c in it: s.chars()
        invariant
            v@ == it.seq().take(it.index() as int),
            it.seq() == s@,
            v@.len() < m,
    {
        v.push(c);
        if v.len() == m {
            assert(v@ =~= s@.take(m as int));
            return v;
        }
    }
    assert(v@ =~= s@);
    v
}

} // verus!
