//! Character-level helpers shared by the parsers: Unicode white space,
//! trimming, splitting into white-space separated words, decimal and
//! hexadecimal rendering.
use vstd::prelude::*;

verus! {

/// Unicode `White_Space` property: the characters that `char::is_whitespace`,
/// `str::trim`, `str::split_whitespace` and the regex class `\s` treat as
/// white space.
pub open spec fn is_ws(c: char) -> bool {
    ||| ('\u{9}' <= c && c <= '\u{d}')
    ||| c == ' '
    ||| c == '\u{85}'
    ||| c == '\u{a0}'
    ||| c == '\u{1680}'
    ||| ('\u{2000}' <= c && c <= '\u{200a}')
    ||| c == '\u{2028}'
    ||| c == '\u{2029}'
    ||| c == '\u{202f}'
    ||| c == '\u{205f}'
    ||| c == '\u{3000}'
}

/// Whether `c` is white space in the sense of [`is_ws`].
pub fn is_white_space(c: char) -> (r: bool)
    ensures
        r == is_ws(c),
{
    ('\u{9}' <= c && c <= '\u{d}') || c == ' ' || c == '\u{85}' || c == '\u{a0}' || c
        == '\u{1680}' || ('\u{2000}' <= c && c <= '\u{200a}') || c == '\u{2028}' || c
        == '\u{2029}' || c == '\u{202f}' || c == '\u{205f}' || c == '\u{3000}'
}

/// An ASCII decimal digit, the only digits that `char::is_digit(10)` accepts.
pub open spec fn is_digit_char(c: char) -> bool {
    '0' <= c && c <= '9'
}

/// Whether some character of `s` is a decimal digit.
pub open spec fn has_digit(s: Seq<char>) -> bool {
    exists|i: int| 0 <= i < s.len() && is_digit_char(#[trigger] s[i])
}

/// The characters of `s`, in order.
pub fn chars_of(s: &str) -> (r: Vec<char>)
    ensures
        r@ == s@,
{
    let mut out: Vec<char> = Vec::new();
    for c in it: s.chars()
        invariant
            out@ == it.seq().take(it.index()),
            it.seq() == s@,
    {
        out.push(c);
    }
    out
}

/// `std`'s `String: FromIterator<&char>`: the string made of `chars`, in order.
#[verifier::external_body]
pub(crate) fn string_from_chars(chars: &[char]) -> (s: String)
    ensures
        s@ == chars@,
{
    chars.iter().collect()
}

/// Law: a text has a digit exactly when one of its characters, wherever it
/// stands, is one of `0` to `9`.
pub proof fn law_has_digit_anywhere(s: Seq<char>)
    ensures
        has_digit(s) <==> exists|i: int| 0 <= i < s.len() && '0' <= #[trigger] s[i] && s[i] <= '9',
{
}

/// Whether `s` holds a decimal digit.
pub fn contains_digit(s: &str) -> (r: bool)
    ensures
        r == has_digit(s@),
        r <==> exists|i: int| 0 <= i < s@.len() && '0' <= #[trigger] s@[i] && s@[i] <= '9',
{
    proof {
        law_has_digit_anywhere(s@);
    }
    let cs = chars_of(s);
    let mut i: usize = 0;
    while i < cs.len()
        invariant
            cs@ == s@,
            i <= cs.len(),
            forall|j: int| 0 <= j < i ==> !is_digit_char(#[trigger] cs@[j]),
        decreases cs.len() - i,
    {
        if '0' <= cs[i] && cs[i] <= '9' {
            return true;
        }
        i = i + 1;
    }
    false
}

/// `s` without its leading white space.
pub open spec fn trim_start(s: Seq<char>) -> Seq<char>
    decreases s.len(),
{
    if s.len() > 0 && is_ws(s[0]) {
        trim_start(s.drop_first())
    } else {
        s
    }
}

/// `s` without its trailing white space.
pub open spec fn trim_end(s: Seq<char>) -> Seq<char>
    decreases s.len(),
{
    if s.len() > 0 && is_ws(s.last()) {
        trim_end(s.drop_last())
    } else {
        s
    }
}

/// `s` without leading and trailing white space (`str::trim`).
pub open spec fn trim(s: Seq<char>) -> Seq<char> {
    trim_end(trim_start(s))
}

/// Every character of `w` is white space.
pub open spec fn all_ws(w: Seq<char>) -> bool {
    forall|i: int| 0 <= i < w.len() ==> is_ws(#[trigger] w[i])
}

/// White space in front is trimmed away.
proof fn lemma_trim_start_ws_prefix(w: Seq<char>, x: Seq<char>)
    requires
        all_ws(w),
    ensures
        trim_start(w + x) == trim_start(x),
    decreases w.len(),
{
    if w.len() == 0 {
        assert(w + x =~= x);
    } else {
        assert((w + x)[0] == w[0]);
        assert((w + x).drop_first() =~= w.drop_first() + x);
        lemma_trim_start_ws_prefix(w.drop_first(), x);
    }
}

/// White space at the end is trimmed away.
proof fn lemma_trim_end_ws_suffix(x: Seq<char>, w: Seq<char>)
    requires
        all_ws(w),
    ensures
        trim_end(x + w) == trim_end(x),
    decreases w.len(),
{
    if w.len() == 0 {
        assert(x + w =~= x);
    } else {
        assert((x + w).last() == w.last());
        assert((x + w).drop_last() =~= x + w.drop_last());
        lemma_trim_end_ws_suffix(x, w.drop_last());
    }
}

/// Trimming the front of `x + y`: what is left of `x` followed by `y`, or,
/// when `x` is all white space, the trimmed `y`.
proof fn lemma_trim_start_concat(x: Seq<char>, y: Seq<char>)
    ensures
        trim_start(x + y) == if trim_start(x).len() > 0 {
            trim_start(x) + y
        } else {
            trim_start(y)
        },
    decreases x.len(),
{
    if x.len() == 0 {
        assert(x + y =~= y);
    } else {
        assert((x + y)[0] == x[0]);
        if is_ws(x[0]) {
            assert((x + y).drop_first() =~= x.drop_first() + y);
            lemma_trim_start_concat(x.drop_first(), y);
        }
    }
}

/// Law: white space added around a text does not change it once trimmed.
pub proof fn law_trim_ignores_padding(w1: Seq<char>, s: Seq<char>, w2: Seq<char>)
    requires
        all_ws(w1),
        all_ws(w2),
    ensures
        trim(w1 + s + w2) == trim(s),
{
    assert(w1 + s + w2 =~= w1 + (s + w2));
    lemma_trim_start_ws_prefix(w1, s + w2);
    lemma_trim_start_concat(s, w2);
    if trim_start(s).len() > 0 {
        lemma_trim_end_ws_suffix(trim_start(s), w2);
    } else {
        lemma_trim_start_ws_prefix(w2, seq![]);
        assert(w2 + Seq::<char>::empty() =~= w2);
    }
}

/// Characters of `s` with leading and trailing white space removed.
pub fn trim_chars(s: &Vec<char>) -> (r: Vec<char>)
    ensures
        r@ == trim(s@),
{
    let n = s.len();
    let mut a: usize = 0;
    assert(s@.subrange(0, n as int) =~= s@);
    while a < n && is_white_space(s[a])
        invariant
            n == s@.len(),
            a <= n,
            trim_start(s@) == trim_start(s@.subrange(a as int, n as int)),
        decreases n - a,
    {
        assert(s@.subrange(a as int, n as int).drop_first() =~= s@.subrange(a + 1, n as int));
        a = a + 1;
    }
    let mut b: usize = n;
    while b > a && is_white_space(s[b - 1])
        invariant
            n == s@.len(),
            a <= b <= n,
            trim_start(s@) == s@.subrange(a as int, n as int),
            trim(s@) == trim_end(s@.subrange(a as int, b as int)),
        decreases b - a,
    {
        assert(s@.subrange(a as int, b as int).drop_last() =~= s@.subrange(a as int, b - 1));
        b = b - 1;
    }
    assert(a == n ==> s@.subrange(a as int, n as int) =~= Seq::<char>::empty());
    let mut out: Vec<char> = Vec::new();
    let mut k: usize = a;
    while k < b
        invariant
            a <= k <= b <= n == s@.len(),
            out@ =~= s@.subrange(a as int, k as int),
        decreases b - k,
    {
        out.push(s[k]);
        k = k + 1;
    }
    out
}

/// `s` with leading and trailing white space removed (`str::trim`).
pub fn trim_str(s: &str) -> (r: String)
    ensures
        r@ == trim(s@),
{
    let cs = chars_of(s);
    let t = trim_chars(&cs);
    string_from_chars(t.as_slice())
}

/// State of a left-to-right scan that splits at white space: the words
/// already finished, and the word being read.
pub open spec fn split_scan(s: Seq<char>) -> (Seq<Seq<char>>, Seq<char>)
    decreases s.len(),
{
    if s.len() == 0 {
        (seq![], seq![])
    } else {
        let (done, cur) = split_scan(s.drop_last());
        if is_ws(s.last()) {
            if cur.len() > 0 {
                (done.push(cur), seq![])
            } else {
                (done, cur)
            }
        } else {
            (done, cur.push(s.last()))
        }
    }
}

/// The maximal runs of non-white-space characters of `s`, in order
/// (`str::split_whitespace`).
pub open spec fn words(s: Seq<char>) -> Seq<Seq<char>> {
    let (done, cur) = split_scan(s);
    if cur.len() > 0 {
        done.push(cur)
    } else {
        done
    }
}

/// The white-space separated words of `s`, in order.
pub fn split_words(s: &str) -> (r: Vec<String>)
    ensures
        r.deep_view() == words(s@),
{
    let cs = chars_of(s);
    let n = cs.len();
    let mut done: Vec<String> = Vec::new();
    let mut cur: Vec<char> = Vec::new();
    let mut i: usize = 0;
    while i < n
        invariant
            n == cs@.len(),
            cs@ == s@,
            i <= n,
            (done.deep_view(), cur@) == split_scan(cs@.take(i as int)),
        decreases n - i,
    {
        assert(cs@.take(i + 1).drop_last() =~= cs@.take(i as int));
        let c = cs[i];
        if is_white_space(c) {
            if cur.len() > 0 {
                let w = string_from_chars(cur.as_slice());
                done.push(w);
                cur = Vec::new();
                assert(done.deep_view() =~= split_scan(cs@.take(i + 1)).0);
            }
        } else {
            cur.push(c);
        }
        i = i + 1;
    }
    assert(cs@.take(n as int) =~= cs@);
    if cur.len() > 0 {
        let w = string_from_chars(cur.as_slice());
        done.push(w);
        assert(done.deep_view() =~= words(s@));
    }
    done
}

/// The decimal digit character for `d < 10`.
pub open spec fn digit_char(d: nat) -> char {
    seq!['0', '1', '2', '3', '4', '5', '6', '7', '8', '9'][d as int]
}

/// Decimal rendering of `n`, without leading zeros (`usize::to_string`).
pub open spec fn decimal(n: nat) -> Seq<char>
    decreases n,
{
    if n < 10 {
        seq![digit_char(n)]
    } else {
        decimal(n / 10).push(digit_char(n % 10))
    }
}

fn decimal_chars(n: usize) -> (r: Vec<char>)
    ensures
        r@ == decimal(n as nat),
    decreases n,
{
    let digits = ['0', '1', '2', '3', '4', '5', '6', '7', '8', '9'];
    assert(digits@ == seq!['0', '1', '2', '3', '4', '5', '6', '7', '8', '9']);
    if n < 10 {
        let mut v: Vec<char> = Vec::new();
        v.push(digits[n]);
        v
    } else {
        let mut v = decimal_chars(n / 10);
        v.push(digits[n % 10]);
        v
    }
}

/// `n` written in decimal.
pub fn usize_to_decimal(n: usize) -> (r: String)
    ensures
        r@ == decimal(n as nat),
{
    let v = decimal_chars(n);
    string_from_chars(v.as_slice())
}

/// Lower-case hexadecimal digit for `d < 16`.
pub open spec fn hex_char(d: nat) -> char {
    seq!['0', '1', '2', '3', '4', '5', '6', '7', '8', '9', 'a', 'b', 'c', 'd', 'e', 'f'][d as int]
}

/// Two lower-case hexadecimal digits of each byte, in order (`format!("{:02x}", b)` for each).
pub open spec fn hex_lower(bytes: Seq<u8>) -> Seq<char>
    decreases bytes.len(),
{
    if bytes.len() == 0 {
        seq![]
    } else {
        hex_lower(bytes.drop_last()).push(hex_char((bytes.last() / 16) as nat)).push(
            hex_char((bytes.last() % 16) as nat),
        )
    }
}

/// Lower-case hexadecimal rendering of `bytes`, two digits per byte.
pub fn to_hex_lower(bytes: &[u8]) -> (r: String)
    ensures
        r@ == hex_lower(bytes@),
{
    let digits = ['0', '1', '2', '3', '4', '5', '6', '7', '8', '9', 'a', 'b', 'c', 'd', 'e', 'f'];
    assert(digits@ == seq!['0', '1', '2', '3', '4', '5', '6', '7', '8', '9', 'a', 'b', 'c', 'd', 'e', 'f']);
    let mut out: Vec<char> = Vec::new();
    let mut i: usize = 0;
    while i < bytes.len()
        invariant
            i <= bytes@.len(),
            digits@ == seq!['0', '1', '2', '3', '4', '5', '6', '7', '8', '9', 'a', 'b', 'c', 'd', 'e', 'f'],
            out@ == hex_lower(bytes@.take(i as int)),
        decreases bytes@.len() - i,
    {
        assert(bytes@.take(i + 1).drop_last() =~= bytes@.take(i as int));
        let b = bytes[i];
        assert(bytes@.take(i + 1).last() == b);
        let hi = b / 16;
        let lo = b % 16;
        assert(digits@[hi as int] == hex_char(hi as nat));
        assert(digits@[lo as int] == hex_char(lo as nat));
        assert(hex_lower(bytes@.take(i + 1)) == hex_lower(bytes@.take(i as int)).push(
            hex_char(hi as nat),
        ).push(hex_char(lo as nat)));
        out.push(digits[hi as usize]);
        out.push(digits[lo as usize]);
        assert(out@ =~= hex_lower(bytes@.take(i + 1)));
        i = i + 1;
    }
    assert(bytes@.take(bytes@.len() as int) =~= bytes@);
    string_from_chars(out.as_slice())
}

} // verus!
