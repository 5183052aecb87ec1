//! Small building blocks shared by the parsers: ASCII whitespace, trimming,
//! byte search, UTF-8 checking, and decimal numbers as text.

use vstd::prelude::*;
use vstd::string::*;
use vstd::utf8::*;

verus! {

/// The six bytes treated as whitespace: space, tab, line feed, carriage
/// return, vertical tab and form feed.
pub open spec fn is_space(b: u8) -> bool {
    b == 0x20 || b == 0x09 || b == 0x0A || b == 0x0D || b == 0x0B || b == 0x0C
}

/// Whether `b` is one of the six whitespace bytes.
pub fn is_ascii_ws(b: u8) -> (r: bool)
    ensures
        r == is_space(b),
{
    b == 0x20 || b == 0x09 || b == 0x0A || b == 0x0D || b == 0x0B || b == 0x0C
}

/// `s` without the leading items that `skip` holds of.
pub open spec fn strip_front<T>(s: Seq<T>, skip: spec_fn(T) -> bool) -> Seq<T>
    decreases s.len(),
{
    if s.len() > 0 && skip(s[0]) {
        strip_front(s.drop_first(), skip)
    } else {
        s
    }
}

/// `s` without the trailing items that `skip` holds of.
pub open spec fn strip_back<T>(s: Seq<T>, skip: spec_fn(T) -> bool) -> Seq<T>
    decreases s.len(),
{
    if s.len() > 0 && skip(s.last()) {
        strip_back(s.drop_last(), skip)
    } else {
        s
    }
}

/// `s` without leading and trailing ASCII whitespace.
pub open spec fn trim(s: Seq<u8>) -> Seq<u8> {
    strip_back(strip_front(s, |b: u8| is_space(b)), |b: u8| is_space(b))
}

/// `s` without leading and trailing Unicode whitespace.
pub open spec fn trim_chars(s: Seq<char>) -> Seq<char> {
    strip_back(strip_front(s, |c: char| is_whitespace(c)), |c: char| is_whitespace(c))
}

/// Where `k` items at the front and all items from `n` on are skipped, and
/// the items at both ends of what lies between are not, stripping both ends
/// leaves exactly `s[k..n]`.
pub proof fn lemma_strip(s: Seq<u8>, k: int, n: int)
    requires
        0 <= k <= n <= s.len(),
        forall|j: int| 0 <= j < k ==> is_space(#[trigger] s[j]),
        forall|j: int| n <= j < s.len() ==> is_space(#[trigger] s[j]),
        k < n ==> !is_space(s[k]) && !is_space(s[n - 1]),
        k == n ==> n == s.len(),
    ensures
        trim(s) == s.subrange(k, n),
{
    let skip = |b: u8| is_space(b);
    lemma_strip_front(s, skip, k);
    lemma_strip_back(s.skip(k), skip, n - k);
    assert(s.skip(k).take(n - k) =~= s.subrange(k, n));
}

/// The same for characters and Unicode whitespace.
pub proof fn lemma_strip_chars(s: Seq<char>, k: int, n: int)
    requires
        0 <= k <= n <= s.len(),
        forall|j: int| 0 <= j < k ==> is_whitespace(#[trigger] s[j]),
        forall|j: int| n <= j < s.len() ==> is_whitespace(#[trigger] s[j]),
        k < n ==> !is_whitespace(s[k]) && !is_whitespace(s[n - 1]),
        k == n ==> n == s.len(),
    ensures
        trim_chars(s) == s.subrange(k, n),
{
    let skip = |c: char| is_whitespace(c);
    lemma_strip_front(s, skip, k);
    lemma_strip_back(s.skip(k), skip, n - k);
    assert(s.skip(k).take(n - k) =~= s.subrange(k, n));
}

proof fn lemma_strip_front<T>(s: Seq<T>, skip: spec_fn(T) -> bool, k: int)
    requires
        0 <= k <= s.len(),
        forall|j: int| 0 <= j < k ==> skip(#[trigger] s[j]),
        k < s.len() ==> !skip(s[k]),
    ensures
        strip_front(s, skip) == s.skip(k),
    decreases k,
{
    if k > 0 {
        let rest = s.drop_first();
        assert forall|j: int| 0 <= j < k - 1 implies skip(#[trigger] rest[j]) by {
            assert(rest[j] == s[j + 1]);
        }
        lemma_strip_front(rest, skip, k - 1);
        assert(rest.skip(k - 1) =~= s.skip(k));
    } else {
        assert(s.skip(0) =~= s);
    }
}

proof fn lemma_strip_back<T>(s: Seq<T>, skip: spec_fn(T) -> bool, n: int)
    requires
        0 <= n <= s.len(),
        forall|j: int| n <= j < s.len() ==> skip(#[trigger] s[j]),
        n > 0 ==> !skip(s[n - 1]),
    ensures
        strip_back(s, skip) == s.take(n),
    decreases s.len() - n,
{
    if n < s.len() {
        let rest = s.drop_last();
        lemma_strip_back(rest, skip, n);
        assert(rest.take(n) =~= s.take(n));
    } else {
        assert(s.take(n) =~= s);
    }
}

/// Whether `bytes` can be cut before position `k` without cutting through
/// a character: at either end, and before or after an ASCII byte.
pub open spec fn clean_cut(bytes: Seq<u8>, k: int) -> bool {
    &&& 0 <= k <= bytes.len()
    &&& (k == 0 || k == bytes.len() || bytes[k] < 0x80 || bytes[k - 1] < 0x80)
}

/// Both parts of well-formed UTF-8 that is cut at a clean cut are
/// well-formed.
pub proof fn lemma_cut_valid(bytes: Seq<u8>, k: int)
    requires
        valid_utf8(bytes),
        clean_cut(bytes, k),
    ensures
        valid_utf8(bytes.subrange(0, k)),
        valid_utf8(bytes.subrange(k, bytes.len() as int)),
{
    if k == 0 {
        assert(bytes.subrange(k, bytes.len() as int) =~= bytes);
    } else if k == bytes.len() {
        assert(bytes.subrange(0, k) =~= bytes);
    } else if bytes[k] < 0x80 {
        is_char_boundary_iff_not_is_continuation_byte(bytes, k);
        valid_utf8_split(bytes, k);
    } else {
        is_char_boundary_iff_not_is_continuation_byte(bytes, k - 1);
        valid_utf8_split(bytes, k - 1);
        let tail = bytes.subrange(k - 1, bytes.len() as int);
        assert(tail[0] == bytes[k - 1]);
        assert(valid_first_scalar(tail));
        assert(length_of_first_scalar(tail) == 1);
        assert(pop_first_scalar(tail) =~= bytes.subrange(k, bytes.len() as int));
        partial_valid_utf8_extend(bytes, k - 1);
    }
}

/// What lies between two clean cuts of well-formed UTF-8 is well-formed.
pub proof fn lemma_between_cuts_valid(bytes: Seq<u8>, i: int, j: int)
    requires
        valid_utf8(bytes),
        clean_cut(bytes, i),
        clean_cut(bytes, j),
        i <= j,
    ensures
        valid_utf8(bytes.subrange(i, j)),
{
    lemma_cut_valid(bytes, i);
    let tail = bytes.subrange(i, bytes.len() as int);
    if i < j {
        if j < bytes.len() {
            assert(tail[j - i] == bytes[j]);
        }
        assert(tail[j - i - 1] == bytes[j - 1]);
    }
    lemma_cut_valid(tail, j - i);
    assert(tail.subrange(0, j - i) =~= bytes.subrange(i, j));
}

/// The part of `s` between its first and its last non-whitespace byte.
pub fn trim_ascii(s: &[u8]) -> (r: &[u8])
    ensures
        r@ == trim(s@),
        valid_utf8(s@) ==> valid_utf8(r@),
{
    let mut lo: usize = 0;
    let mut hi: usize = s.len();
    while lo < hi && is_ascii_ws(s[lo])
        invariant
            lo <= hi == s.len(),
            forall|j: int| 0 <= j < lo ==> is_space(#[trigger] s@[j]),
        decreases hi - lo,
    {
        lo += 1;
    }
    while lo < hi && is_ascii_ws(s[hi - 1])
        invariant
            lo <= hi <= s.len(),
            lo < s.len() ==> !is_space(s@[lo as int]),
            forall|j: int| hi <= j < s@.len() ==> is_space(#[trigger] s@[j]),
        decreases hi - lo,
    {
        hi -= 1;
    }
    proof {
        lemma_strip(s@, lo as int, hi as int);
        if valid_utf8(s@) {
            if lo > 0 {
                assert(is_space(s@[lo - 1]));
            }
            if hi < s@.len() {
                assert(is_space(s@[hi as int]));
            }
            lemma_between_cuts_valid(s@, lo as int, hi as int);
        }
    }
    vstd::slice::slice_subrange(s, lo, hi)
}

/// The part of `s` between its first and its last non-whitespace character.
pub fn trim_str(s: &str) -> (r: &str)
    ensures
        r@ == trim_chars(s@),
{
    let chars = chars_of(s);
    let mut lo: usize = 0;
    let mut hi: usize = chars.len();
    while lo < hi && is_whitespace_char(chars[lo])
        invariant
            lo <= hi == chars@.len(),
            forall|j: int| 0 <= j < lo ==> is_whitespace(#[trigger] chars@[j]),
        decreases hi - lo,
    {
        lo += 1;
    }
    while lo < hi && is_whitespace_char(chars[hi - 1])
        invariant
            lo <= hi <= chars@.len(),
            lo < chars@.len() ==> !is_whitespace(chars@[lo as int]),
            forall|j: int| hi <= j < chars@.len() ==> is_whitespace(#[trigger] chars@[j]),
        decreases hi - lo,
    {
        hi -= 1;
    }
    proof {
        lemma_strip_chars(s@, lo as int, hi as int);
    }
    s.substring_char(lo, hi)
}

/// Whether two strings hold the same text.
pub fn same_text(a: &str, b: &str) -> (r: bool)
    ensures
        r == (a@ == b@),
{
    let x = a.as_bytes();
    let y = b.as_bytes();
    proof {
        encode_utf8_decode_utf8(a@);
        encode_utf8_decode_utf8(b@);
    }
    let r = same_bytes(x, y);
    r
}

/// Whether two byte strings are equal.
pub fn same_bytes(x: &[u8], y: &[u8]) -> (r: bool)
    ensures
        r == (x@ == y@),
{
    if x.len() != y.len() {
        return false;
    }
    let mut i: usize = 0;
    while i < x.len()
        invariant
            i <= x@.len() == y@.len(),
            forall|j: int| 0 <= j < i ==> x@[j] == y@[j],
        decreases x@.len() - i,
    {
        if x[i] != y[i] {
            return false;
        }
        i += 1;
    }
    assert(x@ =~= y@);
    true
}

/// The index of the first `needle` in `hay`, or the length of `hay` where
/// it holds none.
pub open spec fn position<T>(hay: Seq<T>, needle: T) -> int
    decreases hay.len(),
{
    if hay.len() == 0 || hay[0] == needle {
        0
    } else {
        1 + position(hay.drop_first(), needle)
    }
}

/// `position` is the one index before which no `needle` stands and at which
/// one does, or the sequence ends.
pub proof fn lemma_position<T>(hay: Seq<T>, needle: T, i: int)
    requires
        0 <= i <= hay.len(),
        forall|j: int| 0 <= j < i ==> hay[j] != needle,
        i < hay.len() ==> hay[i] == needle,
    ensures
        position(hay, needle) == i,
    decreases i,
{
    if i > 0 {
        let rest = hay.drop_first();
        assert forall|j: int| 0 <= j < i - 1 implies rest[j] != needle by {
            assert(rest[j] == hay[j + 1]);
        }
        lemma_position(rest, needle, i - 1);
    }
}

/// What `position` returns lies within the sequence, finds a `needle` unless
/// it is the length, and has no `needle` before it.
pub proof fn lemma_position_bounds<T>(hay: Seq<T>, needle: T)
    ensures
        0 <= position(hay, needle) <= hay.len(),
        position(hay, needle) < hay.len() ==> hay[position(hay, needle)] == needle,
        forall|j: int| 0 <= j < position(hay, needle) ==> hay[j] != needle,
    decreases hay.len(),
{
    if hay.len() == 0 || hay[0] == needle {
    } else {
        let rest = hay.drop_first();
        lemma_position_bounds(rest, needle);
        assert forall|j: int| 0 <= j < position(hay, needle) implies hay[j] != needle by {
            if j > 0 {
                assert(hay[j] == rest[j - 1]);
            }
        }
    }
}

/// Finds the first `needle` in `hay`.
pub fn memchr(hay: &[u8], needle: u8) -> (r: Option<usize>)
    ensures
        match r {
            Some(i) => i < hay@.len() && i == position(hay@, needle) && hay@[i as int] == needle,
            None => position(hay@, needle) == hay@.len(),
        },
{
    let mut i: usize = 0;
    while i < hay.len()
        invariant
            i <= hay@.len(),
            forall|j: int| 0 <= j < i ==> hay@[j] != needle,
        decreases hay@.len() - i,
    {
        if hay[i] == needle {
            proof {
                lemma_position(hay@, needle, i as int);
            }
            return Some(i);
        }
        i += 1;
    }
    proof {
        lemma_position(hay@, needle, i as int);
    }
    None
}

/// Reads `bytes` as UTF-8 text. Wraps `core::str::from_utf8`: the result is
/// `Some` exactly for well-formed UTF-8, and then holds the characters that
/// the bytes encode.
#[verifier::external_body]
pub(crate) fn utf8_str(bytes: &[u8]) -> (r: Option<&str>)
    ensures
        r is Some <==> valid_utf8(bytes@),
        r is Some ==> r->0@ == decode_utf8(bytes@),
{
    match core::str::from_utf8(bytes) {
        Ok(s) => Some(s),
        Err(_) => None,
    }
}

/// The decimal value of an ASCII digit.
pub open spec fn digit_value(c: char) -> nat {
    (c as nat - '0' as nat) as nat
}

/// Whether `c` is one of the digits `0` to `9`.
pub open spec fn is_digit(c: char) -> bool {
    '0' <= c <= '9'
}

/// Whether `s` holds nothing but digits.
pub open spec fn all_digits(s: Seq<char>) -> bool {
    forall|i: int| 0 <= i < s.len() ==> is_digit(#[trigger] s[i])
}

/// The number that a sequence of decimal digits writes.
pub open spec fn digits_value(s: Seq<char>) -> nat
    decreases s.len(),
{
    if s.len() == 0 {
        0
    } else {
        digits_value(s.drop_last()) * 10 + digit_value(s.last())
    }
}

/// The digits of a number text: what follows an optional leading `+`.
pub open spec fn unsigned_digits(s: Seq<char>) -> Seq<char> {
    if s.len() > 0 && s[0] == '+' {
        s.drop_first()
    } else {
        s
    }
}

/// Reads `s` as an unsigned decimal number of at most `max`: an optional
/// `+`, then one or more digits. `None` for anything else.
pub open spec fn parse_unsigned(s: Seq<char>, max: nat) -> Option<nat> {
    let d = unsigned_digits(s);
    if d.len() > 0 && all_digits(d) && digits_value(d) <= max {
        Some(digits_value(d))
    } else {
        None
    }
}

/// A digit sequence is worth at least as much as any of its prefixes.
proof fn lemma_digits_value_prefix(s: Seq<char>, k: int)
    requires
        0 <= k <= s.len(),
    ensures
        digits_value(s.take(k)) <= digits_value(s),
    decreases s.len() - k,
{
    if k == s.len() {
        assert(s.take(k) =~= s);
    } else {
        assert(s.drop_last().take(k) =~= s.take(k));
        lemma_digits_value_prefix(s.drop_last(), k);
    }
}

/// Reads `s` as an unsigned decimal number of at most `max`: an optional
/// `+`, then one or more digits.
pub fn parse_number(s: &[char], max: u64) -> (r: Option<u64>)
    ensures
        match parse_unsigned(s@, max as nat) {
            Some(v) => r == Some(v as u64),
            None => r is None,
        },
{
    let len = s.len();
    let mut i: usize = 0;
    if i < len && s[i] == '+' {
        i += 1;
    }
    let ghost d = unsigned_digits(s@);
    assert(d =~= s@.subrange(i as int, len as int));
    if i == len {
        return None;
    }
    let start = i;
    let mut acc: u64 = 0;
    while i < len
        invariant
            start <= i <= len == s@.len(),
            d == s@.subrange(start as int, len as int),
            d == unsigned_digits(s@),
            d.len() > 0,
            all_digits(d.take(i - start)),
            acc == digits_value(d.take(i - start)),
            acc <= max,
        decreases len - i,
    {
        let c = s[i];
        let ghost next = d.take(i - start + 1);
        assert(next.drop_last() =~= d.take(i - start));
        assert(next.last() == c);
        if !('0' <= c && c <= '9') {
            assert(!is_digit(d[i - start]));
            return None;
        }
        let dv: u64 = (c as u32 - '0' as u32) as u64;
        assert(dv == digit_value(c));
        if dv > max {
            proof {
                assert(digits_value(next) == acc * 10 + dv);
                lemma_digits_value_prefix(d, i - start + 1);
            }
            return None;
        }
        if acc > (max - dv) / 10 {
            proof {
                assert(digits_value(next) == acc * 10 + dv);
                assert(acc * 10 + dv > max) by (nonlinear_arith)
                    requires
                        acc > (max - dv) / 10,
                        dv <= max,
                ;
                lemma_digits_value_prefix(d, i - start + 1);
            }
            return None;
        }
        assert(acc * 10 + dv <= max) by (nonlinear_arith)
            requires
                acc <= (max - dv) / 10,
                dv <= max,
        ;
        acc = acc * 10 + dv;
        assert forall|j: int| 0 <= j < next.len() implies is_digit(#[trigger] next[j]) by {
            if j < next.len() - 1 {
                assert(next[j] == d.take(i - start)[j]);
            }
        }
        i += 1;
    }
    assert(d.take(i - start) =~= d);
    Some(acc)
}

/// The character that writes a decimal digit.
pub open spec fn digit_char(d: nat) -> char {
    if d == 0 {
        '0'
    } else if d == 1 {
        '1'
    } else if d == 2 {
        '2'
    } else if d == 3 {
        '3'
    } else if d == 4 {
        '4'
    } else if d == 5 {
        '5'
    } else if d == 6 {
        '6'
    } else if d == 7 {
        '7'
    } else if d == 8 {
        '8'
    } else {
        '9'
    }
}

/// A number written in decimal, without sign or leading zeros.
pub open spec fn decimal(n: nat) -> Seq<char>
    decreases n,
{
    if n < 10 {
        seq![digit_char(n)]
    } else {
        decimal(n / 10).push(digit_char(n % 10))
    }
}

fn digit_str(d: u64) -> (r: &'static str)
    requires
        d < 10,
    ensures
        r@ == seq![digit_char(d as nat)],
{
    proof {
        reveal_strlit("0");
        reveal_strlit("1");
        reveal_strlit("2");
        reveal_strlit("3");
        reveal_strlit("4");
        reveal_strlit("5");
        reveal_strlit("6");
        reveal_strlit("7");
        reveal_strlit("8");
        reveal_strlit("9");
    }
    let r = if d == 0 {
        "0"
    } else if d == 1 {
        "1"
    } else if d == 2 {
        "2"
    } else if d == 3 {
        "3"
    } else if d == 4 {
        "4"
    } else if d == 5 {
        "5"
    } else if d == 6 {
        "6"
    } else if d == 7 {
        "7"
    } else if d == 8 {
        "8"
    } else {
        "9"
    };
    assert(r@ =~= seq![digit_char(d as nat)]);
    r
}

/// Writes `n` in decimal.
pub fn decimal_string(n: u64) -> (s: String)
    ensures
        s@ == decimal(n as nat),
    decreases n,
{
    if n < 10 {
        String::from_str(digit_str(n))
    } else {
        let mut s = decimal_string(n / 10);
        s.append(digit_str(n % 10));
        assert(s@ =~= decimal(n as nat));
        s
    }
}

/// The characters with Unicode's `White_Space` property.
pub open spec fn is_whitespace(c: char) -> bool {
    let u = c as u32;
    (0x09 <= u <= 0x0D) || u == 0x20 || u == 0x85 || u == 0xA0 || u == 0x1680 || (0x2000 <= u
        <= 0x200A) || u == 0x2028 || u == 0x2029 || u == 0x202F || u == 0x205F || u == 0x3000
}

/// Whether `c` has Unicode's `White_Space` property.
pub fn is_whitespace_char(c: char) -> (r: bool)
    ensures
        r == is_whitespace(c),
{
    let u: u32 = c as u32;
    (0x09 <= u && u <= 0x0D) || u == 0x20 || u == 0x85 || u == 0xA0 || u == 0x1680 || (0x2000 <= u
        && u <= 0x200A) || u == 0x2028 || u == 0x2029 || u == 0x202F || u == 0x205F || u == 0x3000
}

/// The characters of `s`, in order.
pub fn chars_of(s: &str) -> (out: Vec<char>)
    ensures
        out@ == s@,
{
    let mut out: Vec<char> = Vec::new();
    for c in it: s.chars()
        invariant
            out@ == it.seq().take(it.index()),
            it.seq() == s@,
    {
        out.push(c);
    }
    out
}

} // verus!
