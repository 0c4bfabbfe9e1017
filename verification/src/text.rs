//! Character-level text helpers shared by the parsers and formatters.
//!
//! Every function here works on the `char` sequence that is the view of a
//! `str` or `String`, so its contract is stated over `Seq<char>`.
use vstd::prelude::*;
use vstd::utf8::{encode_utf8, is_char_boundary};

verus! {

/// `String::push` appends one character to the end of the string.
pub assume_specification[ String::push ](s: &mut String, ch: char)
    ensures
        final(s)@ == old(s)@.push(ch),
;

/// The characters of a string slice, in order.
pub fn chars_of(s: &str) -> (r: Vec<char>)
    ensures
        r@ == s@,
{
    let mut v: Vec<char> = Vec::new();
    for c in it: s.chars()
        invariant
            v@ == it.seq().take(it.index() as int),
    {
        v.push(c);
    }
    v
}

/// Appends the characters `cs[from..to]` to `out`.
pub fn push_chars(out: &mut String, cs: &[char], from: usize, to: usize)
    requires
        from <= to <= cs@.len(),
    ensures
        final(out)@ == old(out)@ + cs@.subrange(from as int, to as int),
{
    let mut i = from;
    while i < to
        invariant
            from <= i <= to <= cs@.len(),
            out@ == old(out)@ + cs@.subrange(from as int, i as int),
        decreases to - i,
    {
        out.push(cs[i]);
        assert(cs@.subrange(from as int, i + 1) =~= cs@.subrange(from as int, i as int).push(
            cs@[i as int],
        ));
        i += 1;
    }
}

/// A new string holding the characters `cs[from..to]`.
pub fn string_of(cs: &[char], from: usize, to: usize) -> (r: String)
    requires
        from <= to <= cs@.len(),
    ensures
        r@ == cs@.subrange(from as int, to as int),
{
    let mut s = String::new();
    push_chars(&mut s, cs, from, to);
    s
}

/// Whether two string slices hold the same characters.
pub fn str_eq(a: &str, b: &str) -> (r: bool)
    ensures
        r == (a@ == b@),
{
    let x = chars_of(a);
    let y = chars_of(b);
    if x.len() != y.len() {
        return false;
    }
    let mut i: usize = 0;
    while i < x.len()
        invariant
            x@ == a@,
            y@ == b@,
            x@.len() == y@.len(),
            i <= x@.len(),
            forall|k: int| 0 <= k < i ==> x@[k] == y@[k],
        decreases x.len() - i,
    {
        if x[i] != y[i] {
            return false;
        }
        i += 1;
    }
    assert(x@ =~= y@);
    true
}

// ── Decimal numbers ──
/// The decimal digit character for `d < 10`.
pub open spec fn digit_char(d: nat) -> char {
    (('0' as u32) + d) as char
}

/// The decimal representation of `n`, without leading zeros (`"0"` for zero),
/// as `format!("{}", n)` writes it.
pub open spec fn decimal(n: nat) -> Seq<char>
    decreases n,
{
    if n < 10 {
        seq![digit_char(n)]
    } else {
        decimal(n / 10).push(digit_char(n % 10))
    }
}

/// The representation of `n` padded with zeros to at least two digits,
/// as `format!("{:02}", n)` writes it.
pub open spec fn decimal2(n: nat) -> Seq<char> {
    if n < 10 {
        seq!['0', digit_char(n)]
    } else {
        decimal(n)
    }
}

fn digit(d: u64) -> (c: char)
    requires
        d < 10,
    ensures
        c == digit_char(d as nat),
{
    if d == 0 {
        '0'
    } else if d == 1 {
        '1'
    } else if d == 2 {
        '2'
    } else if d == 3 {
        '3'
    } else if d == 4 {
        '4'
    } else if d == 5 {
        '5'
    } else if d == 6 {
        '6'
    } else if d == 7 {
        '7'
    } else if d == 8 {
        '8'
    } else {
        '9'
    }
}

/// Appends the decimal representation of `n` to `out`.
pub fn push_decimal(out: &mut String, n: u64)
    ensures
        final(out)@ == old(out)@ + decimal(n as nat),
    decreases n,
{
    if n >= 10 {
        push_decimal(out, n / 10);
    }
    out.push(digit(n % 10));
    assert(n < 10 ==> old(out)@ + decimal(n as nat) =~= old(out)@.push(digit_char(n as nat)));
    assert(n >= 10 ==> old(out)@ + decimal(n as nat) =~= (old(out)@ + decimal((n / 10) as nat)).push(
        digit_char((n % 10) as nat),
    ));
}

/// Appends `n` padded with zeros to two digits.
pub fn push_decimal2(out: &mut String, n: u64)
    ensures
        final(out)@ == old(out)@ + decimal2(n as nat),
{
    if n < 10 {
        out.push('0');
        out.push(digit(n));
        assert(old(out)@ + decimal2(n as nat) =~= old(out)@.push('0').push(digit_char(n as nat)));
    } else {
        push_decimal(out, n);
    }
}

// ── Parsing unsigned integers ──
/// Whether `c` is an ASCII decimal digit.
pub open spec fn is_digit(c: char) -> bool {
    '0' <= c <= '9'
}

/// The number written by the digits `ds` (most significant first).
pub open spec fn digits_value(ds: Seq<char>) -> nat
    decreases ds.len(),
{
    if ds.len() == 0 {
        0
    } else {
        digits_value(ds.drop_last()) * 10 + ((ds.last() as u32) - ('0' as u32)) as nat
    }
}

/// `s` without one leading `+`, if it has one.
pub open spec fn strip_plus(s: Seq<char>) -> Seq<char> {
    if s.len() > 0 && s[0] == '+' {
        s.drop_first()
    } else {
        s
    }
}

/// What `s.parse::<u64>()` gives, as an `Option`: an optional `+` followed by
/// one or more ASCII digits whose value fits in a `u64`.
pub open spec fn parse_u64_spec(s: Seq<char>) -> Option<u64> {
    let ds = strip_plus(s);
    if ds.len() > 0 && (forall|i: int| 0 <= i < ds.len() ==> is_digit(#[trigger] ds[i]))
        && digits_value(ds) <= u64::MAX {
        Some(digits_value(ds) as u64)
    } else {
        None
    }
}

/// A number written in decimal reads back as itself: `decimal(n)` is a
/// non-empty run of ASCII digits, with no leading zero unless `n` is 0, whose
/// value is `n`, and `str::parse` gives `n` back for it.
pub proof fn lemma_decimal_reads_back(n: nat)
    ensures
        decimal(n).len() > 0,
        forall|i: int| 0 <= i < decimal(n).len() ==> is_digit(#[trigger] decimal(n)[i]),
        digits_value(decimal(n)) == n,
        n > 0 ==> decimal(n)[0] != '0',
        n <= u64::MAX ==> parse_u64_spec(decimal(n)) == Some(n as u64),
    decreases n,
{
    if n >= 10 {
        lemma_decimal_reads_back(n / 10);
        let s = decimal(n / 10);
        let d = n % 10;
        let c = digit_char(d);
        assert(decimal(n) == s.push(c));
        assert(s.push(c).drop_last() =~= s);
        assert((c as u32) - ('0' as u32) == d);
        assert(digits_value(s.push(c)) == digits_value(s) * 10 + d);
        assert(n == (n / 10) * 10 + d);
        assert forall|i: int| 0 <= i < decimal(n).len() implies is_digit(#[trigger] decimal(n)[i]) by {
            if i < s.len() {
                assert(decimal(n)[i] == s[i]);
            }
        }
        assert(decimal(n)[0] == s[0]);
        assert(digits_value(decimal(n)) == n);
    } else {
        let c = digit_char(n);
        assert(decimal(n) == seq![c]);
        assert((c as u32) - ('0' as u32) == n);
        assert(seq![c].drop_last() =~= Seq::<char>::empty());
        assert(digits_value(Seq::<char>::empty()) == 0);
        assert(seq![c].last() == c);
        assert(digits_value(seq![c]) == n);
    }
    assert(strip_plus(decimal(n)) == decimal(n));
}

proof fn lemma_digits_value_grows(ds: Seq<char>, i: int)
    requires
        0 <= i <= ds.len(),
        forall|k: int| 0 <= k < ds.len() ==> is_digit(#[trigger] ds[k]),
    ensures
        digits_value(ds.take(i)) <= digits_value(ds),
    decreases ds.len() - i,
{
    if i < ds.len() {
        lemma_digits_value_grows(ds, i + 1);
        assert(ds.take(i + 1).drop_last() =~= ds.take(i));
    } else {
        assert(ds.take(i) =~= ds);
    }
}

/// `s[from..to]` parsed as a `u64` the way `str::parse` does it.
pub fn parse_u64(s: &[char], from: usize, to: usize) -> (r: Option<u64>)
    requires
        from <= to <= s@.len(),
    ensures
        r == parse_u64_spec(s@.subrange(from as int, to as int)),
{
    let ghost t = s@.subrange(from as int, to as int);
    let mut start = from;
    if from < to && s[from] == '+' {
        start = from + 1;
    }
    let ghost ds = s@.subrange(start as int, to as int);
    assert(t.len() > 0 ==> t[0] == s@[from as int]);
    assert(ds =~= strip_plus(t));
    if start == to {
        assert(ds.len() == 0);
        return None;
    }
    let mut i = start;
    while i < to
        invariant
            from <= start <= i <= to <= s@.len(),
            ds == s@.subrange(start as int, to as int),
            t == s@.subrange(from as int, to as int),
            ds == strip_plus(t),
            forall|k: int| start <= k < i ==> is_digit(#[trigger] s@[k]),
        decreases to - i,
    {
        if !('0' <= s[i] && s[i] <= '9') {
            assert(!is_digit(ds[i - start]));
            return None;
        }
        i += 1;
    }
    assert(forall|k: int| 0 <= k < ds.len() ==> is_digit(#[trigger] ds[k])) by {
        assert forall|k: int| 0 <= k < ds.len() implies is_digit(#[trigger] ds[k]) by {
            assert(ds[k] == s@[start + k]);
        }
    }
    let mut v: u64 = 0;
    let mut j = start;
    while j < to
        invariant
            start <= j <= to <= s@.len(),
            ds == s@.subrange(start as int, to as int),
            t == s@.subrange(from as int, to as int),
            ds == strip_plus(t),
            forall|k: int| 0 <= k < ds.len() ==> is_digit(#[trigger] ds[k]),
            v as nat == digits_value(ds.take(j - start)),
        decreases to - j,
    {
        assert(ds.take(j - start + 1).drop_last() =~= ds.take(j - start));
        assert(ds.take(j - start + 1).last() == s@[j as int]);
        assert(ds[j - start] == s@[j as int]);
        assert(is_digit(ds[j - start]));
        let c = s[j];
        let d: u64 = (c as u64) - ('0' as u64);
        assert(d < 10);
        let lim: u64 = (u64::MAX - d) / 10;
        if v > lim {
            proof {
                lemma_digits_value_grows(ds, j - start + 1);
                assert(digits_value(ds.take(j - start + 1)) == v * 10 + d);
                assert(v * 10 + d > u64::MAX) by (nonlinear_arith)
                    requires
                        v > lim,
                        lim == (u64::MAX - d) / 10,
                        d < 10,
                ;
            }
            return None;
        }
        assert(v * 10 + d <= u64::MAX) by (nonlinear_arith)
            requires
                v <= lim,
                lim == (u64::MAX - d) / 10,
                d < 10,
        ;
        v = v * 10 + d;
        j += 1;
    }
    assert(ds.take(ds.len() as int) =~= ds);
    Some(v)
}

// ── Whitespace ──
/// Unicode `White_Space`, the set that `char::is_whitespace` tests.
pub open spec fn is_whitespace(c: char) -> bool {
    ||| c == '\t'
    ||| c == '\n'
    ||| c == '\u{0B}'
    ||| c == '\u{0C}'
    ||| c == '\r'
    ||| c == ' '
    ||| c == '\u{85}'
    ||| c == '\u{A0}'
    ||| c == '\u{1680}'
    ||| ('\u{2000}' <= c <= '\u{200A}')
    ||| c == '\u{2028}'
    ||| c == '\u{2029}'
    ||| c == '\u{202F}'
    ||| c == '\u{205F}'
    ||| c == '\u{3000}'
}

fn whitespace(c: char) -> (r: bool)
    ensures
        r == is_whitespace(c),
{
    c == '\t' || c == '\n' || c == '\u{0B}' || c == '\u{0C}' || c == '\r' || c == ' ' || c
        == '\u{85}' || c == '\u{A0}' || c == '\u{1680}' || ('\u{2000}' <= c && c <= '\u{200A}')
        || c == '\u{2028}' || c == '\u{2029}' || c == '\u{202F}' || c == '\u{205F}' || c
        == '\u{3000}'
}

/// `s` without its leading whitespace.
pub open spec fn trim_start(s: Seq<char>) -> Seq<char>
    decreases s.len(),
{
    if s.len() > 0 && is_whitespace(s[0]) {
        trim_start(s.drop_first())
    } else {
        s
    }
}

/// `s` without its trailing whitespace.
pub open spec fn trim_end(s: Seq<char>) -> Seq<char>
    decreases s.len(),
{
    if s.len() > 0 && is_whitespace(s.last()) {
        trim_end(s.drop_last())
    } else {
        s
    }
}

/// `s` without leading and trailing whitespace, as `str::trim` gives it.
pub open spec fn trim(s: Seq<char>) -> Seq<char> {
    trim_end(trim_start(s))
}

/// The bounds of `s[from..to]` once whitespace is trimmed from both ends.
pub fn trim_bounds(s: &[char], from: usize, to: usize) -> (r: (usize, usize))
    requires
        from <= to <= s@.len(),
    ensures
        from <= r.0 <= r.1 <= to,
        s@.subrange(r.0 as int, r.1 as int) == trim(s@.subrange(from as int, to as int)),
{
    let mut a = from;
    while a < to && whitespace(s[a])
        invariant
            from <= a <= to <= s@.len(),
            trim_start(s@.subrange(from as int, to as int)) == trim_start(
                s@.subrange(a as int, to as int),
            ),
        decreases to - a,
    {
        assert(s@.subrange(a as int, to as int).drop_first() =~= s@.subrange(a + 1, to as int));
        a += 1;
    }
    let mut b = to;
    while b > a && whitespace(s[b - 1])
        invariant
            from <= a <= b <= to <= s@.len(),
            trim(s@.subrange(from as int, to as int)) == trim_end(s@.subrange(a as int, b as int)),
        decreases b - a,
    {
        assert(s@.subrange(a as int, b as int).drop_last() =~= s@.subrange(a as int, b - 1));
        b -= 1;
    }
    (a, b)
}

// ── Searching ──
/// Whether `needle` occurs in `hay` at position `i`.
pub open spec fn occurs_at(hay: Seq<char>, needle: Seq<char>, i: int) -> bool {
    0 <= i && i + needle.len() <= hay.len() && hay.subrange(i, i + needle.len()) == needle
}

/// The first position at or after `i` where `needle` occurs in `hay`.
pub open spec fn find_from(hay: Seq<char>, needle: Seq<char>, i: int) -> Option<int>
    decreases hay.len() + 1 - i,
{
    if i < 0 || i + needle.len() > hay.len() {
        None
    } else if occurs_at(hay, needle, i) {
        Some(i)
    } else {
        find_from(hay, needle, i + 1)
    }
}

/// The first position where `needle` occurs in `hay`, as `str::find` gives it
/// (counted in characters).
pub open spec fn find(hay: Seq<char>, needle: Seq<char>) -> Option<int> {
    find_from(hay, needle, 0)
}

/// The first position at or after `from` where `needle` occurs in `hay`.
pub fn find_chars(hay: &[char], needle: &[char], from: usize) -> (r: Option<usize>)
    requires
        from <= hay@.len(),
    ensures
        r matches Some(p) ==> find_from(hay@, needle@, from as int) == Some(p as int) && from <= p
            && p + needle@.len() <= hay@.len(),
        r is None ==> find_from(hay@, needle@, from as int) is None,
{
    let mut i = from;
    while i <= hay.len() && needle.len() <= hay.len() - i
        invariant
            from <= i,
            i <= hay@.len() + 1,
            find_from(hay@, needle@, from as int) == find_from(hay@, needle@, i as int),
        decreases hay.len() + 1 - i,
    {
        let mut k: usize = 0;
        let mut same = true;
        while k < needle.len()
            invariant
                i + needle@.len() <= hay@.len(),
                i + needle.len() <= hay.len(),
                k <= needle@.len(),
                same <==> (forall|m: int| 0 <= m < k ==> hay@[i + m] == needle@[m]),
            decreases needle.len() - k,
        {
            if hay[i + k] != needle[k] {
                same = false;
            }
            k += 1;
        }
        if same {
            assert(hay@.subrange(i as int, i + needle@.len()) =~= needle@);
            return Some(i);
        } else {
            assert(!occurs_at(hay@, needle@, i as int)) by {
                if occurs_at(hay@, needle@, i as int) {
                    assert forall|m: int| 0 <= m < needle@.len() implies hay@[i + m]
                        == needle@[m] by {
                        assert(hay@.subrange(i as int, i + needle@.len())[m] == hay@[i + m]);
                    }
                }
            }
        }
        i += 1;
    }
    None
}

/// The position of the first `c` at or after `from` in `s`.
pub open spec fn find_char_from(s: Seq<char>, c: char, from: int) -> Option<int> {
    find_from(s, seq![c], from)
}

/// The position of the first `c` at or after `from` in `s`.
pub fn find_char(s: &[char], c: char, from: usize) -> (r: Option<usize>)
    requires
        from <= s@.len(),
    ensures
        r matches Some(p) ==> find_char_from(s@, c, from as int) == Some(p as int) && from <= p
            < s@.len(),
        r is None ==> find_char_from(s@, c, from as int) is None,
{
    let mut i = from;
    while i < s.len()
        invariant
            from <= i <= s@.len(),
            find_char_from(s@, c, from as int) == find_char_from(s@, c, i as int),
        decreases s.len() - i,
    {
        if s[i] == c {
            assert(s@.subrange(i as int, i + 1) =~= seq![c]);
            return Some(i);
        }
        assert(s@.subrange(i as int, i + 1)[0] != seq![c][0]);
        assert(!occurs_at(s@, seq![c], i as int));
        i += 1;
    }
    None
}

/// The position of the last `c` in `s`.
pub open spec fn rfind_char(s: Seq<char>, c: char) -> Option<int>
    decreases s.len(),
{
    if s.len() == 0 {
        None
    } else if s.last() == c {
        Some(s.len() - 1)
    } else {
        rfind_char(s.drop_last(), c)
    }
}

/// The position of the last `c` in `s`.
pub fn rfind_char_exec(s: &[char], c: char) -> (r: Option<usize>)
    ensures
        r matches Some(p) ==> rfind_char(s@, c) == Some(p as int) && p < s@.len(),
        r is None ==> rfind_char(s@, c) is None,
{
    let mut i = s.len();
    assert(s@.take(i as int) =~= s@);
    while i > 0
        invariant
            i <= s@.len(),
            rfind_char(s@, c) == rfind_char(s@.take(i as int), c),
        decreases i,
    {
        if s[i - 1] == c {
            return Some(i - 1);
        }
        assert(s@.take(i as int).drop_last() =~= s@.take(i - 1));
        i -= 1;
    }
    None
}

} // verus!

verus! {

// ── UTF-8 byte prefixes ──
/// The number of bytes in the UTF-8 encoding of `c` (what `char::len_utf8` gives).
pub open spec fn utf8_width(c: char) -> nat {
    vstd::utf8::encode_scalar(c as u32).len()
}

/// The leading characters of `s` whose UTF-8 encoding takes exactly `n` bytes;
/// `None` when no prefix takes exactly `n` bytes, that is when `n` exceeds the
/// byte length of `s` or falls inside a character. This is what
/// `str::get(..n)` gives.
pub open spec fn utf8_prefix(s: Seq<char>, n: int) -> Option<Seq<char>>
    decreases s.len(),
{
    if n == 0 {
        Some(seq![])
    } else if n < 0 || s.len() == 0 {
        None
    } else {
        match utf8_prefix(s.drop_first(), n - utf8_width(s[0])) {
            Some(p) => Some(seq![s[0]] + p),
            None => None,
        }
    }
}

/// `utf8_prefix` is the byte prefix that `str::get(..n)` gives: there is one
/// exactly when `n` lies within the UTF-8 encoding of `s` on a character
/// boundary, and its encoding is then the first `n` bytes of that of `s`.
pub proof fn lemma_utf8_prefix_is_byte_prefix(s: Seq<char>, n: int)
    ensures
        utf8_prefix(s, n) is Some <==> (0 <= n <= encode_utf8(s).len() && is_char_boundary(
            encode_utf8(s),
            n,
        )),
        utf8_prefix(s, n) matches Some(p) ==> encode_utf8(p) == encode_utf8(s).subrange(0, n),
    decreases s.len(),
{
    broadcast use vstd::utf8::encode_utf8_valid_utf8;

    let bytes = encode_utf8(s);
    assert(vstd::utf8::valid_utf8(bytes));
    if n == 0 {
        assert(is_char_boundary(bytes, 0));
        assert(encode_utf8(Seq::<char>::empty()) =~= bytes.subrange(0, 0));
    } else if n < 0 {
        assert(!is_char_boundary(bytes, n));
    } else if s.len() == 0 {
        assert(bytes.len() == 0);
        assert(!is_char_boundary(bytes, n));
    } else {
        let rest = s.drop_first();
        let w = utf8_width(s[0]);
        vstd::utf8::encode_utf8_first_scalar(s);
        assert(bytes =~= vstd::utf8::encode_scalar(s[0] as u32) + encode_utf8(rest));
        assert(vstd::utf8::length_of_first_scalar(bytes) == w);
        assert(vstd::utf8::pop_first_scalar(bytes) =~= encode_utf8(rest));
        assert(is_char_boundary(bytes, n) == (if bytes.len() < n {
            false
        } else {
            is_char_boundary(encode_utf8(rest), n - w)
        }));
        lemma_utf8_prefix_is_byte_prefix(rest, n - w);
        match utf8_prefix(rest, n - w) {
            Some(p) => {
                let q = seq![s[0]] + p;
                assert(q[0] == s[0]);
                assert(q.drop_first() =~= p);
                assert(encode_utf8(q) =~= vstd::utf8::encode_scalar(s[0] as u32) + encode_utf8(p));
                assert(encode_utf8(q) =~= bytes.subrange(0, n));
            },
            None => {},
        }
    }
}

fn width(c: char) -> (w: usize)
    ensures
        w == utf8_width(c),
        1 <= w <= 4,
{
    proof {
        vstd::utf8::char_is_scalar(c);
    }
    let u = c as u32;
    if u <= 0x7F {
        1
    } else if u <= 0x7FF {
        2
    } else if u <= 0xFFFF {
        3
    } else {
        4
    }
}

/// `a` put in front of the sequence in `o`, if there is one.
pub open spec fn prepend(a: Seq<char>, o: Option<Seq<char>>) -> Option<Seq<char>> {
    match o {
        Some(p) => Some(a + p),
        None => None,
    }
}

/// The end (a character index) of the prefix of `cs[from..]` that takes exactly
/// `n` bytes in UTF-8, if there is one.
pub fn utf8_prefix_end(cs: &[char], from: usize, n: usize) -> (r: Option<usize>)
    requires
        from <= cs@.len(),
    ensures
        r matches Some(e) ==> from <= e <= cs@.len() && utf8_prefix(
            cs@.subrange(from as int, cs@.len() as int),
            n as int,
        ) == Some(cs@.subrange(from as int, e as int)),
        r is None ==> utf8_prefix(cs@.subrange(from as int, cs@.len() as int), n as int) is None,
{
    let mut i = from;
    let mut used: usize = 0;
    assert(cs@.subrange(from as int, from as int) + cs@.subrange(from as int, cs@.len() as int)
        =~= cs@.subrange(from as int, cs@.len() as int));
    assert(prepend(
        cs@.subrange(from as int, from as int),
        utf8_prefix(cs@.subrange(from as int, cs@.len() as int), n as int),
    ) == utf8_prefix(cs@.subrange(from as int, cs@.len() as int), n as int)) by {
        match utf8_prefix(cs@.subrange(from as int, cs@.len() as int), n as int) {
            Some(p) => {
                assert(cs@.subrange(from as int, from as int) + p =~= p);
            },
            None => {},
        }
    }
    while used < n && i < cs.len()
        invariant
            from <= i <= cs@.len(),
            used <= n,
            utf8_prefix(cs@.subrange(from as int, cs@.len() as int), n as int) == prepend(
                cs@.subrange(from as int, i as int),
                utf8_prefix(cs@.subrange(i as int, cs@.len() as int), n - used),
            ),
        decreases cs.len() - i,
    {
        let w = width(cs[i]);
        let ghost rest = cs@.subrange(i as int, cs@.len() as int);
        let ghost head = cs@.subrange(from as int, i as int);
        assert(rest.drop_first() =~= cs@.subrange(i + 1, cs@.len() as int));
        assert(rest[0] == cs@[i as int]);
        if w > n - used {
            assert(utf8_prefix(rest.drop_first(), n - used - w) is None);
            return None;
        }
        proof {
            let inner = utf8_prefix(rest.drop_first(), n - used - w);
            assert(utf8_prefix(rest, n - used) == prepend(seq![cs@[i as int]], inner));
            match inner {
                Some(p) => {
                    assert(head + (seq![cs@[i as int]] + p) =~= cs@.subrange(from as int, i + 1)
                        + p);
                },
                None => {},
            }
        }
        used = used + w;
        i = i + 1;
    }
    if used == n {
        assert(utf8_prefix(cs@.subrange(i as int, cs@.len() as int), n - used) == Some(
            Seq::<char>::empty(),
        ));
        assert(cs@.subrange(from as int, i as int) + Seq::<char>::empty() =~= cs@.subrange(
            from as int,
            i as int,
        ));
        Some(i)
    } else {
        assert(cs@.subrange(i as int, cs@.len() as int).len() == 0);
        None
    }
}

// ── Ordering strings ──
/// Lexicographic order on character sequences, by code point. This is the
/// order of `str`'s `Ord`, since UTF-8 keeps code point order byte by byte.
pub open spec fn lex_lt(a: Seq<char>, b: Seq<char>) -> bool
    decreases a.len(),
{
    if b.len() == 0 {
        false
    } else if a.len() == 0 {
        true
    } else if a[0] != b[0] {
        a[0] < b[0]
    } else {
        lex_lt(a.drop_first(), b.drop_first())
    }
}

/// `lex_lt` is irreflexive.
pub proof fn lemma_lex_irreflexive(a: Seq<char>)
    ensures
        !lex_lt(a, a),
    decreases a.len(),
{
    if a.len() > 0 {
        lemma_lex_irreflexive(a.drop_first());
    }
}

/// `lex_lt` is asymmetric and total.
pub proof fn lemma_lex_total(a: Seq<char>, b: Seq<char>)
    ensures
        lex_lt(a, b) ==> !lex_lt(b, a),
        a != b ==> lex_lt(a, b) || lex_lt(b, a),
    decreases a.len(),
{
    if a.len() > 0 && b.len() > 0 {
        lemma_lex_total(a.drop_first(), b.drop_first());
        if a[0] == b[0] && a.drop_first() == b.drop_first() {
            assert(a =~= seq![a[0]] + a.drop_first());
            assert(b =~= seq![b[0]] + b.drop_first());
        }
    }
    if a.len() == 0 && b.len() == 0 {
        assert(a =~= b);
    }
}

/// `lex_lt` is transitive.
pub proof fn lemma_lex_transitive(a: Seq<char>, b: Seq<char>, c: Seq<char>)
    ensures
        lex_lt(a, b) && lex_lt(b, c) ==> lex_lt(a, c),
    decreases a.len(),
{
    if a.len() > 0 && b.len() > 0 && c.len() > 0 {
        lemma_lex_transitive(a.drop_first(), b.drop_first(), c.drop_first());
    }
}

/// Whether `a` comes strictly before `b` in lexicographic order.
pub fn lex_less(a: &[char], b: &[char]) -> (r: bool)
    ensures
        r == lex_lt(a@, b@),
{
    let mut i: usize = 0;
    assert(a@.skip(0) =~= a@);
    assert(b@.skip(0) =~= b@);
    while i < a.len() && i < b.len() && a[i] == b[i]
        invariant
            i <= a@.len(),
            i <= b@.len(),
            lex_lt(a@, b@) == lex_lt(a@.skip(i as int), b@.skip(i as int)),
        decreases a.len() - i,
    {
        assert(a@.skip(i as int).drop_first() =~= a@.skip(i + 1));
        assert(b@.skip(i as int).drop_first() =~= b@.skip(i + 1));
        i += 1;
    }
    if i == b.len() {
        false
    } else if i == a.len() {
        true
    } else {
        a[i] < b[i]
    }
}

/// Whether the string slice `a` comes strictly before `b`.
pub fn str_less(a: &str, b: &str) -> (r: bool)
    ensures
        r == lex_lt(a@, b@),
{
    let x = chars_of(a);
    let y = chars_of(b);
    lex_less(x.as_slice(), y.as_slice())
}

// ── Splitting ──
/// The pieces of `s` between the characters of `seps`, continuing a piece
/// that already holds `cur`.
pub open spec fn split_acc(s: Seq<char>, seps: Seq<char>, cur: Seq<char>) -> Seq<Seq<char>>
    decreases s.len(),
{
    if s.len() == 0 {
        seq![cur]
    } else if seps.contains(s[0]) {
        seq![cur] + split_acc(s.drop_first(), seps, seq![])
    } else {
        split_acc(s.drop_first(), seps, cur.push(s[0]))
    }
}

/// The pieces of `s` between occurrences of any character of `seps`, empty
/// pieces included, as `str::split` gives them.
pub open spec fn split(s: Seq<char>, seps: Seq<char>) -> Seq<Seq<char>> {
    split_acc(s, seps, seq![])
}

/// The character sequences that index ranges pick out of `cs`.
pub open spec fn slices(cs: Seq<char>, rs: Seq<(usize, usize)>) -> Seq<Seq<char>> {
    Seq::new(rs.len(), |k: int| cs.subrange(rs[k].0 as int, rs[k].1 as int))
}

/// Whether every range of `rs` lies inside `from..to`.
pub open spec fn ranges_within(rs: Seq<(usize, usize)>, from: int, to: int) -> bool {
    forall|k: int| 0 <= k < rs.len() ==> from <= #[trigger] rs[k].0 <= rs[k].1 <= to
}

fn is_sep(seps: &[char], c: char) -> (r: bool)
    ensures
        r == seps@.contains(c),
{
    let mut k: usize = 0;
    while k < seps.len()
        invariant
            k <= seps@.len(),
            forall|m: int| 0 <= m < k ==> seps@[m] != c,
        decreases seps.len() - k,
    {
        if seps[k] == c {
            return true;
        }
        k += 1;
    }
    false
}

/// The ranges of the pieces of `cs[from..to]` between the characters of `seps`.
pub fn split_ranges(cs: &[char], from: usize, to: usize, seps: &[char]) -> (r: Vec<(usize, usize)>)
    requires
        from <= to <= cs@.len(),
    ensures
        ranges_within(r@, from as int, to as int),
        slices(cs@, r@) == split(cs@.subrange(from as int, to as int), seps@),
{
    let mut out: Vec<(usize, usize)> = Vec::new();
    let mut start = from;
    let mut i = from;
    assert(slices(cs@, out@) =~= Seq::<Seq<char>>::empty());
    assert(cs@.subrange(from as int, from as int) =~= Seq::<char>::empty());
    assert(Seq::<Seq<char>>::empty() + split(cs@.subrange(from as int, to as int), seps@) =~= split(
        cs@.subrange(from as int, to as int),
        seps@,
    ));
    while i < to
        invariant
            from <= start <= i <= to <= cs@.len(),
            ranges_within(out@, from as int, to as int),
            slices(cs@, out@) + split_acc(
                cs@.subrange(i as int, to as int),
                seps@,
                cs@.subrange(start as int, i as int),
            ) == split(cs@.subrange(from as int, to as int), seps@),
        decreases to - i,
    {
        let ghost s = cs@.subrange(i as int, to as int);
        let ghost cur = cs@.subrange(start as int, i as int);
        assert(s.drop_first() =~= cs@.subrange(i + 1, to as int));
        assert(s[0] == cs@[i as int]);
        if is_sep(seps, cs[i]) {
            let ghost old_out = out@;
            out.push((start, i));
            assert(slices(cs@, out@) =~= slices(cs@, old_out) + seq![cur]);
            assert(cs@.subrange(i + 1, i + 1) =~= Seq::<char>::empty());
            assert(slices(cs@, out@) + split_acc(cs@.subrange(i + 1, to as int), seps@, seq![])
                =~= slices(cs@, old_out) + (seq![cur] + split_acc(
                cs@.subrange(i + 1, to as int),
                seps@,
                seq![],
            )));
            start = i + 1;
        } else {
            assert(cur.push(cs@[i as int]) =~= cs@.subrange(start as int, i + 1));
        }
        i += 1;
    }
    let ghost old_out = out@;
    out.push((start, to));
    assert(slices(cs@, out@) =~= slices(cs@, old_out) + seq![cs@.subrange(start as int, to as int)]);
    assert(cs@.subrange(to as int, to as int).len() == 0);
    out
}

/// The numbers that the pieces picked out by `rs` hold, skipping the pieces that
/// do not parse, as `filter_map(|s| s.parse().ok())` gives them.
pub fn parse_pieces(cs: &[char], rs: &Vec<(usize, usize)>) -> (r: Vec<u64>)
    requires
        ranges_within(rs@, 0, cs@.len() as int),
    ensures
        r@ == slices(cs@, rs@).filter_map(|p: Seq<char>| parse_u64_spec(p)),
{
    let mut out: Vec<u64> = Vec::new();
    let mut k: usize = 0;
    while k < rs.len()
        invariant
            k <= rs@.len(),
            ranges_within(rs@, 0, cs@.len() as int),
            out@ == slices(cs@, rs@).take(k as int).filter_map(|p: Seq<char>| parse_u64_spec(p)),
        decreases rs.len() - k,
    {
        let (a, b) = rs[k];
        assert(0 <= rs@[k as int].0 <= rs@[k as int].1 <= cs@.len());
        let v = parse_u64(cs, a, b);
        assert(slices(cs@, rs@).take(k + 1).drop_last() =~= slices(cs@, rs@).take(k as int));
        assert(slices(cs@, rs@).take(k + 1).last() == cs@.subrange(a as int, b as int));
        match v {
            Some(n) => {
                out.push(n);
            },
            None => {},
        }
        k += 1;
    }
    assert(slices(cs@, rs@).take(rs@.len() as int) =~= slices(cs@, rs@));
    out
}

// ── Lines ──
/// `l` without one trailing carriage return.
pub open spec fn strip_cr(l: Seq<char>) -> Seq<char> {
    if l.len() > 0 && l.last() == '\r' {
        l.drop_last()
    } else {
        l
    }
}

/// The lines of `s`, continuing a line that already holds `cur`.
pub open spec fn lines_acc(s: Seq<char>, cur: Seq<char>) -> Seq<Seq<char>>
    decreases s.len(),
{
    if s.len() == 0 {
        if cur.len() == 0 {
            seq![]
        } else {
            seq![cur]
        }
    } else if s[0] == '\n' {
        seq![strip_cr(cur)] + lines_acc(s.drop_first(), seq![])
    } else {
        lines_acc(s.drop_first(), cur.push(s[0]))
    }
}

/// The lines of `s` as `str::lines` gives them: split at `'\n'`, a `'\r'`
/// before the `'\n'` dropped, and no empty line after a final `'\n'`.
pub open spec fn lines(s: Seq<char>) -> Seq<Seq<char>> {
    lines_acc(s, seq![])
}

/// The ranges of the lines of `cs`.
pub fn line_ranges(cs: &[char]) -> (r: Vec<(usize, usize)>)
    ensures
        ranges_within(r@, 0, cs@.len() as int),
        slices(cs@, r@) == lines(cs@),
{
    let mut out: Vec<(usize, usize)> = Vec::new();
    let mut start: usize = 0;
    let mut i: usize = 0;
    assert(cs@.subrange(0, cs@.len() as int) =~= cs@);
    assert(slices(cs@, out@) =~= Seq::<Seq<char>>::empty());
    assert(cs@.subrange(0, 0) =~= Seq::<char>::empty());
    assert(Seq::<Seq<char>>::empty() + lines(cs@) =~= lines(cs@));
    while i < cs.len()
        invariant
            start <= i <= cs@.len(),
            ranges_within(out@, 0, cs@.len() as int),
            slices(cs@, out@) + lines_acc(
                cs@.subrange(i as int, cs@.len() as int),
                cs@.subrange(start as int, i as int),
            ) == lines(cs@),
        decreases cs.len() - i,
    {
        let ghost s = cs@.subrange(i as int, cs@.len() as int);
        let ghost cur = cs@.subrange(start as int, i as int);
        assert(s.drop_first() =~= cs@.subrange(i + 1, cs@.len() as int));
        assert(s[0] == cs@[i as int]);
        if cs[i] == '\n' {
            let ghost old_out = out@;
            let end = if i > start && cs[i - 1] == '\r' {
                i - 1
            } else {
                i
            };
            assert(cs@.subrange(start as int, end as int) =~= strip_cr(cur));
            out.push((start, end));
            assert(slices(cs@, out@) =~= slices(cs@, old_out) + seq![strip_cr(cur)]);
            assert(cs@.subrange(i + 1, i + 1) =~= Seq::<char>::empty());
            assert(slices(cs@, out@) + lines_acc(cs@.subrange(i + 1, cs@.len() as int), seq![])
                =~= slices(cs@, old_out) + (seq![strip_cr(cur)] + lines_acc(
                cs@.subrange(i + 1, cs@.len() as int),
                seq![],
            )));
            start = i + 1;
        } else {
            assert(cur.push(cs@[i as int]) =~= cs@.subrange(start as int, i + 1));
        }
        i += 1;
    }
    if start < cs.len() {
        let ghost old_out = out@;
        out.push((start, cs.len()));
        assert(slices(cs@, out@) =~= slices(cs@, old_out) + seq![
            cs@.subrange(start as int, cs@.len() as int),
        ]);
    } else {
        assert(slices(cs@, out@) + Seq::<Seq<char>>::empty() =~= slices(cs@, out@));
    }
    out
}

} // verus!
