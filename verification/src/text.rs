//! Character-level text primitives shared by the whole crate.
//!
//! Every function here is specified over `Seq<char>`, the mathematical view of
//! a string, so that contracts elsewhere can speak about text directly.
use vstd::prelude::*;

verus! {

/// Appends one character to a string.
///
/// Trusted: wraps `String::push`, which is documented to append the given
/// character to the end of the string and change nothing else.
#[verifier::external_body]
fn push_char(s: &mut String, c: char)
    ensures
        final(s)@ == old(s)@.push(c),
{
    s.push(c);
}

/// The characters of `s`, in order.
pub fn to_chars(s: &str) -> (v: Vec<char>)
    ensures
        v@ == s@,
{
    let mut v: Vec<char> = Vec::new();
    let chars = s.chars();
    for c in it: chars
        invariant
            it.seq() == s@,
            v@ == it.seq().take(it.index()),
    {
        v.push(c);
    }
    v
}

/// The string spelled by the characters `v[from..to]`.
pub fn from_chars(v: &Vec<char>, from: usize, to: usize) -> (s: String)
    requires
        from <= to <= v.len(),
    ensures
        s@ == v@.subrange(from as int, to as int),
{
    let mut s = String::new();
    let mut i: usize = from;
    while i < to
        invariant
            from <= i <= to <= v.len(),
            s@ == v@.subrange(from as int, i as int),
        decreases to - i,
    {
        push_char(&mut s, v[i]);
        i += 1;
    }
    s
}

/// The string spelled by all of `v`.
pub fn string_of(v: &Vec<char>) -> (s: String)
    ensures
        s@ == v@,
{
    let s = from_chars(v, 0, v.len());
    s
}

/// Copies the characters of `s` onto the end of `dst`.
pub fn push_str_chars(dst: &mut Vec<char>, s: &str)
    ensures
        final(dst)@ == old(dst)@ + s@,
{
    let chars = to_chars(s);
    extend_chars(dst, &chars, 0);
}

/// `a`, then the character `sep`, then `b`.
pub fn join_with(a: &str, sep: char, b: &str) -> (s: String)
    ensures
        s@ == a@ + seq![sep] + b@,
{
    let mut v: Vec<char> = Vec::new();
    push_str_chars(&mut v, a);
    v.push(sep);
    push_str_chars(&mut v, b);
    string_of(&v)
}

/// Whether two strings spell the same text.
pub fn same_text(a: &str, b: &str) -> (r: bool)
    ensures
        r == (a@ == b@),
{
    let x = to_chars(a);
    let y = to_chars(b);
    if x.len() != y.len() {
        return false;
    }
    let mut i: usize = 0;
    while i < x.len()
        invariant
            i <= x.len(),
            x.len() == y.len(),
            x@ == a@,
            y@ == b@,
            forall|k: int| 0 <= k < i ==> x@[k] == y@[k],
        decreases x.len() - i,
    {
        if x[i] != y[i] {
            return false;
        }
        i += 1;
    }
    assert(x@ =~= y@);
    true
}

/// Copies the characters `src[from..]` onto the end of `dst`.
pub fn extend_chars(dst: &mut Vec<char>, src: &Vec<char>, from: usize)
    requires
        from <= src.len(),
    ensures
        final(dst)@ == old(dst)@ + src@.skip(from as int),
{
    let mut i: usize = from;
    while i < src.len()
        invariant
            from <= i <= src.len(),
            dst@ == old(dst)@ + src@.subrange(from as int, i as int),
        decreases src.len() - i,
    {
        dst.push(src[i]);
        i += 1;
    }
}

/// Whether `pat` occurs in `s` starting at position `at`.
pub fn matches_at(s: &Vec<char>, at: usize, pat: &Vec<char>) -> (r: bool)
    requires
        at <= s.len(),
    ensures
        r == pat@.is_prefix_of(s@.skip(at as int)),
{
    if pat.len() > s.len() - at {
        return false;
    }
    let ghost rest = s@.skip(at as int);
    let mut j: usize = 0;
    while j < pat.len()
        invariant
            at <= s.len(),
            pat.len() <= s.len() - at,
            j <= pat.len(),
            rest == s@.skip(at as int),
            forall|k: int| 0 <= k < j ==> pat@[k] == rest[k],
        decreases pat.len() - j,
    {
        if pat[j] != s[at + j] {
            return false;
        }
        j += 1;
    }
    true
}

/// Whether `pat` occurs somewhere in `s`.
pub open spec fn is_substring(pat: Seq<char>, s: Seq<char>) -> bool {
    exists|i: int| 0 <= i <= s.len() && pat.is_prefix_of(#[trigger] s.skip(i))
}

/// Whether `pat` occurs somewhere in `s`.
pub fn contains(s: &Vec<char>, pat: &Vec<char>) -> (r: bool)
    ensures
        r == is_substring(pat@, s@),
{
    let mut i: usize = 0;
    while i < s.len()
        invariant
            i <= s.len(),
            forall|k: int| 0 <= k < i ==> !pat@.is_prefix_of(#[trigger] s@.skip(k)),
        decreases s.len() - i,
    {
        if matches_at(s, i, pat) {
            return true;
        }
        i += 1;
    }
    matches_at(s, i, pat)
}

/// Whether `s` begins with `pat`.
pub fn starts_with(s: &Vec<char>, pat: &Vec<char>) -> (r: bool)
    ensures
        r == pat@.is_prefix_of(s@),
{
    matches_at(s, 0, pat)
}

/// The value of `c` read as a digit: `0`-`9`, then `a`-`z` or `A`-`Z` for ten
/// and above. Any other character gets 36, which is a digit in no radix.
pub open spec fn digit_value(c: char) -> int {
    if '0' <= c <= '9' {
        c as int - '0' as int
    } else if 'a' <= c <= 'z' {
        c as int - 'a' as int + 10
    } else if 'A' <= c <= 'Z' {
        c as int - 'A' as int + 10
    } else {
        36
    }
}

/// Whether every character of `s` is a digit in the given radix.
pub open spec fn all_digits(s: Seq<char>, radix: int) -> bool {
    forall|i: int| 0 <= i < s.len() ==> digit_value(#[trigger] s[i]) < radix
}

/// The number that the digits of `s` spell, most significant first.
pub open spec fn digits_value(s: Seq<char>, radix: int) -> int
    decreases s.len(),
{
    if s.len() == 0 {
        0
    } else {
        digits_value(s.drop_last(), radix) * radix + digit_value(s.last())
    }
}

/// The integer that `s` spells: an optional `+` or `-`, then at least one
/// digit and nothing else. There is no bound on the size of the result.
pub open spec fn parse_int(s: Seq<char>, radix: int) -> Option<int> {
    let negative = s.len() > 0 && s[0] == '-';
    let signed = s.len() > 0 && (s[0] == '-' || s[0] == '+');
    let body = if signed {
        s.skip(1)
    } else {
        s
    };
    if body.len() == 0 || !all_digits(body, radix) {
        None
    } else if negative {
        Some(-digits_value(body, radix))
    } else {
        Some(digits_value(body, radix))
    }
}

/// The signed 64-bit integer that `s` spells, if it spells one that fits.
pub open spec fn parse_i64(s: Seq<char>, radix: int) -> Option<i64> {
    match parse_int(s, radix) {
        Some(v) => if i64::MIN <= v <= i64::MAX {
            Some(v as i64)
        } else {
            None
        },
        None => None,
    }
}

/// A number never gets smaller when more digits follow it.
pub proof fn lemma_digits_value_grows(s: Seq<char>, radix: int, k: int)
    requires
        radix >= 1,
        0 <= k <= s.len(),
    ensures
        0 <= digits_value(s.take(k), radix) <= digits_value(s, radix),
    decreases s.len(),
{
    if k == s.len() {
        assert(s.take(k) =~= s);
        if s.len() > 0 {
            lemma_digits_value_grows(s.drop_last(), radix, k - 1);
            assert(s.drop_last().take(k - 1) =~= s.drop_last());
            assert(digits_value(s.drop_last(), radix) * radix >= 0) by (nonlinear_arith)
                requires
                    digits_value(s.drop_last(), radix) >= 0,
                    radix >= 1,
            ;
        }
    } else {
        lemma_digits_value_grows(s.drop_last(), radix, k);
        assert(s.drop_last().take(k) =~= s.take(k));
        assert(digits_value(s.drop_last(), radix) * radix >= digits_value(s.drop_last(), radix))
            by (nonlinear_arith)
            requires
                digits_value(s.drop_last(), radix) >= 0,
                radix >= 1,
        ;
    }
}

/// The digit value of one character.
pub fn digit_of(c: char) -> (d: u32)
    ensures
        d == digit_value(c),
{
    if '0' <= c && c <= '9' {
        c as u32 - '0' as u32
    } else if 'a' <= c && c <= 'z' {
        c as u32 - 'a' as u32 + 10
    } else if 'A' <= c && c <= 'Z' {
        c as u32 - 'A' as u32 + 10
    } else {
        36
    }
}

/// Reads the characters `s[from..]` as a signed 64-bit integer in the given
/// radix.
#[verifier::loop_isolation(false)]
pub fn read_i64(s: &Vec<char>, from: usize, radix: u32) -> (r: Option<i64>)
    requires
        from <= s.len(),
        2 <= radix <= 36,
    ensures
        r == parse_i64(s@.skip(from as int), radix as int),
{
    let n = s.len();
    let ghost text = s@.skip(from as int);
    if from >= n {
        return None;
    }
    let first = s[from];
    let negative = first == '-';
    let start: usize = if first == '-' || first == '+' {
        from + 1
    } else {
        from
    };
    let ghost body = s@.skip(start as int);
    assert(body =~= if start > from {
        text.skip(1)
    } else {
        text
    });
    if start >= n {
        return None;
    }
    let limit: u64 = if negative {
        0x8000_0000_0000_0000
    } else {
        0x7fff_ffff_ffff_ffff
    };
    let mut acc: u64 = 0;
    let mut i: usize = start;
    while i < n
        invariant
            start <= i <= n,
            n == s.len(),
            2 <= radix <= 36,
            body == s@.skip(start as int),
            all_digits(body.take(i - start), radix as int),
            acc == digits_value(body.take(i - start), radix as int),
            acc <= limit,
            limit <= 0x8000_0000_0000_0000,
        decreases n - i,
    {
        let d = digit_of(s[i]);
        let ghost seen = body.take(i - start + 1);
        assert(seen.drop_last() =~= body.take(i - start));
        assert(seen.last() == s@[i as int]);
        if d >= radix {
            return None;
        }
        assert(acc * radix <= 0x8000_0000_0000_0000 * 36) by (nonlinear_arith)
            requires
                acc <= 0x8000_0000_0000_0000,
                radix <= 36,
        ;
        let next: u128 = acc as u128 * radix as u128 + d as u128;
        if next > limit as u128 {
            proof {
                if all_digits(body, radix as int) {
                    lemma_digits_value_grows(body, radix as int, i - start + 1);
                }
            }
            return None;
        }
        acc = next as u64;
        i += 1;
        assert forall|k: int| 0 <= k < seen.len() implies digit_value(#[trigger] seen[k])
            < radix by {
        }
    }
    assert(body.take(i - start) =~= body);
    if negative {
        if acc == 0x8000_0000_0000_0000 {
            Some(i64::MIN)
        } else {
            Some(-(acc as i64))
        }
    } else {
        Some(acc as i64)
    }
}

/// The character that writes the digit `d`, for `d` below ten.
pub open spec fn digit_char(d: int) -> char {
    (d + '0' as int) as char
}

/// The decimal digits of a natural number, without leading zeros.
pub open spec fn decimal_nat(n: nat) -> Seq<char>
    decreases n,
{
    if n < 10 {
        seq![digit_char(n as int)]
    } else {
        decimal_nat(n / 10).push(digit_char((n % 10) as int))
    }
}

/// The decimal spelling of an integer: a `-` for a negative one, then its
/// digits.
pub open spec fn decimal(i: int) -> Seq<char> {
    if i < 0 {
        seq!['-'] + decimal_nat((-i) as nat)
    } else {
        decimal_nat(i as nat)
    }
}

/// The character for one decimal digit.
pub fn digit_to_char(d: u8) -> (c: char)
    requires
        d < 10,
    ensures
        c == digit_char(d as int),
{
    (d + 48) as char
}

/// Appends the decimal digits of `m` to `out`.
pub fn push_decimal_nat(out: &mut Vec<char>, m: u64)
    ensures
        final(out)@ == old(out)@ + decimal_nat(m as nat),
{
    let mut low: Vec<char> = Vec::new();
    let mut cur: u64 = m;
    while cur >= 10
        invariant
            decimal_nat(m as nat) == decimal_nat(cur as nat) + low@.reverse(),
        decreases cur,
    {
        let c = digit_to_char((cur % 10) as u8);
        low.push(c);
        cur = cur / 10;
    }
    out.push(digit_to_char(cur as u8));
    let mut k: usize = low.len();
    while k > 0
        invariant
            k <= low.len(),
            out@ == old(out)@ + decimal_nat(cur as nat) + low@.reverse().take(low.len() - k),
        decreases k,
    {
        k -= 1;
        out.push(low[k]);
    }
}

/// The decimal spelling of `i`.
pub fn decimal_chars(i: i64) -> (v: Vec<char>)
    ensures
        v@ == decimal(i as int),
{
    let mut v: Vec<char> = Vec::new();
    if i < 0 {
        v.push('-');
        let m: u64 = if i == i64::MIN {
            0x8000_0000_0000_0000
        } else {
            (-i) as u64
        };
        push_decimal_nat(&mut v, m);
    } else {
        push_decimal_nat(&mut v, i as u64);
    }
    v
}

/// The digits of a natural number are decimal digits that spell it.
pub proof fn lemma_decimal_nat_reads_back(n: nat)
    ensures
        decimal_nat(n).len() > 0,
        all_digits(decimal_nat(n), 10),
        digits_value(decimal_nat(n), 10) == n,
    decreases n,
{
    let s = decimal_nat(n);
    if n < 10 {
        assert(s.drop_last() =~= Seq::<char>::empty());
        assert(digits_value(s.drop_last(), 10) == 0);
        assert(s.last() == digit_char(n as int));
    } else {
        lemma_decimal_nat_reads_back(n / 10);
        let head = decimal_nat(n / 10);
        assert(s.drop_last() =~= head);
        assert(s.last() == digit_char((n % 10) as int));
        assert forall|i: int| 0 <= i < s.len() implies digit_value(#[trigger] s[i]) < 10 by {
            if i < head.len() {
                assert(s[i] == head[i]);
            }
        }
    }
}

/// What is written in decimal reads back as the number that was written.
pub proof fn lemma_decimal_reads_back(n: i64)
    ensures
        parse_i64(decimal(n as int), 10) == Some(n),
{
    let s = decimal(n as int);
    if n < 0 {
        let body = decimal_nat((-n) as nat);
        lemma_decimal_nat_reads_back((-n) as nat);
        assert(s[0] == '-');
        assert(s.skip(1) =~= body);
    } else {
        lemma_decimal_nat_reads_back(n as nat);
        assert(digit_value(s[0]) < 10);
    }
}

} // verus!
