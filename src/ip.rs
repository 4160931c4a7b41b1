use vstd::prelude::*;
use crate::text::char_vec;

verus! {

pub open spec fn is_digit(c: char) -> bool {
    '0' <= c && c <= '9'
}

pub open spec fn is_hex(c: char) -> bool {
    is_digit(c) || ('a' <= c && c <= 'f') || ('A' <= c && c <= 'F')
}

/// The number written by a run of decimal digits.
pub open spec fn digits_value(d: Seq<char>) -> nat
    decreases d.len(),
{
    if d.len() == 0 {
        0
    } else {
        digits_value(d.drop_last()) * 10 + ((d.last() as u32) - ('0' as u32)) as nat
    }
}

/// Whether `p` reads as an unsigned 8-bit integer in the way `u8::from_str`
/// reads it: an optional `+`, then at least one decimal digit, at most 255.
pub open spec fn parses_u8(p: Seq<char>) -> bool {
    is_small_decimal(without_plus(p))
}

/// `p` without one leading `+`, if it has one.
pub open spec fn without_plus(p: Seq<char>) -> Seq<char> {
    if p.len() > 0 && p[0] == '+' {
        p.drop_first()
    } else {
        p
    }
}

/// A non-empty run of decimal digits whose value is at most 255.
pub open spec fn is_small_decimal(d: Seq<char>) -> bool {
    d.len() > 0 && (forall|i: int| 0 <= i < d.len() ==> is_digit(#[trigger] d[i]))
        && digits_value(d) <= 255
}

/// The end of the `.`-separated field of `s` that starts at `i`.
pub open spec fn field_end(s: Seq<char>, i: int) -> int
    decreases s.len() - i,
{
    if i >= s.len() || s[i] == '.' {
        i
    } else {
        field_end(s, i + 1)
    }
}

/// How many `.`-separated fields `s` has from the field starting at `i` on.
pub open spec fn field_count(s: Seq<char>, i: int) -> nat
    decreases s.len() - i,
{
    let e = field_end(s, i);
    if 0 <= i && i <= e && e < s.len() {
        1 + field_count(s, e + 1)
    } else {
        1
    }
}

/// Whether every `.`-separated field of `s` from position `i` on reads as a `u8`.
pub open spec fn fields_are_u8(s: Seq<char>, i: int) -> bool
    decreases s.len() - i,
{
    let e = field_end(s, i);
    0 <= i <= e <= s.len() && parses_u8(s.subrange(i, e)) && (e < s.len() ==> fields_are_u8(
        s,
        e + 1,
    ))
}

/// The permissive IPv6 form: at least one `:`, and nothing but hex digits and `:`.
pub open spec fn is_ipv6_like(s: Seq<char>) -> bool {
    (exists|i: int| 0 <= i < s.len() && s[i] == ':') && (forall|i: int|
        0 <= i < s.len() ==> is_hex(#[trigger] s[i]) || s[i] == ':')
}

/// The address check: four `.`-separated fields that each read as a `u8`;
/// otherwise the permissive IPv6 form.
pub open spec fn valid_ip(s: Seq<char>) -> bool {
    if field_count(s, 0) == 4 {
        fields_are_u8(s, 0)
    } else {
        is_ipv6_like(s)
    }
}

pub(crate) proof fn lemma_field_end_bounds(s: Seq<char>, i: int)
    requires
        0 <= i <= s.len(),
    ensures
        i <= field_end(s, i) <= s.len(),
        field_end(s, i) < s.len() ==> s[field_end(s, i)] == '.',
        forall|k: int| i <= k < field_end(s, i) ==> s[k] != '.',
    decreases s.len() - i,
{
    if i < s.len() && s[i] != '.' {
        lemma_field_end_bounds(s, i + 1);
    }
}

/// Whether `s[lo..hi]` reads as a `u8`.
fn octet_ok(s: &Vec<char>, lo: usize, hi: usize) -> (r: bool)
    requires
        lo <= hi <= s@.len(),
    ensures
        r == parses_u8(s@.subrange(lo as int, hi as int)),
{
    let ghost p = s@.subrange(lo as int, hi as int);
    let mut start = lo;
    if lo < hi && s[lo] == '+' {
        start = lo + 1;
    }
    let ghost d = s@.subrange(start as int, hi as int);
    assert(d == without_plus(p));
    if start == hi {
        return false;
    }
    let mut acc: u32 = 0;
    let mut k: usize = start;
    while k < hi
        invariant
            start <= k <= hi <= s@.len(),
            d == s@.subrange(start as int, hi as int),
            p == s@.subrange(lo as int, hi as int),
            d == without_plus(p),
            forall|j: int| 0 <= j < k - start ==> is_digit(#[trigger] d[j]),
            acc as nat == if digits_value(d.take(k - start)) < 256 {
                digits_value(d.take(k - start))
            } else {
                256
            },
        decreases hi - k,
    {
        let c = s[k];
        if !('0' <= c && c <= '9') {
            assert(!is_digit(d[k - start]));
            return false;
        }
        let ghost before = d.take(k - start);
        assert(d.take(k - start + 1).drop_last() == before);
        let dg = (c as u32) - ('0' as u32);
        let next = acc * 10 + dg;
        acc = if next > 256 { 256 } else { next };
        k = k + 1;
    }
    assert(d.take(hi - start) == d);
    acc <= 255
}

/// Whether `ip` is accepted as an address: four `.`-separated fields that each
/// read as a `u8`, or else a token holding `:` and nothing but hex digits and `:`.
pub fn is_valid_ip(ip: &str) -> (r: bool)
    ensures
        r == valid_ip(ip@),
{
    let s = char_vec(ip);
    let n = s.len();
    let mut i: usize = 0;
    let mut count: usize = 0;
    let mut all_ok = true;
    loop
        invariant
            s@ == ip@,
            n == s@.len(),
            0 <= i <= n,
            count < 4,
            field_count(s@, 0) == count + field_count(s@, i as int),
            fields_are_u8(s@, 0) == (all_ok && fields_are_u8(s@, i as int)),
        decreases n - i,
    {
        proof {
            lemma_field_end_bounds(s@, i as int);
        }
        let mut e = i;
        while e < n && s[e] != '.'
            invariant
                i <= e <= n,
                n == s@.len(),
                field_end(s@, e as int) == field_end(s@, i as int),
            decreases n - e,
        {
            e = e + 1;
        }
        let ok = octet_ok(&s, i, e);
        all_ok = all_ok && ok;
        count = count + 1;
        if e == n {
            if count == 4 {
                return all_ok;
            } else {
                return is_ipv6_chars(&s);
            }
        }
        if count == 4 {
            proof {
                lemma_field_count_positive(s@, e as int + 1);
            }
            return is_ipv6_chars(&s);
        }
        i = e + 1;
    }
}

proof fn lemma_field_count_positive(s: Seq<char>, i: int)
    ensures
        field_count(s, i) >= 1,
    decreases s.len() - i,
{
    let e = field_end(s, i);
    if 0 <= i && i <= e && e < s.len() {
        lemma_field_count_positive(s, e + 1);
    }
}

fn is_ipv6_chars(s: &Vec<char>) -> (r: bool)
    ensures
        r == is_ipv6_like(s@),
{
    let mut colon = false;
    let mut k: usize = 0;
    while k < s.len()
        invariant
            0 <= k <= s@.len(),
            colon == exists|j: int| 0 <= j < k && s@[j] == ':',
            forall|j: int| 0 <= j < k ==> is_hex(#[trigger] s@[j]) || s@[j] == ':',
        decreases s@.len() - k,
    {
        let c = s[k];
        if c == ':' {
            colon = true;
        } else if !(('0' <= c && c <= '9') || ('a' <= c && c <= 'f') || ('A' <= c && c <= 'F')) {
            return false;
        }
        k = k + 1;
    }
    colon
}

} // verus!
