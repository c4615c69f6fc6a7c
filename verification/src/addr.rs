//! Network addresses as the registry stores them: the textual form
//! `a.b.c.d:port`, parsed into a structured value.
//!
//! The grammar is IPv4 only. A registry value holding any other form of
//! endpoint — in particular a bracketed IPv6 literal such as
//! `[::1]:80` — does not parse, and the watcher therefore drops that
//! key as malformed rather than routing to it.
use vstd::prelude::*;

verus! {

/// A parsed IPv4 socket address: four octets and a port.
#[derive(Clone, Copy, PartialEq, Eq, Structural, Debug)]
pub struct Address {
    pub a: u8,
    pub b: u8,
    pub c: u8,
    pub d: u8,
    pub port: u16,
}

pub open spec fn is_digit(c: u8) -> bool {
    48 <= c <= 57
}

/// Value of a run of decimal digits, most significant first.
pub open spec fn dec_val(s: Seq<u8>) -> int
    decreases s.len(),
{
    if s.len() == 0 {
        0
    } else {
        dec_val(s.drop_last()) * 10 + (s.last() - 48)
    }
}

pub open spec fn all_digits(s: Seq<u8>) -> bool {
    forall|i: int| 0 <= i < s.len() ==> is_digit(#[trigger] s[i])
}

/// One octet of a dotted quad: one to three digits, value at most 255,
/// no leading zero except for "0" itself.
pub open spec fn is_octet_text(s: Seq<u8>) -> bool {
    &&& 1 <= s.len() <= 3
    &&& all_digits(s)
    &&& dec_val(s) <= 255
    &&& (s.len() == 1 || s[0] != 48)
}

/// A port: one to five digits, value at most 65535.
pub open spec fn is_port_text(s: Seq<u8>) -> bool {
    &&& 1 <= s.len() <= 5
    &&& all_digits(s)
    &&& dec_val(s) <= 65535
}

/// First position at or after `from` holding `sep`; `s.len()` if none does.
pub open spec fn seek(s: Seq<u8>, from: int, sep: u8) -> int
    decreases s.len() - from,
{
    if from < 0 || from >= s.len() {
        s.len() as int
    } else if s[from] == sep {
        from
    } else {
        seek(s, from + 1, sep)
    }
}

/// The text splits at its first three dots and the colon that follows them.
/// Because an octet or a port is made of digits only, a well-formed text
/// can split nowhere else, so scanning for the separators is exact.
pub open spec fn spec_parse_address(s: Seq<u8>) -> Option<Address> {
    let p1 = seek(s, 0, 46);
    let p2 = seek(s, p1 + 1, 46);
    let p3 = seek(s, p2 + 1, 46);
    let pc = seek(s, p3 + 1, 58);
    if pc < s.len() && is_octet_text(s.subrange(0, p1)) && is_octet_text(
        s.subrange(p1 + 1, p2),
    ) && is_octet_text(s.subrange(p2 + 1, p3)) && is_octet_text(s.subrange(p3 + 1, pc))
        && is_port_text(s.subrange(pc + 1, s.len() as int)) {
        Some(
            Address {
                a: dec_val(s.subrange(0, p1)) as u8,
                b: dec_val(s.subrange(p1 + 1, p2)) as u8,
                c: dec_val(s.subrange(p2 + 1, p3)) as u8,
                d: dec_val(s.subrange(p3 + 1, pc)) as u8,
                port: dec_val(s.subrange(pc + 1, s.len() as int)) as u16,
            },
        )
    } else {
        None
    }
}

pub open spec fn ten_pow(n: nat) -> int
    decreases n,
{
    if n == 0 {
        1
    } else {
        10 * ten_pow((n - 1) as nat)
    }
}

proof fn lemma_ten_pow_pos(n: nat)
    ensures
        1 <= ten_pow(n),
    decreases n,
{
    if n > 0 {
        lemma_ten_pow_pos((n - 1) as nat);
    }
}

proof fn lemma_ten_pow_le(m: nat, n: nat)
    requires
        m <= n,
    ensures
        ten_pow(m) <= ten_pow(n),
    decreases n,
{
    if m < n {
        lemma_ten_pow_le(m, (n - 1) as nat);
        lemma_ten_pow_pos((n - 1) as nat);
    }
}

/// A run of digits is below ten to the power of its length.
proof fn lemma_dec_val_bound(s: Seq<u8>)
    requires
        all_digits(s),
    ensures
        0 <= dec_val(s) < ten_pow(s.len()),
    decreases s.len(),
{
    if s.len() > 0 {
        assert(forall|i: int| 0 <= i < s.len() - 1 ==> is_digit(#[trigger] s.drop_last()[i]));
        lemma_dec_val_bound(s.drop_last());
    }
}

/// Find the first occurrence of `sep` in `v` at or after `from`.
fn find_byte(v: &[u8], from: usize, sep: u8) -> (r: usize)
    requires
        from <= v@.len(),
    ensures
        r == seek(v@, from as int, sep),
        from <= r <= v@.len(),
        r < v@.len() ==> v@[r as int] == sep,
{
    let mut i: usize = from;
    while i < v.len()
        invariant
            from <= i <= v@.len(),
            seek(v@, from as int, sep) == seek(v@, i as int, sep),
        decreases v@.len() - i,
    {
        if v[i] == sep {
            return i;
        }
        i += 1;
    }
    i
}

/// Read the decimal value of `v[start..end]`; `None` unless every byte is a
/// digit. The window is short enough that the value fits in `u32`.
fn read_decimal(v: &[u8], start: usize, end: usize) -> (r: Option<u32>)
    requires
        start <= end <= v@.len(),
        end - start <= 5,
    ensures
        match r {
            Some(n) => all_digits(v@.subrange(start as int, end as int)) && n == dec_val(
                v@.subrange(start as int, end as int),
            ),
            None => !all_digits(v@.subrange(start as int, end as int)),
        },
{
    let ghost whole = v@.subrange(start as int, end as int);
    let mut acc: u32 = 0;
    let mut i: usize = start;
    while i < end
        invariant
            start <= i <= end <= v@.len(),
            end - start <= 5,
            whole == v@.subrange(start as int, end as int),
            all_digits(v@.subrange(start as int, i as int)),
            acc == dec_val(v@.subrange(start as int, i as int)),
            acc < ten_pow((i - start) as nat),
        decreases end - i,
    {
        let c = v[i];
        if c < 48 || c > 57 {
            assert(whole[i - start] == c);
            return None;
        }
        proof {
            let prev = v@.subrange(start as int, i as int);
            let cur = v@.subrange(start as int, i + 1);
            assert(cur.drop_last() =~= prev);
            assert(cur.last() == c);
            assert(forall|j: int| 0 <= j < cur.len() ==> is_digit(#[trigger] cur[j]));
            lemma_ten_pow_le((i - start) as nat, 4nat);
            assert(ten_pow(4nat) == 10000) by {
                reveal_with_fuel(ten_pow, 5);
            }
        }
        acc = acc * 10 + (c - 48) as u32;
        i += 1;
    }
    proof {
        assert(whole =~= v@.subrange(start as int, i as int));
    }
    Some(acc)
}

/// Read one octet of the dotted quad from `v[start..end]`.
fn read_octet(v: &[u8], start: usize, end: usize) -> (r: Option<u8>)
    requires
        start <= v@.len(),
        end <= v@.len(),
    ensures
        match r {
            Some(n) => start <= end && is_octet_text(v@.subrange(start as int, end as int))
                && n == dec_val(v@.subrange(start as int, end as int)),
            None => start <= end ==> !is_octet_text(v@.subrange(start as int, end as int)),
        },
{
    if start >= end || end - start > 3 {
        return None;
    }
    let ghost part = v@.subrange(start as int, end as int);
    match read_decimal(v, start, end) {
        None => None,
        Some(n) => {
            if n > 255 {
                None
            } else if end - start > 1 && v[start] == 48 {
                assert(part[0] == 48);
                None
            } else {
                assert(part.len() == 1 || part[0] != 48);
                Some(n as u8)
            }
        },
    }
}

/// Parse the textual form `a.b.c.d:port`. Returns exactly what the
/// grammar in `spec_parse_address` allows, and `None` otherwise.
pub fn parse_address(v: &[u8]) -> (r: Option<Address>)
    ensures
        r == spec_parse_address(v@),
{
    let p1: usize = find_byte(v, 0, 46);
    let p2: usize = if p1 < v.len() {
        find_byte(v, p1 + 1, 46)
    } else {
        v.len()
    };
    let p3: usize = if p2 < v.len() {
        find_byte(v, p2 + 1, 46)
    } else {
        v.len()
    };
    let pc: usize = if p3 < v.len() {
        find_byte(v, p3 + 1, 58)
    } else {
        v.len()
    };
    proof {
        assert(p2 == seek(v@, p1 + 1, 46));
        assert(p3 == seek(v@, p2 + 1, 46));
        assert(pc == seek(v@, p3 + 1, 58));
    }
    if pc >= v.len() {
        return None;
    }
    let o1 = read_octet(v, 0, p1);
    let o2 = read_octet(v, p1 + 1, p2);
    let o3 = read_octet(v, p2 + 1, p3);
    let o4 = read_octet(v, p3 + 1, pc);
    let port_end: usize = v.len();
    if port_end - (pc + 1) > 5 {
        return None;
    }
    let pv = read_decimal(v, pc + 1, port_end);
    match (o1, o2, o3, o4, pv) {
        (Some(a), Some(b), Some(c), Some(d), Some(p)) => {
            if pc + 1 == port_end || p > 65535 {
                return None;
            }
            Some(Address { a, b, c, d, port: p as u16 })
        },
        _ => None,
    }
}

} // verus!
