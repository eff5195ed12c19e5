use vstd::prelude::*;

use crate::text::str_to_chars;

verus! {

/// A parsed IP address: four octets, or eight 16-bit groups.
#[derive(Debug, Clone, Copy, PartialEq, Eq, Structural)]
pub enum IpAddress {
    V4(u8, u8, u8, u8),
    V6(u16, u16, u16, u16, u16, u16, u16, u16),
}

impl IpAddress {
    pub fn is_ipv4(&self) -> (r: bool)
        ensures
            r == self is V4,
    {
        match self {
            IpAddress::V4(..) => true,
            IpAddress::V6(..) => false,
        }
    }

    pub fn is_ipv6(&self) -> (r: bool)
        ensures
            r == self is V6,
    {
        match self {
            IpAddress::V4(..) => false,
            IpAddress::V6(..) => true,
        }
    }
}

pub open spec fn is_dec_digit(c: char) -> bool {
    '0' <= c && c <= '9'
}

pub open spec fn dec_digit_val(c: char) -> int {
    c as u32 - '0' as u32
}

pub open spec fn is_hex_digit(c: char) -> bool {
    is_dec_digit(c) || ('a' <= c && c <= 'f') || ('A' <= c && c <= 'F')
}

pub open spec fn hex_digit_val(c: char) -> int {
    if is_dec_digit(c) {
        dec_digit_val(c)
    } else if 'a' <= c && c <= 'f' {
        c as u32 - 'a' as u32 + 10
    } else {
        c as u32 - 'A' as u32 + 10
    }
}

/// The first index at or after `i` that is not a decimal digit.
pub open spec fn dec_run_end(s: Seq<char>, i: int) -> int
    decreases s.len() - i,
{
    if !(0 <= i < s.len()) {
        i
    } else if is_dec_digit(s[i]) {
        dec_run_end(s, i + 1)
    } else {
        i
    }
}

/// The first index at or after `i` that is not a hexadecimal digit.
pub open spec fn hex_run_end(s: Seq<char>, i: int) -> int
    decreases s.len() - i,
{
    if !(0 <= i < s.len()) {
        i
    } else if is_hex_digit(s[i]) {
        hex_run_end(s, i + 1)
    } else {
        i
    }
}

/// The number a digit sequence denotes in base 10.
pub open spec fn dec_value(s: Seq<char>) -> int
    decreases s.len(),
{
    if s.len() == 0 {
        0
    } else {
        dec_value(s.drop_last()) * 10 + dec_digit_val(s[s.len() - 1])
    }
}

/// The number a digit sequence denotes in base 16.
pub open spec fn hex_value(s: Seq<char>) -> int
    decreases s.len(),
{
    if s.len() == 0 {
        0
    } else {
        hex_value(s.drop_last()) * 16 + hex_digit_val(s[s.len() - 1])
    }
}

/// A dotted-decimal octet read at `i`, as the standard library reads it: the
/// entire digit run must be one to three digits, without a leading zero unless
/// it is the single digit `0`, and denote at most 255.
pub open spec fn spec_octet(s: Seq<char>, i: int) -> Option<(u8, int)> {
    let e = dec_run_end(s, i);
    let n = e - i;
    if 1 <= n <= 3 && !(n > 1 && s[i] == '0') && dec_value(s.subrange(i, e)) <= 255 {
        Some((dec_value(s.subrange(i, e)) as u8, e))
    } else {
        None
    }
}

/// An IPv4 address read at `i`: four octets separated by dots.
pub open spec fn spec_ipv4_at(s: Seq<char>, i: int) -> Option<((u8, u8, u8, u8), int)> {
    match spec_octet(s, i) {
        None => None,
        Some((a, p1)) => if p1 < s.len() && s[p1] == '.' {
            match spec_octet(s, p1 + 1) {
                None => None,
                Some((b, p2)) => if p2 < s.len() && s[p2] == '.' {
                    match spec_octet(s, p2 + 1) {
                        None => None,
                        Some((c, p3)) => if p3 < s.len() && s[p3] == '.' {
                            match spec_octet(s, p3 + 1) {
                                None => None,
                                Some((d, p4)) => Some(((a, b, c, d), p4)),
                            }
                        } else {
                            None
                        },
                    }
                } else {
                    None
                },
            }
        } else {
            None
        },
    }
}

/// A 16-bit group read at `i`: the entire hexadecimal digit run must be one to
/// four digits; leading zeros are allowed.
pub open spec fn spec_hex_group(s: Seq<char>, i: int) -> Option<(int, int)> {
    let e = hex_run_end(s, i);
    let n = e - i;
    if 1 <= n <= 4 {
        Some((hex_value(s.subrange(i, e)), e))
    } else {
        None
    }
}

/// Up to `limit` colon-separated 16-bit groups read at `i`, as the standard
/// library reads them. A group at position `idx > 0` is preceded by one colon.
/// When at least two slots remain, a trailing embedded IPv4 address is tried
/// first and closes the run. Yields the groups, the next position, and whether
/// an embedded IPv4 address ended the run.
pub open spec fn spec_groups(s: Seq<char>, i: int, limit: int, idx: int) -> (Seq<u16>, int, bool)
    decreases limit,
{
    if limit <= 0 {
        (Seq::empty(), i, false)
    } else {
        let j = if idx == 0 {
            i
        } else if i < s.len() && s[i] == ':' {
            i + 1
        } else {
            -1
        };
        if j < 0 {
            (Seq::empty(), i, false)
        } else if limit >= 2 && spec_ipv4_at(s, j) is Some {
            let ((a, b, c, d), k) = spec_ipv4_at(s, j)->0;
            (seq![(a * 256 + b) as u16, (c * 256 + d) as u16], k, true)
        } else {
            match spec_hex_group(s, j) {
                None => (Seq::empty(), i, false),
                Some((g, k)) => {
                    let (rest, p, f) = spec_groups(s, k, limit - 1, idx + 1);
                    (seq![g as u16] + rest, p, f)
                },
            }
        }
    }
}

/// An IPv6 address, as the standard library reads one: up to eight groups; if
/// fewer, a `::` that stands for the elided zero groups, with an optional
/// trailing embedded IPv4 address; the whole input must be consumed.
pub open spec fn spec_ipv6(s: Seq<char>) -> Option<Seq<u16>> {
    let (head, p, head_v4) = spec_groups(s, 0, 8, 0);
    if head.len() == 8 {
        if p == s.len() {
            Some(head)
        } else {
            None
        }
    } else if head_v4 {
        None
    } else if p + 2 <= s.len() && s[p] == ':' && s[p + 1] == ':' {
        let limit = 8 - head.len() - 1;
        let (tail, q, _) = spec_groups(s, p + 2, limit as int, 0);
        if q == s.len() {
            Some(head + Seq::new((8 - head.len() - tail.len()) as nat, |k: int| 0u16) + tail)
        } else {
            None
        }
    } else {
        None
    }
}

fn is_dec_digit_exec(c: char) -> (r: bool)
    ensures
        r == is_dec_digit(c),
{
    '0' <= c && c <= '9'
}

fn is_hex_digit_exec(c: char) -> (r: bool)
    ensures
        r == is_hex_digit(c),
{
    ('0' <= c && c <= '9') || ('a' <= c && c <= 'f') || ('A' <= c && c <= 'F')
}

fn dec_run_end_exec(v: &Vec<char>, i: usize) -> (e: usize)
    requires
        i <= v@.len(),
    ensures
        e as int == dec_run_end(v@, i as int),
        i <= e <= v@.len(),
        forall|k: int| i <= k < e ==> is_dec_digit(v@[k]),
    decreases v@.len() - i,
{
    let mut k = i;
    while k < v.len() && is_dec_digit_exec(v[k])
        invariant
            i <= k <= v@.len(),
            dec_run_end(v@, i as int) == dec_run_end(v@, k as int),
            forall|k2: int| i <= k2 < k ==> is_dec_digit(v@[k2]),
        decreases v@.len() - k,
    {
        k = k + 1;
    }
    k
}

fn hex_run_end_exec(v: &Vec<char>, i: usize) -> (e: usize)
    requires
        i <= v@.len(),
    ensures
        e as int == hex_run_end(v@, i as int),
        i <= e <= v@.len(),
        forall|k: int| i <= k < e ==> is_hex_digit(v@[k]),
    decreases v@.len() - i,
{
    let mut k = i;
    while k < v.len() && is_hex_digit_exec(v[k])
        invariant
            i <= k <= v@.len(),
            hex_run_end(v@, i as int) == hex_run_end(v@, k as int),
            forall|k2: int| i <= k2 < k ==> is_hex_digit(v@[k2]),
        decreases v@.len() - k,
    {
        k = k + 1;
    }
    k
}

proof fn lemma_dec_value_small(s: Seq<char>)
    requires
        forall|k: int| 0 <= k < s.len() ==> is_dec_digit(s[k]),
    ensures
        0 <= dec_value(s),
        s.len() <= 1 ==> dec_value(s) <= 9,
        s.len() <= 2 ==> dec_value(s) <= 99,
        s.len() <= 3 ==> dec_value(s) <= 999,
    decreases s.len(),
{
    if s.len() > 0 {
        lemma_dec_value_small(s.drop_last());
    }
}

proof fn lemma_hex_value_small(s: Seq<char>)
    requires
        forall|k: int| 0 <= k < s.len() ==> is_hex_digit(s[k]),
    ensures
        0 <= hex_value(s),
        s.len() <= 1 ==> hex_value(s) <= 0xf,
        s.len() <= 2 ==> hex_value(s) <= 0xff,
        s.len() <= 3 ==> hex_value(s) <= 0xfff,
        s.len() <= 4 ==> hex_value(s) <= 0xffff,
    decreases s.len(),
{
    if s.len() > 0 {
        lemma_hex_value_small(s.drop_last());
    }
}

fn read_dec(v: &Vec<char>, i: usize, e: usize) -> (val: u16)
    requires
        i <= e <= v@.len(),
        e - i <= 3,
        forall|k: int| i <= k < e ==> is_dec_digit(v@[k]),
    ensures
        val as int == dec_value(v@.subrange(i as int, e as int)),
{
    let mut val: u16 = 0;
    let mut k = i;
    proof {
        assert(v@.subrange(i as int, i as int) =~= Seq::<char>::empty());
    }
    while k < e
        invariant
            i <= k <= e <= v@.len(),
            e - i <= 3,
            forall|k2: int| i <= k2 < e ==> is_dec_digit(v@[k2]),
            val as int == dec_value(v@.subrange(i as int, k as int)),
        decreases e - k,
    {
        proof {
            lemma_dec_value_small(v@.subrange(i as int, k as int));
        }
        let c = v[k];
        let d: u16 = ((c as u32) - 48) as u16;
        val = val * 10 + d;
        proof {
            assert(v@.subrange(i as int, k + 1).drop_last() =~= v@.subrange(i as int, k as int));
            assert(v@.subrange(i as int, k + 1)[k - i] == v@[k as int]);
        }
        k = k + 1;
    }
    val
}

fn read_hex(v: &Vec<char>, i: usize, e: usize) -> (val: u16)
    requires
        i <= e <= v@.len(),
        e - i <= 4,
        forall|k: int| i <= k < e ==> is_hex_digit(v@[k]),
    ensures
        val as int == hex_value(v@.subrange(i as int, e as int)),
{
    let mut val: u16 = 0;
    let mut k = i;
    proof {
        assert(v@.subrange(i as int, i as int) =~= Seq::<char>::empty());
    }
    while k < e
        invariant
            i <= k <= e <= v@.len(),
            e - i <= 4,
            forall|k2: int| i <= k2 < e ==> is_hex_digit(v@[k2]),
            val as int == hex_value(v@.subrange(i as int, k as int)),
        decreases e - k,
    {
        proof {
            lemma_hex_value_small(v@.subrange(i as int, k as int));
        }
        let c = v[k];
        let d: u16 = if '0' <= c && c <= '9' {
            ((c as u32) - 48) as u16
        } else if 'a' <= c && c <= 'f' {
            ((c as u32) - 97 + 10) as u16
        } else {
            ((c as u32) - 65 + 10) as u16
        };
        val = val * 16 + d;
        proof {
            assert(v@.subrange(i as int, k + 1).drop_last() =~= v@.subrange(i as int, k as int));
            assert(v@.subrange(i as int, k + 1)[k - i] == v@[k as int]);
        }
        k = k + 1;
    }
    val
}

fn octet_at(v: &Vec<char>, i: usize) -> (r: Option<(u8, usize)>)
    requires
        i <= v@.len(),
    ensures
        match r {
            Some((b, e)) => spec_octet(v@, i as int) == Some((b, e as int)) && i < e <= v@.len(),
            None => spec_octet(v@, i as int) is None,
        },
{
    let e = dec_run_end_exec(v, i);
    let n = e - i;
    if n < 1 || n > 3 {
        return None;
    }
    if n > 1 && v[i] == '0' {
        return None;
    }
    let val = read_dec(v, i, e);
    if val > 255 {
        return None;
    }
    Some((val as u8, e))
}

fn ipv4_at(v: &Vec<char>, i: usize) -> (r: Option<((u8, u8, u8, u8), usize)>)
    requires
        i <= v@.len(),
    ensures
        match r {
            Some((t, e)) => spec_ipv4_at(v@, i as int) == Some((t, e as int)) && i <= e
                <= v@.len(),
            None => spec_ipv4_at(v@, i as int) is None,
        },
{
    let (a, p1) = match octet_at(v, i) {
        Some(x) => x,
        None => { return None; },
    };
    if !(p1 < v.len() && v[p1] == '.') {
        return None;
    }
    let (b, p2) = match octet_at(v, p1 + 1) {
        Some(x) => x,
        None => { return None; },
    };
    if !(p2 < v.len() && v[p2] == '.') {
        return None;
    }
    let (c, p3) = match octet_at(v, p2 + 1) {
        Some(x) => x,
        None => { return None; },
    };
    if !(p3 < v.len() && v[p3] == '.') {
        return None;
    }
    let (d, p4) = match octet_at(v, p3 + 1) {
        Some(x) => x,
        None => { return None; },
    };
    Some(((a, b, c, d), p4))
}

fn hex_group_at(v: &Vec<char>, i: usize) -> (r: Option<(u16, usize)>)
    requires
        i <= v@.len(),
    ensures
        match r {
            Some((g, e)) => spec_hex_group(v@, i as int) == Some((g as int, e as int)) && i < e
                <= v@.len(),
            None => spec_hex_group(v@, i as int) is None,
        },
{
    let e = hex_run_end_exec(v, i);
    let n = e - i;
    if n < 1 || n > 4 {
        return None;
    }
    let val = read_hex(v, i, e);
    Some((val, e))
}

fn groups_at(v: &Vec<char>, i: usize, limit: usize, idx: usize) -> (r: (Vec<u16>, usize, bool))
    requires
        i <= v@.len(),
        idx + limit <= 16,
    ensures
        ({
            let (gs, p, f) = spec_groups(v@, i as int, limit as int, idx as int);
            &&& r.0@ == gs
            &&& r.1 as int == p
            &&& r.2 == f
            &&& i <= r.1 <= v@.len()
            &&& r.0@.len() <= limit
        }),
    decreases limit,
{
    if limit == 0 {
        return (Vec::new(), i, false);
    }
    let j: usize = if idx == 0 {
        i
    } else if i < v.len() && v[i] == ':' {
        i + 1
    } else {
        return (Vec::new(), i, false);
    };
    if limit >= 2 {
        if let Some((t, k)) = ipv4_at(v, j) {
            let (a, b, c, d) = t;
            let mut gs: Vec<u16> = Vec::new();
            gs.push((a as u16) * 256 + (b as u16));
            gs.push((c as u16) * 256 + (d as u16));
            proof {
                let ((sa, sb, sc, sd), sk) = spec_ipv4_at(v@, j as int)->0;
                assert(gs@ =~= seq![(sa * 256 + sb) as u16, (sc * 256 + sd) as u16]);
            }
            return (gs, k, true);
        }
    }
    match hex_group_at(v, j) {
        None => (Vec::new(), i, false),
        Some((g, k)) => {
            let (mut rest, p, f) = groups_at(v, k, limit - 1, idx + 1);
            let ghost oldrest = rest@;
            rest.insert(0, g);
            proof {
                assert(rest@ =~= seq![g] + oldrest);
            }
            (rest, p, f)
        },
    }
}

fn ipv6_at(v: &Vec<char>) -> (r: Option<Vec<u16>>)
    ensures
        match r {
            Some(gs) => spec_ipv6(v@) == Some(gs@) && gs@.len() == 8,
            None => spec_ipv6(v@) is None,
        },
{
    let (head, p, head_v4) = groups_at(v, 0, 8, 0);
    if head.len() == 8 {
        if p == v.len() {
            return Some(head);
        } else {
            return None;
        }
    }
    if head_v4 {
        return None;
    }
    if p < v.len() && v[p] == ':' && p + 1 < v.len() && v[p + 1] == ':' {
        let limit = 8 - head.len() - 1;
        let (tail, q, _f) = groups_at(v, p + 2, limit, 0);
        if q == v.len() {
            let ghost headv = head@;
            let ghost tailv = tail@;
            let zeros = 8 - head.len() - tail.len();
            let mut gs = head;
            let mut z: usize = 0;
            while z < zeros
                invariant
                    0 <= z <= zeros,
                    gs@ =~= headv + Seq::new(z as nat, |k: int| 0u16),
                decreases zeros - z,
            {
                gs.push(0);
                proof {
                    assert(gs@ =~= headv + Seq::new(z as nat + 1, |k: int| 0u16));
                }
                z = z + 1;
            }
            let mut t: usize = 0;
            while t < tail.len()
                invariant
                    0 <= t <= tailv.len(),
                    tail@ == tailv,
                    gs@ =~= headv + Seq::new(zeros as nat, |k: int| 0u16) + tailv.subrange(
                        0,
                        t as int,
                    ),
                decreases tailv.len() - t,
            {
                gs.push(tail[t]);
                proof {
                    assert(gs@ =~= headv + Seq::new(zeros as nat, |k: int| 0u16) + tailv.subrange(
                        0,
                        t as int + 1,
                    ));
                }
                t = t + 1;
            }
            proof {
                assert(tailv.subrange(0, tailv.len() as int) =~= tailv);
                assert(gs@ =~= headv + Seq::new(zeros as nat, |k: int| 0u16) + tailv);
            }
            return Some(gs);
        }
        return None;
    }
    None
}

/// Parses the characters of one textual IP address, in either family.
pub fn parse_ip_chars(v: &Vec<char>) -> (r: Option<IpAddress>)
    ensures
        r == spec_parse_ip(v@),
{
    match ipv4_at(v, 0) {
        Some((t, j)) => {
            if j == v.len() {
                let (a, b, c, d) = t;
                Some(IpAddress::V4(a, b, c, d))
            } else {
                None
            }
        },
        None => {
            match ipv6_at(v) {
                Some(gs) => Some(
                    IpAddress::V6(gs[0], gs[1], gs[2], gs[3], gs[4], gs[5], gs[6], gs[7]),
                ),
                None => None,
            }
        },
    }
}

/// What `"...".parse::<std::net::IpAddr>()` accepts: an IPv4 address is tried
/// first; only when its positional parse finds no octet at all is the input
/// read as IPv6. In both forms the whole input must be consumed.
pub open spec fn spec_parse_ip(s: Seq<char>) -> Option<IpAddress> {
    match spec_ipv4_at(s, 0) {
        Some(((a, b, c, d), j)) => if j == s.len() {
            Some(IpAddress::V4(a, b, c, d))
        } else {
            None
        },
        None => match spec_ipv6(s) {
            Some(g) => Some(
                IpAddress::V6(g[0], g[1], g[2], g[3], g[4], g[5], g[6], g[7]),
            ),
            None => None,
        },
    }
}

/// The first index at or after `i` that holds `c`, or the length when none
/// does.
pub open spec fn find_from(s: Seq<char>, c: char, i: int) -> int
    decreases s.len() - i,
{
    if !(0 <= i < s.len()) {
        s.len() as int
    } else if s[i] == c {
        i
    } else {
        find_from(s, c, i + 1)
    }
}

/// The last index before `j` that holds `c`, or `-1` when none does.
pub open spec fn rfind_before(s: Seq<char>, c: char, j: int) -> int
    decreases j,
{
    if j <= 0 {
        -1
    } else if 0 <= j - 1 < s.len() && s[j - 1] == c {
        j - 1
    } else {
        rfind_before(s, c, j - 1)
    }
}

/// The characters handed to the address parser for one `for` entry: when the
/// entry holds a `]`, the part of the prefix before the first `]` that follows
/// the last `[`; otherwise the entry itself.
pub open spec fn spec_candidate(e: Seq<char>) -> Seq<char> {
    let r = find_from(e, ']', 0);
    if r == e.len() {
        e
    } else {
        let l = rfind_before(e, '[', r);
        e.subrange(l + 1, r)
    }
}

fn candidate_chars(v: &Vec<char>) -> (r: Vec<char>)
    ensures
        r@ == spec_candidate(v@),
{
    let n = v.len();
    let mut f: usize = 0;
    while f < n && v[f] != ']'
        invariant
            0 <= f <= n,
            n == v@.len(),
            find_from(v@, ']', 0) == find_from(v@, ']', f as int),
        decreases n - f,
    {
        f = f + 1;
    }
    assert(find_from(v@, ']', 0) == f as int);
    let start: usize = if f == n {
        0
    } else {
        let mut j: usize = f;
        while j > 0 && v[j - 1] != '['
            invariant
                0 <= j <= f <= n,
                n == v@.len(),
                rfind_before(v@, '[', f as int) == rfind_before(v@, '[', j as int),
            decreases j,
        {
            j = j - 1;
        }
        assert(rfind_before(v@, '[', f as int) == j - 1);
        j
    };
    let end: usize = if f == n {
        n
    } else {
        f
    };
    let mut r: Vec<char> = Vec::new();
    let mut k: usize = start;
    while k < end
        invariant
            start <= k <= end <= n,
            n == v@.len(),
            r@ =~= v@.subrange(start as int, k as int),
        decreases end - k,
    {
        r.push(v[k]);
        assert(r@ =~= v@.subrange(start as int, k + 1));
        k = k + 1;
    }
    proof {
        if f == n {
            assert(v@.subrange(0, n as int) =~= v@);
        }
        assert(r@ =~= spec_candidate(v@));
    }
    r
}

/// The addresses that a list of `for` entries yields: each entry's candidate
/// characters are parsed, entries that parse are kept in order, and entries
/// that do not are dropped.
pub open spec fn spec_to_ip_addresses(es: Seq<Seq<char>>) -> Seq<IpAddress>
    decreases es.len(),
{
    if es.len() == 0 {
        Seq::empty()
    } else {
        let rest = spec_to_ip_addresses(es.drop_first());
        match spec_parse_ip(spec_candidate(es[0])) {
            Some(a) => seq![a] + rest,
            None => rest,
        }
    }
}

/// Turns raw `for` entries into parsed addresses, keeping header order and
/// silently dropping entries that do not parse.
pub fn to_ip_addresses(entries: &Vec<String>) -> (r: Vec<IpAddress>)
    ensures
        r@ == spec_to_ip_addresses(entries.deep_view()),
{
    let ghost dv = entries.deep_view();
    let mut r: Vec<IpAddress> = Vec::new();
    let mut i: usize = 0;
    proof {
        assert(dv.skip(0) =~= dv);
        assert(r@ + spec_to_ip_addresses(dv) =~= spec_to_ip_addresses(dv));
    }
    while i < entries.len()
        invariant
            0 <= i <= entries@.len(),
            dv == entries.deep_view(),
            dv.len() == entries@.len(),
            forall|k: int| 0 <= k < dv.len() ==> dv[k] == #[trigger] entries@[k]@,
            spec_to_ip_addresses(dv) == r@ + spec_to_ip_addresses(dv.skip(i as int)),
        decreases entries@.len() - i,
    {
        let ghost oldr = r@;
        let chars = str_to_chars(entries[i].as_str());
        let cand = candidate_chars(&chars);
        let parsed = parse_ip_chars(&cand);
        match parsed {
            Some(a) => {
                r.push(a);
            },
            None => {},
        }
        proof {
            let pre = dv.skip(i as int);
            let post = dv.skip(i as int + 1);
            assert(pre.drop_first() =~= post);
            assert(pre[0] == dv[i as int]);
            assert(chars@ == dv[i as int]);
            match spec_parse_ip(spec_candidate(pre[0])) {
                Some(a) => {
                    assert(oldr + (seq![a] + spec_to_ip_addresses(post)) =~= oldr.push(a)
                        + spec_to_ip_addresses(post));
                },
                None => {},
            }
        }
        i = i + 1;
    }
    proof {
        assert(dv.skip(dv.len() as int) =~= Seq::<Seq<char>>::empty());
        assert(r@ + spec_to_ip_addresses(dv.skip(dv.len() as int)) =~= r@);
    }
    r
}

} // verus!
