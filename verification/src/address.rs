//! Socket addresses as text: an IPv4 address or an IPv6 address in square brackets, a colon, and a
//! port.

use crate::text;
use vstd::prelude::*;
use vstd::string::*;

verus! {

/// Where a byte stands first, from `from` on, or the end.
pub open spec fn first(s: Seq<u8>, b: u8, from: int) -> int
    decreases s.len() - from,
{
    if 0 <= from < s.len() && s[from] != b {
        first(s, b, from + 1)
    } else {
        from
    }
}

/// Decimal digits that stand for a number of at most `max`.
pub open spec fn number_upto(s: Seq<u8>, max: nat) -> bool {
    text::all_digits(s) && text::digits_value(s) <= max
}

/// One number of an IPv4 address: 0 to 255, without leading zeros.
pub open spec fn octet(s: Seq<u8>) -> bool {
    number_upto(s, 255) && s.len() <= 3 && (s.len() > 1 ==> s[0] != 48)
}

/// How many octets a text holds that is nothing but octets with dots (46) between them.
pub open spec fn octets(s: Seq<u8>) -> Option<nat>
    decreases s.len(),
{
    let dot = first(s, 46, 0);
    if 0 <= dot < s.len() {
        if octet(s.take(dot)) {
            match octets(s.skip(dot + 1)) {
                Some(n) => Some(n + 1),
                None => None,
            }
        } else {
            None
        }
    } else if octet(s) {
        Some(1)
    } else {
        None
    }
}

/// An IPv4 address: four octets with dots between them.
pub open spec fn ipv4(s: Seq<u8>) -> bool {
    octets(s) == Some(4nat)
}

/// A hexadecimal digit, in lower or upper case.
pub open spec fn hex_digit(b: u8) -> bool {
    48 <= b <= 57 || 97 <= b <= 102 || 65 <= b <= 70
}

/// Sixteen bits of an IPv6 address: one to four hexadecimal digits.
pub open spec fn hex_group(s: Seq<u8>) -> bool {
    &&& 1 <= s.len() <= 4
    &&& forall|i: int| 0 <= i < s.len() ==> hex_digit(#[trigger] s[i])
}

/// How many groups a text holds that is nothing but groups with colons (58) between them. With
/// `v4_last` an IPv4 address may stand in place of the last two.
pub open spec fn groups(s: Seq<u8>, v4_last: bool) -> Option<nat>
    decreases s.len(),
{
    let colon = first(s, 58, 0);
    if 0 <= colon < s.len() {
        if hex_group(s.take(colon)) {
            match groups(s.skip(colon + 1), v4_last) {
                Some(n) => Some(n + 1),
                None => None,
            }
        } else {
            None
        }
    } else if hex_group(s) {
        Some(1)
    } else if v4_last && ipv4(s) {
        Some(2)
    } else {
        None
    }
}

/// How many groups stand on one side of a double colon: none, or some with colons between them.
pub open spec fn side_groups(s: Seq<u8>, v4_last: bool) -> Option<nat> {
    if s.len() == 0 {
        Some(0)
    } else {
        groups(s, v4_last)
    }
}

/// Where a double colon stands first, from `from` on, or the end.
pub open spec fn double_colon(s: Seq<u8>, from: int) -> int
    decreases s.len() - from,
{
    if from < 0 || from + 1 >= s.len() {
        s.len() as int
    } else if s[from] == 58 && s[from + 1] == 58 {
        from
    } else {
        double_colon(s, from + 1)
    }
}

/// An IPv6 address: eight groups, or fewer where a double colon stands for the missing ones.
pub open spec fn ipv6(s: Seq<u8>) -> bool {
    let gap = double_colon(s, 0);
    if gap < s.len() {
        match (side_groups(s.take(gap), false), side_groups(s.skip(gap + 2), true)) {
            (Some(head), Some(tail)) => head + tail <= 7,
            _ => false,
        }
    } else {
        groups(s, true) == Some(8nat)
    }
}

/// An IPv6 address, and behind a percent sign (37) a scope if there is one.
pub open spec fn scoped_ipv6(s: Seq<u8>) -> bool {
    let percent = first(s, 37, 0);
    if percent < s.len() {
        ipv6(s.take(percent)) && number_upto(s.skip(percent + 1), u32::MAX as nat)
    } else {
        ipv6(s)
    }
}

/// A port.
pub open spec fn port(s: Seq<u8>) -> bool {
    number_upto(s, u16::MAX as nat)
}

/// A socket address: `a.b.c.d:port`, or `[v6]:port` with the address in brackets (91, 93).
pub open spec fn socket_address(s: Seq<u8>) -> bool {
    if s.len() > 0 && s[0] == 91 {
        let close = first(s, 93, 0);
        &&& close + 1 < s.len()
        &&& s[close + 1] == 58
        &&& scoped_ipv6(s.subrange(1, close))
        &&& port(s.skip(close + 2))
    } else {
        let colon = first(s, 58, 0);
        &&& colon < s.len()
        &&& ipv4(s.take(colon))
        &&& port(s.skip(colon + 1))
    }
}

fn find(s: &[u8], b: u8) -> (r: usize)
    ensures
        r == first(s@, b, 0),
        r <= s@.len(),
        r < s@.len() ==> s@[r as int] == b,
{
    let mut i: usize = 0;
    while i < s.len() && s[i] != b
        invariant
            i <= s@.len(),
            first(s@, b, 0) == first(s@, b, i as int),
        decreases s@.len() - i,
    {
        i += 1;
    }
    i
}

fn find_double_colon(s: &[u8]) -> (r: usize)
    ensures
        r == double_colon(s@, 0),
        r < s@.len() ==> r + 1 < s@.len(),
{
    let n: usize = s.len();
    let mut i: usize = 0;
    while i < n && i + 1 < n
        invariant
            i <= n,
            n == s@.len(),
            double_colon(s@, 0) == double_colon(s@, i as int),
        decreases n - i,
    {
        if s[i] == 58 && s[i + 1] == 58 {
            return i;
        }
        i += 1;
    }
    n
}

fn is_number_upto(s: &[u8], max: u64) -> (r: bool)
    ensures
        r == number_upto(s@, max as nat),
{
    if s.len() > 0 && s[0] == 43 {
        // A sign is no digit.
        assert(!text::all_digits(s@));
        return false;
    }
    match text::read_unsigned(s) {
        Some(n) => n <= max,
        None => false,
    }
}

fn is_octet(s: &[u8]) -> (r: bool)
    ensures
        r == octet(s@),
{
    is_number_upto(s, 255) && s.len() <= 3 && !(s.len() > 1 && s[0] == 48)
}

fn is_ipv4(s: &[u8]) -> (r: bool)
    ensures
        r == ipv4(s@),
{
    let mut rest: &[u8] = s;
    let mut n: usize = 0;
    assert(s@.len() == s.len());
    loop
        invariant
            n + rest@.len() <= s@.len() <= usize::MAX,
            octets(s@) == match octets(rest@) {
                Some(m) => Some((n + m) as nat),
                None => None,
            },
        decreases rest@.len(),
    {
        let dot: usize = find(rest, 46);
        if dot == rest.len() {
            return is_octet(rest) && n == 3;
        }
        let part = vstd::slice::slice_subrange(rest, 0, dot);
        assert(part@ =~= rest@.take(dot as int));
        if !is_octet(part) {
            return false;
        }
        let next = vstd::slice::slice_subrange(rest, dot + 1, rest.len());
        assert(next@ =~= rest@.skip(dot + 1));
        rest = next;
        n += 1;
    }
}

fn is_hex_group(s: &[u8]) -> (r: bool)
    ensures
        r == hex_group(s@),
{
    if s.len() < 1 || s.len() > 4 {
        return false;
    }
    let mut i: usize = 0;
    while i < s.len()
        invariant
            i <= s@.len(),
            forall|j: int| 0 <= j < i ==> hex_digit(#[trigger] s@[j]),
        decreases s@.len() - i,
    {
        let b: u8 = s[i];
        if !((48 <= b && b <= 57) || (97 <= b && b <= 102) || (65 <= b && b <= 70)) {
            assert(!hex_digit(s@[i as int]));
            return false;
        }
        i += 1;
    }
    true
}

fn count_groups(s: &[u8], v4_last: bool) -> (r: Option<usize>)
    ensures
        match r {
            Some(n) => groups(s@, v4_last) == Some(n as nat) && n <= s@.len(),
            None => groups(s@, v4_last) is None,
        },
{
    let mut rest: &[u8] = s;
    let mut n: usize = 0;
    assert(s@.len() == s.len());
    loop
        invariant
            n + rest@.len() <= s@.len() <= usize::MAX,
            groups(s@, v4_last) == match groups(rest@, v4_last) {
                Some(m) => Some((n + m) as nat),
                None => None,
            },
        decreases rest@.len(),
    {
        let colon: usize = find(rest, 58);
        if colon == rest.len() {
            if is_hex_group(rest) {
                return Some(n + 1);
            }
            if v4_last && is_ipv4(rest) {
                proof {
                    lemma_ipv4_len(rest@);
                }
                return Some(n + 2);
            }
            return None;
        }
        let part = vstd::slice::slice_subrange(rest, 0, colon);
        assert(part@ =~= rest@.take(colon as int));
        if !is_hex_group(part) {
            return None;
        }
        let next = vstd::slice::slice_subrange(rest, colon + 1, rest.len());
        assert(next@ =~= rest@.skip(colon + 1));
        rest = next;
        n += 1;
    }
}

proof fn lemma_ipv4_len(s: Seq<u8>)
    requires
        ipv4(s),
    ensures
        s.len() >= 2,
{
    if s.len() < 2 {
        let dot = first(s, 46, 0);
        if 0 <= dot < s.len() {
            assert(!octet(s.take(dot)));
        }
    }
}

fn count_side(s: &[u8], v4_last: bool) -> (r: Option<usize>)
    ensures
        match r {
            Some(n) => side_groups(s@, v4_last) == Some(n as nat) && n <= s@.len(),
            None => side_groups(s@, v4_last) is None,
        },
{
    if s.len() == 0 {
        Some(0)
    } else {
        count_groups(s, v4_last)
    }
}

fn is_ipv6(s: &[u8]) -> (r: bool)
    ensures
        r == ipv6(s@),
{
    let gap: usize = find_double_colon(s);
    if gap < s.len() {
        let left = vstd::slice::slice_subrange(s, 0, gap);
        let right = vstd::slice::slice_subrange(s, gap + 2, s.len());
        assert(left@ =~= s@.take(gap as int));
        assert(right@ =~= s@.skip(gap + 2));
        match (count_side(left, false), count_side(right, true)) {
            (Some(head), Some(tail)) => head <= 7 && tail <= 7 - head,
            _ => false,
        }
    } else {
        match count_groups(s, true) {
            Some(n) => n == 8,
            None => false,
        }
    }
}

fn is_scoped_ipv6(s: &[u8]) -> (r: bool)
    ensures
        r == scoped_ipv6(s@),
{
    let percent: usize = find(s, 37);
    if percent < s.len() {
        let ip = vstd::slice::slice_subrange(s, 0, percent);
        let scope = vstd::slice::slice_subrange(s, percent + 1, s.len());
        assert(ip@ =~= s@.take(percent as int));
        assert(scope@ =~= s@.skip(percent + 1));
        is_ipv6(ip) && is_number_upto(scope, 0xFFFF_FFFF)
    } else {
        is_ipv6(s)
    }
}

/// Whether a text is a socket address.
pub fn is_socket_address(s: &str) -> (r: bool)
    ensures
        r == socket_address(s.spec_bytes()),
{
    let b: &[u8] = s.as_bytes();
    if b.len() > 0 && b[0] == 91 {
        let close: usize = find(b, 93);
        if close >= b.len() || close + 1 >= b.len() || b[close + 1] != 58 {
            return false;
        }
        let ip = vstd::slice::slice_subrange(b, 1, close);
        let port_text = vstd::slice::slice_subrange(b, close + 2, b.len());
        assert(ip@ =~= b@.subrange(1, close as int));
        assert(port_text@ =~= b@.skip(close + 2));
        is_scoped_ipv6(ip) && is_number_upto(port_text, 0xFFFF)
    } else {
        let colon: usize = find(b, 58);
        if colon >= b.len() {
            return false;
        }
        let ip = vstd::slice::slice_subrange(b, 0, colon);
        let port_text = vstd::slice::slice_subrange(b, colon + 1, b.len());
        assert(ip@ =~= b@.take(colon as int));
        assert(port_text@ =~= b@.skip(colon + 1));
        is_ipv4(ip) && is_number_upto(port_text, 0xFFFF)
    }
}

// ---------- which texts are addresses ----------

/// One number of an IPv4 address: one to three digits, no zero in front of others, at most 255.
pub open spec fn octet_text(s: Seq<u8>) -> bool {
    &&& 1 <= s.len() <= 3
    &&& forall|i: int| 0 <= i < s.len() ==> 48 <= #[trigger] s[i] <= 57
    &&& s.len() > 1 ==> s[0] != 48
    &&& text::digits_value(s) <= 255
}

/// A port: at least one digit, and at most 65535.
pub open spec fn port_text(s: Seq<u8>) -> bool {
    &&& s.len() > 0
    &&& forall|i: int| 0 <= i < s.len() ==> 48 <= #[trigger] s[i] <= 57
    &&& text::digits_value(s) <= 65535
}

/// Four numbers and a port: `a.b.c.d:p`.
pub open spec fn dotted(
    s: Seq<u8>,
    a: Seq<u8>,
    b: Seq<u8>,
    c: Seq<u8>,
    d: Seq<u8>,
    p: Seq<u8>,
) -> bool {
    &&& octet_text(a) && octet_text(b) && octet_text(c) && octet_text(d)
    &&& port_text(p)
    &&& s == a + seq![46u8] + b + seq![46u8] + c + seq![46u8] + d + seq![58u8] + p
}

/// Where a byte stands first.
proof fn lemma_first(s: Seq<u8>, b: u8, from: int)
    requires
        0 <= from <= s.len(),
    ensures
        from <= first(s, b, from) <= s.len(),
        forall|i: int| from <= i < first(s, b, from) ==> #[trigger] s[i] != b,
        first(s, b, from) < s.len() ==> s[first(s, b, from)] == b,
    decreases s.len() - from,
{
    if from < s.len() && s[from] != b {
        lemma_first(s, b, from + 1);
    }
}

proof fn lemma_first_behind(h: Seq<u8>, b: u8, t: Seq<u8>)
    requires
        forall|i: int| 0 <= i < h.len() ==> #[trigger] h[i] != b,
    ensures
        first(h + seq![b] + t, b, 0) == h.len(),
        (h + seq![b] + t).take(h.len() as int) == h,
        (h + seq![b] + t).skip(h.len() as int + 1) == t,
{
    let s = h + seq![b] + t;
    lemma_first(s, b, 0);
    let n = first(s, b, 0);
    if n < h.len() {
        assert(s[n] == h[n]);
    }
    if n > h.len() {
        assert(s[h.len() as int] == b);
    }
    assert(s.take(h.len() as int) =~= h);
    assert(s.skip(h.len() as int + 1) =~= t);
}

/// A text falls apart at the first place of a byte.
proof fn lemma_apart(s: Seq<u8>, b: u8)
    requires
        first(s, b, 0) < s.len(),
    ensures
        ({
            let n = first(s, b, 0);
            &&& 0 <= n
            &&& s == s.take(n) + seq![b] + s.skip(n + 1)
        }),
{
    lemma_first(s, b, 0);
    let n = first(s, b, 0);
    assert(s =~= s.take(n) + seq![b] + s.skip(n + 1));
}

proof fn lemma_octet(s: Seq<u8>)
    ensures
        octet(s) == octet_text(s),
{
}

proof fn lemma_no_dot(s: Seq<u8>, b: u8)
    requires
        octet_text(s),
        b == 46 || b == 58,
    ensures
        forall|i: int| 0 <= i < s.len() ==> #[trigger] s[i] != b,
        first(s, b, 0) == s.len(),
{
    assert forall|i: int| 0 <= i < s.len() implies #[trigger] s[i] != b by {
        assert(48 <= s[i] <= 57);
    }
    lemma_first(s, b, 0);
}

/// A text that starts with no bracket is a socket address exactly where it is four numbers with dots
/// between them, a colon and a port.
pub proof fn lemma_ipv4_address(text: &str, r: bool)
    requires
        call_ensures(is_socket_address, (text,), r),
        vstd::utf8::encode_utf8(text@).len() > 0 ==> vstd::utf8::encode_utf8(text@)[0] != 91,
    ensures
        r <==> exists|a: Seq<u8>, b: Seq<u8>, c: Seq<u8>, d: Seq<u8>, p: Seq<u8>| #[trigger]
            dotted(vstd::utf8::encode_utf8(text@), a, b, c, d, p),
{
    let s = vstd::utf8::encode_utf8(text@);
    if r {
        lemma_to_dotted(s);
    }
    if exists|a: Seq<u8>, b: Seq<u8>, c: Seq<u8>, d: Seq<u8>, p: Seq<u8>| #[trigger]
        dotted(s, a, b, c, d, p) {
        let (a, b, c, d, p) = choose|a: Seq<u8>, b: Seq<u8>, c: Seq<u8>, d: Seq<u8>, p: Seq<u8>|
            #[trigger] dotted(s, a, b, c, d, p);
        lemma_from_dotted(s, a, b, c, d, p);
    }
}

proof fn lemma_to_dotted(s: Seq<u8>)
    requires
        socket_address(s),
        s.len() > 0 ==> s[0] != 91,
    ensures
        exists|a: Seq<u8>, b: Seq<u8>, c: Seq<u8>, d: Seq<u8>, p: Seq<u8>| #[trigger]
            dotted(s, a, b, c, d, p),
{
    let colon = first(s, 58, 0);
    lemma_apart(s, 58);
    let h = s.take(colon);
    let p = s.skip(colon + 1);
    let (x, h2) = lemma_octets_apart(h, 4);
    let (y, h3) = lemma_octets_apart(h2, 3);
    let (z, w) = lemma_octets_apart(h3, 2);
    lemma_last_octet(w);
    lemma_paste(x, y, z, w, p);
    assert(dotted(s, x, y, z, w, p));
}

proof fn lemma_paste(a: Seq<u8>, b: Seq<u8>, c: Seq<u8>, d: Seq<u8>, p: Seq<u8>)
    ensures
        a + seq![46u8] + (b + seq![46u8] + (c + seq![46u8] + d)) + seq![58u8] + p == a
            + seq![46u8] + b + seq![46u8] + c + seq![46u8] + d + seq![58u8] + p,
{
    assert(a + seq![46u8] + (b + seq![46u8] + (c + seq![46u8] + d)) + seq![58u8] + p =~= a
        + seq![46u8] + b + seq![46u8] + c + seq![46u8] + d + seq![58u8] + p);
}

proof fn lemma_octets_join(a: Seq<u8>, t: Seq<u8>, n: nat)
    requires
        octet_text(a),
        octets(t) == Some(n),
        forall|i: int| 0 <= i < t.len() ==> #[trigger] t[i] != 58,
    ensures
        octets(a + seq![46u8] + t) == Some(n + 1),
        forall|i: int|
            0 <= i < (a + seq![46u8] + t).len() ==> #[trigger] (a + seq![46u8] + t)[i] != 58,
{
    lemma_no_dot(a, 46);
    lemma_no_dot(a, 58);
    lemma_first_behind(a, 46, t);
    let s = a + seq![46u8] + t;
    assert forall|i: int| 0 <= i < s.len() implies #[trigger] s[i] != 58 by {
        if i < a.len() {
            assert(s[i] == a[i]);
        } else if i > a.len() {
            assert(s[i] == t[i - a.len() - 1]);
        }
    }
}

proof fn lemma_from_dotted(
    s: Seq<u8>,
    a: Seq<u8>,
    b: Seq<u8>,
    c: Seq<u8>,
    d: Seq<u8>,
    p: Seq<u8>,
)
    requires
        dotted(s, a, b, c, d, p),
        s.len() > 0 ==> s[0] != 91,
    ensures
        socket_address(s),
{
    lemma_no_dot(d, 46);
    lemma_no_dot(d, 58);
    assert(octets(d) == Some(1nat));
    let h3 = c + seq![46u8] + d;
    let h2 = b + seq![46u8] + h3;
    let h = a + seq![46u8] + h2;
    lemma_octets_join(c, d, 1);
    lemma_octets_join(b, h3, 2);
    lemma_octets_join(a, h2, 3);
    lemma_paste(a, b, c, d, p);
    assert(s == h + seq![58u8] + p);
    lemma_first_behind(h, 58, p);
    assert(port(p));
}

proof fn lemma_octets_apart(s: Seq<u8>, n: nat) -> (parts: (Seq<u8>, Seq<u8>))
    requires
        octets(s) == Some(n),
        n > 1,
    ensures
        octet_text(parts.0),
        octets(parts.1) == Some((n - 1) as nat),
        s == parts.0 + seq![46u8] + parts.1,
{
    lemma_first(s, 46, 0);
    lemma_apart(s, 46);
    let dot = first(s, 46, 0);
    (s.take(dot), s.skip(dot + 1))
}

proof fn lemma_last_octet(s: Seq<u8>)
    requires
        octets(s) == Some(1nat),
    ensures
        octet_text(s),
{
    lemma_first(s, 46, 0);
    if first(s, 46, 0) < s.len() {
        lemma_some_octet(s.skip(first(s, 46, 0) + 1));
    }
}

proof fn lemma_some_octet(s: Seq<u8>)
    ensures
        octets(s) is Some ==> octets(s)->Some_0 >= 1,
    decreases s.len(),
{
    lemma_first(s, 46, 0);
    let dot = first(s, 46, 0);
    if dot < s.len() {
        lemma_some_octet(s.skip(dot + 1));
    }
}

/// A text that starts with a bracket is a socket address only where an IPv6 address stands in the
/// brackets and a colon and a port behind them.
pub proof fn lemma_ipv6_address(text: &str, r: bool)
    requires
        call_ensures(is_socket_address, (text,), r),
        vstd::utf8::encode_utf8(text@).len() > 0,
        vstd::utf8::encode_utf8(text@)[0] == 91,
    ensures
        r <==> exists|v: Seq<u8>, p: Seq<u8>| #[trigger]
            bracketed(vstd::utf8::encode_utf8(text@), v, p),
{
    let s = vstd::utf8::encode_utf8(text@);
    lemma_first(s, 93, 0);
    let close = first(s, 93, 0);
    if r {
        let v = s.subrange(1, close);
        let p = s.skip(close + 2);
        assert(s =~= seq![91u8] + v + seq![93u8, 58u8] + p);
        assert forall|i: int| 0 <= i < v.len() implies #[trigger] v[i] != 93 by {
            assert(v[i] == s[i + 1]);
        }
        assert(bracketed(s, v, p));
    }
    if exists|v: Seq<u8>, p: Seq<u8>| #[trigger] bracketed(s, v, p) {
        let (v, p) = choose|v: Seq<u8>, p: Seq<u8>| #[trigger] bracketed(s, v, p);
        let h = seq![91u8] + v;
        assert forall|i: int| 0 <= i < h.len() implies #[trigger] h[i] != 93 by {
            if i > 0 {
                assert(h[i] == v[i - 1]);
            }
        }
        assert(s =~= h + seq![93u8] + (seq![58u8] + p));
        lemma_first_behind(h, 93, seq![58u8] + p);
        assert(s.subrange(1, close) =~= v);
        assert(s.skip(close + 2) =~= p);
        assert(port(p));
    }
}

/// An IPv6 address in brackets, a colon and a port: `[v]:p`.
pub open spec fn bracketed(s: Seq<u8>, v: Seq<u8>, p: Seq<u8>) -> bool {
    &&& scoped_ipv6(v)
    &&& forall|i: int| 0 <= i < v.len() ==> #[trigger] v[i] != 93
    &&& port_text(p)
    &&& s == seq![91u8] + v + seq![93u8, 58u8] + p
}

/// Groups with colons between them.
pub open spec fn with_colons(parts: Seq<Seq<u8>>) -> Seq<u8>
    decreases parts.len(),
{
    if parts.len() == 0 {
        Seq::empty()
    } else if parts.len() == 1 {
        parts[0]
    } else {
        parts[0] + seq![58u8] + with_colons(parts.skip(1))
    }
}

/// One group: one to four hexadecimal digits.
pub open spec fn group_text(s: Seq<u8>) -> bool {
    &&& 1 <= s.len() <= 4
    &&& forall|i: int|
        0 <= i < s.len() ==> 48 <= #[trigger] s[i] <= 57 || 97 <= s[i] <= 102 || 65 <= s[i] <= 70
}

proof fn lemma_group(s: Seq<u8>)
    ensures
        hex_group(s) == group_text(s),
{
    if group_text(s) {
        assert forall|i: int| 0 <= i < s.len() implies hex_digit(#[trigger] s[i]) by {
        }
    }
    if hex_group(s) {
        assert forall|i: int| 0 <= i < s.len() implies 48 <= #[trigger] s[i] <= 57 || 97 <= s[i]
            <= 102 || 65 <= s[i] <= 70 by {
            assert(hex_digit(s[i]));
        }
    }
}

/// Eight groups of hexadecimal digits with colons between them are an IPv6 address.
pub proof fn lemma_whole_ipv6(parts: Seq<Seq<u8>>)
    requires
        parts.len() == 8,
        forall|i: int| 0 <= i < parts.len() ==> group_text(#[trigger] parts[i]),
    ensures
        ipv6(with_colons(parts)),
{
    lemma_groups(parts, true);
    let s = with_colons(parts);
    lemma_no_gap(parts);
    lemma_double_colon(s, 0);
}

proof fn lemma_groups(parts: Seq<Seq<u8>>, v4_last: bool)
    requires
        parts.len() > 0,
        forall|i: int| 0 <= i < parts.len() ==> group_text(#[trigger] parts[i]),
    ensures
        groups(with_colons(parts), v4_last) == Some(parts.len()),
    decreases parts.len(),
{
    let h = parts[0];
    lemma_group(h);
    assert forall|i: int| 0 <= i < h.len() implies #[trigger] h[i] != 58 by {
    }
    if parts.len() == 1 {
        lemma_first(h, 58, 0);
    } else {
        let rest = parts.skip(1);
        assert forall|i: int| 0 <= i < rest.len() implies group_text(#[trigger] rest[i]) by {
            assert(rest[i] == parts[i + 1]);
        }
        lemma_groups(rest, v4_last);
        lemma_first_behind(h, 58, with_colons(rest));
    }
}

proof fn lemma_no_gap(parts: Seq<Seq<u8>>)
    requires
        parts.len() > 0,
        forall|i: int| 0 <= i < parts.len() ==> group_text(#[trigger] parts[i]),
    ensures
        with_colons(parts).len() > 0,
        with_colons(parts)[0] != 58,
        forall|i: int|
            0 <= i < with_colons(parts).len() - 1 && with_colons(parts)[i] == 58
                ==> #[trigger] with_colons(parts)[i + 1] != 58,
    decreases parts.len(),
{
    let h = parts[0];
    let s = with_colons(parts);
    assert(group_text(h));
    if parts.len() > 1 {
        let rest = parts.skip(1);
        assert forall|i: int| 0 <= i < rest.len() implies group_text(#[trigger] rest[i]) by {
            assert(rest[i] == parts[i + 1]);
        }
        lemma_no_gap(rest);
        let t = with_colons(rest);
        assert(s[0] == h[0]);
        assert forall|i: int| 0 <= i < s.len() - 1 && s[i] == 58 implies #[trigger] s[i + 1]
            != 58 by {
            let n = h.len() as int;
            if i < n {
                assert(s[i] == h[i]);
            } else if i == n {
                assert(s[i + 1] == t[0]);
            } else {
                assert(s[i] == t[i - n - 1]);
                assert(s[i + 1] == t[i - n - 1 + 1]);
            }
        }
    } else {
        assert forall|i: int| 0 <= i < s.len() - 1 && s[i] == 58 implies #[trigger] s[i + 1]
            != 58 by {
            assert(48 <= h[i] <= 57 || 97 <= h[i] <= 102 || 65 <= h[i] <= 70);
        }
    }
}

proof fn lemma_double_colon(s: Seq<u8>, from: int)
    requires
        0 <= from <= s.len(),
        forall|i: int| 0 <= i < s.len() - 1 && s[i] == 58 ==> #[trigger] s[i + 1] != 58,
    ensures
        double_colon(s, from) == s.len(),
    decreases s.len() - from,
{
    if from + 1 < s.len() {
        assert(s[from] == 58 ==> s[from + 1] != 58);
        lemma_double_colon(s, from + 1);
    }
}

proof fn lemma_last_is_no_colon(parts: Seq<Seq<u8>>)
    requires
        parts.len() > 0,
        forall|i: int| 0 <= i < parts.len() ==> group_text(#[trigger] parts[i]),
    ensures
        with_colons(parts).len() > 0,
        with_colons(parts).last() != 58,
    decreases parts.len(),
{
    let h = parts[0];
    assert(group_text(h));
    if parts.len() > 1 {
        let rest = parts.skip(1);
        assert forall|i: int| 0 <= i < rest.len() implies group_text(#[trigger] rest[i]) by {
            assert(rest[i] == parts[i + 1]);
        }
        lemma_last_is_no_colon(rest);
        assert(with_colons(parts).last() == with_colons(rest).last());
    } else {
        let n = h.len() - 1;
        assert(48 <= h[n] <= 57 || 97 <= h[n] <= 102 || 65 <= h[n] <= 70);
    }
}

proof fn lemma_gap_found(h: Seq<u8>, t: Seq<u8>, from: int)
    requires
        0 <= from <= h.len(),
        forall|i: int| 0 <= i < h.len() - 1 && h[i] == 58 ==> #[trigger] h[i + 1] != 58,
        h.len() > 0 ==> h.last() != 58,
    ensures
        double_colon(h + seq![58u8, 58u8] + t, from) == h.len(),
    decreases h.len() - from,
{
    let s = h + seq![58u8, 58u8] + t;
    let n = h.len() as int;
    assert(s[n] == 58 && s[n + 1] == 58);
    if from < n {
        assert(s[from] == h[from]);
        if from + 1 < n {
            assert(s[from + 1] == h[from + 1]);
        }
        lemma_gap_found(h, t, from + 1);
    }
}

/// Groups on both sides of a double colon are an IPv6 address exactly where they are seven or fewer:
/// the double colon stands for at least one group.
pub proof fn lemma_shortened_ipv6(head: Seq<Seq<u8>>, tail: Seq<Seq<u8>>)
    requires
        forall|i: int| 0 <= i < head.len() ==> group_text(#[trigger] head[i]),
        forall|i: int| 0 <= i < tail.len() ==> group_text(#[trigger] tail[i]),
    ensures
        ipv6(with_colons(head) + seq![58u8, 58u8] + with_colons(tail)) <==> head.len() + tail.len()
            <= 7,
{
    let h = with_colons(head);
    let t = with_colons(tail);
    let s = h + seq![58u8, 58u8] + t;
    if head.len() > 0 {
        lemma_groups(head, false);
        lemma_no_gap(head);
        lemma_last_is_no_colon(head);
    }
    if tail.len() > 0 {
        lemma_groups(tail, true);
        lemma_last_is_no_colon(tail);
    }
    lemma_gap_found(h, t, 0);
    let gap = h.len() as int;
    assert(s.take(gap) =~= h);
    assert(s.skip(gap + 2) =~= t);
}

} // verus!
