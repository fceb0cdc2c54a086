//! What the reading and rendering of numbers and text promises.

use crate::text;
use vstd::prelude::*;
use vstd::string::*;

verus! {

// ---------- numbers ----------

/// A byte is a decimal digit.
pub open spec fn is_digit(b: u8) -> bool {
    48 <= b <= 57
}

/// A text with at least one digit and nothing else, but for a plus sign that may stand in front.
pub open spec fn plain_number(s: Seq<u8>) -> bool {
    let from: int = if s.len() > 0 && s[0] == 43 {
        1
    } else {
        0
    };
    s.len() > from && forall|i: int| from <= i < s.len() ==> is_digit(#[trigger] s[i])
}

/// Only plain numbers are read.
pub proof fn lemma_only_plain_numbers(s: &[u8], r: Option<u64>)
    requires
        call_ensures(text::read_unsigned, (s,), r),
        r is Some,
    ensures
        plain_number(s@),
{
    lemma_plain(s@);
}

proof fn lemma_plain(s: Seq<u8>)
    ensures
        text::unsigned_value(s) is Some <==> plain_number(s),
{
    if s.len() > 0 && s[0] == 43 {
        let d = s.skip(1);
        if text::all_digits(d) {
            assert forall|i: int| 1 <= i < s.len() implies is_digit(#[trigger] s[i]) by {
                assert(d[i - 1] == s[i]);
            }
        }
        if plain_number(s) {
            assert forall|i: int| 0 <= i < d.len() implies 48 <= #[trigger] d[i] <= 57 by {
                assert(is_digit(s[i + 1]));
            }
        }
    } else {
        if plain_number(s) {
            assert forall|i: int| 0 <= i < s.len() implies 48 <= #[trigger] s[i] <= 57 by {
                assert(is_digit(s[i]));
            }
        }
    }
}

/// One digit stands for itself, with or without a plus sign.
pub proof fn lemma_one_digit(s: &[u8], d: u8, r: Option<u64>)
    requires
        call_ensures(text::read_unsigned, (s,), r),
        d <= 9,
        s@ == seq![(48 + d) as u8] || s@ == seq![43u8, (48 + d) as u8],
    ensures
        r == Some(d as u64),
{
    let one = seq![(48 + d) as u8];
    if s@ != one {
        assert(s@.skip(1) =~= one);
    }
    assert(one.drop_last() =~= Seq::<u8>::empty());
    assert(text::digits_value(one.drop_last()) == 0);
    assert(text::digits_value(one) == d);
}

/// One more digit behind a number makes it ten times as large, and more by the digit; a number that
/// does not fit is not read.
pub proof fn lemma_one_more_digit(
    s: &[u8],
    r: Option<u64>,
    longer: &[u8],
    d: u8,
    r2: Option<u64>,
)
    requires
        call_ensures(text::read_unsigned, (s,), r),
        call_ensures(text::read_unsigned, (longer,), r2),
        d <= 9,
        longer@ == s@.push((48 + d) as u8),
        plain_number(s@),
    ensures
        r is Some && r->Some_0 * 10 + d <= u64::MAX ==> r2 == Some((r->Some_0 * 10 + d) as u64),
        r is Some && r->Some_0 * 10 + d > u64::MAX ==> r2 is None,
        r is None ==> r2 is None,
{
    lemma_plain(s@);
    lemma_plain(longer@);
    assert(longer@[0] == s@[0]);
    let a = if s@[0] == 43 {
        s@.skip(1)
    } else {
        s@
    };
    let b = if longer@[0] == 43 {
        longer@.skip(1)
    } else {
        longer@
    };
    assert(b =~= a.push((48 + d) as u8));
    assert(b.drop_last() =~= a);
    assert forall|i: int| 0 <= i < longer@.len() && (i > 0 || s@[0] != 43) implies is_digit(
        #[trigger] longer@[i],
    ) by {
        if i < s@.len() {
            assert(longer@[i] == s@[i]);
            assert(is_digit(s@[i]));
        }
    }
    assert(plain_number(longer@));
    assert(text::digits_value(b) == text::digits_value(a) * 10 + d);
}

/// A minus sign stands before the number that follows it, which must be plain and without a sign.
/// Anything else is read as an unsigned number.
pub proof fn lemma_read_signed(s: &[u8], r: Option<i64>)
    requires
        call_ensures(text::read_signed, (s,), r),
    ensures
        s@.len() > 0 && s@[0] == 45 ==> match text::unsigned_value(s@.skip(1)) {
            Some(n) => if s@.len() > 1 && s@[1] == 43 {
                r is None
            } else if -(n as int) >= i64::MIN {
                r == Some((-(n as int)) as i64)
            } else {
                r is None
            },
            None => r is None,
        },
        !(s@.len() > 0 && s@[0] == 45) ==> match text::unsigned_value(s@) {
            Some(n) => if n <= i64::MAX {
                r == Some(n as i64)
            } else {
                r is None
            },
            None => r is None,
        },
{
    if s@.len() > 0 && s@[0] == 45 {
        let d = s@.skip(1);
        if d.len() > 0 && d[0] == 43 {
            assert(!text::all_digits(d));
        }
    }
}

/// A number in decimal is read as the number, and has no zero in front but for zero itself.
pub proof fn lemma_number_is_read_back(n: u64, t: String, s: &[u8], r: Option<u64>)
    requires
        call_ensures(text::number_text, (n,), t),
        s@ == vstd::utf8::encode_utf8(t@),
        call_ensures(text::read_unsigned, (s,), r),
    ensures
        r == Some(n),
        t@.len() > 1 ==> t@[0] != '0',
        t@.len() > 0,
{
    lemma_decimal(n as nat);
    vstd::utf8::is_ascii_chars_encode_utf8(t@);
    assert(s@ =~= t@.map_values(|c: char| c as u8));
    assert(is_digit(s@[0]));
}

/// The same of sizes and of numbers with a sign.
pub proof fn lemma_sizes_and_signs_are_read_back(
    n: usize,
    t: String,
    s: &[u8],
    r: Option<u64>,
    i: i64,
    u: String,
    v: &[u8],
    q: Option<i64>,
)
    requires
        call_ensures(text::size_text, (n,), t),
        s@ == vstd::utf8::encode_utf8(t@),
        call_ensures(text::read_unsigned, (s,), r),
        call_ensures(text::signed_text, (i,), u),
        v@ == vstd::utf8::encode_utf8(u@),
        call_ensures(text::read_signed, (v,), q),
        n <= u64::MAX,
    ensures
        r == Some(n as u64),
        q == Some(i),
{
    lemma_decimal(n as nat);
    vstd::utf8::is_ascii_chars_encode_utf8(t@);
    assert(s@ =~= t@.map_values(|c: char| c as u8));
    assert(is_digit(s@[0]));
    if i >= 0 {
        lemma_decimal(i as nat);
        vstd::utf8::is_ascii_chars_encode_utf8(u@);
        assert(v@ =~= u@.map_values(|c: char| c as u8));
        assert(is_digit(v@[0]));
    } else {
        let d = text::decimal((-(i as int)) as nat);
        lemma_decimal((-(i as int)) as nat);
        assert(u@ == seq!['-'] + d);
        assert(vstd::utf8::is_ascii_chars(u@)) by {
            assert forall|x: int| 0 <= x < u@.len() implies 0 <= #[trigger] u@[x] as nat <= 127 by {
                if x > 0 {
                    assert(u@[x] == d[x - 1]);
                }
            }
        }
        vstd::utf8::is_ascii_chars_encode_utf8(u@);
        assert(v@.skip(1) =~= d.map_values(|c: char| c as u8));
        assert(v@[0] == 45);
    }
}

/// The digits of a number, as characters and as bytes.
pub proof fn lemma_decimal(n: nat)
    ensures
        ({
            let chars = text::decimal(n);
            let bytes = chars.map_values(|c: char| c as u8);
            &&& vstd::utf8::is_ascii_chars(chars)
            &&& text::all_digits(bytes)
            &&& text::digits_value(bytes) == n
            &&& chars.len() > 0
            &&& chars.len() > 1 ==> chars[0] != '0'
            &&& n > 0 ==> chars[0] != '0'
        }),
    decreases n,
{
    let chars = text::decimal(n);
    let bytes = chars.map_values(|c: char| c as u8);
    if n < 10 {
        assert(bytes =~= seq![(48 + n) as u8]);
        assert(bytes.drop_last() =~= Seq::<u8>::empty());
        assert(text::digits_value(bytes.drop_last()) == 0);
    } else {
        lemma_decimal(n / 10);
        let before = text::decimal(n / 10);
        let prev = before.map_values(|c: char| c as u8);
        assert(bytes =~= prev.push((48 + n % 10) as u8));
        assert(bytes.drop_last() =~= prev);
        assert forall|i: int| 0 <= i < bytes.len() implies 48 <= #[trigger] bytes[i] <= 57 by {
            if i < prev.len() {
                assert(bytes[i] == prev[i]);
            }
        }
        assert forall|i: int| 0 <= i < chars.len() implies 0 <= #[trigger] chars[i] as nat <= 127 by {
            if i < before.len() {
                assert(chars[i] == before[i]);
            }
        }
        assert(chars[0] == before[0]);
    }
}

// ---------- white space ----------

/// A text made of white space.
pub open spec fn all_white(s: Seq<char>) -> bool {
    forall|i: int| 0 <= i < s.len() ==> text::white_space(#[trigger] s[i])
}

/// White space is what Unicode gives that property: the tab to the carriage return, the space, and
/// the separators outside ASCII.
pub proof fn lemma_white_space(c: char, r: bool)
    requires
        call_ensures(text::is_white_space, (c,), r),
    ensures
        r <==> {
            let n = c as u32;
            ||| 9 <= n <= 13
            ||| n == 0x20
            ||| n == 0x85
            ||| n == 0xa0
            ||| n == 0x1680
            ||| 0x2000 <= n <= 0x200a
            ||| n == 0x2028
            ||| n == 0x2029
            ||| n == 0x202f
            ||| n == 0x205f
            ||| n == 0x3000
        },
        r <==> text::white_space(c),
{
}

proof fn lemma_trim_start(s: Seq<char>)
    ensures
        0 <= text::trim_start(s) <= s.len(),
        all_white(s.take(text::trim_start(s))),
        text::trim_start(s) < s.len() ==> !text::white_space(s[text::trim_start(s)]),
    decreases s.len(),
{
    if s.len() > 0 && text::white_space(s[0]) {
        let t = s.skip(1);
        lemma_trim_start(t);
        let n = text::trim_start(s);
        assert forall|i: int| 0 <= i < n implies text::white_space(#[trigger] s.take(n)[i]) by {
            if i > 0 {
                assert(t.take(n - 1)[i - 1] == s[i]);
            }
        }
        if n < s.len() {
            assert(t[n - 1] == s[n]);
        }
    }
}

proof fn lemma_trim_end(s: Seq<char>)
    ensures
        text::trim_end(s).len() <= s.len(),
        text::trim_end(s) == s.take(text::trim_end(s).len() as int),
        all_white(s.skip(text::trim_end(s).len() as int)),
        text::trim_end(s).len() > 0 ==> !text::white_space(text::trim_end(s).last()),
    decreases s.len(),
{
    let r = text::trim_end(s);
    if s.len() > 0 && text::white_space(s.last()) {
        let t = s.drop_last();
        lemma_trim_end(t);
        assert(t.take(r.len() as int) =~= s.take(r.len() as int));
        let tail = s.skip(r.len() as int);
        assert forall|i: int| 0 <= i < tail.len() implies text::white_space(#[trigger] tail[i]) by {
            if i < tail.len() - 1 {
                assert(t.skip(r.len() as int)[i] == tail[i]);
            }
        }
    } else {
        assert(s.take(s.len() as int) =~= s);
    }
}

/// Trimming takes off the white space at both ends and nothing else: what is left starts and ends
/// with something else, or is empty, and stands in the text with nothing but white space around it.
pub proof fn lemma_trim(s: &str, r: &str)
    requires
        call_ensures(text::trim, (s,), r),
    ensures
        r@.len() > 0 ==> !text::white_space(r@[0]) && !text::white_space(r@[r@.len() - 1]),
        exists|a: Seq<char>, b: Seq<char>|
            #![trigger all_white(a), all_white(b)]
            all_white(a) && all_white(b) && s@ == a + r@ + b,
{
    let n = text::trim_start(s@);
    lemma_trim_start(s@);
    let t = s@.skip(n);
    lemma_trim_end(t);
    let a = s@.take(n);
    let b = t.skip(r@.len() as int);
    assert(r@ == text::trim_end(t));
    assert(s@ =~= a + r@ + b);
    assert(all_white(a) && all_white(b));
    if r@.len() > 0 {
        assert(r@[0] == t.take(r@.len() as int)[0]);
        assert(t[0] == s@[n]);
    }
}

/// A text is blank exactly where trimming leaves nothing of it.
pub proof fn lemma_blank(s: &str, trimmed: &str, r: bool)
    requires
        call_ensures(text::is_blank, (s,), r),
        call_ensures(text::trim, (s,), trimmed),
    ensures
        r <==> trimmed@.len() == 0,
        r <==> all_white(s@),
{
    lemma_trim(s, trimmed);
    let (a, b) = choose|a: Seq<char>, b: Seq<char>|
        #![trigger all_white(a), all_white(b)]
        all_white(a) && all_white(b) && s@ == a + trimmed@ + b;
    if trimmed@.len() == 0 {
        assert forall|i: int| 0 <= i < s@.len() implies text::white_space(#[trigger] s@[i]) by {
            if i < a.len() {
                assert(s@[i] == a[i]);
            } else {
                assert(s@[i] == b[i - a.len()]);
            }
        }
    } else {
        assert(s@[a.len() as int] == trimmed@[0]);
    }
}

} // verus!
