//! Laws of the address texts: the text of an IP address determines the
//! address, so that looking an address up by its text never confuses two
//! addresses.

use crate::util::{
    decimal_text, digit_char, group, groups_text, hex_text, inet6_text, inet_text,
    is_decimal_char, is_hex_char, lemma_longest_run_exists, lemma_zero_run_groups,
    longest_run_start, zero_run, SockAddr,
};
use vstd::prelude::*;

verus! {

/// Whether `c` occurs nowhere in `s`.
pub open spec fn free_of(s: Seq<char>, c: char) -> bool {
    forall|i: int| 0 <= i < s.len() ==> s[i] != c
}

/// Two texts that are equal, each cut at its first `c`, are equal piece by
/// piece.
pub proof fn lemma_split_first(x: Seq<char>, r: Seq<char>, y: Seq<char>, t: Seq<char>, c: char)
    requires
        x.push(c) + r == y.push(c) + t,
        free_of(x, c),
        free_of(y, c),
    ensures
        x == y,
        r == t,
{
    let whole = x.push(c) + r;
    let other = y.push(c) + t;
    if x.len() < y.len() {
        assert(whole[x.len() as int] == c);
        assert(other[x.len() as int] == y[x.len() as int]);
    }
    if y.len() < x.len() {
        assert(other[y.len() as int] == c);
        assert(whole[y.len() as int] == x[y.len() as int]);
    }
    assert(whole.len() == other.len());
    assert forall|i: int| 0 <= i < x.len() implies x[i] == y[i] by {
        assert(whole[i] == x[i]);
        assert(other[i] == y[i]);
    }
    assert(x =~= y);
    assert forall|i: int| 0 <= i < r.len() implies r[i] == t[i] by {
        assert(whole[x.len() + 1 + i] == r[i]);
        assert(other[y.len() + 1 + i] == t[i]);
    }
    assert(r =~= t);
}

/// Two texts that are equal, each cut at its last `c`, are equal piece by
/// piece.
pub proof fn lemma_split_last(x: Seq<char>, r: Seq<char>, y: Seq<char>, t: Seq<char>, c: char)
    requires
        x.push(c) + r == y.push(c) + t,
        free_of(r, c),
        free_of(t, c),
    ensures
        x == y,
        r == t,
{
    let whole = x.push(c) + r;
    let other = y.push(c) + t;
    assert(whole.len() == other.len());
    if x.len() < y.len() {
        // The last `c` of `other` lies inside `r`.
        assert(other[y.len() as int] == c);
        assert(whole[y.len() as int] == r[y.len() - x.len() - 1]);
    }
    if y.len() < x.len() {
        assert(whole[x.len() as int] == c);
        assert(other[x.len() as int] == t[x.len() - y.len() - 1]);
    }
    assert forall|i: int| 0 <= i < x.len() implies x[i] == y[i] by {
        assert(whole[i] == x[i]);
        assert(other[i] == y[i]);
    }
    assert(x =~= y);
    assert forall|i: int| 0 <= i < r.len() implies r[i] == t[i] by {
        assert(whole[x.len() + 1 + i] == r[i]);
        assert(other[y.len() + 1 + i] == t[i]);
    }
    assert(r =~= t);
}

/// Digits have distinct characters, decimal digits decimal characters.
pub proof fn lemma_digit_char(d: nat, e: nat)
    requires
        d < 16,
        e < 16,
    ensures
        is_hex_char(digit_char(d)),
        d < 10 ==> is_decimal_char(digit_char(d)),
        digit_char(d) == digit_char(e) ==> d == e,
{
}

/// A number in decimal consists of decimal digits, and at least one.
pub proof fn lemma_decimal_text_chars(n: nat)
    ensures
        decimal_text(n).len() > 0,
        forall|i: int| 0 <= i < decimal_text(n).len() ==> is_decimal_char(#[trigger] decimal_text(n)[i]),
    decreases n,
{
    lemma_digit_char(n % 10, 0);
    if n >= 10 {
        lemma_decimal_text_chars(n / 10);
    }
}

/// A number in hexadecimal consists of hexadecimal digits, and at least one.
pub proof fn lemma_hex_text_chars(n: nat)
    ensures
        hex_text(n).len() > 0,
        forall|i: int| 0 <= i < hex_text(n).len() ==> is_hex_char(#[trigger] hex_text(n)[i]),
    decreases n,
{
    lemma_digit_char(n % 16, 0);
    if n >= 16 {
        lemma_hex_text_chars(n / 16);
    }
}

/// Different numbers differ in decimal.
pub proof fn lemma_decimal_text_injective(m: nat, n: nat)
    requires
        decimal_text(m) == decimal_text(n),
    ensures
        m == n,
    decreases m,
{
    lemma_decimal_text_chars(m / 10);
    lemma_decimal_text_chars(n / 10);
    lemma_digit_char(m % 10, n % 10);
    if m >= 10 && n >= 10 {
        let x = decimal_text(m / 10);
        let y = decimal_text(n / 10);
        assert(x.push(digit_char(m % 10)).drop_last() =~= x);
        assert(y.push(digit_char(n % 10)).drop_last() =~= y);
        assert(x.push(digit_char(m % 10)).last() == digit_char(m % 10));
        assert(y.push(digit_char(n % 10)).last() == digit_char(n % 10));
        lemma_decimal_text_injective(m / 10, n / 10);
    } else if m < 10 && n < 10 {
        assert(decimal_text(m)[0] == digit_char(m));
        assert(decimal_text(n)[0] == digit_char(n));
    } else if m < 10 {
        assert(decimal_text(m).len() == 1);
        assert(decimal_text(n).len() == decimal_text(n / 10).len() + 1);
    } else {
        assert(decimal_text(n).len() == 1);
        assert(decimal_text(m).len() == decimal_text(m / 10).len() + 1);
    }
}

/// Different numbers differ in hexadecimal.
pub proof fn lemma_hex_text_injective(m: nat, n: nat)
    requires
        hex_text(m) == hex_text(n),
    ensures
        m == n,
    decreases m,
{
    lemma_hex_text_chars(m / 16);
    lemma_hex_text_chars(n / 16);
    lemma_digit_char(m % 16, n % 16);
    if m >= 16 && n >= 16 {
        let x = hex_text(m / 16);
        let y = hex_text(n / 16);
        assert(x.push(digit_char(m % 16)).drop_last() =~= x);
        assert(y.push(digit_char(n % 16)).drop_last() =~= y);
        assert(x.push(digit_char(m % 16)).last() == digit_char(m % 16));
        assert(y.push(digit_char(n % 16)).last() == digit_char(n % 16));
        lemma_hex_text_injective(m / 16, n / 16);
    } else if m < 16 && n < 16 {
        assert(hex_text(m)[0] == digit_char(m));
        assert(hex_text(n)[0] == digit_char(n));
    } else if m < 16 {
        assert(hex_text(m).len() == 1);
        assert(hex_text(n).len() == hex_text(n / 16).len() + 1);
    } else {
        assert(hex_text(n).len() == 1);
        assert(hex_text(m).len() == hex_text(m / 16).len() + 1);
    }
}

/// Dotted-decimal text consists of decimal digits and dots, starts with a
/// digit, and holds a dot.
pub proof fn lemma_inet_text_shape(a: Seq<u8>)
    requires
        a.len() == 4,
    ensures
        inet_text(a).len() >= 7,
        is_decimal_char(inet_text(a)[0]),
        forall|i: int|
            0 <= i < inet_text(a).len() ==> is_decimal_char(#[trigger] inet_text(a)[i])
                || inet_text(a)[i] == '.',
        exists|i: int| 0 <= i < inet_text(a).len() && inet_text(a)[i] == '.',
{
    let d0 = decimal_text(a[0] as nat);
    let d1 = decimal_text(a[1] as nat);
    let d2 = decimal_text(a[2] as nat);
    let d3 = decimal_text(a[3] as nat);
    lemma_decimal_text_chars(a[0] as nat);
    lemma_decimal_text_chars(a[1] as nat);
    lemma_decimal_text_chars(a[2] as nat);
    lemma_decimal_text_chars(a[3] as nat);
    let text = inet_text(a);
    assert(text[0] == d0[0]);
    assert(text[d0.len() as int] == '.');
    assert forall|i: int| 0 <= i < text.len() implies is_decimal_char(#[trigger] text[i]) || text[i]
        == '.' by {
        let n0 = d0.len() as int;
        let n1 = n0 + 1 + d1.len();
        let n2 = n1 + 1 + d2.len();
        if i < n0 {
            assert(text[i] == d0[i]);
        } else if i == n0 {
        } else if i < n1 {
            assert(text[i] == d1[i - n0 - 1]);
        } else if i == n1 {
        } else if i < n2 {
            assert(text[i] == d2[i - n1 - 1]);
        } else if i == n2 {
        } else {
            assert(text[i] == d3[i - n2 - 1]);
        }
    }
}

/// A number in decimal holds no dot.
proof fn lemma_decimal_text_has_no_dot(n: nat)
    ensures
        free_of(decimal_text(n), '.'),
{
    lemma_decimal_text_chars(n);
}

/// Dotted-decimal text, cut at its dots.
proof fn lemma_inet_text_parts(a: Seq<u8>)
    requires
        a.len() == 4,
    ensures
        inet_text(a) == decimal_text(a[0] as nat).push('.') + (decimal_text(a[1] as nat).push('.')
            + (decimal_text(a[2] as nat).push('.') + decimal_text(a[3] as nat))),
{
    let d0 = decimal_text(a[0] as nat);
    let d1 = decimal_text(a[1] as nat);
    let d2 = decimal_text(a[2] as nat);
    let d3 = decimal_text(a[3] as nat);
    assert(inet_text(a) =~= d0.push('.') + (d1.push('.') + (d2.push('.') + d3)));
}

/// Different IPv4 addresses differ in dotted decimal.
pub proof fn lemma_inet_text_injective(a: Seq<u8>, b: Seq<u8>)
    requires
        a.len() == 4,
        b.len() == 4,
        inet_text(a) == inet_text(b),
    ensures
        a == b,
{
    let d0 = decimal_text(a[0] as nat);
    let d1 = decimal_text(a[1] as nat);
    let d2 = decimal_text(a[2] as nat);
    let d3 = decimal_text(a[3] as nat);
    let e0 = decimal_text(b[0] as nat);
    let e1 = decimal_text(b[1] as nat);
    let e2 = decimal_text(b[2] as nat);
    let e3 = decimal_text(b[3] as nat);
    lemma_inet_text_parts(a);
    lemma_inet_text_parts(b);
    lemma_decimal_text_has_no_dot(a[0] as nat);
    lemma_decimal_text_has_no_dot(a[1] as nat);
    lemma_decimal_text_has_no_dot(a[2] as nat);
    lemma_decimal_text_has_no_dot(b[0] as nat);
    lemma_decimal_text_has_no_dot(b[1] as nat);
    lemma_decimal_text_has_no_dot(b[2] as nat);
    lemma_split_first(
        d0,
        d1.push('.') + (d2.push('.') + d3),
        e0,
        e1.push('.') + (e2.push('.') + e3),
        '.',
    );
    lemma_split_first(d1, d2.push('.') + d3, e1, e2.push('.') + e3, '.');
    lemma_split_first(d2, d3, e2, e3, '.');
    lemma_decimal_text_injective(a[0] as nat, b[0] as nat);
    lemma_decimal_text_injective(a[1] as nat, b[1] as nat);
    lemma_decimal_text_injective(a[2] as nat, b[2] as nat);
    lemma_decimal_text_injective(a[3] as nat, b[3] as nat);
    assert(a =~= b);
}

/// Whether `s` reads as groups of hexadecimal digits with single colons
/// between them: it holds nothing else, and every colon has a digit on
/// either side.
pub open spec fn is_group_list(s: Seq<char>) -> bool {
    &&& forall|i: int| 0 <= i < s.len() ==> is_hex_char(#[trigger] s[i]) || s[i] == ':'
    &&& forall|i: int|
        0 <= i < s.len() && #[trigger] s[i] == ':' ==> 0 < i < s.len() - 1 && s[i - 1] != ':'
            && s[i + 1] != ':'
}

/// Groups written in hexadecimal read as a group list, which is empty only
/// for no group at all.
pub proof fn lemma_groups_text_shape(a: Seq<u8>, from: int, to: int)
    requires
        from <= to,
    ensures
        is_group_list(groups_text(a, from, to)),
        from < to ==> groups_text(a, from, to).len() > 0,
        from == to ==> groups_text(a, from, to).len() == 0,
    decreases to - from,
{
    if from < to {
        let last = hex_text(group(a, to - 1));
        lemma_hex_text_chars(group(a, to - 1));
        if from + 1 < to {
            let before = groups_text(a, from, to - 1);
            lemma_groups_text_shape(a, from, to - 1);
            let text = groups_text(a, from, to);
            assert(text =~= before.push(':') + last);
            let n = before.len() as int;
            assert forall|i: int| 0 <= i < text.len() implies is_hex_char(#[trigger] text[i])
                || text[i] == ':' by {
                if i < n {
                    assert(text[i] == before[i]);
                } else if i > n {
                    assert(text[i] == last[i - n - 1]);
                }
            }
            assert forall|i: int| 0 <= i < text.len() && #[trigger] text[i] == ':' implies 0 < i
                < text.len() - 1 && text[i - 1] != ':' && text[i + 1] != ':' by {
                if i < n {
                    assert(text[i] == before[i]);
                    assert(text[i - 1] == before[i - 1]);
                    assert(text[i + 1] == before[i + 1]);
                } else if i == n {
                    assert(text[i - 1] == before[n - 1]);
                    assert(is_hex_char(before[n - 1]) || before[n - 1] == ':');
                    assert(text[i + 1] == last[0]);
                } else {
                    assert(text[i] == last[i - n - 1]);
                }
            }
        }
    }
}

/// Lists of groups with the same text have the same number of groups and the
/// same groups.
pub proof fn lemma_groups_text_injective(
    a: Seq<u8>,
    from: int,
    to: int,
    b: Seq<u8>,
    other_from: int,
    other_to: int,
)
    requires
        from <= to,
        other_from <= other_to,
        groups_text(a, from, to) == groups_text(b, other_from, other_to),
    ensures
        to - from == other_to - other_from,
        forall|j: int|
            from <= j < to ==> #[trigger] group(a, j) == group(b, j - from + other_from),
    decreases to - from,
{
    lemma_groups_text_shape(a, from, to);
    lemma_groups_text_shape(b, other_from, other_to);
    if from < to && other_from < other_to {
        let last = hex_text(group(a, to - 1));
        let other_last = hex_text(group(b, other_to - 1));
        lemma_hex_text_chars(group(a, to - 1));
        lemma_hex_text_chars(group(b, other_to - 1));
        assert(free_of(last, ':'));
        assert(free_of(other_last, ':'));
        if from + 1 < to && other_from + 1 < other_to {
            let before = groups_text(a, from, to - 1);
            let other_before = groups_text(b, other_from, other_to - 1);
            assert(groups_text(a, from, to) =~= before.push(':') + last);
            assert(groups_text(b, other_from, other_to) =~= other_before.push(':') + other_last);
            lemma_split_last(before, last, other_before, other_last, ':');
            lemma_groups_text_injective(a, from, to - 1, b, other_from, other_to - 1);
            lemma_hex_text_injective(group(a, to - 1), group(b, other_to - 1));
            assert forall|j: int| from <= j < to implies #[trigger] group(a, j) == group(
                b,
                j - from + other_from,
            ) by {
                if j == to - 1 {
                    assert(j - from + other_from == other_to - 1);
                }
            }
        } else if from + 1 == to && other_from + 1 == other_to {
            lemma_hex_text_injective(group(a, from), group(b, other_from));
        } else if from + 1 == to {
            let other_before = groups_text(b, other_from, other_to - 1);
            let other_text = groups_text(b, other_from, other_to);
            assert(other_text =~= other_before.push(':') + other_last);
            assert(other_text[other_before.len() as int] == ':');
        } else {
            let before = groups_text(a, from, to - 1);
            let text = groups_text(a, from, to);
            assert(text =~= before.push(':') + last);
            assert(text[before.len() as int] == ':');
        }
    }
}

/// A group determines its two octets.
pub proof fn lemma_group_determines_octets(a: Seq<u8>, b: Seq<u8>, i: int)
    requires
        group(a, i) == group(b, i),
    ensures
        a[2 * i] == b[2 * i],
        a[2 * i + 1] == b[2 * i + 1],
{
}

/// Whether the text of `a` ends in dotted decimal: its first six groups are
/// exactly its longest run of zero groups, or its first five are zero and
/// the sixth is `ffff`.
pub open spec fn is_mixed(a: Seq<u8>) -> bool {
    let start = longest_run_start(a);
    let len = zero_run(a, start);
    start == 0 && (len == 6 || (len == 5 && group(a, 5) == 0xffff))
}

/// A text that ends in dotted decimal starts with two colons, goes on with a
/// decimal digit or with `ffff:`, and holds a dot.
proof fn lemma_mixed_text(a: Seq<u8>)
    requires
        a.len() == 16,
        is_mixed(a),
    ensures
        zero_run(a, 0) == 6 ==> inet6_text(a) == seq![':', ':'] + inet_text(a.subrange(12, 16))
            && is_decimal_char(inet6_text(a)[2]),
        zero_run(a, 0) == 5 ==> inet6_text(a) == seq![':', ':', 'f', 'f', 'f', 'f', ':']
            + inet_text(a.subrange(12, 16)) && inet6_text(a)[2] == 'f',
        inet6_text(a).len() > 2,
        exists|i: int| 0 <= i < inet6_text(a).len() && inet6_text(a)[i] == '.',
{
    let tail = inet_text(a.subrange(12, 16));
    lemma_inet_text_shape(a.subrange(12, 16));
    let k = choose|i: int| 0 <= i < tail.len() && tail[i] == '.';
    let text = inet6_text(a);
    if zero_run(a, 0) == 6 {
        assert(text[2] == tail[0]);
        assert(text[2 + k] == tail[k]);
    } else {
        assert(text[7 + k] == tail[k]);
    }
}

/// A text that does not end in dotted decimal is one list of eight groups,
/// or two lists of groups with two colons between them. It holds
/// hexadecimal digits and colons only.
proof fn lemma_plain_text(a: Seq<u8>)
    requires
        a.len() == 16,
        !is_mixed(a),
    ensures
        ({
            let start = longest_run_start(a);
            let len = zero_run(a, start);
            &&& 0 <= start < 8
            &&& start + len <= 8
            &&& len < 2 ==> inet6_text(a) == groups_text(a, 0, 8)
            &&& len >= 2 ==> inet6_text(a) == groups_text(a, 0, start).push(':').push(':')
                + groups_text(a, start + len, 8)
        }),
        forall|i: int|
            0 <= i < inet6_text(a).len() ==> is_hex_char(#[trigger] inet6_text(a)[i])
                || inet6_text(a)[i] == ':',
{
    let start = longest_run_start(a);
    let len = zero_run(a, start) as int;
    lemma_longest_run_exists(a);
    lemma_zero_run_groups(a, start);
    let text = inet6_text(a);
    if len < 2 {
        lemma_groups_text_shape(a, 0, 8);
    } else {
        let head = groups_text(a, 0, start);
        let tail = groups_text(a, start + len, 8);
        lemma_groups_text_shape(a, 0, start);
        lemma_groups_text_shape(a, start + len, 8);
        assert(text =~= head.push(':').push(':') + tail);
        let n = head.len() as int;
        assert forall|i: int| 0 <= i < text.len() implies is_hex_char(#[trigger] text[i])
            || text[i] == ':' by {
            if i < n {
                assert(text[i] == head[i]);
            } else if i >= n + 2 {
                assert(text[i] == tail[i - n - 2]);
            }
        }
    }
}

/// Two lists of groups with two colons between them are cut at the same
/// place by any two ways of reading them so.
proof fn lemma_split_at_double_colon(
    head: Seq<char>,
    tail: Seq<char>,
    other_head: Seq<char>,
    other_tail: Seq<char>,
)
    requires
        is_group_list(head),
        is_group_list(other_head),
        head.push(':').push(':') + tail == other_head.push(':').push(':') + other_tail,
    ensures
        head == other_head,
        tail == other_tail,
{
    let text = head.push(':').push(':') + tail;
    let other = other_head.push(':').push(':') + other_tail;
    let n = head.len() as int;
    let m = other_head.len() as int;
    assert(text[n] == ':' && text[n + 1] == ':');
    assert(other[m] == ':' && other[m + 1] == ':');
    if n < m {
        assert(other[n] == other_head[n]);
        assert(other_head[n] == ':');
        assert(other[n + 1] == other_head[n + 1]);
    }
    if m < n {
        assert(text[m] == head[m]);
        assert(head[m] == ':');
        assert(text[m + 1] == head[m + 1]);
    }
    assert forall|i: int| 0 <= i < n implies head[i] == other_head[i] by {
        assert(text[i] == head[i]);
        assert(other[i] == other_head[i]);
    }
    assert(head =~= other_head);
    assert(text.len() == other.len());
    assert forall|i: int| 0 <= i < tail.len() implies tail[i] == other_tail[i] by {
        assert(text[n + 2 + i] == tail[i]);
        assert(other[m + 2 + i] == other_tail[i]);
    }
    assert(tail =~= other_tail);
}

/// Addresses with the same eight groups are the same.
proof fn lemma_groups_determine_address(a: Seq<u8>, b: Seq<u8>)
    requires
        a.len() == 16,
        b.len() == 16,
        forall|j: int| 0 <= j < 8 ==> #[trigger] group(a, j) == group(b, j),
    ensures
        a == b,
{
    assert forall|i: int| 0 <= i < 16 implies a[i] == b[i] by {
        let j = i / 2;
        assert(group(a, j) == group(b, j));
        lemma_group_determines_octets(a, b, j);
    }
    assert(a =~= b);
}

/// Different IPv6 addresses differ in their text.
pub proof fn lemma_inet6_text_injective(a: Seq<u8>, b: Seq<u8>)
    requires
        a.len() == 16,
        b.len() == 16,
        inet6_text(a) == inet6_text(b),
    ensures
        a == b,
{
    let text = inet6_text(a);
    if is_mixed(a) && is_mixed(b) {
        lemma_mixed_text(a);
        lemma_mixed_text(b);
        lemma_zero_run_groups(a, 0);
        lemma_zero_run_groups(b, 0);
        let last = inet_text(a.subrange(12, 16));
        let other_last = inet_text(b.subrange(12, 16));
        assert(zero_run(a, 0) == zero_run(b, 0));
        if zero_run(a, 0) == 6 {
            assert(last =~= text.skip(2));
            assert(other_last =~= text.skip(2));
        } else {
            assert(last =~= text.skip(7));
            assert(other_last =~= text.skip(7));
        }
        lemma_inet_text_injective(a.subrange(12, 16), b.subrange(12, 16));
        assert forall|j: int| 0 <= j < 8 implies #[trigger] group(a, j) == group(b, j) by {
            if j >= 6 {
                assert(a.subrange(12, 16)[2 * j - 12] == a[2 * j]);
                assert(b.subrange(12, 16)[2 * j - 12] == b[2 * j]);
                assert(a.subrange(12, 16)[2 * j - 11] == a[2 * j + 1]);
                assert(b.subrange(12, 16)[2 * j - 11] == b[2 * j + 1]);
            }
        }
        lemma_groups_determine_address(a, b);
    } else if is_mixed(a) {
        lemma_mixed_text(a);
        lemma_plain_text(b);
    } else if is_mixed(b) {
        lemma_mixed_text(b);
        lemma_plain_text(a);
    } else {
        lemma_plain_text(a);
        lemma_plain_text(b);
        let start = longest_run_start(a);
        let len = zero_run(a, start) as int;
        let other_start = longest_run_start(b);
        let other_len = zero_run(b, other_start) as int;
        let head = groups_text(a, 0, start);
        let tail = groups_text(a, start + len, 8);
        let other_head = groups_text(b, 0, other_start);
        let other_tail = groups_text(b, other_start + other_len, 8);
        lemma_groups_text_shape(a, 0, start);
        lemma_groups_text_shape(b, 0, other_start);
        if len < 2 && other_len < 2 {
            lemma_groups_text_injective(a, 0, 8, b, 0, 8);
        } else if len < 2 {
            lemma_groups_text_shape(a, 0, 8);
            let n = other_head.len() as int;
            assert(text[n] == ':' && text[n + 1] == ':');
        } else if other_len < 2 {
            lemma_groups_text_shape(b, 0, 8);
            let n = head.len() as int;
            assert(text[n] == ':' && text[n + 1] == ':');
        } else {
            lemma_split_at_double_colon(head, tail, other_head, other_tail);
            lemma_groups_text_injective(a, 0, start, b, 0, other_start);
            lemma_groups_text_injective(a, start + len, 8, b, other_start + other_len, 8);
            lemma_zero_run_groups(a, start);
            lemma_zero_run_groups(b, other_start);
            assert forall|j: int| 0 <= j < 8 implies #[trigger] group(a, j) == group(b, j) by {
                if j >= start + len {
                    assert(j - (start + len) + (other_start + other_len) == j);
                }
            }
        }
        lemma_groups_determine_address(a, b);
    }
}

/// The text of an IPv6 address holds a colon.
proof fn lemma_inet6_text_has_colon(a: Seq<u8>)
    requires
        a.len() == 16,
    ensures
        exists|i: int| 0 <= i < inet6_text(a).len() && inet6_text(a)[i] == ':',
{
    let text = inet6_text(a);
    if is_mixed(a) {
        lemma_mixed_text(a);
        assert(text[0] == ':');
    } else {
        lemma_plain_text(a);
        let start = longest_run_start(a);
        let len = zero_run(a, start) as int;
        if len < 2 {
            let before = groups_text(a, 0, 7);
            lemma_groups_text_shape(a, 0, 7);
            assert(text =~= before.push(':') + hex_text(group(a, 7)));
            assert(text[before.len() as int] == ':');
        } else {
            let head = groups_text(a, 0, start);
            assert(text[head.len() as int] == ':');
        }
    }
}

/// The text of an IP address determines the address: two addresses of the
/// two IP families with the same text are the same address.
pub proof fn lemma_text_determines_address(x: SockAddr, y: SockAddr)
    requires
        !(x is Other),
        !(y is Other),
        x.text() == y.text(),
    ensures
        x == y,
{
    match (x, y) {
        (SockAddr::Inet(a), SockAddr::Inet(b)) => {
            lemma_inet_text_injective(a@, b@);
            assert(a =~= b);
        },
        (SockAddr::Inet6(a), SockAddr::Inet6(b)) => {
            lemma_inet6_text_injective(a@, b@);
            assert(a =~= b);
        },
        (SockAddr::Inet(a), SockAddr::Inet6(b)) => {
            lemma_inet_text_shape(a@);
            lemma_inet6_text_has_colon(b@);
        },
        (SockAddr::Inet6(a), SockAddr::Inet(b)) => {
            lemma_inet_text_shape(b@);
            lemma_inet6_text_has_colon(a@);
        },
        _ => {},
    }
}

} // verus!
