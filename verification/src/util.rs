//! Conversions from decoded foreign data to text: NUL-terminated byte
//! strings, and socket addresses in their presentation format.

use vstd::prelude::*;
use vstd::slice::*;
use vstd::string::*;
use vstd::utf8::*;

verus! {

/// The error type of `core::str::from_utf8`, carried through unread.
#[verifier::external_type_specification]
#[verifier::external_body]
pub struct ExUtf8Error(core::str::Utf8Error);

/// `core::str::from_utf8` accepts exactly the byte strings that are valid
/// UTF-8, and the string slice it then gives consists of the same bytes.
pub assume_specification[ core::str::from_utf8 ](v: &[u8]) -> (r: Result<
    &str,
    core::str::Utf8Error,
>)
    ensures
        r is Ok <==> valid_utf8(v@),
        r matches Ok(s) ==> s.spec_bytes() == v@,
;

/// A byte string that is not valid UTF-8.
#[derive(Clone, Copy, Debug, PartialEq, Eq)]
pub struct InvalidUtf8;

/// Whether the NUL-terminated string in `buf` ends before index `n`: no byte
/// before `n` is NUL, and the byte at `n`, if there is one, is.
pub open spec fn is_text_end(buf: Seq<u8>, n: int) -> bool {
    &&& 0 <= n <= buf.len()
    &&& forall|i: int| 0 <= i < n ==> buf[i] != 0
    &&& n < buf.len() ==> buf[n] == 0
}

/// The bytes of the NUL-terminated string in `buf`: those before its first
/// NUL byte, or all of them if it holds none.
pub open spec fn text_bytes(buf: Seq<u8>) -> Seq<u8> {
    buf.take(choose|n: int| is_text_end(buf, n))
}

/// A socket address, as far as its family and network address go.
#[derive(Clone, Copy, Debug)]
pub enum SockAddr {
    /// An IPv4 address: its four octets in network order.
    Inet([u8; 4]),
    /// An IPv6 address: its sixteen octets in network order.
    Inet6([u8; 16]),
    /// An address of any other family.
    Other,
}

/// Whether `c` is one of the ten decimal digits.
pub open spec fn is_decimal_char(c: char) -> bool {
    '0' <= c <= '9'
}

/// Whether `c` is a decimal digit or one of the letters `a` to `f`.
pub open spec fn is_hex_char(c: char) -> bool {
    is_decimal_char(c) || 'a' <= c <= 'f'
}

/// The character that stands for digit `d` in bases up to sixteen, in lower
/// case.
pub open spec fn digit_char(d: nat) -> char {
    if d == 0 {
        '0'
    } else if d == 1 {
        '1'
    } else if d == 2 {
        '2'
    } else if d == 3 {
        '3'
    } else if d == 4 {
        '4'
    } else if d == 5 {
        '5'
    } else if d == 6 {
        '6'
    } else if d == 7 {
        '7'
    } else if d == 8 {
        '8'
    } else if d == 9 {
        '9'
    } else if d == 10 {
        'a'
    } else if d == 11 {
        'b'
    } else if d == 12 {
        'c'
    } else if d == 13 {
        'd'
    } else if d == 14 {
        'e'
    } else {
        'f'
    }
}

/// `n` in decimal, without leading zeros.
pub open spec fn decimal_text(n: nat) -> Seq<char>
    decreases n,
{
    if n < 10 {
        seq![digit_char(n)]
    } else {
        decimal_text(n / 10).push(digit_char(n % 10))
    }
}

/// `n` in lower-case hexadecimal, without leading zeros.
pub open spec fn hex_text(n: nat) -> Seq<char>
    decreases n,
{
    if n < 16 {
        seq![digit_char(n)]
    } else {
        hex_text(n / 16).push(digit_char(n % 16))
    }
}

/// Dotted-decimal text of the four octets `a`.
pub open spec fn inet_text(a: Seq<u8>) -> Seq<char> {
    decimal_text(a[0] as nat) + seq!['.'] + decimal_text(a[1] as nat) + seq!['.']
        + decimal_text(a[2] as nat) + seq!['.'] + decimal_text(a[3] as nat)
}

/// Group `i` of the sixteen octets `a`: octets `2 * i` and `2 * i + 1` read
/// as one big-endian number.
pub open spec fn group(a: Seq<u8>, i: int) -> nat {
    (a[2 * i] as nat) * 256 + a[2 * i + 1] as nat
}

/// Number of consecutive zero groups of `a` from group `i` on.
pub open spec fn zero_run(a: Seq<u8>, i: int) -> nat
    decreases 8 - i,
{
    if 0 <= i < 8 && group(a, i) == 0 {
        1 + zero_run(a, i + 1)
    } else {
        0
    }
}

/// Whether the longest run of zero groups of `a` starts at group `s`, and no
/// run of that length starts further left.
pub open spec fn starts_longest_run(a: Seq<u8>, s: int) -> bool {
    &&& 0 <= s < 8
    &&& forall|i: int| 0 <= i < s ==> zero_run(a, i) < zero_run(a, s)
    &&& forall|i: int| s < i < 8 ==> zero_run(a, i) <= zero_run(a, s)
}

/// The group at which the leftmost longest run of zero groups of `a` starts.
pub open spec fn longest_run_start(a: Seq<u8>) -> int {
    choose|s: int| starts_longest_run(a, s)
}

/// Groups `from..to` of `a` in hexadecimal, separated by colons.
pub open spec fn groups_text(a: Seq<u8>, from: int, to: int) -> Seq<char>
    decreases to - from,
{
    if from >= to {
        Seq::empty()
    } else if from + 1 == to {
        hex_text(group(a, from))
    } else {
        groups_text(a, from, to - 1) + seq![':'] + hex_text(group(a, to - 1))
    }
}

/// Presentation text of the sixteen octets `a`.
///
/// The leftmost longest run of two or more zero groups is written as `::`.
/// An address whose first six groups are exactly its longest zero run, or
/// whose first five groups are zero and whose sixth is `ffff`, ends in the
/// dotted-decimal text of its last four octets.
pub open spec fn inet6_text(a: Seq<u8>) -> Seq<char> {
    let start = longest_run_start(a);
    let len = zero_run(a, start);
    if start == 0 && len == 6 {
        seq![':', ':'] + inet_text(a.subrange(12, 16))
    } else if start == 0 && len == 5 && group(a, 5) == 0xffff {
        seq![':', ':', 'f', 'f', 'f', 'f', ':'] + inet_text(a.subrange(12, 16))
    } else if len < 2 {
        groups_text(a, 0, 8)
    } else {
        groups_text(a, 0, start) + seq![':', ':'] + groups_text(a, start + len, 8)
    }
}

impl SockAddr {
    /// The text that stands for this address: its presentation format for the
    /// two IP families, the empty text for every other family.
    pub open spec fn text(self) -> Seq<char> {
        match self {
            SockAddr::Inet(a) => inet_text(a@),
            SockAddr::Inet6(a) => inet6_text(a@),
            SockAddr::Other => Seq::empty(),
        }
    }
}

/// Appends the character of digit `d` to `out`.
fn push_digit(out: &mut String, d: u8)
    requires
        d < 16,
    ensures
        final(out)@ == old(out)@.push(digit_char(d as nat)),
{
    proof {
        reveal_strlit("0");
        reveal_strlit("1");
        reveal_strlit("2");
        reveal_strlit("3");
        reveal_strlit("4");
        reveal_strlit("5");
        reveal_strlit("6");
        reveal_strlit("7");
        reveal_strlit("8");
        reveal_strlit("9");
        reveal_strlit("a");
        reveal_strlit("b");
        reveal_strlit("c");
        reveal_strlit("d");
        reveal_strlit("e");
        reveal_strlit("f");
    }
    let digit = match d {
        0 => "0",
        1 => "1",
        2 => "2",
        3 => "3",
        4 => "4",
        5 => "5",
        6 => "6",
        7 => "7",
        8 => "8",
        9 => "9",
        10 => "a",
        11 => "b",
        12 => "c",
        13 => "d",
        14 => "e",
        _ => "f",
    };
    assert(digit@ =~= seq![digit_char(d as nat)]);
    out.append(digit);
    assert(out@ =~= old(out)@.push(digit_char(d as nat)));
}

/// Appends `n` in decimal to `out`.
fn push_decimal(out: &mut String, n: u8)
    ensures
        final(out)@ == old(out)@ + decimal_text(n as nat),
{
    proof {
        reveal_with_fuel(decimal_text, 3);
    }
    if n >= 100 {
        push_digit(out, n / 100);
        push_digit(out, (n / 10) % 10);
    } else if n >= 10 {
        push_digit(out, n / 10);
    }
    push_digit(out, n % 10);
    assert(out@ =~= old(out)@ + decimal_text(n as nat));
}

/// Appends `n` in lower-case hexadecimal to `out`.
fn push_hex(out: &mut String, n: u16)
    ensures
        final(out)@ == old(out)@ + hex_text(n as nat),
{
    proof {
        reveal_with_fuel(hex_text, 4);
    }
    if n >= 0x1000 {
        push_digit(out, (n / 0x1000) as u8);
        push_digit(out, ((n / 0x100) % 16) as u8);
        push_digit(out, ((n / 0x10) % 16) as u8);
    } else if n >= 0x100 {
        push_digit(out, (n / 0x100) as u8);
        push_digit(out, ((n / 0x10) % 16) as u8);
    } else if n >= 0x10 {
        push_digit(out, (n / 0x10) as u8);
    }
    push_digit(out, (n % 16) as u8);
    assert(out@ =~= old(out)@ + hex_text(n as nat));
}

/// Appends the dotted-decimal text of the four octets to `out`.
fn push_inet(out: &mut String, a: u8, b: u8, c: u8, d: u8)
    ensures
        final(out)@ == old(out)@ + inet_text(seq![a, b, c, d]),
{
    proof {
        reveal_strlit(".");
    }
    push_decimal(out, a);
    out.append(".");
    push_decimal(out, b);
    out.append(".");
    push_decimal(out, c);
    out.append(".");
    push_decimal(out, d);
    assert(out@ =~= old(out)@ + inet_text(seq![a, b, c, d]));
}

/// Reads group `i` of the address.
fn group_at(a: &[u8; 16], i: usize) -> (g: u16)
    requires
        i < 8,
    ensures
        g == group(a@, i as int),
{
    (a[2 * i] as u16) * 256 + (a[2 * i + 1] as u16)
}

/// Appends groups `from..to` in hexadecimal, separated by colons, to `out`.
fn push_groups(out: &mut String, a: &[u8; 16], from: usize, to: usize)
    requires
        from <= to <= 8,
    ensures
        final(out)@ == old(out)@ + groups_text(a@, from as int, to as int),
{
    let mut i: usize = from;
    assert(out@ =~= old(out)@ + groups_text(a@, from as int, i as int));
    while i < to
        invariant
            from <= i <= to <= 8,
            out@ == old(out)@ + groups_text(a@, from as int, i as int),
        decreases to - i,
    {
        let ghost done = groups_text(a@, from as int, i as int);
        if i > from {
            proof {
                reveal_strlit(":");
            }
            out.append(":");
        }
        let g = group_at(a, i);
        push_hex(out, g);
        proof {
            if i > from {
                assert(out@ =~= old(out)@ + (done + seq![':'] + hex_text(g as nat)));
            } else {
                assert(done =~= Seq::<char>::empty());
                assert(out@ =~= old(out)@ + hex_text(g as nat));
            }
        }
        i = i + 1;
    }
}

/// Finds where the leftmost longest run of zero groups starts, and how long
/// it is.
fn find_longest_run(a: &[u8; 16]) -> (r: (usize, usize))
    ensures
        r.0 == longest_run_start(a@),
        r.1 == zero_run(a@, r.0 as int),
{
    let mut run: usize = if group_at(a, 7) == 0 {
        1
    } else {
        0
    };
    let mut best: usize = 7;
    let mut best_len: usize = run;
    let mut i: usize = 7;
    assert(zero_run(a@, 8) == 0);
    while i > 0
        invariant
            i <= best < 8,
            run == zero_run(a@, i as int),
            run <= 8 - i,
            best_len == zero_run(a@, best as int),
            forall|j: int| i <= j < best ==> zero_run(a@, j) < zero_run(a@, best as int),
            forall|j: int| best < j < 8 ==> zero_run(a@, j) <= zero_run(a@, best as int),
        decreases i,
    {
        i = i - 1;
        if group_at(a, i) == 0 {
            run = run + 1;
        } else {
            run = 0;
        }
        if run >= best_len {
            best = i;
            best_len = run;
        }
    }
    assert(starts_longest_run(a@, best as int));
    let ghost chosen = longest_run_start(a@);
    assert(starts_longest_run(a@, chosen));
    assert(chosen == best);
    (best, best_len)
}

/// Appends the presentation text of the sixteen octets to `out`.
fn push_inet6(out: &mut String, a: &[u8; 16])
    ensures
        final(out)@ == old(out)@ + inet6_text(a@),
{
    proof {
        reveal_strlit("::");
        reveal_strlit("::ffff:");
    }
    let (start, len) = find_longest_run(a);
    assert(a@.subrange(12, 16) =~= seq![a@[12], a@[13], a@[14], a@[15]]);
    if start == 0 && len == 6 {
        out.append("::");
        push_inet(out, a[12], a[13], a[14], a[15]);
    } else if start == 0 && len == 5 && group_at(a, 5) == 0xffff {
        out.append("::ffff:");
        push_inet(out, a[12], a[13], a[14], a[15]);
    } else if len < 2 {
        push_groups(out, a, 0, 8);
    } else {
        assert(start + len <= 8) by {
            lemma_zero_run_groups(a@, start as int);
        }
        push_groups(out, a, 0, start);
        out.append("::");
        push_groups(out, a, start + len, 8);
    }
    assert(out@ =~= old(out)@ + inet6_text(a@));
}

/// Whether two strings hold the same text.
pub fn same_text(a: &str, b: &str) -> (same: bool)
    ensures
        same == (a@ == b@),
{
    let x = a.as_bytes();
    let y = b.as_bytes();
    proof {
        encode_utf8_decode_utf8(a@);
        encode_utf8_decode_utf8(b@);
    }
    if x.len() != y.len() {
        return false;
    }
    let mut i: usize = 0;
    while i < x.len()
        invariant
            i <= x@.len(),
            x@.len() == y@.len(),
            x@ == a.spec_bytes(),
            y@ == b.spec_bytes(),
            forall|j: int| 0 <= j < i ==> x@[j] == y@[j],
        decreases x@.len() - i,
    {
        if x[i] != y[i] {
            return false;
        }
        i = i + 1;
    }
    assert(x@ =~= y@);
    true
}

/// Decodes the NUL-terminated string in `buf`.
///
/// The string ends before the first NUL byte of `buf`, or with `buf` if it
/// holds none. It is returned if its bytes are valid UTF-8, and refused
/// otherwise.
pub fn utf8_from_ptr(buf: &[u8]) -> (r: Result<&str, InvalidUtf8>)
    ensures
        r is Ok <==> valid_utf8(text_bytes(buf@)),
        r matches Ok(s) ==> s@ == decode_utf8(text_bytes(buf@)),
{
    let mut end: usize = 0;
    while end < buf.len() && buf[end] != 0
        invariant
            end <= buf@.len(),
            forall|i: int| 0 <= i < end ==> buf@[i] != 0,
        decreases buf@.len() - end,
    {
        end = end + 1;
    }
    proof {
        let chosen = choose|n: int| is_text_end(buf@, n);
        assert(is_text_end(buf@, end as int));
        assert(chosen == end);
    }
    let bytes = slice_subrange(buf, 0, end);
    match core::str::from_utf8(bytes) {
        Ok(s) => {
            proof {
                encode_utf8_decode_utf8(s@);
            }
            Ok(s)
        },
        Err(_) => Err(InvalidUtf8),
    }
}

/// Gives the text of a socket address: dotted decimal for IPv4, colon-separated
/// hexadecimal for IPv6, and the empty string for any other family.
pub fn get_in_addr(addr: &SockAddr) -> (text: String)
    ensures
        text@ == addr.text(),
{
    let mut text = String::new();
    match addr {
        SockAddr::Inet(a) => {
            assert(a@ =~= seq![a@[0], a@[1], a@[2], a@[3]]);
            push_inet(&mut text, a[0], a[1], a[2], a[3]);
        },
        SockAddr::Inet6(a) => {
            push_inet6(&mut text, a);
        },
        SockAddr::Other => {},
    }
    assert(text@ =~= addr.text());
    text
}

/// The text of a number is never empty, and that of an octet or a group
/// has at most three or four digits.
proof fn lemma_number_text_len(n: nat)
    ensures
        decimal_text(n).len() > 0,
        hex_text(n).len() > 0,
        n < 256 ==> decimal_text(n).len() <= 3,
        n < 0x1_0000 ==> hex_text(n).len() <= 4,
{
    reveal_with_fuel(decimal_text, 3);
    reveal_with_fuel(hex_text, 4);
}

/// Groups written in hexadecimal take at most four digits each, and a colon
/// between neighbours.
proof fn lemma_groups_text_len(a: Seq<u8>, from: int, to: int)
    requires
        a.len() == 16,
        0 <= from <= to <= 8,
    ensures
        groups_text(a, from, to).len() <= 5 * (to - from),
        from < to ==> 0 < groups_text(a, from, to).len() <= 5 * (to - from) - 1,
    decreases to - from,
{
    if from < to {
        lemma_number_text_len(group(a, to - 1));
        if from + 1 < to {
            lemma_groups_text_len(a, from, to - 1);
        }
    }
}

/// Only an address outside the two IP families has the empty text, and no
/// text is longer than 39 characters.
pub proof fn lemma_text_len(address: SockAddr)
    ensures
        address.text().len() == 0 <==> address is Other,
        address.text().len() <= 39,
{
    match address {
        SockAddr::Inet(a) => {
            lemma_inet_text_len(a@);
        },
        SockAddr::Inet6(a) => {
            let start = longest_run_start(a@);
            let len = zero_run(a@, start) as int;
            lemma_inet_text_len(a@.subrange(12, 16));
            lemma_groups_text_len(a@, 0, 8);
            if len >= 2 {
                assert(starts_longest_run(a@, start)) by {
                    lemma_longest_run_exists(a@);
                }
                lemma_zero_run_groups(a@, start);
                lemma_groups_text_len(a@, 0, start);
                lemma_groups_text_len(a@, start + len, 8);
            }
        },
        SockAddr::Other => {},
    }
}

/// Dotted-decimal text has between seven and fifteen characters.
proof fn lemma_inet_text_len(a: Seq<u8>)
    requires
        a.len() == 4,
    ensures
        7 <= inet_text(a).len() <= 15,
{
    lemma_number_text_len(a[0] as nat);
    lemma_number_text_len(a[1] as nat);
    lemma_number_text_len(a[2] as nat);
    lemma_number_text_len(a[3] as nat);
}

/// A run of zero groups consists of zero groups, ends with the last group at
/// the latest, and is followed by a group that is not zero, if by any.
pub proof fn lemma_zero_run_groups(a: Seq<u8>, i: int)
    requires
        0 <= i <= 8,
    ensures
        i + zero_run(a, i) <= 8,
        forall|j: int| i <= j < i + zero_run(a, i) ==> group(a, j) == 0,
        i + zero_run(a, i) < 8 ==> group(a, i + zero_run(a, i)) != 0,
    decreases 8 - i,
{
    if i < 8 && group(a, i) == 0 {
        lemma_zero_run_groups(a, i + 1);
    }
}

/// Every address has a leftmost longest run of zero groups.
pub proof fn lemma_longest_run_exists(a: Seq<u8>)
    ensures
        starts_longest_run(a, longest_run_start(a)),
{
    let s = lemma_longest_run_among(a, 0);
    assert(starts_longest_run(a, s));
}

/// Among the groups from `from` on, one starts a run of zero groups that is
/// longer than every run further left and no shorter than any further right.
proof fn lemma_longest_run_among(a: Seq<u8>, from: int) -> (s: int)
    requires
        0 <= from < 8,
    ensures
        from <= s < 8,
        forall|i: int| from <= i < s ==> zero_run(a, i) < zero_run(a, s),
        forall|i: int| s < i < 8 ==> zero_run(a, i) <= zero_run(a, s),
        from == 0 ==> starts_longest_run(a, s),
    decreases 8 - from,
{
    if from == 7 {
        7
    } else {
        let rest = lemma_longest_run_among(a, from + 1);
        if zero_run(a, from) >= zero_run(a, rest) {
            from
        } else {
            rest
        }
    }
}

} // verus!
