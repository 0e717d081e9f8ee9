//! Texts in the order of their UTF-8 bytes, and lists that are kept in that
//! order with every text at most once.

use crate::util::same_text;
use vstd::prelude::*;
use vstd::string::*;
use vstd::utf8::*;

verus! {

/// Whether `a` and `b` agree before index `k` and `a` comes first there:
/// `a` ends at `k` while `b` goes on, or `a` has the smaller byte at `k`.
pub open spec fn first_differ_at(a: Seq<u8>, b: Seq<u8>, k: int) -> bool {
    &&& 0 <= k <= a.len()
    &&& k < b.len()
    &&& forall|j: int| 0 <= j < k ==> a[j] == b[j]
    &&& k < a.len() ==> a[k] < b[k]
}

/// Whether `a` comes before `b` in the lexicographic order of bytes.
pub open spec fn bytes_before(a: Seq<u8>, b: Seq<u8>) -> bool {
    exists|k: int| first_differ_at(a, b, k)
}

/// Whether the text `a` comes before the text `b`: in the lexicographic
/// order of their UTF-8 bytes.
pub open spec fn text_before(a: Seq<char>, b: Seq<char>) -> bool {
    bytes_before(encode_utf8(a), encode_utf8(b))
}

/// Where one text stands relative to another.
#[derive(Clone, Copy, Debug, PartialEq, Eq)]
pub enum Place {
    /// It comes first.
    Before,
    /// The two are the same text.
    Same,
    /// It comes second.
    After,
}

/// No byte string comes before itself, and of two, not each before the other.
pub proof fn lemma_bytes_before_is_strict(a: Seq<u8>, b: Seq<u8>)
    ensures
        !bytes_before(a, a),
        !(bytes_before(a, b) && bytes_before(b, a)),
{
    if bytes_before(a, a) {
        let k = choose|k: int| first_differ_at(a, a, k);
        assert(false);
    }
    if bytes_before(a, b) && bytes_before(b, a) {
        let k = choose|k: int| first_differ_at(a, b, k);
        let m = choose|m: int| first_differ_at(b, a, m);
        if k < m {
            assert(b[k] == a[k]);
        } else if m < k {
            assert(a[m] == b[m]);
        }
        assert(false);
    }
}

/// Of two different byte strings, one comes before the other.
pub proof fn lemma_bytes_before_is_total(a: Seq<u8>, b: Seq<u8>)
    requires
        a != b,
    ensures
        bytes_before(a, b) || bytes_before(b, a),
{
    lemma_common_prefix(a, b, 0);
}

/// Byte strings that agree before index `k` are the same, or one of them
/// comes before the other.
proof fn lemma_common_prefix(a: Seq<u8>, b: Seq<u8>, k: int)
    requires
        0 <= k <= a.len(),
        k <= b.len(),
        forall|j: int| 0 <= j < k ==> a[j] == b[j],
    ensures
        a == b || bytes_before(a, b) || bytes_before(b, a),
    decreases a.len() - k,
{
    if k == a.len() && k == b.len() {
        assert(a =~= b);
    } else if k == a.len() {
        assert(first_differ_at(a, b, k));
    } else if k == b.len() {
        assert(first_differ_at(b, a, k));
    } else if a[k] < b[k] {
        assert(first_differ_at(a, b, k));
    } else if b[k] < a[k] {
        assert(first_differ_at(b, a, k));
    } else {
        lemma_common_prefix(a, b, k + 1);
    }
}

/// What comes before something that comes before a third comes before the
/// third.
pub proof fn lemma_bytes_before_is_transitive(a: Seq<u8>, b: Seq<u8>, c: Seq<u8>)
    requires
        bytes_before(a, b),
        bytes_before(b, c),
    ensures
        bytes_before(a, c),
{
    let k = choose|k: int| first_differ_at(a, b, k);
    let m = choose|m: int| first_differ_at(b, c, m);
    if k <= m {
        assert(first_differ_at(a, c, k));
    } else {
        assert(first_differ_at(a, c, m));
    }
}

/// The order of texts is a strict total order.
pub proof fn lemma_text_order(a: Seq<char>, b: Seq<char>, c: Seq<char>)
    ensures
        !text_before(a, a),
        !(text_before(a, b) && text_before(b, a)),
        a != b ==> text_before(a, b) || text_before(b, a),
        text_before(a, b) && text_before(b, c) ==> text_before(a, c),
{
    lemma_bytes_before_is_strict(encode_utf8(a), encode_utf8(b));
    if a != b {
        encode_utf8_decode_utf8(a);
        encode_utf8_decode_utf8(b);
        lemma_bytes_before_is_total(encode_utf8(a), encode_utf8(b));
    }
    if text_before(a, b) && text_before(b, c) {
        lemma_bytes_before_is_transitive(encode_utf8(a), encode_utf8(b), encode_utf8(c));
    }
}

/// Tells where `a` stands relative to `b`.
pub fn place_of(a: &str, b: &str) -> (place: Place)
    ensures
        place is Before <==> text_before(a@, b@),
        place is Same <==> a@ == b@,
        place is After <==> text_before(b@, a@),
{
    let x = a.as_bytes();
    let y = b.as_bytes();
    proof {
        lemma_text_order(a@, b@, a@);
    }
    let mut i: usize = 0;
    while i < x.len() && i < y.len()
        invariant
            i <= x@.len(),
            i <= y@.len(),
            x@ == a.spec_bytes(),
            y@ == b.spec_bytes(),
            forall|j: int| 0 <= j < i ==> x@[j] == y@[j],
        decreases x@.len() - i,
    {
        if x[i] < y[i] {
            assert(first_differ_at(x@, y@, i as int));
            proof {
                lemma_text_order(a@, b@, a@);
            }
            return Place::Before;
        }
        if x[i] > y[i] {
            assert(first_differ_at(y@, x@, i as int));
            proof {
                lemma_text_order(a@, b@, a@);
            }
            return Place::After;
        }
        i = i + 1;
    }
    if i < y.len() {
        assert(first_differ_at(x@, y@, i as int));
        Place::Before
    } else if i < x.len() {
        assert(first_differ_at(y@, x@, i as int));
        Place::After
    } else {
        assert(x@ =~= y@);
        proof {
            encode_utf8_decode_utf8(a@);
            encode_utf8_decode_utf8(b@);
        }
        Place::Same
    }
}

/// The texts of a list of strings.
pub open spec fn texts(list: Seq<String>) -> Seq<Seq<char>> {
    list.map_values(|s: String| s@)
}

/// Whether each text of `list` comes before all that follow it.
pub open spec fn increasing(list: Seq<Seq<char>>) -> bool {
    forall|i: int, j: int| 0 <= i < j < list.len() ==> text_before(list[i], list[j])
}

/// Whether `k` is the place of `x` in `list`: the texts ahead of `k` come
/// before `x`, and the text at `k`, if there is one, does not.
pub open spec fn is_place(list: Seq<Seq<char>>, x: Seq<char>, k: int) -> bool {
    &&& 0 <= k <= list.len()
    &&& forall|j: int| 0 <= j < k ==> text_before(#[trigger] list[j], x)
    &&& k < list.len() ==> !text_before(list[k], x)
}

/// The place of `x` in `list`.
pub open spec fn place(list: Seq<Seq<char>>, x: Seq<char>) -> int {
    choose|k: int| is_place(list, x, k)
}

/// `list` with `x` put in its place, unless `x` stands there already.
pub open spec fn inserted(list: Seq<Seq<char>>, x: Seq<char>) -> Seq<Seq<char>> {
    let k = place(list, x);
    if k < list.len() && list[k] == x {
        list
    } else {
        list.insert(k, x)
    }
}

/// The texts of `items` in increasing order, each once.
pub open spec fn sorted_once(items: Seq<Seq<char>>) -> Seq<Seq<char>>
    decreases items.len(),
{
    if items.len() == 0 {
        Seq::empty()
    } else {
        inserted(sorted_once(items.drop_last()), items.last())
    }
}

/// Every text has a place in every list.
pub proof fn lemma_place_exists(list: Seq<Seq<char>>, x: Seq<char>)
    ensures
        is_place(list, x, place(list, x)),
{
    let k = lemma_place_from(list, x, 0);
}

/// If the texts ahead of `from` come before `x`, then `x` has a place at
/// `from` or behind it.
proof fn lemma_place_from(list: Seq<Seq<char>>, x: Seq<char>, from: int) -> (k: int)
    requires
        0 <= from <= list.len(),
        forall|j: int| 0 <= j < from ==> text_before(#[trigger] list[j], x),
    ensures
        is_place(list, x, k),
    decreases list.len() - from,
{
    if from < list.len() && text_before(list[from], x) {
        lemma_place_from(list, x, from + 1)
    } else {
        from
    }
}

/// Putting a text in its place keeps an increasing list increasing, adds the
/// text, and adds or loses nothing else.
pub proof fn lemma_inserted(list: Seq<Seq<char>>, x: Seq<char>)
    requires
        increasing(list),
    ensures
        increasing(inserted(list, x)),
        forall|y: Seq<char>| inserted(list, x).contains(y) <==> list.contains(y) || y == x,
{
    let k = place(list, x);
    lemma_place_exists(list, x);
    let after = inserted(list, x);
    if k < list.len() && list[k] == x {
        assert forall|y: Seq<char>| after.contains(y) <==> list.contains(y) || y == x by {
            assert(list[k] == x);
        }
    } else {
        assert forall|i: int, j: int| 0 <= i < j < after.len() implies text_before(
            after[i],
            after[j],
        ) by {
            if j == k {
                assert(after[i] == list[i]);
            } else if i == k {
                // `x` comes before what stands at its place, and so before all behind.
                assert(after[j] == list[j - 1]);
                lemma_text_order(x, list[k], list[j - 1]);
                lemma_text_order(list[k], x, x);
            } else {
                assert(after[i] == list[if i < k { i } else { i - 1 }]);
                assert(after[j] == list[if j < k { j } else { j - 1 }]);
            }
        }
        assert forall|y: Seq<char>| after.contains(y) <==> list.contains(y) || y == x by {
            assert(after[k] == x);
            if list.contains(y) {
                let i = choose|i: int| 0 <= i < list.len() && list[i] == y;
                assert(after[if i < k { i } else { i + 1 }] == y);
            }
            if after.contains(y) && y != x {
                let i = choose|i: int| 0 <= i < after.len() && after[i] == y;
                assert(list[if i < k { i } else { i - 1 }] == y);
            }
        }
    }
}

/// Sorting gives an increasing list that holds each text once, and holds
/// exactly the texts that were given.
pub proof fn lemma_sorted_once(items: Seq<Seq<char>>)
    ensures
        increasing(sorted_once(items)),
        sorted_once(items).no_duplicates(),
        forall|y: Seq<char>| sorted_once(items).contains(y) <==> items.contains(y),
    decreases items.len(),
{
    let sorted = sorted_once(items);
    if items.len() > 0 {
        let before = items.drop_last();
        lemma_sorted_once(before);
        lemma_inserted(sorted_once(before), items.last());
        assert forall|y: Seq<char>| sorted.contains(y) <==> items.contains(y) by {
            if items.contains(y) {
                let i = choose|i: int| 0 <= i < items.len() && items[i] == y;
                if i < before.len() {
                    assert(before[i] == y);
                }
            }
            if before.contains(y) {
                let i = choose|i: int| 0 <= i < before.len() && before[i] == y;
                assert(items[i] == y);
            }
            assert(items[items.len() - 1] == items.last());
        }
    }
    assert forall|i: int, j: int| 0 <= i < sorted.len() && 0 <= j < sorted.len() && i != j implies sorted[i]
        != sorted[j] by {
        lemma_text_order(sorted[i], sorted[j], sorted[i]);
    }
}

/// Whether `list` holds a string with the text of `name`.
pub fn contains_text(list: &Vec<String>, name: &str) -> (found: bool)
    ensures
        found == texts(list@).contains(name@),
{
    let mut i: usize = 0;
    while i < list.len()
        invariant
            i <= list@.len(),
            forall|j: int| 0 <= j < i ==> texts(list@)[j] != name@,
        decreases list@.len() - i,
    {
        if same_text(list[i].as_str(), name) {
            assert(texts(list@)[i as int] == name@);
            return true;
        }
        i = i + 1;
    }
    false
}

/// Puts `name` in its place in `list`, unless it stands there already.
pub fn insert_sorted(list: &mut Vec<String>, name: &str)
    ensures
        texts(final(list)@) == inserted(texts(old(list)@), name@),
{
    let mut i: usize = 0;
    let mut found = Place::After;
    while i < list.len()
        invariant_except_break
            found is After,
        invariant
            i <= list@.len(),
            list@ == old(list)@,
            forall|j: int| 0 <= j < i ==> text_before(#[trigger] texts(list@)[j], name@),
        ensures
            i <= list@.len(),
            list@ == old(list)@,
            forall|j: int| 0 <= j < i ==> text_before(#[trigger] texts(list@)[j], name@),
            i < list@.len() ==> !text_before(texts(list@)[i as int], name@),
            i < list@.len() ==> (found is Same <==> texts(list@)[i as int] == name@),
            i == list@.len() ==> found is After,
        decreases list@.len() - i,
    {
        found = place_of(name, list[i].as_str());
        match found {
            Place::After => {
                i = i + 1;
            },
            _ => {
                proof {
                    lemma_text_order(name@, texts(list@)[i as int], name@);
                }
                break ;
            },
        }
    }
    proof {
        let before = texts(list@);
        assert(is_place(before, name@, i as int));
        lemma_place_exists(before, name@);
        let k = place(before, name@);
        if k < i {
            assert(text_before(before[k], name@));
        }
        if i < k {
            assert(text_before(before[i as int], name@));
        }
        assert(k == i);
    }
    match found {
        Place::Same => {},
        _ => {
            list.insert(i, name.to_owned());
            assert(texts(list@) =~= texts(old(list)@).insert(i as int, name@));
        },
    }
}

} // verus!
