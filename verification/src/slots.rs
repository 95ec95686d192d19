//! Ordering list elements by an identifier string that each of them carries.
use vstd::prelude::*;
use vstd::utf8::*;
use vstd::string::*;
use crate::text::{bytes_le, lemma_bytes_le_total, lemma_bytes_le_transitive, str_le};

verus! {

broadcast use {vstd::seq_lib::group_to_multiset_ensures, vstd::multiset::group_multiset_axioms};

/// A list element together with the identifier string by which it is
/// ordered, if it carries one.
pub struct Slot<T> {
    pub key: Option<String>,
    pub item: T,
}

/// The characters of an optional identifier.
pub open spec fn key_view(key: Option<String>) -> Option<Seq<char>> {
    match key {
        Some(k) => Some(k@),
        None => None,
    }
}

/// A slot as a plain value: identifier and element.
pub open spec fn slot_view<T>(s: Slot<T>) -> (Option<Seq<char>>, T) {
    (key_view(s.key), s.item)
}

/// The plain values of a sequence of slots.
pub open spec fn slots_view<T>(s: Seq<Slot<T>>) -> Seq<(Option<Seq<char>>, T)> {
    s.map_values(|x: Slot<T>| slot_view(x))
}

/// The identifier is a string that the table names.
pub open spec fn maps_key(key: Option<Seq<char>>, ids: Map<Seq<char>, Seq<char>>) -> bool {
    match key {
        Some(k) => ids.contains_key(k),
        None => false,
    }
}

/// Some identifier of the list is named by the table.
pub open spec fn any_mapped(keys: Seq<Option<Seq<char>>>, ids: Map<Seq<char>, Seq<char>>) -> bool {
    exists|i: int| 0 <= i < keys.len() && maps_key(#[trigger] keys[i], ids)
}

/// The bytes by which an element is ordered: its identifier, or the empty
/// string when it carries none.
pub open spec fn order_key(key: Option<Seq<char>>) -> Seq<u8> {
    match key {
        Some(k) => encode_utf8(k),
        None => Seq::empty(),
    }
}

/// The elements are in ascending byte order of their identifiers.
pub open spec fn sorted_by_key<T>(s: Seq<(Option<Seq<char>>, T)>) -> bool {
    forall|i: int, j: int|
        0 <= i < j < s.len() ==> bytes_le(order_key(#[trigger] s[i].0), order_key(#[trigger] s[j].0))
}

/// The first position at or after `p` whose identifier orders strictly
/// after `k`, or the end of the sequence.
pub open spec fn insert_pos<T>(s: Seq<(Option<Seq<char>>, T)>, k: Option<Seq<char>>, p: nat) -> nat
    decreases s.len() - p,
{
    if p >= s.len() {
        p
    } else if !bytes_le(order_key(s[p as int].0), order_key(k)) {
        p
    } else {
        insert_pos(s, k, p + 1)
    }
}

/// `x` inserted into `s` after every element that orders at or before it.
pub open spec fn insert_by_key<T>(s: Seq<(Option<Seq<char>>, T)>, x: (Option<Seq<char>>, T)) -> Seq<
    (Option<Seq<char>>, T),
> {
    s.insert(insert_pos(s, x.0, 0) as int, x)
}

/// The elements in ascending byte order of their identifiers; elements with
/// equal identifiers keep their relative order.
pub open spec fn sort_by_key<T>(s: Seq<(Option<Seq<char>>, T)>) -> Seq<(Option<Seq<char>>, T)>
    decreases s.len(),
{
    if s.len() == 0 {
        s
    } else {
        insert_by_key(sort_by_key(s.drop_last()), s.last())
    }
}

proof fn lemma_insert_pos_bounds<T>(s: Seq<(Option<Seq<char>>, T)>, k: Option<Seq<char>>, p: nat)
    requires
        p <= s.len(),
        forall|j: int| 0 <= j < p ==> bytes_le(order_key(#[trigger] s[j].0), order_key(k)),
    ensures
        p <= insert_pos(s, k, p) <= s.len(),
        forall|j: int|
            0 <= j < insert_pos(s, k, p) ==> bytes_le(order_key(#[trigger] s[j].0), order_key(k)),
        insert_pos(s, k, p) < s.len() ==> !bytes_le(order_key(s[insert_pos(s, k, p) as int].0), order_key(k)),
    decreases s.len() - p,
{
    if p < s.len() && bytes_le(order_key(s[p as int].0), order_key(k)) {
        lemma_insert_pos_bounds(s, k, p + 1);
    }
}

proof fn lemma_insert_pos_is<T>(s: Seq<(Option<Seq<char>>, T)>, k: Option<Seq<char>>, q: nat, p: nat)
    requires
        q <= p <= s.len(),
        forall|j: int| q <= j < p ==> bytes_le(order_key(#[trigger] s[j].0), order_key(k)),
        p < s.len() ==> !bytes_le(order_key(s[p as int].0), order_key(k)),
    ensures
        insert_pos(s, k, q) == p,
    decreases p - q,
{
    if q < p {
        lemma_insert_pos_is(s, k, q + 1, p);
    }
}

/// The order of positions depends only on the identifiers.
proof fn lemma_insert_pos_keys<T, U>(
    s: Seq<(Option<Seq<char>>, T)>,
    t: Seq<(Option<Seq<char>>, U)>,
    k: Option<Seq<char>>,
    p: nat,
)
    requires
        s.len() == t.len(),
        forall|j: int| 0 <= j < s.len() ==> #[trigger] s[j].0 == t[j].0,
    ensures
        insert_pos(s, k, p) == insert_pos(t, k, p),
    decreases s.len() - p,
{
    if p < s.len() {
        assert(s[p as int].0 == t[p as int].0);
        lemma_insert_pos_keys(s, t, k, p + 1);
    }
}

proof fn lemma_insert_keeps_sorted<T>(s: Seq<(Option<Seq<char>>, T)>, p: int, x: (Option<Seq<char>>, T))
    requires
        sorted_by_key(s),
        0 <= p <= s.len(),
        forall|k: int| 0 <= k < p ==> bytes_le(order_key(#[trigger] s[k].0), order_key(x.0)),
        p < s.len() ==> !bytes_le(order_key(s[p].0), order_key(x.0)),
    ensures
        sorted_by_key(s.insert(p, x)),
{
    let n = s.insert(p, x);
    if p < s.len() {
        lemma_bytes_le_total(order_key(s[p].0), order_key(x.0));
    }
    assert forall|i: int, j: int| 0 <= i < j < n.len() implies bytes_le(
        order_key(#[trigger] n[i].0),
        order_key(#[trigger] n[j].0),
    ) by {
        if j < p {
            assert(n[i] == s[i] && n[j] == s[j]);
        } else if j == p {
            assert(n[i] == s[i]);
        } else if i < p {
            assert(n[i] == s[i] && n[j] == s[j - 1]);
            assert(bytes_le(order_key(s[i].0), order_key(x.0)));
            assert(bytes_le(order_key(x.0), order_key(s[p].0)));
            if j - 1 > p {
                assert(bytes_le(order_key(s[p].0), order_key(s[j - 1].0)));
                lemma_bytes_le_transitive(order_key(x.0), order_key(s[p].0), order_key(s[j - 1].0));
            }
            lemma_bytes_le_transitive(order_key(s[i].0), order_key(x.0), order_key(s[j - 1].0));
        } else if i == p {
            assert(n[j] == s[j - 1]);
            if j - 1 > p {
                assert(bytes_le(order_key(s[p].0), order_key(s[j - 1].0)));
                lemma_bytes_le_transitive(order_key(x.0), order_key(s[p].0), order_key(s[j - 1].0));
            }
        } else {
            assert(n[i] == s[i - 1] && n[j] == s[j - 1]);
        }
    }
}

/// The sorted sequence is in ascending byte order of its identifiers.
pub proof fn lemma_sort_by_key_sorted<T>(s: Seq<(Option<Seq<char>>, T)>)
    ensures
        sorted_by_key(sort_by_key(s)),
    decreases s.len(),
{
    if s.len() > 0 {
        let t = sort_by_key(s.drop_last());
        lemma_sort_by_key_sorted(s.drop_last());
        lemma_insert_pos_bounds(t, s.last().0, 0);
        lemma_insert_keeps_sorted(t, insert_pos(t, s.last().0, 0) as int, s.last());
    }
}

/// The sorted sequence holds the same elements, as often, as the input.
pub proof fn lemma_sort_by_key_permutes<T>(s: Seq<(Option<Seq<char>>, T)>)
    ensures
        sort_by_key(s).len() == s.len(),
        sort_by_key(s).to_multiset() == s.to_multiset(),
    decreases s.len(),
{
    if s.len() > 0 {
        let t = sort_by_key(s.drop_last());
        lemma_sort_by_key_permutes(s.drop_last());
        lemma_insert_pos_bounds(t, s.last().0, 0);
        assert(s =~= s.drop_last().push(s.last()));
        assert(s.to_multiset() == s.drop_last().to_multiset().insert(s.last()));
    }
}

/// Sorting looks at the identifiers only: changing the elements but not the
/// identifiers before sorting changes them the same way after.
pub proof fn lemma_sort_by_key_map_items<T, U>(s: Seq<(Option<Seq<char>>, T)>, f: spec_fn(T) -> U)
    ensures
        sort_by_key(s.map_values(|p: (Option<Seq<char>>, T)| (p.0, f(p.1)))) == sort_by_key(s).map_values(
            |p: (Option<Seq<char>>, T)| (p.0, f(p.1)),
        ),
    decreases s.len(),
{
    let g = |p: (Option<Seq<char>>, T)| (p.0, f(p.1));
    if s.len() > 0 {
        lemma_sort_by_key_map_items(s.drop_last(), f);
        assert(s.map_values(g).drop_last() =~= s.drop_last().map_values(g));
        let t = sort_by_key(s.drop_last());
        let tm = t.map_values(g);
        lemma_sort_by_key_permutes(s.drop_last());
        assert forall|j: int| 0 <= j < t.len() implies #[trigger] t[j].0 == tm[j].0 by {}
        lemma_insert_pos_keys(t, tm, s.last().0, 0);
        lemma_insert_pos_bounds(t, s.last().0, 0);
        assert(sort_by_key(s).map_values(g) =~= tm.insert(insert_pos(tm, s.last().0, 0) as int, g(s.last())));
    } else {
        assert(s.map_values(g) =~= Seq::<(Option<Seq<char>>, U)>::empty());
        assert(sort_by_key(s).map_values(g) =~= Seq::<(Option<Seq<char>>, U)>::empty());
    }
}

/// Whether `a` may stand before `b` in the order of identifiers.
fn slot_le<T>(a: &Slot<T>, b: &Slot<T>) -> (res: bool)
    ensures
        res == bytes_le(order_key(key_view(a.key)), order_key(key_view(b.key))),
{
    let empty = "";
    proof {
        reveal_strlit("");
        assert(encode_utf8(empty@) =~= Seq::<u8>::empty());
    }
    let x: &str = match &a.key {
        Some(k) => k.as_str(),
        None => empty,
    };
    let y: &str = match &b.key {
        Some(k) => k.as_str(),
        None => empty,
    };
    str_le(x, y)
}

/// Orders the slots by their identifiers, in ascending byte order; a slot
/// without an identifier is ordered as the empty string. Slots with equal
/// identifiers keep their relative order.
pub fn sort_slots<T>(slots: Vec<Slot<T>>) -> (res: Vec<Slot<T>>)
    ensures
        slots_view(res@) == sort_by_key(slots_view(slots@)),
        res@.len() == slots@.len(),
        sorted_by_key(slots_view(res@)),
        slots_view(res@).to_multiset() == slots_view(slots@).to_multiset(),
{
    let ghost orig = slots_view(slots@);
    let mut out: Vec<Slot<T>> = Vec::new();
    let mut rest = slots;
    let ghost mut n: int = 0;
    while rest.len() > 0
        invariant
            0 <= n <= orig.len(),
            slots_view(rest@) == orig.subrange(n, orig.len() as int),
            slots_view(out@) == sort_by_key(orig.subrange(0, n)),
        decreases rest@.len(),
    {
        let ghost before = rest@;
        let x = rest.remove(0);
        proof {
            assert(slots_view(before)[0] == slot_view(x));
            assert(slots_view(before) == orig.subrange(n, orig.len() as int));
            assert(slots_view(before).len() == before.len());
            assert(n < orig.len());
            assert(orig.subrange(n, orig.len() as int)[0] == orig[n]);
            assert(slot_view(x) == orig[n]);
        }
        let mut p: usize = 0;
        while p < out.len() && slot_le(&out[p], &x)
            invariant
                0 <= p <= out@.len(),
                forall|k: int|
                    0 <= k < p ==> bytes_le(
                        order_key(#[trigger] slots_view(out@)[k].0),
                        order_key(key_view(x.key)),
                    ),
            decreases out@.len() - p,
        {
            p = p + 1;
        }
        let ghost prev = out@;
        proof {
            lemma_insert_pos_is(slots_view(prev), key_view(x.key), 0, p as nat);
            let taken = orig.subrange(0, n + 1);
            assert(taken.drop_last() =~= orig.subrange(0, n));
            assert(taken.last() == slot_view(x));
        }
        out.insert(p, x);
        proof {
            assert(slots_view(out@) =~= slots_view(prev).insert(p as int, slot_view(x)));
            assert(rest@ =~= before.subrange(1, before.len() as int));
            assert(slots_view(rest@) =~= slots_view(before).subrange(1, before.len() as int));
            assert(slots_view(rest@) =~= orig.subrange(n + 1, orig.len() as int));
            n = n + 1;
        }
    }
    proof {
        assert(orig.subrange(0, n) =~= orig);
        lemma_sort_by_key_sorted(orig);
        lemma_sort_by_key_permutes(orig);
    }
    out
}

} // verus!
