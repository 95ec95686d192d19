//! Text primitives on UTF-8 strings: byte-wise order, slicing by byte offset
//! and splicing replacement texts into a string.
use vstd::prelude::*;
use vstd::utf8::*;
use vstd::string::*;

verus! {

broadcast use vstd::utf8::group_utf8_lib;

/// Encoding a concatenation of characters gives the concatenation of the encodings.
pub proof fn lemma_encode_utf8_concat(a: Seq<char>, b: Seq<char>)
    ensures
        encode_utf8(a + b) == encode_utf8(a) + encode_utf8(b),
    decreases a.len(),
{
    if a.len() == 0 {
        assert(a + b =~= b);
    } else {
        assert((a + b).drop_first() =~= a.drop_first() + b);
        lemma_encode_utf8_concat(a.drop_first(), b);
        assert(encode_scalar(a[0] as u32) + (encode_utf8(a.drop_first()) + encode_utf8(b))
            =~= (encode_scalar(a[0] as u32) + encode_utf8(a.drop_first())) + encode_utf8(b));
    }
}

/// The lexicographic order of byte sequences, the order in which `str`
/// values compare.
pub open spec fn bytes_le(a: Seq<u8>, b: Seq<u8>) -> bool
    decreases a.len(),
{
    if a.len() == 0 {
        true
    } else if b.len() == 0 {
        false
    } else if a[0] < b[0] {
        true
    } else if a[0] > b[0] {
        false
    } else {
        bytes_le(a.drop_first(), b.drop_first())
    }
}

/// Any two byte sequences are comparable.
pub proof fn lemma_bytes_le_total(a: Seq<u8>, b: Seq<u8>)
    ensures
        bytes_le(a, b) || bytes_le(b, a),
    decreases a.len(),
{
    if a.len() > 0 && b.len() > 0 && a[0] == b[0] {
        lemma_bytes_le_total(a.drop_first(), b.drop_first());
    }
}

/// The byte order is transitive.
pub proof fn lemma_bytes_le_transitive(a: Seq<u8>, b: Seq<u8>, c: Seq<u8>)
    requires
        bytes_le(a, b),
        bytes_le(b, c),
    ensures
        bytes_le(a, c),
    decreases a.len(),
{
    if a.len() > 0 && b.len() > 0 && c.len() > 0 && a[0] == b[0] && b[0] == c[0] {
        lemma_bytes_le_transitive(a.drop_first(), b.drop_first(), c.drop_first());
    }
}

/// The byte order is antisymmetric.
pub proof fn lemma_bytes_le_antisymmetric(a: Seq<u8>, b: Seq<u8>)
    requires
        bytes_le(a, b),
        bytes_le(b, a),
    ensures
        a == b,
    decreases a.len(),
{
    if a.len() > 0 && b.len() > 0 {
        lemma_bytes_le_antisymmetric(a.drop_first(), b.drop_first());
        assert(a =~= seq![a[0]] + a.drop_first());
        assert(b =~= seq![b[0]] + b.drop_first());
    }
}

proof fn lemma_bytes_le_skip(a: Seq<u8>, b: Seq<u8>, i: int)
    requires
        0 <= i <= a.len(),
        i <= b.len(),
        a.subrange(0, i) == b.subrange(0, i),
    ensures
        bytes_le(a, b) == bytes_le(a.subrange(i, a.len() as int), b.subrange(i, b.len() as int)),
    decreases i,
{
    if i > 0 {
        assert(a[0] == a.subrange(0, i)[0]);
        assert(b[0] == b.subrange(0, i)[0]);
        assert(a.drop_first().subrange(0, i - 1) =~= a.subrange(0, i).drop_first());
        assert(b.drop_first().subrange(0, i - 1) =~= b.subrange(0, i).drop_first());
        lemma_bytes_le_skip(a.drop_first(), b.drop_first(), i - 1);
        assert(a.drop_first().subrange(i - 1, a.len() - 1) =~= a.subrange(i, a.len() as int));
        assert(b.drop_first().subrange(i - 1, b.len() - 1) =~= b.subrange(i, b.len() as int));
    } else {
        assert(a.subrange(0, a.len() as int) =~= a);
        assert(b.subrange(0, b.len() as int) =~= b);
    }
}

/// Every byte sequence is below or equal to itself.
pub proof fn lemma_bytes_le_reflexive(a: Seq<u8>)
    ensures
        bytes_le(a, a),
    decreases a.len(),
{
    if a.len() > 0 {
        lemma_bytes_le_reflexive(a.drop_first());
    }
}

/// Compares two strings byte by byte, as `a <= b` does on `str`.
pub fn str_le(a: &str, b: &str) -> (res: bool)
    ensures
        res == bytes_le(a.spec_bytes(), b.spec_bytes()),
{
    let x = a.as_bytes();
    let y = b.as_bytes();
    let mut i: usize = 0;
    while i < x.len() && i < y.len() && x[i] == y[i]
        invariant
            x@ == a.spec_bytes(),
            y@ == b.spec_bytes(),
            0 <= i <= x@.len(),
            i <= y@.len(),
            x@.subrange(0, i as int) == y@.subrange(0, i as int),
        decreases x@.len() - i,
    {
        assert(x@.subrange(0, i + 1) =~= x@.subrange(0, i as int).push(x@[i as int]));
        assert(y@.subrange(0, i + 1) =~= y@.subrange(0, i as int).push(y@[i as int]));
        i = i + 1;
    }
    proof {
        lemma_bytes_le_skip(x@, y@, i as int);
    }
    if i == x.len() {
        true
    } else if i == y.len() {
        false
    } else {
        x[i] < y[i]
    }
}


/// Whether two strings hold the same characters.
pub fn str_eq(a: &str, b: &str) -> (res: bool)
    ensures
        res == (a@ == b@),
{
    let le = str_le(a, b);
    let ge = str_le(b, a);
    proof {
        if le && ge {
            lemma_bytes_le_antisymmetric(a.spec_bytes(), b.spec_bytes());
            encode_utf8_decode_utf8(a@);
            encode_utf8_decode_utf8(b@);
        }
        if a@ == b@ {
            lemma_bytes_le_reflexive(a.spec_bytes());
        }
    }
    le && ge
}

/// A well-formed string's byte encoding can be cut at a character boundary
/// that lies inside an already cut-out suffix.
proof fn lemma_boundary_in_suffix(bytes: Seq<u8>, a: int, b: int)
    requires
        valid_utf8(bytes),
        0 <= a <= b <= bytes.len(),
        is_char_boundary(bytes, a),
        is_char_boundary(bytes, b),
    ensures
        valid_utf8(bytes.subrange(a, bytes.len() as int)),
        is_char_boundary(bytes.subrange(a, bytes.len() as int), b - a),
{
    let rest = bytes.subrange(a, bytes.len() as int);
    valid_utf8_split(bytes, a);
    is_char_boundary_start_end_of_seq(rest);
    if b < bytes.len() {
        is_char_boundary_iff_not_is_continuation_byte(bytes, b);
        is_char_boundary_iff_not_is_continuation_byte(rest, b - a);
        assert(rest[b - a] == bytes[b]);
    } else {
        assert(rest.len() == b - a);
    }
}

/// The part of `text` between the byte offsets `a` and `b`.
pub fn slice_between(text: &str, a: usize, b: usize) -> (res: &str)
    requires
        a <= b <= text.spec_bytes().len(),
        is_char_boundary(text.spec_bytes(), a as int),
        is_char_boundary(text.spec_bytes(), b as int),
    ensures
        res.spec_bytes() == text.spec_bytes().subrange(a as int, b as int),
{
    proof {
        encode_utf8_valid_utf8(text@);
        lemma_boundary_in_suffix(text.spec_bytes(), a as int, b as int);
    }
    let (_, rest) = text.split_at(a);
    let (mid, _) = rest.split_at(b - a);
    assert(mid.spec_bytes() =~= text.spec_bytes().subrange(a as int, b as int));
    mid
}

/// The text obtained from `text` by putting `reps[k]` in place of the part
/// that `spans[k]` delimits, for every `k` from `i` on, starting at byte
/// offset `cursor`.
pub open spec fn splice_from(
    text: Seq<u8>,
    spans: Seq<(usize, usize)>,
    reps: Seq<Seq<u8>>,
    i: nat,
    cursor: int,
) -> Seq<u8>
    decreases spans.len() - i,
{
    if i >= spans.len() {
        text.subrange(cursor, text.len() as int)
    } else {
        text.subrange(cursor, spans[i as int].0 as int) + reps[i as int] + splice_from(
            text,
            spans,
            reps,
            i + 1,
            spans[i as int].1 as int,
        )
    }
}

/// `text` with each part that `spans` delimits replaced by the matching
/// element of `reps`; the rest of `text` is kept as it is.
pub open spec fn splice(text: Seq<u8>, spans: Seq<(usize, usize)>, reps: Seq<Seq<u8>>) -> Seq<u8> {
    splice_from(text, spans, reps, 0, 0)
}

/// The spans lie inside a text of `len` bytes, each after the one before.
pub open spec fn spans_in_order(spans: Seq<(usize, usize)>, len: int) -> bool {
    &&& forall|k: int| 0 <= k < spans.len() ==> #[trigger] spans[k].0 <= spans[k].1 <= len
    &&& forall|k: int| 0 < k < spans.len() ==> #[trigger] spans[k - 1].1 <= #[trigger] spans[k].0
}

/// Every span starts and ends on a character boundary of `bytes`.
pub open spec fn spans_on_boundaries(spans: Seq<(usize, usize)>, bytes: Seq<u8>) -> bool {
    forall|k: int|
        0 <= k < spans.len() ==> is_char_boundary(bytes, #[trigger] spans[k].0 as int)
            && is_char_boundary(bytes, spans[k].1 as int)
}

/// The byte encodings of a sequence of strings.
pub open spec fn encodings(strs: Seq<String>) -> Seq<Seq<u8>> {
    strs.map_values(|s: String| encode_utf8(s@))
}

proof fn lemma_splice_from_own_text(
    text: Seq<u8>,
    spans: Seq<(usize, usize)>,
    reps: Seq<Seq<u8>>,
    i: nat,
    cursor: int,
)
    requires
        spans_in_order(spans, text.len() as int),
        reps.len() == spans.len(),
        forall|k: int|
            0 <= k < spans.len() ==> #[trigger] reps[k] == text.subrange(
                spans[k].0 as int,
                spans[k].1 as int,
            ),
        0 <= cursor <= text.len(),
        i < spans.len() ==> cursor <= spans[i as int].0,
    ensures
        splice_from(text, spans, reps, i, cursor) == text.subrange(cursor, text.len() as int),
    decreases spans.len() - i,
{
    if i < spans.len() {
        let (s, e) = spans[i as int];
        assert(s <= e <= text.len());
        if i + 1 < spans.len() {
            let k: int = i as int + 1;
            assert(spans[k - 1].1 <= spans[k].0);
        }
        lemma_splice_from_own_text(text, spans, reps, i + 1, e as int);
        assert(reps[i as int] == text.subrange(s as int, e as int));
        assert(text.subrange(cursor, s as int) + text.subrange(s as int, e as int) + text.subrange(
            e as int,
            text.len() as int,
        ) =~= text.subrange(cursor, text.len() as int));
    }
}

/// Replacing every part that the spans delimit by that same part gives the
/// text back.
pub proof fn lemma_splice_with_own_text(text: Seq<u8>, spans: Seq<(usize, usize)>, reps: Seq<Seq<u8>>)
    requires
        spans_in_order(spans, text.len() as int),
        reps.len() == spans.len(),
        forall|k: int|
            0 <= k < spans.len() ==> #[trigger] reps[k] == text.subrange(
                spans[k].0 as int,
                spans[k].1 as int,
            ),
    ensures
        splice(text, spans, reps) == text,
{
    lemma_splice_from_own_text(text, spans, reps, 0, 0);
    assert(text.subrange(0, text.len() as int) =~= text);
}

/// With nothing to replace, the text is kept as it is.
pub proof fn lemma_splice_without_spans(text: Seq<u8>)
    ensures
        splice(text, Seq::empty(), Seq::empty()) == text,
{
    assert(text.subrange(0, text.len() as int) =~= text);
}

/// How many bytes longer the text has become once the first `k` spans are
/// replaced (negative when it has become shorter).
pub open spec fn growth(spans: Seq<(usize, usize)>, reps: Seq<Seq<u8>>, k: int) -> int
    decreases k,
{
    if k <= 0 {
        0
    } else {
        growth(spans, reps, k - 1) + reps[k - 1].len() - (spans[k - 1].1 - spans[k - 1].0)
    }
}

/// Where the kept text before span `k` starts: the end of span `k - 1`, or
/// the start of the text.
pub open spec fn gap_start(spans: Seq<(usize, usize)>, k: int) -> int {
    if k == 0 {
        0
    } else {
        spans[k - 1].1 as int
    }
}

/// Where the kept text before span `k` ends: the start of span `k`, or the
/// end of a text of `len` bytes after the last span.
pub open spec fn gap_end(spans: Seq<(usize, usize)>, k: int, len: int) -> int {
    if k == spans.len() {
        len
    } else {
        spans[k].0 as int
    }
}

spec fn gap_from(spans: Seq<(usize, usize)>, i: int, cursor: int, k: int) -> int {
    if k == i {
        cursor
    } else {
        spans[k - 1].1 as int
    }
}

spec fn shift_from(spans: Seq<(usize, usize)>, reps: Seq<Seq<u8>>, i: int, cursor: int, k: int) -> int {
    growth(spans, reps, k) - growth(spans, reps, i) - cursor
}

proof fn lemma_subrange_after(a: Seq<u8>, b: Seq<u8>, x: int, y: int)
    requires
        0 <= x <= y <= b.len(),
    ensures
        (a + b).subrange(a.len() + x, a.len() + y) == b.subrange(x, y),
{
    assert((a + b).subrange(a.len() + x, a.len() + y) =~= b.subrange(x, y));
}

proof fn lemma_splice_from_layout(
    text: Seq<u8>,
    spans: Seq<(usize, usize)>,
    reps: Seq<Seq<u8>>,
    i: nat,
    cursor: int,
)
    requires
        spans_in_order(spans, text.len() as int),
        reps.len() == spans.len(),
        i <= spans.len(),
        0 <= cursor <= text.len(),
        i < spans.len() ==> cursor <= spans[i as int].0,
    ensures
        splice_from(text, spans, reps, i, cursor).len() == text.len() + shift_from(
            spans,
            reps,
            i as int,
            cursor,
            spans.len() as int,
        ),
        forall|k: int|
            #![trigger reps[k]]
            i <= k < spans.len() ==> {
                let out = splice_from(text, spans, reps, i, cursor);
                let p = spans[k].0 + shift_from(spans, reps, i as int, cursor, k);
                &&& 0 <= p
                &&& p + reps[k].len() <= out.len()
                &&& out.subrange(p, p + reps[k].len()) == reps[k]
            },
        forall|k: int|
            #![trigger gap_end(spans, k, text.len() as int)]
            i <= k <= spans.len() ==> {
                let out = splice_from(text, spans, reps, i, cursor);
                let gs = gap_from(spans, i as int, cursor, k);
                let ge = gap_end(spans, k, text.len() as int);
                let sh = shift_from(spans, reps, i as int, cursor, k);
                &&& 0 <= gs + sh <= ge + sh <= out.len()
                &&& out.subrange(gs + sh, ge + sh) == text.subrange(gs, ge)
            },
    decreases spans.len() - i,
{
    let out = splice_from(text, spans, reps, i, cursor);
    if i == spans.len() {
        assert(out.subrange(0, text.len() - cursor) =~= out);
    } else {
        let s = spans[i as int].0 as int;
        let e = spans[i as int].1 as int;
        assert(s <= e <= text.len());
        if i + 1 < spans.len() {
            let k1: int = i as int + 1;
            assert(spans[k1 - 1].1 <= spans[k1].0);
        }
        lemma_splice_from_layout(text, spans, reps, i + 1, e);
        let a = text.subrange(cursor, s);
        let r = reps[i as int];
        let pre = a + r;
        let rest = splice_from(text, spans, reps, i + 1, e);
        assert(out == pre + rest);
        assert(growth(spans, reps, i + 1 as int) == growth(spans, reps, i as int) + r.len() - (e - s));
        assert(out.subrange(s - cursor, s - cursor + r.len()) =~= r);
        assert(out.subrange(0, s - cursor) =~= a);
        assert forall|k: int|
            #![trigger reps[k]]
            i < k < spans.len() implies {
                let p = spans[k].0 + shift_from(spans, reps, i as int, cursor, k);
                &&& 0 <= p
                &&& p + reps[k].len() <= out.len()
                &&& out.subrange(p, p + reps[k].len()) == reps[k]
            } by {
            let q = spans[k].0 + shift_from(spans, reps, i + 1 as int, e, k);
            assert(rest.subrange(q, q + reps[k].len()) == reps[k]);
            lemma_subrange_after(pre, rest, q, q + reps[k].len());
        }
        assert forall|k: int|
            #![trigger gap_end(spans, k, text.len() as int)]
            i < k <= spans.len() implies {
                let gs = gap_from(spans, i as int, cursor, k);
                let ge = gap_end(spans, k, text.len() as int);
                let sh = shift_from(spans, reps, i as int, cursor, k);
                &&& 0 <= gs + sh <= ge + sh <= out.len()
                &&& out.subrange(gs + sh, ge + sh) == text.subrange(gs, ge)
            } by {
            let ge = gap_end(spans, k, text.len() as int);
            let gs2 = gap_from(spans, i + 1 as int, e, k);
            let sh2 = shift_from(spans, reps, i + 1 as int, e, k);
            assert(gs2 == gap_from(spans, i as int, cursor, k));
            lemma_subrange_after(pre, rest, gs2 + sh2, ge + sh2);
        }
    }
}

/// Splicing puts every replacement in place, each at the position its span
/// had, moved by how much the earlier replacements lengthened or shortened
/// the text, and keeps every part of the text between the spans, moved
/// likewise; the result is as long as the text plus all those changes.
pub proof fn lemma_splice_layout(text: Seq<u8>, spans: Seq<(usize, usize)>, reps: Seq<Seq<u8>>)
    requires
        spans_in_order(spans, text.len() as int),
        reps.len() == spans.len(),
    ensures
        splice(text, spans, reps).len() == text.len() + growth(spans, reps, spans.len() as int),
        forall|k: int|
            0 <= k < spans.len() ==> {
                let p = spans[k].0 + growth(spans, reps, k);
                splice(text, spans, reps).subrange(p, p + reps[k].len()) == #[trigger] reps[k]
            },
        forall|k: int|
            0 <= k <= spans.len() ==> splice(text, spans, reps).subrange(
                gap_start(spans, k) + growth(spans, reps, k),
                gap_end(spans, k, text.len() as int) + growth(spans, reps, k),
            ) == text.subrange(gap_start(spans, k), #[trigger] gap_end(spans, k, text.len() as int)),
{
    lemma_splice_from_layout(text, spans, reps, 0, 0);
    assert forall|k: int| 0 <= k <= spans.len() implies gap_from(spans, 0, 0, k) == gap_start(spans, k) by {}
    assert forall|k: int| 0 <= k <= spans.len() implies shift_from(spans, reps, 0, 0, k) == growth(spans, reps, k) by {}
}

/// Builds `text` with each part that `spans` delimits replaced by the
/// matching element of `reps`.
pub fn splice_text(text: &str, spans: &Vec<(usize, usize)>, reps: &Vec<String>) -> (res: String)
    requires
        spans@.len() == reps@.len(),
        spans_in_order(spans@, text.spec_bytes().len() as int),
        spans_on_boundaries(spans@, text.spec_bytes()),
    ensures
        encode_utf8(res@) == splice(text.spec_bytes(), spans@, encodings(reps@)),
{
    let ghost bytes = text.spec_bytes();
    let ghost repb = encodings(reps@);
    let mut out = String::new();
    let mut cursor: usize = 0;
    let mut i: usize = 0;
    proof {
        encode_utf8_valid_utf8(text@);
        is_char_boundary_start_end_of_seq(bytes);
    }
    while i < spans.len()
        invariant
            bytes == text.spec_bytes(),
            repb == encodings(reps@),
            spans@.len() == reps@.len(),
            spans_in_order(spans@, bytes.len() as int),
            spans_on_boundaries(spans@, bytes),
            0 <= i <= spans@.len(),
            cursor <= bytes.len(),
            is_char_boundary(bytes, cursor as int),
            i < spans@.len() ==> cursor <= spans@[i as int].0,
            encode_utf8(out@) + splice_from(bytes, spans@, repb, i as nat, cursor as int) == splice(
                bytes,
                spans@,
                repb,
            ),
        decreases spans@.len() - i,
    {
        let (start, end) = spans[i];
        assert(spans@[i as int].0 <= spans@[i as int].1 <= bytes.len());
        let gap = slice_between(text, cursor, start);
        let ghost before = out@;
        out.append(gap);
        out.append(reps[i].as_str());
        proof {
            lemma_encode_utf8_concat(before, gap@);
            lemma_encode_utf8_concat(before + gap@, reps@[i as int]@);
            assert(out@ == before + gap@ + reps@[i as int]@);
            assert(repb[i as int] == encode_utf8(reps@[i as int]@));
            if i + 1 < spans@.len() {
                assert(spans@[i + 1 - 1].1 <= spans@[i + 1].0);
            }
        }
        cursor = end;
        i = i + 1;
    }
    let whole = text.as_bytes().len();
    let tail = slice_between(text, cursor, whole);
    let ghost before = out@;
    out.append(tail);
    proof {
        lemma_encode_utf8_concat(before, tail@);
    }
    out
}

} // verus!
