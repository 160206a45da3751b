//! Byte-range edits on source text.
//!
//! An edit `(start, end, text)` replaces the bytes `start..end` of the UTF-8
//! encoding of a string with the encoding of `text`.  A batch of edits is
//! applied one after another, highest `start` first (a stable sort keeps the
//! given order among edits with the same `start`); an edit whose range is
//! reversed or reaches past the end of the current text is skipped.
use vstd::prelude::*;
use vstd::utf8::*;

verus! {

broadcast use vstd::string::group_string_axioms, vstd::utf8::encode_utf8_valid_utf8;

/// A replacement of the bytes `start..end` by the encoding of a text.
pub type Edit = (usize, usize, String);

/// What an edit means: its range and the characters of its text.
pub type TextEdit = (usize, usize, Seq<char>);

/// The meaning of an edit.
pub open spec fn edit_view(e: Edit) -> TextEdit {
    (e.0, e.1, e.2@)
}

/// The meaning of a list of edits.
pub open spec fn edits_view(es: Seq<Edit>) -> Seq<TextEdit> {
    es.map_values(|e: Edit| edit_view(e))
}

// ---------------------------------------------------------------------------
// Specifications
// ---------------------------------------------------------------------------
/// `sorted` with `e` placed before its first element whose start is not
/// greater than `e`'s.
pub open spec fn insert_by_start(e: TextEdit, sorted: Seq<TextEdit>) -> Seq<TextEdit>
    decreases sorted.len(),
{
    if sorted.len() == 0 || e.0 >= sorted[0].0 {
        seq![e] + sorted
    } else {
        seq![sorted[0]] + insert_by_start(e, sorted.drop_first())
    }
}

/// The edits ordered by descending start; edits with equal starts keep their
/// relative order (a stable sort).
pub open spec fn sorted_by_start_desc(es: Seq<TextEdit>) -> Seq<TextEdit>
    decreases es.len(),
{
    if es.len() == 0 {
        Seq::<TextEdit>::empty()
    } else {
        insert_by_start(es[0], sorted_by_start_desc(es.drop_first()))
    }
}

/// The edit's range is ordered and lies within `b`.
pub open spec fn in_bounds(b: Seq<u8>, e: TextEdit) -> bool {
    e.0 <= e.1 && e.1 <= b.len()
}

/// `b` with the bytes `start..end` replaced by `t`.
pub open spec fn splice(b: Seq<u8>, start: int, end: int, t: Seq<u8>) -> Seq<u8> {
    b.take(start) + t + b.skip(end)
}

/// One edit applied to the bytes `b`; an out-of-range edit leaves `b` as it is.
pub open spec fn apply_edit(b: Seq<u8>, e: TextEdit) -> Seq<u8> {
    if in_bounds(b, e) {
        splice(b, e.0 as int, e.1 as int, encode_utf8(e.2))
    } else {
        b
    }
}

/// The edits applied to `b` one after another, in the given order.
pub open spec fn apply_in_order(b: Seq<u8>, es: Seq<TextEdit>) -> Seq<u8>
    decreases es.len(),
{
    if es.len() == 0 {
        b
    } else {
        apply_in_order(apply_edit(b, es[0]), es.drop_first())
    }
}

/// Applied in the given order, every edit that is in range starts and ends on
/// a character boundary of the text it is applied to.
pub open spec fn on_boundaries(b: Seq<u8>, es: Seq<TextEdit>) -> bool
    decreases es.len(),
{
    es.len() == 0 || ((in_bounds(b, es[0]) ==> is_char_boundary(b, es[0].0 as int)
        && is_char_boundary(b, es[0].1 as int)) && on_boundaries(
        apply_edit(b, es[0]),
        es.drop_first(),
    ))
}

/// The edits, applied as `apply_edits` applies them, never split a character.
pub open spec fn edits_apply_cleanly(s: Seq<char>, es: Seq<TextEdit>) -> bool {
    on_boundaries(encode_utf8(s), sorted_by_start_desc(es))
}

/// The text `s` after the edits, applied as `apply_edits` applies them.
pub open spec fn edited(s: Seq<char>, es: Seq<TextEdit>) -> Seq<char> {
    decode_utf8(apply_in_order(encode_utf8(s), sorted_by_start_desc(es)))
}

// ---------------------------------------------------------------------------
// Lemmas
// ---------------------------------------------------------------------------
/// Inserting before the first element whose start is not greater.
proof fn lemma_insert_at(e: TextEdit, sorted: Seq<TextEdit>, k: int)
    requires
        0 <= k <= sorted.len(),
        forall|j: int| 0 <= j < k ==> e.0 < #[trigger] sorted[j].0,
        k < sorted.len() ==> e.0 >= sorted[k].0,
    ensures
        insert_by_start(e, sorted) == sorted.take(k) + seq![e] + sorted.skip(k),
    decreases k,
{
    if k == 0 {
        assert(sorted.skip(0) =~= sorted);
        assert(sorted.take(0) + seq![e] =~= seq![e]);
    } else {
        let rest = sorted.drop_first();
        assert forall|j: int| 0 <= j < k - 1 implies e.0 < #[trigger] rest[j].0 by {
            assert(rest[j] == sorted[j + 1]);
        }
        lemma_insert_at(e, rest, k - 1);
        assert(seq![sorted[0]] + (rest.take(k - 1) + seq![e] + rest.skip(k - 1)) =~= sorted.take(k)
            + seq![e] + sorted.skip(k));
    }
}

/// Splicing in valid UTF-8 at character boundaries gives valid UTF-8.
proof fn lemma_splice_valid(b: Seq<u8>, start: int, end: int, t: Seq<u8>)
    requires
        valid_utf8(b),
        valid_utf8(t),
        0 <= start <= end <= b.len(),
        is_char_boundary(b, start),
        is_char_boundary(b, end),
    ensures
        valid_utf8(splice(b, start, end, t)),
{
    valid_utf8_split(b, start);
    valid_utf8_split(b, end);
    assert(b.take(start) == b.subrange(0, start));
    assert(b.skip(end) == b.subrange(end, b.len() as int));
    valid_utf8_concat(b.take(start), t);
    valid_utf8_concat(b.take(start) + t, b.skip(end));
}

// ---------------------------------------------------------------------------
// Trusted conversion
// ---------------------------------------------------------------------------
/// `String::from_utf8`: the string that the bytes encode, when they are valid
/// UTF-8, and nothing otherwise.
#[verifier::external_body]
fn string_from_utf8(bytes: Vec<u8>) -> (s: Option<String>)
    ensures
        s is Some <==> valid_utf8(bytes@),
        s matches Some(t) ==> t@ == decode_utf8(bytes@),
{
    String::from_utf8(bytes).ok()
}

// ---------------------------------------------------------------------------
// Executable operations
// ---------------------------------------------------------------------------
/// `e` inserted into `sorted` as the stable descending sort places it.
fn insert_edit(sorted: Vec<Edit>, e: Edit) -> (out: Vec<Edit>)
    ensures
        edits_view(out@) == insert_by_start(edit_view(e), edits_view(sorted@)),
{
    let mut sorted = sorted;
    let mut k: usize = 0;
    while k < sorted.len() && e.0 < sorted[k].0
        invariant
            k <= sorted@.len(),
            forall|j: int| 0 <= j < k ==> e.0 < #[trigger] sorted@[j].0,
        decreases sorted@.len() - k,
    {
        k = k + 1;
    }
    let ghost before = edits_view(sorted@);
    proof {
        lemma_insert_at(edit_view(e), before, k as int);
    }
    let ghost ev = edit_view(e);
    sorted.insert(k, e);
    assert(edits_view(sorted@) =~= before.take(k as int) + seq![ev] + before.skip(k as int));
    sorted
}

/// The edits in the order `apply_edits` applies them.
pub fn sort_edits(edits: Vec<Edit>) -> (out: Vec<Edit>)
    ensures
        edits_view(out@) == sorted_by_start_desc(edits_view(edits@)),
{
    let ghost all = edits_view(edits@);
    let mut rest = edits;
    let mut out: Vec<Edit> = Vec::new();
    assert(all.skip(all.len() as int) =~= Seq::<TextEdit>::empty());
    while rest.len() > 0
        invariant
            edits_view(rest@) == all.take(rest@.len() as int),
            rest@.len() <= all.len(),
            edits_view(out@) == sorted_by_start_desc(all.skip(rest@.len() as int)),
        decreases rest@.len(),
    {
        let ghost n = rest@.len();
        let ghost before = rest@;
        let e = rest.pop().unwrap();
        assert(edits_view(before)[n - 1] == edit_view(e));
        assert(all.skip(n - 1).drop_first() =~= all.skip(n as int));
        assert(all.skip(n - 1)[0] == edit_view(e));
        out = insert_edit(out, e);
        assert(edits_view(rest@) =~= all.take(n - 1));
    }
    assert(all.skip(0) =~= all);
    out
}

/// `at` is a character boundary of the valid UTF-8 bytes `b`.
fn at_char_boundary(b: &Vec<u8>, at: usize) -> (r: bool)
    requires
        valid_utf8(b@),
        at <= b@.len(),
    ensures
        r == is_char_boundary(b@, at as int),
{
    proof {
        is_char_boundary_start_end_of_seq(b@);
    }
    if at == b.len() {
        true
    } else {
        proof {
            is_char_boundary_iff_not_is_continuation_byte(b@, at as int);
        }
        !(0x80 <= b[at] && b[at] <= 0xbf)
    }
}

/// `b` with the bytes `start..end` replaced by `t`.
fn splice_bytes(b: &Vec<u8>, start: usize, end: usize, t: &Vec<u8>) -> (out: Vec<u8>)
    requires
        start <= end <= b@.len(),
    ensures
        out@ == splice(b@, start as int, end as int, t@),
{
    let mut out: Vec<u8> = Vec::new();
    let mut i: usize = 0;
    while i < start
        invariant
            i <= start <= end <= b@.len(),
            out@ == b@.take(i as int),
        decreases start - i,
    {
        out.push(b[i]);
        assert(b@.take(i as int).push(b@[i as int]) =~= b@.take(i + 1));
        i = i + 1;
    }
    let mut j: usize = 0;
    while j < t.len()
        invariant
            j <= t@.len(),
            out@ == b@.take(start as int) + t@.take(j as int),
        decreases t@.len() - j,
    {
        out.push(t[j]);
        assert(b@.take(start as int) + t@.take(j as int).push(t@[j as int]) =~= b@.take(
            start as int,
        ) + t@.take(j + 1));
        j = j + 1;
    }
    assert(t@.take(t@.len() as int) =~= t@);
    let mut k: usize = end;
    while k < b.len()
        invariant
            end <= k <= b@.len(),
            out@ == b@.take(start as int) + t@ + b@.subrange(end as int, k as int),
        decreases b@.len() - k,
    {
        out.push(b[k]);
        assert(b@.subrange(end as int, k as int).push(b@[k as int]) =~= b@.subrange(
            end as int,
            k + 1,
        ));
        assert(b@.take(start as int) + t@ + b@.subrange(end as int, k as int).push(b@[k as int])
            =~= b@.take(start as int) + t@ + b@.subrange(end as int, k + 1));
        k = k + 1;
    }
    assert(b@.subrange(end as int, b@.len() as int) =~= b@.skip(end as int));
    out
}

/// The edits applied to `source` as `apply_edits` applies them, or nothing
/// when one of them would split a character.
pub fn apply_edits_checked(source: &String, edits: Vec<Edit>) -> (out: Option<String>)
    ensures
        out is Some <==> edits_apply_cleanly(source@, edits_view(edits@)),
        out matches Some(t) ==> t@ == edited(source@, edits_view(edits@)),
{
    let sorted = sort_edits(edits);
    let ghost orig = encode_utf8(source@);
    let mut b = source.as_str().as_bytes_vec();
    let mut i: usize = 0;
    assert(edits_view(sorted@).skip(0) =~= edits_view(sorted@));
    while i < sorted.len()
        invariant
            i <= sorted@.len(),
            orig == encode_utf8(source@),
            edits_view(sorted@) == sorted_by_start_desc(edits_view(edits@)),
            valid_utf8(b@),
            on_boundaries(orig, edits_view(sorted@)) == on_boundaries(
                b@,
                edits_view(sorted@).skip(i as int),
            ),
            apply_in_order(orig, edits_view(sorted@)) == apply_in_order(
                b@,
                edits_view(sorted@).skip(i as int),
            ),
        decreases sorted@.len() - i,
    {
        let ghost rest = edits_view(sorted@).skip(i as int);
        assert(rest[0] == edit_view(sorted@[i as int]));
        assert(rest.drop_first() =~= edits_view(sorted@).skip(i + 1));
        let start = sorted[i].0;
        let end = sorted[i].1;
        if start <= end && end <= b.len() {
            if !at_char_boundary(&b, start) || !at_char_boundary(&b, end) {
                assert(in_bounds(b@, rest[0]));
                assert(!on_boundaries(b@, rest));
                return None;
            }
            let t = sorted[i].2.as_str().as_bytes_vec();
            proof {
                lemma_splice_valid(b@, start as int, end as int, t@);
            }
            b = splice_bytes(&b, start, end, &t);
        }
        i = i + 1;
    }
    assert(edits_view(sorted@).skip(i as int) =~= Seq::<TextEdit>::empty());
    string_from_utf8(b)
}

/// Applies the edits to `source`: highest start first, edits with the same
/// start in their given order, each replacing its byte range of the text as
/// it stands at that point; reversed or out-of-range edits are skipped.
pub fn apply_edits(source: &mut String, edits: Vec<(usize, usize, String)>)
    requires
        edits_apply_cleanly(old(source)@, edits_view(edits@)),
    ensures
        final(source)@ == edited(old(source)@, edits_view(edits@)),
{
    match apply_edits_checked(source, edits) {
        Some(t) => {
            *source = t;
        },
        None => {},
    }
}

// ---------------------------------------------------------------------------
// Laws
// ---------------------------------------------------------------------------
/// The edits are listed by strictly increasing start, their ranges are
/// ordered, lie within `len` bytes and do not overlap.
pub open spec fn ascending_disjoint(len: int, asc: Seq<TextEdit>) -> bool {
    &&& forall|i: int| 0 <= i < asc.len() ==> #[trigger] asc[i].0 <= asc[i].1 <= len
    &&& forall|i: int, j: int|
        0 <= i < j < asc.len() ==> #[trigger] asc[i].1 <= #[trigger] asc[j].0 && asc[i].0 < asc[j].0
}

/// Each edit replacing its own range of the original bytes `b`: the bytes
/// before the last edit's range, with the earlier edits made there, then the
/// last edit's text, then the bytes after its range.
pub open spec fn woven(b: Seq<u8>, asc: Seq<TextEdit>) -> Seq<u8>
    decreases asc.len(),
{
    if asc.len() == 0 {
        b
    } else {
        let l = asc.last();
        woven(b.take(l.0 as int), asc.drop_last()) + encode_utf8(l.2) + b.skip(l.1 as int)
    }
}

/// Sorting edits whose starts strictly increase reverses them.
proof fn lemma_sorted_ascending(asc: Seq<TextEdit>)
    requires
        forall|i: int, j: int| 0 <= i < j < asc.len() ==> #[trigger] asc[i].0 < #[trigger] asc[j].0,
    ensures
        sorted_by_start_desc(asc) == asc.reverse(),
    decreases asc.len(),
{
    if asc.len() > 0 {
        let rest = asc.drop_first();
        assert forall|i: int, j: int| 0 <= i < j < rest.len() implies #[trigger] rest[i].0
            < #[trigger] rest[j].0 by {
            assert(rest[i] == asc[i + 1]);
            assert(rest[j] == asc[j + 1]);
        }
        lemma_sorted_ascending(rest);
        let r = rest.reverse();
        assert forall|j: int| 0 <= j < r.len() implies asc[0].0 < #[trigger] r[j].0 by {
            assert(r[j] == asc[rest.len() - j]);
        }
        lemma_insert_at(asc[0], r, r.len() as int);
        assert(r.take(r.len() as int) + seq![asc[0]] + r.skip(r.len() as int) =~= asc.reverse());
    }
}

/// Edits that all lie before the end of `x`, applied in descending order
/// without overlap, leave whatever follows `x` alone.
proof fn lemma_apply_prefix(x: Seq<u8>, y: Seq<u8>, ds: Seq<TextEdit>)
    requires
        forall|i: int| 0 <= i < ds.len() ==> #[trigger] ds[i].0 <= ds[i].1,
        ds.len() > 0 ==> ds[0].1 <= x.len(),
        forall|i: int, j: int| 0 <= i < j < ds.len() ==> #[trigger] ds[j].1 <= #[trigger] ds[i].0,
    ensures
        apply_in_order(x + y, ds) == apply_in_order(x, ds) + y,
    decreases ds.len(),
{
    if ds.len() > 0 {
        let d = ds[0];
        let t = encode_utf8(d.2);
        let x2 = splice(x, d.0 as int, d.1 as int, t);
        assert(in_bounds(x + y, d) && in_bounds(x, d));
        assert(splice(x + y, d.0 as int, d.1 as int, t) =~= x2 + y);
        let rest = ds.drop_first();
        assert forall|i: int| 0 <= i < rest.len() implies #[trigger] rest[i].0 <= rest[i].1 by {
            assert(rest[i] == ds[i + 1]);
        }
        assert forall|i: int, j: int| 0 <= i < j < rest.len() implies #[trigger] rest[j].1
            <= #[trigger] rest[i].0 by {
            assert(rest[i] == ds[i + 1]);
            assert(rest[j] == ds[j + 1]);
        }
        if rest.len() > 0 {
            assert(rest[0] == ds[1]);
        }
        lemma_apply_prefix(x2, y, rest);
    }
}

/// Descending application of ascending, disjoint edits is the woven result.
proof fn lemma_apply_descending(b: Seq<u8>, asc: Seq<TextEdit>)
    requires
        ascending_disjoint(b.len() as int, asc),
    ensures
        apply_in_order(b, asc.reverse()) == woven(b, asc),
    decreases asc.len(),
{
    if asc.len() > 0 {
        let l = asc.last();
        let pre = asc.drop_last();
        let x = b.take(l.0 as int);
        let y = encode_utf8(l.2) + b.skip(l.1 as int);
        assert(asc.reverse()[0] == l);
        assert(asc.reverse().drop_first() =~= pre.reverse());
        assert(in_bounds(b, l));
        assert(splice(b, l.0 as int, l.1 as int, encode_utf8(l.2)) =~= x + y);
        let rp = pre.reverse();
        assert forall|i: int| 0 <= i < rp.len() implies #[trigger] rp[i].0 <= rp[i].1 by {
            assert(rp[i] == asc[pre.len() - 1 - i]);
        }
        assert forall|i: int, j: int| 0 <= i < j < rp.len() implies #[trigger] rp[j].1
            <= #[trigger] rp[i].0 by {
            assert(rp[i] == asc[pre.len() - 1 - i]);
            assert(rp[j] == asc[pre.len() - 1 - j]);
        }
        if rp.len() > 0 {
            assert(rp[0] == asc[asc.len() - 2]);
        }
        lemma_apply_prefix(x, y, rp);
        assert forall|i: int| 0 <= i < pre.len() implies #[trigger] pre[i].0 <= pre[i].1 <= x.len() by {
            assert(pre[i] == asc[i]);
        }
        assert forall|i: int, j: int| 0 <= i < j < pre.len() implies #[trigger] pre[i].1
            <= #[trigger] pre[j].0 && pre[i].0 < pre[j].0 by {
            assert(pre[i] == asc[i]);
            assert(pre[j] == asc[j]);
        }
        lemma_apply_descending(x, pre);
        assert(apply_in_order(b, asc.reverse()) == apply_in_order(x + y, rp));
        assert(woven(b, asc) =~= woven(x, pre) + y);
    }
}

/// No two edits share a start.
pub open spec fn distinct_starts(es: Seq<TextEdit>) -> bool {
    forall|i: int, j: int| 0 <= i < j < es.len() ==> #[trigger] es[i].0 != #[trigger] es[j].0
}

/// The starts strictly decrease along the list.
pub open spec fn strictly_desc(es: Seq<TextEdit>) -> bool {
    forall|i: int, j: int| 0 <= i < j < es.len() ==> #[trigger] es[i].0 > #[trigger] es[j].0
}

/// Inserting an edit adds it to the edits' multiset.
proof fn lemma_insert_multiset(e: TextEdit, sorted: Seq<TextEdit>)
    ensures
        insert_by_start(e, sorted).to_multiset() =~= sorted.to_multiset().insert(e),
    decreases sorted.len(),
{
    broadcast use vstd::multiset::group_multiset_axioms, vstd::seq_lib::group_to_multiset_ensures;

    if sorted.len() == 0 || e.0 >= sorted[0].0 {
        vstd::seq_lib::lemma_multiset_commutative(seq![e], sorted);
        assert(seq![e] =~= Seq::<TextEdit>::empty().push(e));
    } else {
        let rest = sorted.drop_first();
        lemma_insert_multiset(e, rest);
        vstd::seq_lib::lemma_multiset_commutative(seq![sorted[0]], insert_by_start(e, rest));
        vstd::seq_lib::lemma_multiset_commutative(seq![sorted[0]], rest);
        assert(seq![sorted[0]] + rest =~= sorted);
        assert(seq![sorted[0]] =~= Seq::<TextEdit>::empty().push(sorted[0]));
    }
}

/// Sorting keeps the multiset of edits.
proof fn lemma_sorted_multiset(es: Seq<TextEdit>)
    ensures
        sorted_by_start_desc(es).to_multiset() =~= es.to_multiset(),
    decreases es.len(),
{
    broadcast use vstd::multiset::group_multiset_axioms, vstd::seq_lib::group_to_multiset_ensures;

    if es.len() == 0 {
        assert(sorted_by_start_desc(es) =~= es);
    } else {
        let rest = es.drop_first();
        lemma_sorted_multiset(rest);
        lemma_insert_multiset(es[0], sorted_by_start_desc(rest));
        vstd::seq_lib::lemma_multiset_commutative(seq![es[0]], rest);
        assert(seq![es[0]] + rest =~= es);
        assert(seq![es[0]] =~= Seq::<TextEdit>::empty().push(es[0]));
    }
}

/// Two lists with the same multiset hold the same edits.
proof fn lemma_same_elements(a: Seq<TextEdit>, b: Seq<TextEdit>, x: TextEdit)
    requires
        a.to_multiset() =~= b.to_multiset(),
    ensures
        a.contains(x) <==> b.contains(x),
{
    broadcast use vstd::seq_lib::group_to_multiset_ensures;

    assert(a.contains(x) <==> a.to_multiset().count(x) > 0);
    assert(b.contains(x) <==> b.to_multiset().count(x) > 0);
}

/// Inserting an edit whose start no edit has keeps the starts strictly
/// decreasing.
proof fn lemma_insert_strict(e: TextEdit, sorted: Seq<TextEdit>)
    requires
        strictly_desc(sorted),
        forall|x: TextEdit| sorted.contains(x) ==> x.0 != e.0,
    ensures
        strictly_desc(insert_by_start(e, sorted)),
    decreases sorted.len(),
{
    if sorted.len() == 0 || e.0 >= sorted[0].0 {
        if sorted.len() > 0 {
            assert(sorted.contains(sorted[0]));
        }
        let r = seq![e] + sorted;
        assert forall|i: int, j: int| 0 <= i < j < r.len() implies #[trigger] r[i].0 > #[trigger] r[j].0 by {
            if i == 0 {
                assert(r[j] == sorted[j - 1]);
                if j > 1 {
                    assert(sorted[0].0 > sorted[j - 1].0);
                }
            } else {
                assert(r[i] == sorted[i - 1] && r[j] == sorted[j - 1]);
            }
        }
    } else {
        let rest = sorted.drop_first();
        assert forall|i: int, j: int| 0 <= i < j < rest.len() implies #[trigger] rest[i].0 > #[trigger] rest[j].0 by {
            assert(rest[i] == sorted[i + 1] && rest[j] == sorted[j + 1]);
        }
        assert forall|x: TextEdit| rest.contains(x) implies x.0 != e.0 by {
            let k = choose|k: int| 0 <= k < rest.len() && rest[k] == x;
            assert(sorted[k + 1] == x);
            assert(sorted.contains(x));
        }
        lemma_insert_strict(e, rest);
        let ins = insert_by_start(e, rest);
        lemma_insert_multiset(e, rest);
        let r = seq![sorted[0]] + ins;
        assert forall|i: int, j: int| 0 <= i < j < r.len() implies #[trigger] r[i].0 > #[trigger] r[j].0 by {
            if i == 0 {
                let y = r[j];
                assert(y == ins[j - 1]);
                assert(ins.contains(y));
                broadcast use vstd::multiset::group_multiset_axioms, vstd::seq_lib::group_to_multiset_ensures;
                assert(ins.to_multiset().count(y) > 0);
                if y != e {
                    assert(rest.to_multiset().count(y) > 0);
                    assert(rest.contains(y));
                    let k = choose|k: int| 0 <= k < rest.len() && rest[k] == y;
                    assert(sorted[k + 1] == y);
                }
            } else {
                assert(r[i] == ins[i - 1] && r[j] == ins[j - 1]);
            }
        }
    }
}

/// Sorting edits with distinct starts makes the starts strictly decrease.
proof fn lemma_sorted_strict(es: Seq<TextEdit>)
    requires
        distinct_starts(es),
    ensures
        strictly_desc(sorted_by_start_desc(es)),
    decreases es.len(),
{
    if es.len() > 0 {
        let rest = es.drop_first();
        assert forall|i: int, j: int| 0 <= i < j < rest.len() implies #[trigger] rest[i].0 != #[trigger] rest[j].0 by {
            assert(rest[i] == es[i + 1] && rest[j] == es[j + 1]);
        }
        lemma_sorted_strict(rest);
        let sr = sorted_by_start_desc(rest);
        lemma_sorted_multiset(rest);
        assert forall|x: TextEdit| sr.contains(x) implies x.0 != es[0].0 by {
            lemma_same_elements(sr, rest, x);
            let k = choose|k: int| 0 <= k < rest.len() && rest[k] == x;
            assert(es[k + 1] == x);
        }
        lemma_insert_strict(es[0], sr);
    }
}

/// Two lists whose starts strictly decrease and that hold the same edits are
/// the same list.
proof fn lemma_desc_unique(a: Seq<TextEdit>, b: Seq<TextEdit>)
    requires
        strictly_desc(a),
        strictly_desc(b),
        a.to_multiset() =~= b.to_multiset(),
    ensures
        a == b,
    decreases a.len(),
{
    broadcast use vstd::multiset::group_multiset_axioms, vstd::seq_lib::group_to_multiset_ensures;

    assert(a.len() == a.to_multiset().len());
    assert(b.len() == b.to_multiset().len());
    if a.len() > 0 {
        assert(a.contains(a[0]));
        lemma_same_elements(a, b, a[0]);
        lemma_same_elements(a, b, b[0]);
        assert(b.contains(b[0]));
        let j = choose|j: int| 0 <= j < b.len() && b[j] == a[0];
        let i = choose|i: int| 0 <= i < a.len() && a[i] == b[0];
        if j > 0 {
            assert(b[0].0 > b[j].0);
        }
        if i > 0 {
            assert(a[0].0 > a[i].0);
        }
        assert(a[0] == b[0]);
        assert(a.remove(0) =~= a.drop_first());
        assert(b.remove(0) =~= b.drop_first());
        let a1 = a.drop_first();
        let b1 = b.drop_first();
        assert forall|p: int, q: int| 0 <= p < q < a1.len() implies #[trigger] a1[p].0 > #[trigger] a1[q].0 by {
            assert(a1[p] == a[p + 1] && a1[q] == a[q + 1]);
        }
        assert forall|p: int, q: int| 0 <= p < q < b1.len() implies #[trigger] b1[p].0 > #[trigger] b1[q].0 by {
            assert(b1[p] == b[p + 1] && b1[q] == b[q + 1]);
        }
        lemma_desc_unique(a1, b1);
        assert forall|k: int| 0 <= k < a.len() implies a[k] == b[k] by {
            if k > 0 {
                assert(a[k] == a1[k - 1] && b[k] == b1[k - 1]);
            }
        }
        assert(a =~= b);
    }
}

/// The same edits with distinct starts, in two orders, sort to one list.
proof fn lemma_sort_order_free(es1: Seq<TextEdit>, es2: Seq<TextEdit>)
    requires
        es1.to_multiset() =~= es2.to_multiset(),
        distinct_starts(es1),
    ensures
        distinct_starts(es2),
        sorted_by_start_desc(es1) == sorted_by_start_desc(es2),
{
    broadcast use vstd::multiset::group_multiset_axioms, vstd::seq_lib::group_to_multiset_ensures;

    assert forall|i: int, j: int| 0 <= i < es1.len() && 0 <= j < es1.len() && i != j implies es1[i]
        != es1[j] by {
        if i < j {
            assert(es1[i].0 != es1[j].0);
        } else {
            assert(es1[j].0 != es1[i].0);
        }
    }
    assert(es1.no_duplicates());
    es1.lemma_multiset_has_no_duplicates();
    es2.lemma_multiset_has_no_duplicates_conv();
    assert forall|i: int, j: int| 0 <= i < j < es2.len() implies #[trigger] es2[i].0 != #[trigger] es2[j].0 by {
        lemma_same_elements(es1, es2, es2[i]);
        lemma_same_elements(es1, es2, es2[j]);
        assert(es2.contains(es2[i]) && es2.contains(es2[j]));
        let p = choose|p: int| 0 <= p < es1.len() && es1[p] == es2[i];
        let q = choose|q: int| 0 <= q < es1.len() && es1[q] == es2[j];
        assert(es2[i] != es2[j]);
        if p < q {
            assert(es1[p].0 != es1[q].0);
        } else if q < p {
            assert(es1[q].0 != es1[p].0);
        }
    }
    lemma_sorted_strict(es1);
    lemma_sorted_strict(es2);
    lemma_sorted_multiset(es1);
    lemma_sorted_multiset(es2);
    lemma_desc_unique(sorted_by_start_desc(es1), sorted_by_start_desc(es2));
}

/// Law: the same edits given in another order, no two with the same start,
/// are applied alike: same sorted order, same outcome.
pub proof fn law_edit_order_is_irrelevant(s: Seq<char>, es1: Seq<TextEdit>, es2: Seq<TextEdit>)
    requires
        es1.to_multiset() =~= es2.to_multiset(),
        distinct_starts(es1),
    ensures
        sorted_by_start_desc(es1) == sorted_by_start_desc(es2),
        edits_apply_cleanly(s, es1) == edits_apply_cleanly(s, es2),
        edited(s, es1) == edited(s, es2),
{
    lemma_sort_order_free(es1, es2);
}

/// A character boundary of `x` stays one when more valid bytes, not starting
/// with a continuation byte, follow.
proof fn lemma_boundary_extend(x: Seq<u8>, y: Seq<u8>, i: int)
    requires
        valid_utf8(x),
        valid_utf8(x + y),
        y.len() == 0 || !is_continuation_byte(y[0]),
        0 <= i <= x.len(),
        is_char_boundary(x, i),
    ensures
        is_char_boundary(x + y, i),
{
    if i < x.len() {
        is_char_boundary_iff_not_is_continuation_byte(x, i);
        is_char_boundary_iff_not_is_continuation_byte(x + y, i);
        assert((x + y)[i] == x[i]);
    } else if y.len() == 0 {
        assert(x + y =~= x);
        is_char_boundary_start_end_of_seq(x);
    } else {
        is_char_boundary_iff_not_is_continuation_byte(x + y, i);
        assert((x + y)[i] == y[0]);
    }
}

/// A character boundary of `b` at or before the boundary `n` is one of the
/// first `n` bytes.
proof fn lemma_boundary_restrict(b: Seq<u8>, n: int, i: int)
    requires
        valid_utf8(b),
        0 <= i <= n <= b.len(),
        is_char_boundary(b, n),
        is_char_boundary(b, i),
    ensures
        valid_utf8(b.take(n)),
        is_char_boundary(b.take(n), i),
{
    valid_utf8_split(b, n);
    assert(b.take(n) == b.subrange(0, n));
    if i == n {
        is_char_boundary_start_end_of_seq(b.take(n));
    } else {
        is_char_boundary_iff_not_is_continuation_byte(b, i);
        is_char_boundary_iff_not_is_continuation_byte(b.take(n), i);
    }
}

/// Edits below the end of `x`, applied in descending order without overlap,
/// meet boundaries in `x + y` wherever they meet them in `x`.
proof fn lemma_boundaries_prefix(x: Seq<u8>, y: Seq<u8>, ds: Seq<TextEdit>)
    requires
        valid_utf8(x),
        valid_utf8(x + y),
        y.len() == 0 || !is_continuation_byte(y[0]),
        forall|i: int| 0 <= i < ds.len() ==> #[trigger] ds[i].0 <= ds[i].1,
        ds.len() > 0 ==> ds[0].1 <= x.len(),
        forall|i: int, j: int| 0 <= i < j < ds.len() ==> #[trigger] ds[j].1 <= #[trigger] ds[i].0,
        on_boundaries(x, ds),
    ensures
        on_boundaries(x + y, ds),
    decreases ds.len(),
{
    if ds.len() > 0 {
        let d = ds[0];
        let t = encode_utf8(d.2);
        assert(in_bounds(x, d) && in_bounds(x + y, d));
        lemma_boundary_extend(x, y, d.0 as int);
        lemma_boundary_extend(x, y, d.1 as int);
        let x2 = splice(x, d.0 as int, d.1 as int, t);
        lemma_splice_valid(x, d.0 as int, d.1 as int, t);
        lemma_splice_valid(x + y, d.0 as int, d.1 as int, t);
        assert(splice(x + y, d.0 as int, d.1 as int, t) =~= x2 + y);
        let rest = ds.drop_first();
        assert forall|i: int| 0 <= i < rest.len() implies #[trigger] rest[i].0 <= rest[i].1 by {
            assert(rest[i] == ds[i + 1]);
        }
        assert forall|i: int, j: int| 0 <= i < j < rest.len() implies #[trigger] rest[j].1
            <= #[trigger] rest[i].0 by {
            assert(rest[i] == ds[i + 1]);
            assert(rest[j] == ds[j + 1]);
        }
        if rest.len() > 0 {
            assert(rest[0] == ds[1]);
        }
        lemma_boundaries_prefix(x2, y, rest);
    }
}

/// Ascending, disjoint edits whose ends are character boundaries of `b`
/// split no character when applied in descending order.
proof fn lemma_boundaries_descending(b: Seq<u8>, asc: Seq<TextEdit>)
    requires
        valid_utf8(b),
        ascending_disjoint(b.len() as int, asc),
        forall|i: int|
            0 <= i < asc.len() ==> is_char_boundary(b, #[trigger] asc[i].0 as int)
                && is_char_boundary(b, asc[i].1 as int),
    ensures
        on_boundaries(b, asc.reverse()),
    decreases asc.len(),
{
    if asc.len() > 0 {
        let l = asc.last();
        let pre = asc.drop_last();
        let x = b.take(l.0 as int);
        let t = encode_utf8(l.2);
        let y = t + b.skip(l.1 as int);
        assert(asc[asc.len() - 1] == l);
        assert(asc.reverse()[0] == l);
        assert(asc.reverse().drop_first() =~= pre.reverse());
        assert(in_bounds(b, l));
        assert(splice(b, l.0 as int, l.1 as int, t) =~= x + y);
        lemma_splice_valid(b, l.0 as int, l.1 as int, t);
        lemma_boundary_restrict(b, l.0 as int, 0);
        assert forall|i: int| 0 <= i < pre.len() implies #[trigger] pre[i].0 <= pre[i].1 <= x.len() by {
            assert(pre[i] == asc[i]);
        }
        assert forall|i: int, j: int| 0 <= i < j < pre.len() implies #[trigger] pre[i].1
            <= #[trigger] pre[j].0 && pre[i].0 < pre[j].0 by {
            assert(pre[i] == asc[i]);
            assert(pre[j] == asc[j]);
        }
        assert forall|i: int| 0 <= i < pre.len() implies is_char_boundary(x, #[trigger] pre[i].0 as int)
            && is_char_boundary(x, pre[i].1 as int) by {
            assert(pre[i] == asc[i]);
            lemma_boundary_restrict(b, l.0 as int, pre[i].0 as int);
            lemma_boundary_restrict(b, l.0 as int, pre[i].1 as int);
        }
        lemma_boundaries_descending(x, pre);
        if t.len() > 0 {
            is_char_boundary_iff_not_is_continuation_byte(t, 0);
            assert(y[0] == t[0]);
        } else if l.1 < b.len() {
            is_char_boundary_iff_not_is_continuation_byte(b, l.1 as int);
            assert(y[0] == b[l.1 as int]);
        } else {
            assert(y.len() == 0);
        }
        let rp = pre.reverse();
        assert forall|i: int| 0 <= i < rp.len() implies #[trigger] rp[i].0 <= rp[i].1 by {
            assert(rp[i] == asc[pre.len() - 1 - i]);
        }
        assert forall|i: int, j: int| 0 <= i < j < rp.len() implies #[trigger] rp[j].1
            <= #[trigger] rp[i].0 by {
            assert(rp[i] == asc[pre.len() - 1 - i]);
            assert(rp[j] == asc[pre.len() - 1 - j]);
        }
        if rp.len() > 0 {
            assert(rp[0] == asc[asc.len() - 2]);
        }
        lemma_boundaries_prefix(x, y, rp);
    }
}

/// Law: disjoint edits given in any order (here `asc`, listed by strictly
/// increasing start, holds the same edits) whose ends are character
/// boundaries of the text never split a character, and each replaces its
/// own byte range of the original text: applying one edit never shifts the
/// positions of another.
pub proof fn law_disjoint_edits_use_original_positions(
    s: Seq<char>,
    es: Seq<TextEdit>,
    asc: Seq<TextEdit>,
)
    requires
        es.to_multiset() =~= asc.to_multiset(),
        ascending_disjoint(encode_utf8(s).len() as int, asc),
        forall|i: int|
            0 <= i < asc.len() ==> is_char_boundary(encode_utf8(s), #[trigger] asc[i].0 as int)
                && is_char_boundary(encode_utf8(s), asc[i].1 as int),
    ensures
        edits_apply_cleanly(s, es),
        edited(s, es) == decode_utf8(woven(encode_utf8(s), asc)),
{
    assert forall|i: int, j: int| 0 <= i < j < asc.len() implies #[trigger] asc[i].0
        < #[trigger] asc[j].0 by {
    }
    assert(distinct_starts(asc));
    lemma_sort_order_free(asc, es);
    lemma_sorted_ascending(asc);
    lemma_apply_descending(encode_utf8(s), asc);
    lemma_boundaries_descending(encode_utf8(s), asc);
}

/// Edits that all lie out of range of `b` leave it alone.
proof fn lemma_all_out_of_range(b: Seq<u8>, ds: Seq<TextEdit>)
    requires
        forall|x: TextEdit| ds.contains(x) ==> x.0 > x.1 || x.1 > b.len(),
    ensures
        apply_in_order(b, ds) == b,
        on_boundaries(b, ds),
    decreases ds.len(),
{
    if ds.len() > 0 {
        assert(ds.contains(ds[0]));
        let rest = ds.drop_first();
        assert forall|x: TextEdit| rest.contains(x) implies x.0 > x.1 || x.1 > b.len() by {
            let k = choose|k: int| 0 <= k < rest.len() && rest[k] == x;
            assert(ds[k + 1] == x);
            assert(ds.contains(x));
        }
        lemma_all_out_of_range(b, rest);
    }
}

/// Law: a batch of edits that are each reversed or reach past the end of the
/// text changes nothing and splits nothing: they are dropped.
pub proof fn law_out_of_range_edits_are_dropped(s: Seq<char>, es: Seq<TextEdit>)
    requires
        forall|i: int|
            0 <= i < es.len() ==> #[trigger] es[i].0 > es[i].1 || es[i].1 > encode_utf8(s).len(),
    ensures
        edits_apply_cleanly(s, es),
        edited(s, es) == s,
{
    let sorted = sorted_by_start_desc(es);
    lemma_sorted_multiset(es);
    assert forall|x: TextEdit| sorted.contains(x) implies x.0 > x.1 || x.1 > encode_utf8(s).len() by {
        lemma_same_elements(sorted, es, x);
        let k = choose|k: int| 0 <= k < es.len() && es[k] == x;
    }
    lemma_all_out_of_range(encode_utf8(s), sorted);
    encode_utf8_decode_utf8(s);
}

/// The encoding of ASCII text is its characters as bytes, one for one.
proof fn lemma_ascii_encoding(c: Seq<char>, i: int, j: int)
    requires
        is_ascii_chars(c),
        0 <= i <= j <= c.len(),
    ensures
        encode_utf8(c).len() == c.len(),
        encode_utf8(c.subrange(i, j)) == encode_utf8(c).subrange(i, j),
        is_ascii_chars(c.subrange(i, j)),
{
    is_ascii_chars_encode_utf8(c);
    let sub = c.subrange(i, j);
    assert(is_ascii_chars(sub)) by {
        assert forall|k: int| 0 <= k < sub.len() implies '\0' <= #[trigger] sub[k] <= '\u{7f}' by {
            assert(sub[k] == c[i + k]);
        }
    }
    is_ascii_chars_encode_utf8(sub);
    assert(encode_utf8(sub) =~= encode_utf8(c).subrange(i, j)) by {
        assert forall|k: int| 0 <= k < sub.len() implies encode_utf8(sub)[k] == encode_utf8(
            c,
        ).subrange(i, j)[k] by {
            assert(sub[k] == c[i + k]);
            assert(sub[k] as u8 == encode_utf8(sub)[k]);
            assert(c[i + k] as u8 == encode_utf8(c)[i + k]);
        }
    }
}

/// Applying edits with ASCII texts to ASCII text in any order meets only
/// character boundaries and gives the encoding of ASCII text.
proof fn lemma_ascii_apply(c: Seq<char>, ds: Seq<TextEdit>) -> (r: Seq<char>)
    requires
        is_ascii_chars(c),
        forall|x: TextEdit| ds.contains(x) ==> is_ascii_chars(x.2),
    ensures
        on_boundaries(encode_utf8(c), ds),
        is_ascii_chars(r),
        apply_in_order(encode_utf8(c), ds) == encode_utf8(r),
    decreases ds.len(),
{
    let b = encode_utf8(c);
    lemma_ascii_encoding(c, 0, c.len() as int);
    if ds.len() == 0 {
        c
    } else {
        let d = ds[0];
        assert(ds.contains(d));
        let rest = ds.drop_first();
        assert forall|x: TextEdit| rest.contains(x) implies is_ascii_chars(x.2) by {
            let k = choose|k: int| 0 <= k < rest.len() && rest[k] == x;
            assert(ds[k + 1] == x);
            assert(ds.contains(x));
        }
        if in_bounds(b, d) {
            let i = d.0 as int;
            let j = d.1 as int;
            assert forall|k: int| 0 <= k <= b.len() implies is_char_boundary(b, k) by {
                if k == b.len() {
                    is_char_boundary_start_end_of_seq(b);
                } else {
                    is_char_boundary_iff_not_is_continuation_byte(b, k);
                    is_ascii_chars_encode_utf8(c);
                    assert(c[k] as u8 == b[k]);
                }
            }
            assert(is_char_boundary(b, i) && is_char_boundary(b, j));
            let c2 = c.take(i) + d.2 + c.skip(j);
            lemma_ascii_encoding(c, 0, i);
            lemma_ascii_encoding(c, j, c.len() as int);
            assert(c.take(i) == c.subrange(0, i));
            assert(c.skip(j) == c.subrange(j, c.len() as int));
            assert(b.take(i) == b.subrange(0, i));
            assert(b.skip(j) == b.subrange(j, b.len() as int));
            lemma_encode_concat(c.take(i), d.2);
            lemma_encode_concat(c.take(i) + d.2, c.skip(j));
            assert(is_ascii_chars(c2)) by {
                assert forall|k: int| 0 <= k < c2.len() implies '\0' <= #[trigger] c2[k] <= '\u{7f}' by {
                    if k < i {
                        assert(c2[k] == c[k]);
                    } else if k < i + d.2.len() {
                        assert(c2[k] == d.2[k - i]);
                    } else {
                        assert(c2[k] == c[k - i - d.2.len() + j]);
                    }
                }
            }
            assert(apply_edit(b, d) == encode_utf8(c2));
            lemma_ascii_apply(c2, rest)
        } else {
            assert(apply_edit(b, d) == b);
            lemma_ascii_apply(c, rest)
        }
    }
}

/// Law: on ASCII text, edits whose texts are ASCII, at any positions
/// (overlapping, reversed or out of range), never split a character, and the
/// result is ASCII.
pub proof fn law_ascii_edits_never_fail(s: Seq<char>, es: Seq<TextEdit>)
    requires
        is_ascii_chars(s),
        forall|i: int| 0 <= i < es.len() ==> is_ascii_chars(#[trigger] es[i].2),
    ensures
        edits_apply_cleanly(s, es),
        is_ascii_chars(edited(s, es)),
{
    let sorted = sorted_by_start_desc(es);
    lemma_sorted_multiset(es);
    assert forall|x: TextEdit| sorted.contains(x) implies is_ascii_chars(x.2) by {
        lemma_same_elements(sorted, es, x);
        let k = choose|k: int| 0 <= k < es.len() && es[k] == x;
    }
    let r = lemma_ascii_apply(s, sorted);
    encode_utf8_decode_utf8(r);
}

/// The encoding of two texts one after the other is the two encodings one
/// after the other.
pub proof fn lemma_encode_concat(a: Seq<char>, b: Seq<char>)
    ensures
        encode_utf8(a + b) == encode_utf8(a) + encode_utf8(b),
    decreases a.len(),
{
    if a.len() > 0 {
        assert((a + b).drop_first() =~= a.drop_first() + b);
        assert((a + b)[0] == a[0]);
        lemma_encode_concat(a.drop_first(), b);
        assert(encode_utf8(a + b) =~= encode_utf8(a) + encode_utf8(b));
    } else {
        assert(a + b =~= b);
        assert(encode_utf8(a) =~= Seq::<u8>::empty());
        assert(encode_utf8(a) + encode_utf8(b) =~= encode_utf8(b));
    }
}

/// Law: no edits leave the text as it is, and one insertion at position 0
/// puts its text in front of the whole text.
pub proof fn law_empty_and_front_insertion(s: Seq<char>, x: Seq<char>)
    ensures
        edits_apply_cleanly(s, Seq::empty()),
        edited(s, Seq::empty()) == s,
        edits_apply_cleanly(s, seq![(0usize, 0usize, x)]),
        edited(s, seq![(0usize, 0usize, x)]) == x + s,
{
    let b = encode_utf8(s);
    let none = Seq::<TextEdit>::empty();
    let e = (0usize, 0usize, x);
    let one = seq![e];
    assert(sorted_by_start_desc(none) == none);
    assert(apply_in_order(b, none) == b);
    encode_utf8_decode_utf8(s);
    assert(one.drop_first() =~= none);
    assert(one[0] == e);
    assert(insert_by_start(e, none) =~= one);
    assert(sorted_by_start_desc(one) == one);
    assert(in_bounds(b, e));
    assert(splice(b, 0, 0, encode_utf8(x)) =~= encode_utf8(x) + b);
    lemma_encode_concat(x, s);
    assert(apply_edit(b, e) == encode_utf8(x) + b);
    assert(apply_in_order(b, one) == apply_in_order(apply_edit(b, e), none));
    assert(apply_in_order(apply_edit(b, e), none) == apply_edit(b, e));
    assert(apply_in_order(b, one) == encode_utf8(x + s));
    encode_utf8_decode_utf8(x + s);
    is_char_boundary_start_end_of_seq(b);
    assert(on_boundaries(apply_edit(b, e), none));
    assert(on_boundaries(b, one));
}

} // verus!
