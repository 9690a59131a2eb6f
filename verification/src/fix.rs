//! Fixes: edits of a text by byte ranges, and how the outcome differs from the original.

use crate::bytes::{lemma_encode_concat, lemma_encode_injective, slice_bytes};
use crate::finding::{Finding, FindingView};
use crate::paths::{components, part_views, path_parts, PathPart};
use crate::sort::{lemma_insert_at, sort_stable, sorting_orders_and_permutes, stable_sort};
use crate::text::{lemma_texts_push, lines, lines_of, owned, same, texts};
use vstd::prelude::*;
use vstd::utf8::{
    encode_utf8, encode_utf8_valid_utf8, is_char_boundary,
    is_char_boundary_iff_not_is_continuation_byte, is_char_boundary_start_end_of_seq, valid_utf8,
    valid_utf8_concat, valid_utf8_split,
};

verus! {

// ---------------------------------------------------------------------------
// Edits
// ---------------------------------------------------------------------------

/// A single byte-range replacement within a file.
#[derive(Debug)]
pub struct CodeEdit {
    pub start_byte: usize,
    pub end_byte: usize,
    pub replacement: String,
}

#[verifier::ext_equal]
pub struct EditView {
    pub start: int,
    pub end: int,
    pub replacement: Seq<char>,
}

impl View for CodeEdit {
    type V = EditView;

    open spec fn view(&self) -> EditView {
        EditView {
            start: self.start_byte as int,
            end: self.end_byte as int,
            replacement: self.replacement@,
        }
    }
}

impl Clone for CodeEdit {
    fn clone(&self) -> (r: CodeEdit)
        ensures
            r@ == self@,
    {
        CodeEdit {
            start_byte: self.start_byte,
            end_byte: self.end_byte,
            replacement: self.replacement.clone(),
        }
    }
}

pub open spec fn edit_views(v: Seq<CodeEdit>) -> Seq<EditView> {
    v.map_values(|e: CodeEdit| e@)
}

/// All edits for a single file.
#[derive(Debug)]
pub struct FileFix {
    pub file_path: String,
    pub edits: Vec<CodeEdit>,
}

/// Edits come in the order in which they are applied: from the end of the text on.
pub open spec fn later_first() -> spec_fn(EditView, EditView) -> bool {
    |a: EditView, b: EditView| a.start >= b.start
}

/// The edit is left out: it repeats one that was applied before, or overlaps the last of them.
pub open spec fn skipped(done: Seq<EditView>, e: EditView) -> bool {
    done.contains(e) || (done.len() > 0 && e.end > done.last().start)
}

pub open spec fn least(a: int, b: int) -> int {
    if a < b {
        a
    } else {
        b
    }
}

/// The edit's range, cut off at the end of the text, can be replaced: it does not end before it
/// starts, and divides no character.
pub open spec fn applicable(bytes: Seq<u8>, e: EditView) -> bool {
    let start = least(e.start, bytes.len() as int);
    let end = least(e.end, bytes.len() as int);
    start <= end && is_char_boundary(bytes, start) && is_char_boundary(bytes, end)
}

/// The text with the edit's range replaced.
pub open spec fn edited(bytes: Seq<u8>, e: EditView) -> Seq<u8> {
    let start = least(e.start, bytes.len() as int);
    let end = least(e.end, bytes.len() as int);
    bytes.take(start) + encode_utf8(e.replacement) + bytes.skip(end)
}

/// The text after the edits from `i` on, given those applied before; nothing where one of them
/// cannot be applied.
pub open spec fn replayed(
    bytes: Seq<u8>,
    done: Seq<EditView>,
    edits: Seq<EditView>,
    i: int,
) -> Option<Seq<u8>>
    decreases edits.len() - i,
{
    if i < 0 || i >= edits.len() {
        Some(bytes)
    } else if skipped(done, edits[i]) {
        replayed(bytes, done, edits, i + 1)
    } else if !applicable(bytes, edits[i]) {
        None
    } else {
        replayed(edited(bytes, edits[i]), done.push(edits[i]), edits, i + 1)
    }
}

/// The bytes of the text after all edits; nothing where one of them cannot be applied.
pub open spec fn edited_text(source: Seq<char>, edits: Seq<EditView>) -> Option<Seq<u8>> {
    replayed(encode_utf8(source), Seq::empty(), stable_sort(edits, later_first()), 0)
}

fn starts_later(a: &CodeEdit, b: &CodeEdit) -> (r: bool)
    ensures
        r == (a.start_byte >= b.start_byte),
{
    a.start_byte >= b.start_byte
}

fn sort_edits(edits: &mut Vec<CodeEdit>)
    ensures
        edit_views(final(edits)@) == stable_sort(edit_views(old(edits)@), later_first()),
{
    let ghost le = |a: CodeEdit, b: CodeEdit| a.start_byte >= b.start_byte;
    proof {
        crate::sort::lemma_sort_map(edits@, le, |e: CodeEdit| e@, later_first());
    }
    sort_stable(edits, starts_later, Ghost(le));
}

fn same_edit(a: &CodeEdit, b: &CodeEdit) -> (r: bool)
    ensures
        r == (a@ == b@),
{
    a.start_byte == b.start_byte && a.end_byte == b.end_byte && same(
        a.replacement.as_str(),
        b.replacement.as_str(),
    )
}

fn is_skipped(done: &Vec<CodeEdit>, edit: &CodeEdit) -> (r: bool)
    ensures
        r == skipped(edit_views(done@), edit@),
{
    let ghost views = edit_views(done@);
    let n: usize = done.len();
    if n > 0 && edit.end_byte > done[n - 1].start_byte {
        assert(views.last() == done@[n - 1]@);
        return true;
    }
    let mut i: usize = 0;
    while i < n
        invariant
            i <= n,
            n == done@.len(),
            views == edit_views(done@),
            n > 0 ==> edit@.end <= views.last().start,
            forall|k: int| 0 <= k < i ==> views[k] != edit@,
        decreases n - i,
    {
        assert(views[i as int] == done@[i as int]@);
        if same_edit(&done[i], edit) {
            assert(views.contains(edit@));
            return true;
        }
        i = i + 1;
    }
    assert(!views.contains(edit@));
    false
}

fn least_of(a: usize, b: usize) -> (r: usize)
    ensures
        r == least(a as int, b as int),
{
    if a < b {
        a
    } else {
        b
    }
}

/// The text after one edit; nothing where it cannot be applied.
fn apply_edit(text: &str, edit: &CodeEdit) -> (r: Option<String>)
    ensures
        match r {
            Some(s) => applicable(encode_utf8(text@), edit@) && encode_utf8(s@) == edited(
                encode_utf8(text@),
                edit@,
            ),
            None => !applicable(encode_utf8(text@), edit@),
        },
{
    let ghost bytes = encode_utf8(text@);
    let n: usize = text.as_bytes().len();
    let start: usize = least_of(edit.start_byte, n);
    let end: usize = least_of(edit.end_byte, n);
    if start > end || !text.is_char_boundary(start) || !text.is_char_boundary(end) {
        return None;
    }
    proof {
        encode_utf8_valid_utf8(text@);
        is_char_boundary_start_end_of_seq(bytes);
    }
    let mut s = slice_bytes(text, 0, start);
    let rest = slice_bytes(text, end, n);
    proof {
        lemma_encode_concat(s@, edit.replacement@);
        lemma_encode_concat(s@ + edit.replacement@, rest@);
        assert(bytes.subrange(0, start as int) =~= bytes.take(start as int));
        assert(bytes.subrange(end as int, n as int) =~= bytes.skip(end as int));
    }
    s.append(edit.replacement.as_str());
    s.append(rest.as_str());
    Some(s)
}

/// The text after the edits, from the end of the text on, without repetitions and overlaps; nothing
/// where one of them cannot be applied. The edits are put into that order.
pub fn try_apply_edits(source: &str, edits: &mut Vec<CodeEdit>) -> (r: Option<String>)
    ensures
        edit_views(final(edits)@) == stable_sort(edit_views(old(edits)@), later_first()),
        match edited_text(source@, edit_views(old(edits)@)) {
            Some(bytes) => r matches Some(s) && encode_utf8(s@) == bytes,
            None => r is None,
        },
{
    sort_edits(edits);
    let ghost all = edit_views(edits@);
    let ghost goal = replayed(encode_utf8(source@), Seq::empty(), all, 0);
    let mut result: String = owned(source);
    let mut done: Vec<CodeEdit> = Vec::new();
    let mut i: usize = 0;
    assert(edit_views(done@) =~= Seq::<EditView>::empty());
    while i < edits.len()
        invariant
            i <= edits@.len(),
            all == edit_views(edits@),
            all == stable_sort(edit_views(old(edits)@), later_first()),
            goal == edited_text(source@, edit_views(old(edits)@)),
            goal == replayed(encode_utf8(result@), edit_views(done@), all, i as int),
        decreases edits@.len() - i,
    {
        assert(all[i as int] == edits@[i as int]@);
        if !is_skipped(&done, &edits[i]) {
            match apply_edit(result.as_str(), &edits[i]) {
                Some(s) => {
                    result = s;
                    let edit = edits[i].clone();
                    assert(edit_views(done@.push(edit)) =~= edit_views(done@).push(edit@));
                    done.push(edit);
                },
                None => {
                    return None;
                },
            }
        }
        i = i + 1;
    }
    Some(result)
}

/// The text after the edits, from the end of the text on, without repetitions and overlaps. The
/// edits are put into that order.
pub fn apply_edits(source: &str, edits: &mut Vec<CodeEdit>) -> (r: String)
    requires
        edited_text(source@, edit_views(old(edits)@)) is Some,
    ensures
        edit_views(final(edits)@) == stable_sort(edit_views(old(edits)@), later_first()),
        edited_text(source@, edit_views(old(edits)@)) == Some(encode_utf8(r@)),
{
    match try_apply_edits(source, edits) {
        Some(s) => s,
        None => owned(source),
    }
}

// ---------------------------------------------------------------------------
// What edits do
// ---------------------------------------------------------------------------

/// The edit's range lies in the text and divides no character.
pub open spec fn well_placed(bytes: Seq<u8>, e: EditView) -> bool {
    0 <= e.start <= e.end <= bytes.len() && is_char_boundary(bytes, e.start) && is_char_boundary(
        bytes,
        e.end,
    )
}

/// The edits from `i` on that are applied, given those applied before.
pub open spec fn applied(done: Seq<EditView>, edits: Seq<EditView>, i: int) -> Seq<EditView>
    decreases edits.len() - i,
{
    if i < 0 || i >= edits.len() {
        Seq::empty()
    } else if skipped(done, edits[i]) {
        applied(done, edits, i + 1)
    } else {
        seq![edits[i]] + applied(done.push(edits[i]), edits, i + 1)
    }
}

/// The first `to` bytes with the ranges of the edits replaced, where the edits come from the end of
/// the text on.
pub open spec fn spliced(bytes: Seq<u8>, edits: Seq<EditView>, to: int) -> Seq<u8>
    decreases edits.len(),
{
    if edits.len() == 0 {
        bytes.take(to)
    } else {
        let e = edits[0];
        spliced(bytes, edits.drop_first(), e.start) + encode_utf8(e.replacement) + bytes.subrange(
            e.end,
            to,
        )
    }
}

/// How far the text is as it was before the edits.
pub open spec fn untouched(bytes: Seq<u8>, done: Seq<EditView>) -> int {
    if done.len() > 0 {
        done.last().start
    } else {
        bytes.len() as int
    }
}

proof fn lemma_boundary_carries(a: Seq<u8>, b: Seq<u8>, upto: int, at: int)
    requires
        valid_utf8(a),
        valid_utf8(b),
        0 <= at <= upto <= a.len(),
        upto <= b.len(),
        a.take(upto) == b.take(upto),
        is_char_boundary(a, at),
        is_char_boundary(b, upto),
    ensures
        is_char_boundary(b, at),
{
    if at < upto {
        is_char_boundary_iff_not_is_continuation_byte(a, at);
        is_char_boundary_iff_not_is_continuation_byte(b, at);
        assert(a[at] == a.take(upto)[at]);
        assert(b[at] == b.take(upto)[at]);
    }
}

proof fn lemma_boundary_between(a: Seq<u8>, b: Seq<u8>)
    requires
        valid_utf8(a),
        valid_utf8(b),
    ensures
        valid_utf8(a + b),
        is_char_boundary(a + b, a.len() as int),
{
    valid_utf8_concat(a, b);
    if b.len() == 0 {
        is_char_boundary_start_end_of_seq(a + b);
    } else {
        is_char_boundary_start_end_of_seq(b);
        is_char_boundary_iff_not_is_continuation_byte(b, 0);
        is_char_boundary_iff_not_is_continuation_byte(a + b, a.len() as int);
        assert((a + b)[a.len() as int] == b[0]);
    }
}

proof fn lemma_replayed(
    source: Seq<u8>,
    bytes: Seq<u8>,
    done: Seq<EditView>,
    edits: Seq<EditView>,
    i: int,
)
    requires
        0 <= i <= edits.len(),
        valid_utf8(source),
        valid_utf8(bytes),
        forall|k: int| i <= k < edits.len() ==> well_placed(source, #[trigger] edits[k]),
        0 <= untouched(source, done) <= source.len(),
        untouched(source, done) <= bytes.len(),
        done.len() == 0 ==> bytes == source,
        source.take(untouched(source, done)) == bytes.take(untouched(source, done)),
        is_char_boundary(bytes, untouched(source, done)),
    ensures
        replayed(bytes, done, edits, i) == Some(
            spliced(source, applied(done, edits, i), untouched(source, done)) + bytes.skip(
                untouched(source, done),
            ),
        ),
    decreases edits.len() - i,
{
    let upto = untouched(source, done);
    if i == edits.len() {
        assert(applied(done, edits, i) =~= Seq::<EditView>::empty());
        assert(bytes.take(upto) + bytes.skip(upto) =~= bytes);
    } else if skipped(done, edits[i]) {
        lemma_replayed(source, bytes, done, edits, i + 1);
    } else {
        let e = edits[i];
        assert(well_placed(source, e));
        assert(e.end <= upto);
        lemma_boundary_carries(source, bytes, upto, e.start);
        lemma_boundary_carries(source, bytes, upto, e.end);
        assert(applicable(bytes, e));
        let next = edited(bytes, e);
        let head = bytes.take(e.start);
        let middle = encode_utf8(e.replacement);
        let tail = bytes.skip(e.end);
        valid_utf8_split(bytes, e.start);
        valid_utf8_split(bytes, e.end);
        assert(bytes.subrange(0, e.start) =~= head);
        assert(bytes.subrange(e.end, bytes.len() as int) =~= tail);
        encode_utf8_valid_utf8(e.replacement);
        valid_utf8_concat(middle, tail);
        lemma_boundary_between(head, middle + tail);
        assert(next =~= head + (middle + tail));
        assert(source.take(e.start) =~= source.take(upto).take(e.start));
        assert(next.take(e.start) =~= bytes.take(upto).take(e.start));
        let more = done.push(e);
        assert(more.last() == e);
        lemma_replayed(source, next, more, edits, i + 1);
        let rest = applied(more, edits, i + 1);
        let here = seq![e] + rest;
        assert(here.drop_first() =~= rest);
        let inner = spliced(source, rest, e.start);
        assert(next.skip(e.start) =~= middle + tail);
        assert(source.subrange(e.end, upto) =~= source.take(upto).subrange(e.end, upto));
        assert(bytes.subrange(e.end, upto) =~= bytes.take(upto).subrange(e.end, upto));
        assert(tail =~= source.subrange(e.end, upto) + bytes.skip(upto));
        assert(inner + (middle + tail) =~= (inner + middle + source.subrange(e.end, upto))
            + bytes.skip(upto));
    }
}

/// Edits that lie in the text and divide no character can all be applied, and the outcome is the
/// text with the range of each applied edit replaced where it stood in the original; everything
/// else stays.
pub proof fn well_placed_edits_replace_their_ranges(source: Seq<char>, edits: Seq<EditView>)
    requires
        forall|k: int|
            0 <= k < edits.len() ==> well_placed(encode_utf8(source), #[trigger] edits[k]),
    ensures
        ({
            let bytes = encode_utf8(source);
            let kept = applied(Seq::empty(), stable_sort(edits, later_first()), 0);
            edited_text(source, edits) == Some(spliced(bytes, kept, bytes.len() as int))
        }),
{
    let bytes = encode_utf8(source);
    let order = stable_sort(edits, later_first());
    encode_utf8_valid_utf8(source);
    is_char_boundary_start_end_of_seq(bytes);
    sorting_orders_and_permutes(edits, later_first());
    assert forall|k: int| 0 <= k < order.len() implies well_placed(bytes, #[trigger] order[k]) by {
        broadcast use vstd::seq_lib::group_to_multiset_ensures;

        assert(order.contains(order[k]));
        assert(edits.to_multiset().count(order[k]) > 0);
        assert(edits.contains(order[k]));
        let m = choose|m: int| 0 <= m < edits.len() && #[trigger] edits[m] == order[k];
        assert(well_placed(bytes, edits[m]));
    }
    lemma_replayed(bytes, bytes, Seq::empty(), order, 0);
    let kept = applied(Seq::empty(), order, 0);
    let n = bytes.len() as int;
    assert(bytes.skip(n) =~= Seq::<u8>::empty());
    assert(spliced(bytes, kept, n) + bytes.skip(n) =~= spliced(bytes, kept, n));
}

/// Applied edits do not overlap: each ends at or before the start of the one applied before it.
pub proof fn applied_edits_are_apart(done: Seq<EditView>, edits: Seq<EditView>, i: int)
    ensures
        ({
            let kept = applied(done, edits, i);
            &&& kept.len() > 0 && done.len() > 0 ==> kept[0].end <= done.last().start
            &&& forall|k: int|
                0 < k < kept.len() ==> (#[trigger] kept[k]).end <= kept[k - 1].start
        }),
    decreases edits.len() - i,
{
    if 0 <= i < edits.len() {
        if skipped(done, edits[i]) {
            applied_edits_are_apart(done, edits, i + 1);
        } else {
            let more = done.push(edits[i]);
            assert(more.last() == edits[i]);
            applied_edits_are_apart(more, edits, i + 1);
            let rest = applied(more, edits, i + 1);
            let kept = applied(done, edits, i);
            assert forall|k: int| 0 < k < kept.len() implies (#[trigger] kept[k]).end <= kept[k
                - 1].start by {
                assert(kept[k] == rest[k - 1]);
                if k > 1 {
                    assert(kept[k - 1] == rest[k - 2]);
                }
            }
        }
    }
}

/// The edits start at different places, end no earlier than they start, and do not overlap.
pub open spec fn lie_apart(edits: Seq<EditView>) -> bool {
    &&& forall|i: int| 0 <= i < edits.len() ==> (#[trigger] edits[i]).start <= edits[i].end
    &&& forall|i: int, j: int|
        #![trigger edits[i], edits[j]]
        0 <= i < edits.len() && 0 <= j < edits.len() && i != j ==> edits[i].start
            != edits[j].start && (edits[i].end <= edits[j].start || edits[j].end <= edits[i].start)
}

/// Each edit starts before the one that comes before it, and ends no later than that one starts.
pub open spec fn descend(edits: Seq<EditView>) -> bool {
    forall|i: int, j: int|
        #![trigger edits[i], edits[j]]
        0 <= i < j < edits.len() ==> edits[j].start < edits[i].start && edits[j].end
            <= edits[i].start
}

proof fn lemma_sorted_descend(edits: Seq<EditView>)
    requires
        lie_apart(edits),
    ensures
        descend(stable_sort(edits, later_first())),
{
    broadcast use vstd::seq_lib::group_to_multiset_ensures;

    let order = stable_sort(edits, later_first());
    sorting_orders_and_permutes(edits, later_first());
    assert(edits.no_duplicates());
    edits.lemma_multiset_has_no_duplicates();
    order.lemma_multiset_has_no_duplicates_conv();
    assert forall|i: int, j: int|
        #![trigger order[i], order[j]]
        0 <= i < j < order.len() implies order[j].start < order[i].start && order[j].end
        <= order[i].start by {
        assert(order.contains(order[i]) && order.contains(order[j]));
        assert(edits.to_multiset().count(order[i]) > 0 && edits.to_multiset().count(order[j]) > 0);
        let a = choose|a: int| 0 <= a < edits.len() && #[trigger] edits[a] == order[i];
        let b = choose|b: int| 0 <= b < edits.len() && #[trigger] edits[b] == order[j];
        assert(order[i] != order[j]);
        assert(a != b);
        assert(later_first()(order[i], order[j]));
        assert(edits[a].start <= edits[a].end);
    }
}

proof fn lemma_all_applied(done: Seq<EditView>, edits: Seq<EditView>, i: int)
    requires
        descend(edits),
        0 <= i <= edits.len(),
        done == edits.take(i),
    ensures
        applied(done, edits, i) == edits.skip(i),
    decreases edits.len() - i,
{
    if i < edits.len() {
        let e = edits[i];
        assert(!done.contains(e)) by {
            if done.contains(e) {
                let k = choose|k: int| 0 <= k < done.len() && done[k] == e;
                assert(edits[k] == e);
            }
        }
        if done.len() > 0 {
            assert(done.last() == edits[i - 1]);
        }
        assert(!skipped(done, e));
        assert(done.push(e) =~= edits.take(i + 1));
        lemma_all_applied(done.push(e), edits, i + 1);
        assert(seq![e] + edits.skip(i + 1) =~= edits.skip(i));
    } else {
        assert(edits.skip(i) =~= Seq::<EditView>::empty());
    }
}

proof fn lemma_descending_is_unique(a: Seq<EditView>, b: Seq<EditView>)
    requires
        descend(a),
        descend(b),
        a.to_multiset() == b.to_multiset(),
    ensures
        a == b,
    decreases a.len(),
{
    broadcast use vstd::seq_lib::group_to_multiset_ensures;

    assert(a.len() == a.to_multiset().len() && b.len() == b.to_multiset().len());
    if a.len() == 0 {
        assert(a =~= b);
    } else {
        assert(a.contains(a[0]) && b.contains(b[0]));
        assert(a.to_multiset().count(a[0]) > 0 && b.to_multiset().count(b[0]) > 0);
        assert(b.contains(a[0]) && a.contains(b[0]));
        let m = choose|m: int| 0 <= m < b.len() && b[m] == a[0];
        let k = choose|k: int| 0 <= k < a.len() && a[k] == b[0];
        assert(a[0] == b[0]) by {
            if m > 0 {
                assert(b[m].start < b[0].start);
                if k > 0 {
                    assert(a[k].start < a[0].start);
                }
            }
        }
        let x = a.drop_first();
        let y = b.drop_first();
        assert(a =~= seq![a[0]] + x && b =~= seq![b[0]] + y);
        assert(a.remove(0) =~= x && b.remove(0) =~= y);
        vstd::seq_lib::to_multiset_remove(a, 0);
        vstd::seq_lib::to_multiset_remove(b, 0);
        assert forall|i: int, j: int|
            #![trigger x[i], x[j]]
            0 <= i < j < x.len() implies x[j].start < x[i].start && x[j].end <= x[i].start by {
            assert(x[i] == a[i + 1] && x[j] == a[j + 1]);
        }
        assert forall|i: int, j: int|
            #![trigger y[i], y[j]]
            0 <= i < j < y.len() implies y[j].start < y[i].start && y[j].end <= y[i].start by {
            assert(y[i] == b[i + 1] && y[j] == b[j + 1]);
        }
        lemma_descending_is_unique(x, y);
    }
}

/// Edits of different places that lie in the text and do not overlap are all applied: the outcome is
/// the text with the range of each replaced where it stood, whatever the order in which the edits
/// came. Afterwards they stand from the end of the text on.
pub proof fn apart_edits_are_all_applied(
    source: Seq<char>,
    edits: Seq<EditView>,
    other_order: Seq<EditView>,
)
    requires
        forall|k: int|
            0 <= k < edits.len() ==> well_placed(encode_utf8(source), #[trigger] edits[k]),
        lie_apart(edits),
        other_order.to_multiset() == edits.to_multiset(),
    ensures
        ({
            let bytes = encode_utf8(source);
            let order = stable_sort(edits, later_first());
            &&& order.to_multiset() == edits.to_multiset()
            &&& descend(order)
            &&& edited_text(source, edits) == Some(spliced(bytes, order, bytes.len() as int))
        }),
        stable_sort(other_order, later_first()) == stable_sort(edits, later_first()),
        edited_text(source, other_order) == edited_text(source, edits),
{
    broadcast use vstd::seq_lib::group_to_multiset_ensures;

    let order = stable_sort(edits, later_first());
    sorting_orders_and_permutes(edits, later_first());
    lemma_sorted_descend(edits);
    well_placed_edits_replace_their_ranges(source, edits);
    assert(order.take(0) =~= Seq::<EditView>::empty());
    lemma_all_applied(Seq::empty(), order, 0);
    assert(order.skip(0) =~= order);
    sorting_orders_and_permutes(other_order, later_first());
    assert(edits.no_duplicates());
    edits.lemma_multiset_has_no_duplicates();
    other_order.lemma_multiset_has_no_duplicates_conv();
    assert(lie_apart(other_order)) by {
        assert forall|i: int| 0 <= i < other_order.len() implies (#[trigger] other_order[i]).start
            <= other_order[i].end by {
            lemma_found_in(other_order, edits, i);
        }
        assert forall|i: int, j: int|
            #![trigger other_order[i], other_order[j]]
            0 <= i < other_order.len() && 0 <= j < other_order.len() && i
                != j implies other_order[i].start != other_order[j].start && (other_order[i].end
            <= other_order[j].start || other_order[j].end <= other_order[i].start) by {
            let a = lemma_found_in(other_order, edits, i);
            let b = lemma_found_in(other_order, edits, j);
            assert(other_order[i] != other_order[j]);
            assert(edits[a] == other_order[i] && edits[b] == other_order[j]);
        }
    }
    lemma_sorted_descend(other_order);
    lemma_descending_is_unique(stable_sort(other_order, later_first()), order);
}

proof fn lemma_found_in(a: Seq<EditView>, b: Seq<EditView>, i: int) -> (k: int)
    requires
        a.to_multiset() == b.to_multiset(),
        0 <= i < a.len(),
    ensures
        0 <= k < b.len(),
        b[k] == a[i],
{
    broadcast use vstd::seq_lib::group_to_multiset_ensures;

    assert(a.contains(a[i]));
    assert(b.to_multiset().count(a[i]) > 0);
    assert(b.contains(a[i]));
    choose|k: int| 0 <= k < b.len() && b[k] == a[i]
}

proof fn lemma_same_rest(
    bytes: Seq<u8>,
    done: Seq<EditView>,
    a: Seq<EditView>,
    i: int,
    b: Seq<EditView>,
    j: int,
)
    requires
        0 <= i <= a.len(),
        0 <= j <= b.len(),
        a.skip(i) == b.skip(j),
    ensures
        replayed(bytes, done, a, i) == replayed(bytes, done, b, j),
    decreases a.len() - i,
{
    assert(a.skip(i).len() == a.len() - i && b.skip(j).len() == b.len() - j);
    if i < a.len() {
        assert(a[i] == a.skip(i)[0] && b[j] == b.skip(j)[0]);
        assert(a.skip(i + 1) =~= a.skip(i).skip(1));
        assert(b.skip(j + 1) =~= b.skip(j).skip(1));
        lemma_same_rest(bytes, done, a, i + 1, b, j + 1);
        lemma_same_rest(edited(bytes, a[i]), done.push(a[i]), a, i + 1, b, j + 1);
    }
}

proof fn lemma_repeated(
    bytes: Seq<u8>,
    done: Seq<EditView>,
    edits: Seq<EditView>,
    k: int,
    at: int,
    i: int,
)
    requires
        0 <= k < at <= edits.len(),
        0 <= i <= at,
        forall|m: int, n: int|
            #![trigger edits[m], edits[n]]
            0 <= m <= n < edits.len() ==> edits[m].start >= edits[n].start,
        done.len() > 0 ==> forall|m: int|
            i <= m < edits.len() ==> done.last().start >= (#[trigger] edits[m]).start,
        k < i ==> skipped(done, edits[k]),
    ensures
        replayed(bytes, done, edits.insert(at, edits[k]), i) == replayed(bytes, done, edits, i),
    decreases at - i,
{
    let x = edits[k];
    let more = edits.insert(at, x);
    if i == at {
        assert(more[at] == x);
        assert(more.skip(at + 1) =~= edits.skip(at));
        lemma_same_rest(bytes, done, more, at + 1, edits, at);
    } else {
        let e = edits[i];
        assert(more[i] == e);
        if skipped(done, e) {
            lemma_repeated(bytes, done, edits, k, at, i + 1);
        } else if applicable(bytes, e) {
            let next = done.push(e);
            assert(next.last() == e);
            assert(next[next.len() - 1] == e);
            assert(next.contains(e));
            if k < i {
                if done.contains(x) {
                    let m = choose|m: int| 0 <= m < done.len() && done[m] == x;
                    assert(next[m] == x);
                    assert(next.contains(x));
                }
            }
            assert forall|m: int| i + 1 <= m < edits.len() implies next.last().start >= (
            #[trigger] edits[m]).start by {
                assert(edits[i].start >= edits[m].start);
            }
            lemma_repeated(edited(bytes, e), next, edits, k, at, i + 1);
        }
    }
}

proof fn lemma_insert_place(s: Seq<EditView>, x: EditView) -> (at: int)
    ensures
        0 <= at <= s.len(),
        at == 0 || later_first()(s[at - 1], x),
        forall|j: int| at <= j < s.len() ==> !#[trigger] later_first()(s[j], x),
    decreases s.len(),
{
    if s.len() == 0 || later_first()(s.last(), x) {
        s.len() as int
    } else {
        let d = s.drop_last();
        let at = lemma_insert_place(d, x);
        assert forall|j: int| at <= j < s.len() implies !#[trigger] later_first()(s[j], x) by {
            if j < d.len() {
                assert(!later_first()(d[j], x));
            }
        }
        at
    }
}

/// A copy of an edit changes nothing, whether the edit was applied or left out.
pub proof fn repeated_edits_change_nothing(source: Seq<char>, edits: Seq<EditView>, i: int)
    requires
        0 <= i < edits.len(),
    ensures
        edited_text(source, edits.push(edits[i])) == edited_text(source, edits),
{
    let x = edits[i];
    let order = stable_sort(edits, later_first());
    sorting_orders_and_permutes(edits, later_first());
    let k = lemma_found_in(edits, order, i);
    let at = lemma_insert_place(order, x);
    assert(k < at) by {
        if k >= at {
            assert(!later_first()(order[k], x));
        }
    }
    lemma_insert_at(order, x, later_first(), at);
    assert(edits.push(x).drop_last() =~= edits);
    assert forall|m: int, n: int|
        #![trigger order[m], order[n]]
        0 <= m <= n < order.len() implies order[m].start >= order[n].start by {
        assert(later_first()(order[m], order[n]));
    }
    lemma_repeated(encode_utf8(source), Seq::empty(), order, k, at, 0);
}

// ---------------------------------------------------------------------------
// Differences
// ---------------------------------------------------------------------------

/// One line of the difference between two texts.
#[derive(Debug, PartialEq, Eq)]
pub enum DiffLine {
    /// The start of a change: where it is, in lines that count from zero, and how many lines follow,
    /// in both texts.
    Hunk { old_start: usize, old_count: usize, new_start: usize, new_count: usize },
    /// A line of both texts, which is shown behind a change.
    Kept { line: String, shown: bool },
    Removed(String),
    Added(String),
}

pub enum DiffLineView {
    Hunk { old_start: int, old_count: int, new_start: int, new_count: int },
    Kept { line: Seq<char>, shown: bool },
    Removed(Seq<char>),
    Added(Seq<char>),
}

impl View for DiffLine {
    type V = DiffLineView;

    open spec fn view(&self) -> DiffLineView {
        match *self {
            DiffLine::Hunk { old_start, old_count, new_start, new_count } => DiffLineView::Hunk {
                old_start: old_start as int,
                old_count: old_count as int,
                new_start: new_start as int,
                new_count: new_count as int,
            },
            DiffLine::Kept { line, shown } => DiffLineView::Kept { line: line@, shown },
            DiffLine::Removed(line) => DiffLineView::Removed(line@),
            DiffLine::Added(line) => DiffLineView::Added(line@),
        }
    }
}

pub open spec fn diff_line_views(v: Seq<DiffLine>) -> Seq<DiffLineView> {
    v.map_values(|d: DiffLine| d@)
}

/// How far ahead the next common line is looked for.
pub const MATCH_WINDOW: usize = 50;

/// How many lines from `i` on are looked at.
pub open spec fn window(len: int, i: int) -> int {
    least(MATCH_WINDOW as int, len - i)
}

/// The next common line behind `i` and `j`, by the distance `di` in the old text and then by the
/// distance `dj` in the new one.
pub open spec fn match_from(
    old_lines: Seq<Seq<char>>,
    new_lines: Seq<Seq<char>>,
    i: int,
    j: int,
    di: int,
    dj: int,
) -> Option<(int, int)>
    decreases window(old_lines.len() as int, i) - di, window(new_lines.len() as int, j) - dj,
{
    if di < 0 || dj < 0 || di >= window(old_lines.len() as int, i) {
        None
    } else if dj >= window(new_lines.len() as int, j) {
        match_from(old_lines, new_lines, i, j, di + 1, 0)
    } else if !(di == 0 && dj == 0) && old_lines[i + di] == new_lines[j + dj] {
        Some((i + di, j + dj))
    } else {
        match_from(old_lines, new_lines, i, j, di, dj + 1)
    }
}

/// The next common line behind `start_i` and `start_j`.
pub fn find_next_match(
    old_lines: &Vec<String>,
    new_lines: &Vec<String>,
    start_i: usize,
    start_j: usize,
) -> (r: Option<(usize, usize)>)
    requires
        start_i <= old_lines@.len(),
        start_j <= new_lines@.len(),
    ensures
        match match_from(
            texts(old_lines@),
            texts(new_lines@),
            start_i as int,
            start_j as int,
            0,
            0,
        ) {
            Some(p) => r matches Some(q) && (q.0 as int, q.1 as int) == p,
            None => r is None,
        },
{
    let ghost o = texts(old_lines@);
    let ghost m = texts(new_lines@);
    let ghost goal = match_from(o, m, start_i as int, start_j as int, 0, 0);
    let n: usize = old_lines.len();
    let k: usize = new_lines.len();
    let rows: usize = least_of(MATCH_WINDOW, n - start_i);
    let columns: usize = least_of(MATCH_WINDOW, k - start_j);
    let mut di: usize = 0;
    while di < rows
        invariant
            o == texts(old_lines@),
            m == texts(new_lines@),
            start_i <= n,
            start_j <= k,
            n == old_lines@.len(),
            k == new_lines@.len(),
            rows == window(o.len() as int, start_i as int),
            columns == window(m.len() as int, start_j as int),
            di <= rows,
            goal == match_from(o, m, start_i as int, start_j as int, 0, 0),
            goal == match_from(o, m, start_i as int, start_j as int, di as int, 0),
        decreases rows - di,
    {
        let mut dj: usize = 0;
        while dj < columns
            invariant
                o == texts(old_lines@),
                m == texts(new_lines@),
                start_i <= n,
                start_j <= k,
                n == old_lines@.len(),
                k == new_lines@.len(),
                rows == window(o.len() as int, start_i as int),
                columns == window(m.len() as int, start_j as int),
                di < rows,
                dj <= columns,
                goal == match_from(o, m, start_i as int, start_j as int, 0, 0),
                goal == match_from(o, m, start_i as int, start_j as int, di as int, dj as int),
            decreases columns - dj,
        {
            assert(o[start_i + di] == old_lines@[start_i + di]@);
            assert(m[start_j + dj] == new_lines@[start_j + dj]@);
            if !(di == 0 && dj == 0) && same(
                old_lines[start_i + di].as_str(),
                new_lines[start_j + dj].as_str(),
            ) {
                return Some((start_i + di, start_j + dj));
            }
            dj = dj + 1;
        }
        di = di + 1;
    }
    None
}

pub proof fn lemma_match_within(
    old_lines: Seq<Seq<char>>,
    new_lines: Seq<Seq<char>>,
    i: int,
    j: int,
    di: int,
    dj: int,
)
    requires
        0 <= i <= old_lines.len(),
        0 <= j <= new_lines.len(),
        0 <= di,
        0 <= dj,
    ensures
        match_from(old_lines, new_lines, i, j, di, dj) matches Some(p) ==> {
            &&& i <= p.0 < old_lines.len()
            &&& j <= p.1 < new_lines.len()
            &&& (p.0 > i || p.1 > j)
            &&& old_lines[p.0] == new_lines[p.1]
        },
    decreases window(old_lines.len() as int, i) - di, window(new_lines.len() as int, j) - dj,
{
    if di < window(old_lines.len() as int, i) {
        if dj >= window(new_lines.len() as int, j) {
            lemma_match_within(old_lines, new_lines, i, j, di + 1, 0);
        } else if !(!(di == 0 && dj == 0) && old_lines[i + di] == new_lines[j + dj]) {
            lemma_match_within(old_lines, new_lines, i, j, di, dj + 1);
        }
    }
}

pub open spec fn removed_lines(lines: Seq<Seq<char>>) -> Seq<DiffLineView> {
    lines.map_values(|l: Seq<char>| DiffLineView::Removed(l))
}

pub open spec fn added_lines(lines: Seq<Seq<char>>) -> Seq<DiffLineView> {
    lines.map_values(|l: Seq<char>| DiffLineView::Added(l))
}

/// The start of a change at the given lines.
pub open spec fn hunk_at(old_len: int, new_len: int, i: int, j: int) -> DiffLineView {
    DiffLineView::Hunk {
        old_start: i,
        old_count: old_len - i,
        new_start: j,
        new_count: new_len - j,
    }
}

/// The difference of the lines from `i` and `j` on; `in_change` says that a change was just shown.
pub open spec fn difference(
    old_lines: Seq<Seq<char>>,
    new_lines: Seq<Seq<char>>,
    i: int,
    j: int,
    in_change: bool,
) -> Seq<DiffLineView>
    decreases old_lines.len() - i + new_lines.len() - j,
    via difference_ends
{
    if i < 0 || j < 0 || i > old_lines.len() || j > new_lines.len() || (i == old_lines.len() && j
        == new_lines.len()) {
        Seq::empty()
    } else if i < old_lines.len() && j < new_lines.len() && old_lines[i] == new_lines[j] {
        seq![DiffLineView::Kept { line: old_lines[i], shown: in_change }] + difference(
            old_lines,
            new_lines,
            i + 1,
            j + 1,
            false,
        )
    } else {
        let start = if in_change {
            Seq::empty()
        } else {
            seq![hunk_at(old_lines.len() as int, new_lines.len() as int, i, j)]
        };
        match match_from(old_lines, new_lines, i, j, 0, 0) {
            Some(p) => start + removed_lines(old_lines.subrange(i, p.0)) + added_lines(
                new_lines.subrange(j, p.1),
            ) + difference(old_lines, new_lines, p.0, p.1, true),
            None => start + removed_lines(old_lines.skip(i)) + added_lines(new_lines.skip(j)),
        }
    }
}

#[via_fn]
proof fn difference_ends(
    old_lines: Seq<Seq<char>>,
    new_lines: Seq<Seq<char>>,
    i: int,
    j: int,
    in_change: bool,
) {
    if 0 <= i <= old_lines.len() && 0 <= j <= new_lines.len() {
        lemma_match_within(old_lines, new_lines, i, j, 0, 0);
    }
}

fn push_removed(out: &mut Vec<DiffLine>, lines: &Vec<String>, from: usize, to: usize)
    requires
        from <= to <= lines@.len(),
    ensures
        diff_line_views(final(out)@) == diff_line_views(old(out)@) + removed_lines(
            texts(lines@).subrange(from as int, to as int),
        ),
{
    let ghost start = diff_line_views(out@);
    let ghost all = texts(lines@);
    let mut i: usize = from;
    assert(start + removed_lines(all.subrange(from as int, from as int)) =~= start);
    while i < to
        invariant
            from <= i <= to <= lines@.len(),
            all == texts(lines@),
            start == diff_line_views(old(out)@),
            diff_line_views(out@) == start + removed_lines(all.subrange(from as int, i as int)),
        decreases to - i,
    {
        let d = DiffLine::Removed(lines[i].clone());
        proof {
            assert(diff_line_views(out@.push(d)) =~= diff_line_views(out@).push(d@));
            assert(all.subrange(from as int, i + 1) =~= all.subrange(from as int, i as int).push(
                all[i as int],
            ));
            assert(removed_lines(all.subrange(from as int, i + 1)) =~= removed_lines(
                all.subrange(from as int, i as int),
            ).push(d@));
            assert(start + removed_lines(all.subrange(from as int, i + 1)) =~= (start
                + removed_lines(all.subrange(from as int, i as int))).push(d@));
        }
        out.push(d);
        i = i + 1;
    }
}

fn push_added(out: &mut Vec<DiffLine>, lines: &Vec<String>, from: usize, to: usize)
    requires
        from <= to <= lines@.len(),
    ensures
        diff_line_views(final(out)@) == diff_line_views(old(out)@) + added_lines(
            texts(lines@).subrange(from as int, to as int),
        ),
{
    let ghost start = diff_line_views(out@);
    let ghost all = texts(lines@);
    let mut i: usize = from;
    assert(start + added_lines(all.subrange(from as int, from as int)) =~= start);
    while i < to
        invariant
            from <= i <= to <= lines@.len(),
            all == texts(lines@),
            start == diff_line_views(old(out)@),
            diff_line_views(out@) == start + added_lines(all.subrange(from as int, i as int)),
        decreases to - i,
    {
        let d = DiffLine::Added(lines[i].clone());
        proof {
            assert(diff_line_views(out@.push(d)) =~= diff_line_views(out@).push(d@));
            assert(all.subrange(from as int, i + 1) =~= all.subrange(from as int, i as int).push(
                all[i as int],
            ));
            assert(added_lines(all.subrange(from as int, i + 1)) =~= added_lines(
                all.subrange(from as int, i as int),
            ).push(d@));
            assert(start + added_lines(all.subrange(from as int, i + 1)) =~= (start + added_lines(
                all.subrange(from as int, i as int),
            )).push(d@));
        }
        out.push(d);
        i = i + 1;
    }
}

/// The difference between two texts, line by line.
pub fn diff_lines(original: &str, modified: &str) -> (r: Vec<DiffLine>)
    ensures
        diff_line_views(r@) == difference(lines_of(original@), lines_of(modified@), 0, 0, false),
{
    let old_lines = lines(original);
    let new_lines = lines(modified);
    let ghost o = texts(old_lines@);
    let ghost m = texts(new_lines@);
    let ghost goal = difference(o, m, 0, 0, false);
    let n: usize = old_lines.len();
    let k: usize = new_lines.len();
    let mut out: Vec<DiffLine> = Vec::new();
    let mut i: usize = 0;
    let mut j: usize = 0;
    let mut in_change = false;
    proof {
        assert(diff_line_views(out@) =~= Seq::<DiffLineView>::empty());
        assert(Seq::<DiffLineView>::empty() + goal =~= goal);
    }
    while i < n || j < k
        invariant
            i <= n,
            j <= k,
            n == old_lines@.len(),
            k == new_lines@.len(),
            o == texts(old_lines@),
            m == texts(new_lines@),
            o == lines_of(original@),
            m == lines_of(modified@),
            goal == difference(o, m, 0, 0, false),
            goal == diff_line_views(out@) + difference(o, m, i as int, j as int, in_change),
        decreases n - i + k - j,
    {
        assert(o.len() == n && m.len() == k);
        let ghost before = diff_line_views(out@);
        let ghost rest = difference(o, m, i as int, j as int, in_change);
        let equal = if i < n && j < k {
            assert(o[i as int] == old_lines@[i as int]@);
            assert(m[j as int] == new_lines@[j as int]@);
            same(old_lines[i].as_str(), new_lines[j].as_str())
        } else {
            false
        };
        if equal {
            let d = DiffLine::Kept { line: old_lines[i].clone(), shown: in_change };
            proof {
                assert(diff_line_views(out@.push(d)) =~= before.push(d@));
                let later = difference(o, m, i + 1, j + 1, false);
                assert(before + (seq![d@] + later) =~= before.push(d@) + later);
            }
            out.push(d);
            i = i + 1;
            j = j + 1;
            in_change = false;
        } else {
            let ghost start = if in_change {
                Seq::empty()
            } else {
                seq![hunk_at(n as int, k as int, i as int, j as int)]
            };
            if !in_change {
                let d = DiffLine::Hunk {
                    old_start: i,
                    old_count: n - i,
                    new_start: j,
                    new_count: k - j,
                };
                proof {
                    assert(diff_line_views(out@.push(d)) =~= before.push(d@));
                }
                out.push(d);
                in_change = true;
            }
            assert(diff_line_views(out@) =~= before + start);
            proof {
                lemma_match_within(o, m, i as int, j as int, 0, 0);
            }
            match find_next_match(&old_lines, &new_lines, i, j) {
                Some((ni, nj)) => {
                    push_removed(&mut out, &old_lines, i, ni);
                    push_added(&mut out, &new_lines, j, nj);
                    proof {
                        let gone = removed_lines(o.subrange(i as int, ni as int));
                        let come = added_lines(m.subrange(j as int, nj as int));
                        let later = difference(o, m, ni as int, nj as int, true);
                        assert(before + (start + gone + come + later) =~= (before + start + gone
                            + come) + later);
                    }
                    i = ni;
                    j = nj;
                },
                None => {
                    push_removed(&mut out, &old_lines, i, n);
                    push_added(&mut out, &new_lines, j, k);
                    proof {
                        assert(o.subrange(i as int, n as int) =~= o.skip(i as int));
                        assert(m.subrange(j as int, k as int) =~= m.skip(j as int));
                        let gone = removed_lines(o.skip(i as int));
                        let come = added_lines(m.skip(j as int));
                        assert(before + (start + gone + come) =~= before + start + gone + come);
                    }
                    return out;
                },
            }
        }
    }
    proof {
        assert(o.len() == n && m.len() == k);
        assert(diff_line_views(out@) + Seq::<DiffLineView>::empty() =~= diff_line_views(out@));
    }
    out
}

/// The lines of a difference that belong to the old text.
pub open spec fn old_side(d: Seq<DiffLineView>) -> Seq<Seq<char>>
    decreases d.len(),
{
    if d.len() == 0 {
        Seq::empty()
    } else {
        let before = old_side(d.drop_last());
        match d.last() {
            DiffLineView::Kept { line, .. } => before.push(line),
            DiffLineView::Removed(line) => before.push(line),
            _ => before,
        }
    }
}

/// The lines of a difference that belong to the new text.
pub open spec fn new_side(d: Seq<DiffLineView>) -> Seq<Seq<char>>
    decreases d.len(),
{
    if d.len() == 0 {
        Seq::empty()
    } else {
        let before = new_side(d.drop_last());
        match d.last() {
            DiffLineView::Kept { line, .. } => before.push(line),
            DiffLineView::Added(line) => before.push(line),
            _ => before,
        }
    }
}

proof fn lemma_sides_concat(a: Seq<DiffLineView>, b: Seq<DiffLineView>)
    ensures
        old_side(a + b) == old_side(a) + old_side(b),
        new_side(a + b) == new_side(a) + new_side(b),
    decreases b.len(),
{
    if b.len() == 0 {
        assert(a + b =~= a);
        assert(old_side(a) + old_side(b) =~= old_side(a));
        assert(new_side(a) + new_side(b) =~= new_side(a));
    } else {
        lemma_sides_concat(a, b.drop_last());
        assert((a + b).drop_last() =~= a + b.drop_last());
        assert((a + b).last() == b.last());
        assert(old_side(a + b) =~= old_side(a) + old_side(b));
        assert(new_side(a + b) =~= new_side(a) + new_side(b));
    }
}

proof fn lemma_removed_sides(lines: Seq<Seq<char>>)
    ensures
        old_side(removed_lines(lines)) == lines,
        new_side(removed_lines(lines)) == Seq::<Seq<char>>::empty(),
    decreases lines.len(),
{
    if lines.len() > 0 {
        lemma_removed_sides(lines.drop_last());
        assert(removed_lines(lines).drop_last() =~= removed_lines(lines.drop_last()));
        assert(lines =~= lines.drop_last().push(lines.last()));
    } else {
        assert(lines =~= Seq::<Seq<char>>::empty());
    }
}

proof fn lemma_added_sides(lines: Seq<Seq<char>>)
    ensures
        new_side(added_lines(lines)) == lines,
        old_side(added_lines(lines)) == Seq::<Seq<char>>::empty(),
    decreases lines.len(),
{
    if lines.len() > 0 {
        lemma_added_sides(lines.drop_last());
        assert(added_lines(lines).drop_last() =~= added_lines(lines.drop_last()));
        assert(lines =~= lines.drop_last().push(lines.last()));
    } else {
        assert(lines =~= Seq::<Seq<char>>::empty());
    }
}

proof fn lemma_one_sides(d: DiffLineView)
    ensures
        old_side(seq![d]) == match d {
            DiffLineView::Kept { line, .. } => seq![line],
            DiffLineView::Removed(line) => seq![line],
            _ => Seq::<Seq<char>>::empty(),
        },
        new_side(seq![d]) == match d {
            DiffLineView::Kept { line, .. } => seq![line],
            DiffLineView::Added(line) => seq![line],
            _ => Seq::<Seq<char>>::empty(),
        },
{
    assert(seq![d].drop_last() =~= Seq::<DiffLineView>::empty());
    assert(old_side(seq![d].drop_last()) == Seq::<Seq<char>>::empty());
    assert(new_side(seq![d].drop_last()) == Seq::<Seq<char>>::empty());
    assert(seq![d].last() == d);
    match d {
        DiffLineView::Kept { line, .. } => {
            assert(Seq::<Seq<char>>::empty().push(line) =~= seq![line]);
        },
        DiffLineView::Removed(line) => {
            assert(Seq::<Seq<char>>::empty().push(line) =~= seq![line]);
        },
        DiffLineView::Added(line) => {
            assert(Seq::<Seq<char>>::empty().push(line) =~= seq![line]);
        },
        _ => {},
    }
}

/// A difference accounts for every line: what is kept and removed is the old text, what is kept and
/// added the new one.
pub proof fn difference_accounts_for_every_line(
    old_lines: Seq<Seq<char>>,
    new_lines: Seq<Seq<char>>,
    i: int,
    j: int,
    in_change: bool,
)
    requires
        0 <= i <= old_lines.len(),
        0 <= j <= new_lines.len(),
    ensures
        old_side(difference(old_lines, new_lines, i, j, in_change)) == old_lines.skip(i),
        new_side(difference(old_lines, new_lines, i, j, in_change)) == new_lines.skip(j),
    decreases old_lines.len() - i + new_lines.len() - j,
{
    let d = difference(old_lines, new_lines, i, j, in_change);
    if i == old_lines.len() && j == new_lines.len() {
        assert(old_lines.skip(i) =~= Seq::<Seq<char>>::empty());
        assert(new_lines.skip(j) =~= Seq::<Seq<char>>::empty());
    } else if i < old_lines.len() && j < new_lines.len() && old_lines[i] == new_lines[j] {
        let k = DiffLineView::Kept { line: old_lines[i], shown: in_change };
        let rest = difference(old_lines, new_lines, i + 1, j + 1, false);
        difference_accounts_for_every_line(old_lines, new_lines, i + 1, j + 1, false);
        lemma_one_sides(k);
        lemma_sides_concat(seq![k], rest);
        assert(old_lines.skip(i) =~= seq![old_lines[i]] + old_lines.skip(i + 1));
        assert(new_lines.skip(j) =~= seq![new_lines[j]] + new_lines.skip(j + 1));
    } else {
        let start = if in_change {
            Seq::empty()
        } else {
            seq![hunk_at(old_lines.len() as int, new_lines.len() as int, i, j)]
        };
        lemma_one_sides(hunk_at(old_lines.len() as int, new_lines.len() as int, i, j));
        assert(old_side(start) == Seq::<Seq<char>>::empty());
        assert(new_side(start) == Seq::<Seq<char>>::empty());
        lemma_match_within(old_lines, new_lines, i, j, 0, 0);
        match match_from(old_lines, new_lines, i, j, 0, 0) {
            Some(p) => {
                let a = old_lines.subrange(i, p.0);
                let b = new_lines.subrange(j, p.1);
                let rest = difference(old_lines, new_lines, p.0, p.1, true);
                difference_accounts_for_every_line(old_lines, new_lines, p.0, p.1, true);
                lemma_removed_sides(a);
                lemma_added_sides(b);
                lemma_sides_concat(start, removed_lines(a));
                lemma_sides_concat(start + removed_lines(a), added_lines(b));
                lemma_sides_concat(start + removed_lines(a) + added_lines(b), rest);
                assert(old_lines.skip(i) =~= a + old_lines.skip(p.0));
                assert(new_lines.skip(j) =~= b + new_lines.skip(p.1));
                assert(Seq::<Seq<char>>::empty() + a =~= a);
                assert(a + Seq::<Seq<char>>::empty() =~= a);
                assert(Seq::<Seq<char>>::empty() + Seq::<Seq<char>>::empty() =~= Seq::<
                    Seq<char>,
                >::empty());
                assert(Seq::<Seq<char>>::empty() + b =~= b);
            },
            None => {
                let a = old_lines.skip(i);
                let b = new_lines.skip(j);
                lemma_removed_sides(a);
                lemma_added_sides(b);
                lemma_sides_concat(start, removed_lines(a));
                lemma_sides_concat(start + removed_lines(a), added_lines(b));
                assert(Seq::<Seq<char>>::empty() + a =~= a);
                assert(a + Seq::<Seq<char>>::empty() =~= a);
                assert(Seq::<Seq<char>>::empty() + Seq::<Seq<char>>::empty() =~= Seq::<
                    Seq<char>,
                >::empty());
                assert(Seq::<Seq<char>>::empty() + b =~= b);
            },
        }
    }
}

/// Texts that are the same differ in nothing: no change starts, and no line is shown.
pub proof fn equal_texts_show_no_difference(all: Seq<Seq<char>>, i: int)
    requires
        0 <= i <= all.len(),
    ensures
        forall|k: int|
            0 <= k < difference(all, all, i, i, false).len() ==> (#[trigger] difference(
                all,
                all,
                i,
                i,
                false,
            )[k]) == (DiffLineView::Kept { line: all[i + k], shown: false }),
    decreases all.len() - i,
{
    if i < all.len() {
        equal_texts_show_no_difference(all, i + 1);
        let rest = difference(all, all, i + 1, i + 1, false);
        let d = difference(all, all, i, i, false);
        assert(d =~= seq![DiffLineView::Kept { line: all[i], shown: false }] + rest);
        assert forall|k: int| 0 <= k < d.len() implies (#[trigger] d[k]) == (DiffLineView::Kept {
            line: all[i + k],
            shown: false,
        }) by {
            if k > 0 {
                assert(d[k] == rest[k - 1]);
            }
        }
    }
}

// ---------------------------------------------------------------------------
// Choosing fixes
// ---------------------------------------------------------------------------

/// A way to fix a finding.
#[derive(Debug, Clone, Copy, PartialEq, Eq, Structural)]
pub enum Fixer {
    PythonSqlInjection,
    JavaScriptSqlInjection,
    GoSqlInjection,
    PythonCommandInjection,
    JavaScriptCommandInjection,
    GoCommandInjection,
    JavaScriptXss,
}

/// The way to fix findings of a rule.
pub open spec fn fixer_of(rule_id: Seq<char>) -> Option<Fixer> {
    if rule_id == "py/taint-sql-injection"@ {
        Some(Fixer::PythonSqlInjection)
    } else if rule_id == "js/taint-sql-injection"@ {
        Some(Fixer::JavaScriptSqlInjection)
    } else if rule_id == "go/taint-sql-injection"@ {
        Some(Fixer::GoSqlInjection)
    } else if rule_id == "py/taint-command-injection"@ {
        Some(Fixer::PythonCommandInjection)
    } else if rule_id == "js/taint-command-injection"@ {
        Some(Fixer::JavaScriptCommandInjection)
    } else if rule_id == "go/taint-command-injection"@ {
        Some(Fixer::GoCommandInjection)
    } else if rule_id == "js/taint-xss-innerhtml"@ {
        Some(Fixer::JavaScriptXss)
    } else {
        None
    }
}

/// The finding says where its sink is.
pub open spec fn has_sink(f: FindingView) -> bool {
    f.sink_start_byte is Some && f.sink_end_byte is Some
}

/// How to fix a finding, and the bytes of its sink; nothing where its rule has no fix or its sink is
/// not known.
pub fn generate_fix(finding: &Finding) -> (r: Option<(Fixer, usize, usize)>)
    ensures
        r == match (finding.sink_start_byte, finding.sink_end_byte) {
            (Some(start), Some(end)) => match fixer_of(finding.rule_id@) {
                Some(fixer) => Some((fixer, start, end)),
                None => None,
            },
            _ => None,
        },
{
    match (finding.sink_start_byte, finding.sink_end_byte) {
        (Some(start), Some(end)) => {
            let id = finding.rule_id.as_str();
            if same(id, "py/taint-sql-injection") {
                Some((Fixer::PythonSqlInjection, start, end))
            } else if same(id, "js/taint-sql-injection") {
                Some((Fixer::JavaScriptSqlInjection, start, end))
            } else if same(id, "go/taint-sql-injection") {
                Some((Fixer::GoSqlInjection, start, end))
            } else if same(id, "py/taint-command-injection") {
                Some((Fixer::PythonCommandInjection, start, end))
            } else if same(id, "js/taint-command-injection") {
                Some((Fixer::JavaScriptCommandInjection, start, end))
            } else if same(id, "go/taint-command-injection") {
                Some((Fixer::GoCommandInjection, start, end))
            } else if same(id, "js/taint-xss-innerhtml") {
                Some((Fixer::JavaScriptXss, start, end))
            } else {
                None
            }
        },
        _ => None,
    }
}

/// The files of the first `n` findings with a known sink, each once, in order.
pub open spec fn files_to_fix(findings: Seq<FindingView>, n: int) -> Seq<Seq<char>>
    decreases n,
{
    if n <= 0 {
        Seq::empty()
    } else {
        let before = files_to_fix(findings, n - 1);
        if has_sink(findings[n - 1]) && !before.contains(findings[n - 1].file) {
            before.push(findings[n - 1].file)
        } else {
            before
        }
    }
}

/// The files of findings with a known sink, each once, in order.
pub fn fixable_files(findings: &Vec<Finding>) -> (r: Vec<String>)
    ensures
        texts(r@) == files_to_fix(
            crate::finding::finding_views(findings@),
            findings@.len() as int,
        ),
{
    let ghost all = crate::finding::finding_views(findings@);
    let mut r: Vec<String> = Vec::new();
    assert(texts(r@) =~= Seq::<Seq<char>>::empty());
    let mut i: usize = 0;
    while i < findings.len()
        invariant
            i <= findings@.len(),
            all == crate::finding::finding_views(findings@),
            texts(r@) == files_to_fix(all, i as int),
        decreases findings@.len() - i,
    {
        let f = &findings[i];
        assert(all[i as int] == f@);
        if f.sink_start_byte.is_some() && f.sink_end_byte.is_some()
            && !crate::text::contains_string(&r, f.file.as_str()) {
            let file = f.file.clone();
            proof {
                lemma_texts_push(r@, file);
            }
            r.push(file);
        }
        i = i + 1;
    }
    r
}

/// The positions among the first `n` findings of those in the file that have a known sink.
pub open spec fn positions_in(findings: Seq<FindingView>, file: Seq<char>, n: int) -> Seq<int>
    decreases n,
{
    if n <= 0 {
        Seq::empty()
    } else {
        let before = positions_in(findings, file, n - 1);
        if has_sink(findings[n - 1]) && findings[n - 1].file == file {
            before.push(n - 1)
        } else {
            before
        }
    }
}

/// The positions of the findings in a file that have a known sink.
pub fn fixable_in(findings: &Vec<Finding>, file: &str) -> (r: Vec<usize>)
    ensures
        r@.map_values(|i: usize| i as int) == positions_in(
            crate::finding::finding_views(findings@),
            file@,
            findings@.len() as int,
        ),
        forall|k: int| 0 <= k < r@.len() ==> (#[trigger] r@[k]) < findings@.len(),
{
    let ghost all = crate::finding::finding_views(findings@);
    let ghost as_int = |i: usize| i as int;
    let mut r: Vec<usize> = Vec::new();
    assert(r@.map_values(as_int) =~= Seq::<int>::empty());
    let mut i: usize = 0;
    while i < findings.len()
        invariant
            i <= findings@.len(),
            all == crate::finding::finding_views(findings@),
            as_int == (|i: usize| i as int),
            r@.map_values(as_int) == positions_in(all, file@, i as int),
            forall|k: int| 0 <= k < r@.len() ==> (#[trigger] r@[k]) < i,
        decreases findings@.len() - i,
    {
        let f = &findings[i];
        assert(all[i as int] == f@);
        if f.sink_start_byte.is_some() && f.sink_end_byte.is_some() && same(
            f.file.as_str(),
            file,
        ) {
            assert(r@.push(i).map_values(as_int) =~= r@.map_values(as_int).push(i as int));
            r.push(i);
        }
        i = i + 1;
    }
    r
}

/// A fix may change the file: it is the scanned file, or lies under the scanned directory.
pub open spec fn in_scope(single_file: bool, root: Seq<char>, path: Seq<char>) -> bool {
    if single_file {
        path_parts(path) == path_parts(root)
    } else {
        path_parts(root).is_prefix_of(path_parts(path))
    }
}

fn same_part(a: &PathPart, b: &PathPart) -> (r: bool)
    ensures
        r == (a@ == b@),
{
    match (a, b) {
        (PathPart::Root, PathPart::Root) => true,
        (PathPart::Current, PathPart::Current) => true,
        (PathPart::Parent, PathPart::Parent) => true,
        (PathPart::Name(x), PathPart::Name(y)) => same(x.as_str(), y.as_str()),
        _ => false,
    }
}

/// Whether a fix may change the file. Both paths are those that links resolve to.
pub fn is_in_scope(single_file: bool, root: &str, path: &str) -> (r: bool)
    ensures
        r == in_scope(single_file, root@, path@),
{
    let a = components(root);
    let b = components(path);
    let ghost x = path_parts(root@);
    let ghost y = path_parts(path@);
    assert(part_views(a@).len() == a@.len());
    assert(part_views(b@).len() == b@.len());
    if a.len() > b.len() || (single_file && a.len() != b.len()) {
        return false;
    }
    let mut i: usize = 0;
    while i < a.len()
        invariant
            i <= a@.len() <= b@.len(),
            single_file ==> a@.len() == b@.len(),
            x == part_views(a@),
            y == part_views(b@),
            x == path_parts(root@),
            y == path_parts(path@),
            forall|k: int| 0 <= k < i ==> #[trigger] x[k] == y[k],
        decreases a@.len() - i,
    {
        assert(x[i as int] == a@[i as int]@);
        assert(y[i as int] == b@[i as int]@);
        if !same_part(&a[i], &b[i]) {
            return false;
        }
        i = i + 1;
    }
    proof {
        if single_file {
            assert(x =~= y);
        } else {
            assert(x =~= y.take(x.len() as int));
        }
    }
    true
}

/// What comes of a file's edits.
#[derive(Debug, PartialEq, Eq)]
pub enum FixOutcome {
    /// There is nothing to write.
    Unchanged,
    /// An edit cannot be applied.
    Unfit,
    /// The text to write.
    Changed(String),
}

/// What comes of a file's edits.
pub fn fix_outcome(source: &str, edits: &mut Vec<CodeEdit>) -> (r: FixOutcome)
    ensures
        match edited_text(source@, edit_views(old(edits)@)) {
            None => r == FixOutcome::Unfit,
            Some(bytes) => if old(edits)@.len() == 0 || bytes == encode_utf8(source@) {
                r == FixOutcome::Unchanged
            } else {
                r matches FixOutcome::Changed(s) && encode_utf8(s@) == bytes
            },
        },
{
    if edits.len() == 0 {
        proof {
            let order = stable_sort(edit_views(edits@), later_first());
            assert(edit_views(edits@).len() == 0);
            assert(order.len() == 0);
        }
        return FixOutcome::Unchanged;
    }
    match try_apply_edits(source, edits) {
        None => FixOutcome::Unfit,
        Some(s) => {
            if same(s.as_str(), source) {
                FixOutcome::Unchanged
            } else {
                proof {
                    if encode_utf8(s@) == encode_utf8(source@) {
                        lemma_encode_injective(s@, source@);
                    }
                }
                FixOutcome::Changed(s)
            }
        },
    }
}

} // verus!
