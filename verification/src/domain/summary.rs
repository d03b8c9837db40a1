//! The room that a directory's summary needs: however large the numbers in it grow, its JSON
//! form fits the bytes that were charged for it.
use vstd::prelude::*;

use crate::domain::index;
use crate::domain::model::{MeasureView, Reason, ScanState, UsageView};
use crate::domain::wire;
use crate::domain::wire::quoted_len;
use crate::text;

verus! {

/// What a summary needs beside its prefix and its timestamp.
pub const FIXED_BYTES: usize = 547;

/// Whether every summary with this id prefix and this timestamp fits its room.
pub open spec fn room_for_summaries(prefix: Seq<char>, observed_at: Seq<char>) -> bool {
    wire::json_len(wire::quoted(prefix)) + wire::json_len(wire::quoted(observed_at)) + FIXED_BYTES
        <= index::SUMMARY_BYTES / 2
}

/// Whether every summary with this id prefix and this timestamp fits its room.
pub fn summaries_fit(prefix: &str, observed_at: &str) -> (fit: bool)
    ensures
        fit == room_for_summaries(prefix@, observed_at@),
{
    let prefix: usize = quoted_len(prefix);
    let observed_at: usize = quoted_len(observed_at);
    prefix <= 477 && observed_at <= 477 && prefix + observed_at <= 477
}

/// A measurement whose number fits 128 bits and whose reasons stand in their order.
pub open spec fn is_measured(measure: MeasureView) -> bool {
    match measure {
        MeasureView::Unknown => true,
        MeasureView::Complete { bytes } => bytes <= u128::MAX,
        MeasureView::Partial { observed_bytes, reasons } => observed_bytes <= u128::MAX
            && forall|i: int, j: int|
            0 <= i < j < reasons.len() ==> (#[trigger] reasons[i]).rank() < (
            #[trigger] reasons[j]).rank(),
        MeasureView::Unavailable { reason } => true,
    }
}

/// The size of two texts together.
pub proof fn lemma_len_add(a: Seq<char>, b: Seq<char>)
    ensures
        wire::json_len(a + b) == wire::json_len(a) + wire::json_len(b),
    decreases a.len(),
{
    if a.len() == 0 {
        assert(a + b =~= b);
    } else {
        assert((a + b).drop_first() =~= a.drop_first() + b);
        lemma_len_add(a.drop_first(), b);
    }
}

proof fn lemma_ascii_len(text: Seq<char>)
    requires
        forall|i: int| 0 <= i < text.len() ==> '\0' <= #[trigger] text[i] <= '\u{7f}',
    ensures
        wire::json_len(text) == text.len(),
{
    assert(vstd::utf8::is_ascii_chars(text));
    vstd::utf8::is_ascii_chars_encode_utf8(text);
}

/// Ten to the power of `k`.
spec fn pow10(k: nat) -> nat
    decreases k,
{
    if k == 0 {
        1
    } else {
        10 * pow10((k - 1) as nat)
    }
}

proof fn lemma_decimal_len(n: nat, k: nat)
    requires
        n < pow10(k),
        k > 0,
    ensures
        text::decimal(n).len() <= k,
    decreases k,
{
    if n >= 10 {
        if k == 1 {
            assert(pow10(0) == 1);
            assert(pow10(1) == 10);
        }
        assert(n / 10 < pow10((k - 1) as nat));
        lemma_decimal_len(n / 10, (k - 1) as nat);
    }
}

proof fn lemma_number_len(n: nat)
    ensures
        n <= u64::MAX ==> wire::json_len(text::decimal(n)) <= 20,
        n <= u128::MAX ==> wire::json_len(text::decimal(n)) <= 39,
{
    text::lemma_decimal(n);
    let digits = text::decimal(n);
    assert forall|i: int| 0 <= i < digits.len() implies '\0' <= #[trigger] digits[i]
        <= '\u{7f}' by {
        assert(text::is_digit(digits[i]));
    }
    lemma_ascii_len(digits);
    if n <= u64::MAX {
        assert(pow10(20) == 100000000000000000000) by {
            reveal_with_fuel(pow10, 21);
        }
        lemma_decimal_len(n, 20);
    }
    if n <= u128::MAX {
        assert(pow10(39) == 1000000000000000000000000000000000000000) by {
            reveal_with_fuel(pow10, 40);
        }
        lemma_decimal_len(n, 39);
    }
}

proof fn lemma_escaped_digits(text: Seq<char>)
    requires
        forall|i: int| 0 <= i < text.len() ==> text::is_digit(#[trigger] text[i]),
    ensures
        wire::escaped(text) == text,
    decreases text.len(),
{
    if text.len() > 0 {
        let head = text.drop_last();
        assert forall|i: int| 0 <= i < head.len() implies text::is_digit(#[trigger] head[i]) by {
            assert(head[i] == text[i]);
        }
        lemma_escaped_digits(head);
        assert(text::is_digit(text[text.len() - 1]));
        assert(wire::escape(text.last()) =~= seq![text.last()]);
        assert(wire::escaped(text) =~= text);
    } else {
        assert(wire::escaped(text) =~= text);
    }
}

proof fn lemma_escaped_add(a: Seq<char>, b: Seq<char>)
    ensures
        wire::escaped(a + b) == wire::escaped(a) + wire::escaped(b),
    decreases b.len(),
{
    if b.len() == 0 {
        assert(a + b =~= a);
        assert(wire::escaped(a) + wire::escaped(b) =~= wire::escaped(a));
    } else {
        assert((a + b).drop_last() =~= a + b.drop_last());
        lemma_escaped_add(a, b.drop_last());
        assert(wire::escaped(a + b) =~= wire::escaped(a) + wire::escaped(b));
    }
}

proof fn lemma_quoted_number_len(n: nat)
    requires
        n <= u128::MAX,
    ensures
        wire::json_len(wire::bytes_text(n)) <= 41,
{
    text::lemma_decimal(n);
    let digits = text::decimal(n);
    lemma_escaped_digits(digits);
    lemma_number_len(n);
    let mark = seq!['"'];
    lemma_ascii_len(mark);
    lemma_len_add(mark + digits, mark);
    lemma_len_add(mark, digits);
}

/// An id is as long as its prefix and its number.
proof fn lemma_id_len(prefix: Seq<char>, n: nat)
    requires
        n <= u64::MAX,
    ensures
        wire::json_len(wire::quoted(index::id_text(prefix, n))) <= wire::json_len(
            wire::quoted(prefix),
        ) + 21,
{
    reveal_strlit("-");
    text::lemma_decimal(n);
    let digits = text::decimal(n);
    let dash = "-"@;
    let mark = seq!['"'];
    let id = index::id_text(prefix, n);
    assert(id =~= (prefix + dash) + digits);
    lemma_escaped_add(prefix + dash, digits);
    lemma_escaped_add(prefix, dash);
    lemma_escaped_digits(digits);
    assert(dash.drop_last() =~= Seq::<char>::empty());
    assert(wire::escaped(dash.drop_last()) =~= Seq::<char>::empty());
    assert(wire::escaped(dash) =~= dash);
    lemma_number_len(n);
    lemma_ascii_len(mark);
    lemma_ascii_len(dash);
    lemma_len_add(mark + wire::escaped(id), mark);
    lemma_len_add(mark, wire::escaped(id));
    lemma_len_add(wire::escaped(prefix) + dash, digits);
    lemma_len_add(wire::escaped(prefix), dash);
    lemma_len_add(mark + wire::escaped(prefix), mark);
    lemma_len_add(mark, wire::escaped(prefix));
}

/// How many bytes the reasons up to one, each with a comma, take.
spec fn reasons_room(rank: int) -> int {
    if rank <= 0 {
        11
    } else if rank == 1 {
        23
    } else if rank == 2 {
        35
    } else if rank == 3 {
        49
    } else if rank == 4 {
        69
    } else if rank == 5 {
        80
    } else if rank == 6 {
        96
    } else {
        115
    }
}

proof fn lemma_reason_len(reason: Reason)
    ensures
        wire::json_len(wire::reason_json(reason)) + 1 <= reasons_room(reason.rank()) - (
        if reason.rank() == 0 {
            0
        } else {
            reasons_room(reason.rank() - 1)
        }),
{
    reveal_strlit("\"scanning\"");
    reveal_strlit("\"readError\"");
    reveal_strlit("\"cancelled\"");
    reveal_strlit("\"unsupported\"");
    reveal_strlit("\"changedDuringScan\"");
    reveal_strlit("\"overflow\"");
    reveal_strlit("\"resourceLimit\"");
    reveal_strlit("\"excludedByPolicy\"");
    lemma_ascii_len(wire::reason_json(reason));
}

proof fn lemma_listed_len(reasons: Seq<Reason>)
    requires
        forall|i: int, j: int|
            0 <= i < j < reasons.len() ==> (#[trigger] reasons[i]).rank() < (
            #[trigger] reasons[j]).rank(),
    ensures
        reasons.len() > 0 ==> wire::json_len(wire::listed(wire::reason_texts(reasons))) + 1
            <= reasons_room(reasons.last().rank()),
        reasons.len() == 0 ==> wire::json_len(wire::listed(wire::reason_texts(reasons))) == 0,
    decreases reasons.len(),
{
    let texts = wire::reason_texts(reasons);
    if reasons.len() > 0 {
        let head = reasons.drop_last();
        let last = reasons.last();
        assert forall|i: int, j: int| 0 <= i < j < head.len() implies (#[trigger] head[i]).rank()
            < (#[trigger] head[j]).rank() by {
            assert(head[i] == reasons[i]);
            assert(head[j] == reasons[j]);
        }
        lemma_listed_len(head);
        lemma_reason_len(last);
        assert(texts.drop_last() =~= wire::reason_texts(head));
        assert(texts.last() == wire::reason_json(last));
        if reasons.len() == 1 {
            assert(wire::listed(texts) == texts[0]);
        } else {
            reveal_strlit(",");
            lemma_ascii_len(","@);
            let before = wire::listed(wire::reason_texts(head));
            lemma_len_add(before + ","@, wire::reason_json(last));
            lemma_len_add(before, ","@);
            assert(head.last() == reasons[reasons.len() - 2]);
            assert(reasons[reasons.len() - 2].rank() < reasons[reasons.len() - 1].rank());
        }
    }
}

proof fn lemma_measure_len(measure: MeasureView)
    requires
        is_measured(measure),
    ensures
        wire::json_len(wire::measure_json(measure)) <= 204,
{
    reveal_strlit("}");
    lemma_ascii_len("}"@);
    match measure {
        MeasureView::Unknown => {
            reveal_strlit("{\"state\":\"unknown\"}");
            lemma_ascii_len("{\"state\":\"unknown\"}"@);
        },
        MeasureView::Complete { bytes } => {
            reveal_strlit("{\"state\":\"complete\",\"bytes\":");
            let head = "{\"state\":\"complete\",\"bytes\":"@;
            lemma_ascii_len(head);
            lemma_quoted_number_len(bytes);
            lemma_len_add(head + wire::bytes_text(bytes), "}"@);
            lemma_len_add(head, wire::bytes_text(bytes));
        },
        MeasureView::Partial { observed_bytes, reasons } => {
            reveal_strlit("{\"state\":\"partial\",\"observedBytes\":");
            reveal_strlit(",\"reasons\":");
            reveal_strlit("[");
            reveal_strlit("]");
            let head = "{\"state\":\"partial\",\"observedBytes\":"@;
            let middle = ",\"reasons\":"@;
            let list = wire::listed(wire::reason_texts(reasons));
            let array = wire::array(wire::reason_texts(reasons));
            let number = wire::bytes_text(observed_bytes);
            lemma_ascii_len(head);
            lemma_ascii_len(middle);
            lemma_ascii_len("["@);
            lemma_ascii_len("]"@);
            lemma_ascii_len(Seq::<char>::empty());
            lemma_quoted_number_len(observed_bytes);
            lemma_listed_len(reasons);
            lemma_len_add(Seq::<char>::empty(), "["@);
            lemma_len_add(Seq::<char>::empty() + "["@, list);
            lemma_len_add(Seq::<char>::empty() + "["@ + list, "]"@);
            lemma_len_add(head, number);
            lemma_len_add(head + number, middle);
            lemma_len_add(head + number + middle, array);
            lemma_len_add(head + number + middle + array, "}"@);
        },
        MeasureView::Unavailable { reason } => {
            reveal_strlit("{\"state\":\"unavailable\",\"reason\":");
            let head = "{\"state\":\"unavailable\",\"reason\":"@;
            lemma_ascii_len(head);
            lemma_reason_len(reason);
            lemma_len_add(head + wire::reason_json(reason), "}"@);
            lemma_len_add(head, wire::reason_json(reason));
        },
    }
}

proof fn lemma_state_len(state: ScanState)
    ensures
        wire::json_len(wire::scan_state_json(state)) <= 14,
{
    reveal_strlit("\"notRequested\"");
    reveal_strlit("\"queued\"");
    reveal_strlit("\"running\"");
    reveal_strlit("\"settled\"");
    reveal_strlit("\"failed\"");
    reveal_strlit("\"cancelled\"");
    lemma_ascii_len(wire::scan_state_json(state));
}

/// A summary always fits the room that its directory was charged for.
pub proof fn summaries_always_fit(usage: UsageView, prefix: Seq<char>, n: nat)
    requires
        room_for_summaries(prefix, usage.observed_at),
        usage.directory_id == index::id_text(prefix, n),
        n <= u64::MAX,
        is_measured(usage.logical),
        is_measured(usage.allocated),
    ensures
        wire::json_len(wire::usage_json(usage)) <= index::SUMMARY_BYTES / 2,
{
    reveal(wire::usage_json);
    reveal_strlit("{\"directoryId\":");
    reveal_strlit(",\"usageRevision\":");
    reveal_strlit(",\"scanState\":");
    reveal_strlit(",\"logical\":");
    reveal_strlit(",\"allocated\":");
    reveal_strlit(",\"observedAt\":");
    reveal_strlit("}");
    let p0 = Seq::<char>::empty();
    let p1 = p0 + "{\"directoryId\":"@;
    let p2 = p1 + wire::quoted(usage.directory_id);
    let p3 = p2 + ",\"usageRevision\":"@;
    let p4 = p3 + text::decimal(usage.usage_revision as nat);
    let p5 = p4 + ",\"scanState\":"@;
    let p6 = p5 + wire::scan_state_json(usage.scan_state);
    let p7 = p6 + ",\"logical\":"@;
    let p8 = p7 + wire::measure_json(usage.logical);
    let p9 = p8 + ",\"allocated\":"@;
    let p10 = p9 + wire::measure_json(usage.allocated);
    let p11 = p10 + ",\"observedAt\":"@;
    let p12 = p11 + wire::quoted(usage.observed_at);
    lemma_ascii_len(p0);
    lemma_ascii_len("{\"directoryId\":"@);
    lemma_ascii_len(",\"usageRevision\":"@);
    lemma_ascii_len(",\"scanState\":"@);
    lemma_ascii_len(",\"logical\":"@);
    lemma_ascii_len(",\"allocated\":"@);
    lemma_ascii_len(",\"observedAt\":"@);
    lemma_ascii_len("}"@);
    lemma_id_len(prefix, n);
    lemma_number_len(usage.usage_revision as nat);
    lemma_state_len(usage.scan_state);
    lemma_measure_len(usage.logical);
    lemma_measure_len(usage.allocated);
    lemma_len_add(p0, "{\"directoryId\":"@);
    lemma_len_add(p1, wire::quoted(usage.directory_id));
    lemma_len_add(p2, ",\"usageRevision\":"@);
    lemma_len_add(p3, text::decimal(usage.usage_revision as nat));
    lemma_len_add(p4, ",\"scanState\":"@);
    lemma_len_add(p5, wire::scan_state_json(usage.scan_state));
    lemma_len_add(p6, ",\"logical\":"@);
    lemma_len_add(p7, wire::measure_json(usage.logical));
    lemma_len_add(p8, ",\"allocated\":"@);
    lemma_len_add(p9, wire::measure_json(usage.allocated));
    lemma_len_add(p10, ",\"observedAt\":"@);
    lemma_len_add(p11, wire::quoted(usage.observed_at));
    lemma_len_add(p12, "}"@);
    assert(wire::usage_json(usage) == p12 + "}"@);
}

} // verus!
