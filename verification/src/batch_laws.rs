//! What the queue's operations keep and take back, stated over the views the
//! operations' own contracts use.
use vstd::prelude::*;
use crate::batch::{
    assign_of, can_undo_of, current_of, duplicate_from, export_records,
    export_of, has_bom, holds_card, lemma_first_waiting, observe_of, parse_of, refused_of, resume_of, saved_of, skip_of,
    undo_of, value_of, waiting, well_formed, BatchView, Format, RowView,
};
use crate::batch::{
    column_of, csv_read, first_match, header_matches, misaligned, record_row, table_batch, table_rows,
    without_boms,
};
use crate::text::{is_white_space, lowercase, signed_text, trim_end, trim_start, trimmed};
use crate::batch::{users_header, users_records};
use crate::net2::User;
use crate::token::TokenView;
use vstd::utf8::{decode_utf8, valid_utf8};

verus! {

/// No two rows hold a card with the same hex, and a card waiting for Net2 is
/// for the person next in line and held by nobody yet.
pub open spec fn queue_consistent(b: BatchView) -> bool {
    &&& forall|i: int, j: int|
        0 <= i < b.rows.len() && 0 <= j < b.rows.len() && i != j
            && (#[trigger] b.rows[i]).assigned is Some && (#[trigger] b.rows[j]).assigned is Some
            ==> b.rows[i].assigned->0.hex != b.rows[j].assigned->0.hex
    &&& b.sending matches Some((s, t)) ==> {
        &&& current_of(b) == Some(s as int)
        &&& forall|j: int| 0 <= j < b.rows.len() ==> !(#[trigger] b.rows[j].assigned matches Some(a) && a.hex == t.hex)
    }
}

/// Nobody other than `index`, from `k` on, holds the card when the search
/// finds no one.
proof fn lemma_no_duplicate(b: BatchView, index: int, t: TokenView, value: Seq<char>, k: int)
    requires
        0 <= k,
        duplicate_from(b, index, t, value, k) is None,
    ensures
        forall|j: int| k <= j < b.rows.len() && j != index ==> !holds_card(b, j, t, value),
    decreases b.rows.len() - k,
{
    if k < b.rows.len() {
        lemma_no_duplicate(b, index, t, value, k + 1);
    }
}

/// The person next in line is waiting.
proof fn lemma_current_waits(b: BatchView)
    ensures
        current_of(b) matches Some(i) ==> 0 <= i < b.rows.len() && waiting(b.rows[i]),
{
    lemma_first_waiting(b.rows, 0);
}

/// Giving a waiting row a card nobody holds keeps the cards distinct.
proof fn lemma_assign_consistent(b: BatchView, index: int, t: TokenView)
    requires
        0 <= index < b.rows.len(),
        b.sending is None,
        b.rows[index].assigned is None,
        queue_consistent(b),
        forall|j: int| 0 <= j < b.rows.len() ==> !(#[trigger] b.rows[j].assigned matches Some(a) && a.hex == t.hex),
    ensures
        queue_consistent(assign_of(b, index, t)),
{
    let a = assign_of(b, index, t);
    assert forall|i: int, j: int|
        0 <= i < a.rows.len() && 0 <= j < a.rows.len() && i != j
            && (#[trigger] a.rows[i]).assigned is Some && (#[trigger] a.rows[j]).assigned is Some
        implies a.rows[i].assigned->0.hex != a.rows[j].assigned->0.hex by {
        if i == index {
            assert(!(b.rows[j].assigned matches Some(x) && x.hex == t.hex));
        } else if j == index {
            assert(!(b.rows[i].assigned matches Some(x) && x.hex == t.hex));
        }
    }
}

/// Every operation keeps the queue consistent: no card is ever held twice.
pub proof fn lemma_operations_keep_cards_distinct(
    b: BatchView,
    card: Option<TokenView>,
    message: Seq<char>,
    kept: bool,
    unsure: bool,
    stop: bool,
)
    requires
        well_formed(b),
        queue_consistent(b),
    ensures
        queue_consistent(resume_of(b, card)),
        queue_consistent(observe_of(b, card)),
        queue_consistent(saved_of(b)),
        queue_consistent(refused_of(b, message, kept, unsure, stop)),
        queue_consistent(skip_of(b)),
        queue_consistent(undo_of(b)),
{
    lemma_observe_consistent(b, card);
    lemma_saved_consistent(b);
    lemma_refused_consistent(b, message, kept, unsure, stop);
    lemma_skip_consistent(b);
    lemma_undo_consistent(b);
    assert(resume_of(b, card).rows == b.rows);
}

proof fn lemma_observe_consistent(b: BatchView, card: Option<TokenView>)
    requires
        well_formed(b),
        queue_consistent(b),
    ensures
        queue_consistent(observe_of(b, card)),
{
    let identity = match card {
        Some(t) => Some(t.hex),
        None => None,
    };
    if identity != b.last_seen && b.running && b.sending is None {
        let b1 = BatchView { last_seen: identity, ..b };
        assert(current_of(b1) == current_of(b));
        if let (Some(t), Some(index)) = (card, current_of(b)) {
            lemma_current_waits(b);
            let value = crate::batch::format_value(b.format, t);
            if duplicate_from(b, index, t, value, 0) is None {
                lemma_no_duplicate(b, index, t, value, 0);
                assert forall|j: int| 0 <= j < b.rows.len() implies !(#[trigger] b.rows[j].assigned matches Some(a) && a.hex == t.hex) by {
                    if j != index {
                        assert(!holds_card(b, j, t, value));
                    }
                }
                if b.net2_ids is None {
                    lemma_assign_consistent(b1, index, t);
                }
            }
        }
    }
}

proof fn lemma_saved_consistent(b: BatchView)
    requires
        well_formed(b),
        queue_consistent(b),
    ensures
        queue_consistent(saved_of(b)),
{
    if let Some((s, t)) = b.sending {
        lemma_current_waits(b);
        let b1 = BatchView { sending: None, ..b };
        lemma_assign_consistent(b1, s as int, t);
    }
}

proof fn lemma_refused_consistent(b: BatchView, message: Seq<char>, kept: bool, unsure: bool, stop: bool)
    requires
        well_formed(b),
        queue_consistent(b),
    ensures
        queue_consistent(refused_of(b, message, kept, unsure, stop)),
{
    let r = refused_of(b, message, kept, unsure, stop);
    if let Some((s, _)) = b.sending {
        assert forall|i: int| 0 <= i < r.rows.len() implies (#[trigger] r.rows[i]).assigned == b.rows[i].assigned by {}
    }
}

proof fn lemma_skip_consistent(b: BatchView)
    requires
        well_formed(b),
        queue_consistent(b),
    ensures
        queue_consistent(skip_of(b)),
{
    let r = skip_of(b);
    lemma_current_waits(b);
    if b.sending is None && current_of(b) is Some {
        let c = current_of(b)->0;
        assert forall|i: int| 0 <= i < r.rows.len() implies (#[trigger] r.rows[i]).assigned == b.rows[i].assigned by {
            if i == c {
                assert(r.rows[i] == RowView { skipped: true, ..b.rows[c] });
            }
        }
    }
}

proof fn lemma_undo_consistent(b: BatchView)
    requires
        well_formed(b),
        queue_consistent(b),
    ensures
        queue_consistent(undo_of(b)),
{
    let r = undo_of(b);
    if can_undo_of(b) {
        let h = b.history.last() as int;
        assert(b.history[b.history.len() - 1] < b.rows.len());
        assert forall|i: int| 0 <= i < r.rows.len() && (#[trigger] r.rows[i]).assigned is Some
            implies r.rows[i].assigned == b.rows[i].assigned by {
            if i == h {
                assert(r.rows[i].assigned is None);
            }
        }
    }
}

/// Undo after a skip puts the queue's rows and history back as they were.
pub proof fn lemma_undo_takes_back_a_skip(b: BatchView)
    requires
        well_formed(b),
        b.sending is None,
        current_of(b) is Some,
    ensures
        undo_of(skip_of(b)).rows == b.rows,
        undo_of(skip_of(b)).history == b.history,
{
    lemma_current_waits(b);
    let i = current_of(b)->0;
    let s = skip_of(b);
    assert(s.history.last() == i as usize);
    assert(s.history.drop_last() =~= b.history);
    assert(can_undo_of(s));
    assert(undo_of(s).rows =~= b.rows);
}

/// Undo after a tap that assigned a card puts the rows and history back.
pub proof fn lemma_undo_takes_back_an_assignment(b: BatchView, card: Option<TokenView>)
    requires
        well_formed(b),
        observe_of(b, card).history.len() != b.history.len(),
    ensures
        undo_of(observe_of(b, card)).rows == b.rows,
        undo_of(observe_of(b, card)).history == b.history,
{
    lemma_current_waits(b);
    let identity = match card {
        Some(t) => Some(t.hex),
        None => None,
    };
    let b1 = BatchView { last_seen: identity, ..b };
    assert(current_of(b1) == current_of(b));
    let i = current_of(b)->0;
    let t = card->0;
    let a = observe_of(b, card);
    assert(a.history.last() == i as usize);
    assert(a.history.drop_last() =~= b.history);
    assert(a.rows[i].assigned is Some);
    assert(can_undo_of(a));
    assert(undo_of(a).rows =~= b.rows);
}

/// A direct queue never assigns on a tap: the card only counts once Net2 has
/// accepted it.
pub proof fn lemma_direct_queue_waits_for_net2(b: BatchView, card: Option<TokenView>)
    requires
        b.net2_ids is Some,
    ensures
        observe_of(b, card).rows == b.rows,
        observe_of(b, card).history == b.history,
{
}

/// Once Net2 has accepted a card it is assigned, cannot be taken back here,
/// and leaves nothing unsaved in the download.
pub proof fn lemma_saved_card_stays(b: BatchView)
    requires
        well_formed(b),
        b.net2_ids is Some,
        b.sending is Some,
    ensures
        b.sending matches Some((s, t)) && saved_of(b).rows[s as int].assigned == Some(t),
        !can_undo_of(saved_of(b)),
        saved_of(b).dirty == b.dirty,
{
    let (s, t) = b.sending->0;
    let a = saved_of(b);
    assert(a.history.last() == s);
}

/// Repeated reports of the card being held change nothing, and a card on the
/// reader when the run starts is not taken as a tap.
pub proof fn lemma_held_card_counts_once(b: BatchView, card: Option<TokenView>)
    ensures
        observe_of(observe_of(b, card), card) == observe_of(b, card),
        observe_of(resume_of(b, card), card) == resume_of(b, card),
{
}

/// Skipping someone leaves every Card Number as it was.
pub proof fn lemma_skip_keeps_card_numbers(b: BatchView)
    requires
        well_formed(b),
    ensures
        forall|i: int| 0 <= i < b.rows.len() ==> #[trigger] value_of(skip_of(b), i) == value_of(b, i),
{
    lemma_current_waits(b);
}

/// An export writes the header and then each row with only its Card Number
/// column changed, to the value the row shows.
pub proof fn lemma_export_changes_only_card_number(b: BatchView)
    requires
        well_formed(b),
    ensures
        export_records(b).len() == b.rows.len() + 1,
        export_records(b)[0] == b.headers,
        forall|i: int| 0 <= i < b.rows.len() ==> (#[trigger] export_records(b)[i + 1]).len() == b.rows[i].fields.len(),
        forall|i: int| 0 <= i < b.rows.len() ==> (#[trigger] export_records(b)[i + 1])[b.card_column] == value_of(b, i),
        forall|i: int, j: int| 0 <= i < b.rows.len() && 0 <= j < b.rows[i].fields.len() && j != b.card_column
            ==> #[trigger] export_records(b)[i + 1][j] == b.rows[i].fields[j],
{
}

/// After Net2 refuses a card, the same person is still next unless they
/// already had a card or the outcome is unknown; then the queue moves on.
pub proof fn lemma_refusal_keeps_or_passes_the_person(
    b: BatchView,
    message: Seq<char>,
    kept: bool,
    unsure: bool,
    stop: bool,
)
    requires
        well_formed(b),
        queue_consistent(b),
        b.sending is Some,
    ensures
        b.sending matches Some((s, t)) && (!kept && !unsure ==> current_of(refused_of(b, message, kept, unsure, stop)) == Some(s as int)),
        b.sending matches Some((s, t)) && (kept || unsure ==> current_of(refused_of(b, message, kept, unsure, stop)) != Some(s as int)),
        refused_of(b, message, kept, unsure, stop).running ==> !stop,
{
    lemma_current_waits(b);
    let r = refused_of(b, message, kept, unsure, stop);
    if !kept && !unsure {
        assert(r.rows =~= b.rows);
    } else {
        lemma_current_waits(r);
    }
}

/// A file loaded with a byte order mark is downloaded with one again: the
/// queue remembers the mark, every operation keeps it, and a download of a
/// queue that remembers it starts with it.
pub proof fn lemma_byte_order_mark_is_kept(
    input: Seq<u8>,
    replace: bool,
    format: Format,
    b: BatchView,
    card: Option<TokenView>,
    message: Seq<char>,
    kept: bool,
    unsure: bool,
    stop: bool,
)
    ensures
        parse_of(input, replace, format) matches Ok(q) ==> q.bom == has_bom(input),
        resume_of(b, card).bom == b.bom,
        observe_of(b, card).bom == b.bom,
        saved_of(b).bom == b.bom,
        refused_of(b, message, kept, unsure, stop).bom == b.bom,
        skip_of(b).bom == b.bom,
        undo_of(b).bom == b.bom,
        b.bom && export_of(b) is Ok ==> has_bom(export_of(b)->Ok_0),
{
}

/// The table a queue was read from: its three columns are the ones the
/// header names, and every row lines up with the header and names someone.
pub open spec fn table_shape(b: BatchView) -> bool {
    &&& column_of(b.headers, "First name"@) == Some(b.first_column)
    &&& column_of(b.headers, "Surname"@) == Some(b.surname_column)
    &&& column_of(b.headers, "Card Number"@) == Some(b.card_column)
    &&& 1 <= b.rows.len() <= 10_000
    &&& forall|i: int| 0 <= i < b.rows.len() ==> !misaligned(b.headers.len() as int, #[trigger] b.rows[i].fields)
    &&& forall|i: int| 0 <= i < b.rows.len() ==> !(trimmed((#[trigger] b.rows[i]).fields[b.first_column]).len() == 0
        && trimmed(b.rows[i].fields[b.surname_column]).len() == 0)
}

/// Two queues over the same table: the same header, columns and fields.
pub open spec fn same_table(a: BatchView, b: BatchView) -> bool {
    &&& a.headers == b.headers
    &&& a.first_column == b.first_column
    &&& a.surname_column == b.surname_column
    &&& a.card_column == b.card_column
    &&& a.rows.len() == b.rows.len()
    &&& forall|i: int| 0 <= i < a.rows.len() ==> (#[trigger] a.rows[i]).fields == b.rows[i].fields
}

/// Rows read from records `k` on are the rows those records make, one each.
proof fn lemma_table_rows_ok(
    hl: int,
    fc: int,
    sc: int,
    cc: int,
    records: Seq<Result<Seq<Seq<char>>, Seq<char>>>,
    replace: bool,
    k: int,
)
    requires
        0 <= k <= records.len(),
        table_rows(hl, fc, sc, cc, records, replace, k) is Ok,
    ensures
        table_rows(hl, fc, sc, cc, records, replace, k)->Ok_0.len() == records.len() - k,
        forall|i: int| 0 <= i < records.len() - k ==> (#[trigger] records[k + i]) is Ok
            && record_row(hl, fc, sc, cc, records[k + i]->Ok_0, replace, k + i)
                == Ok::<RowView, Seq<char>>(table_rows(hl, fc, sc, cc, records, replace, k)->Ok_0[i]),
    decreases records.len() - k,
{
    if k < records.len() {
        lemma_table_rows_ok(hl, fc, sc, cc, records, replace, k + 1);
        let rows = table_rows(hl, fc, sc, cc, records, replace, k)->Ok_0;
        let rest = table_rows(hl, fc, sc, cc, records, replace, k + 1)->Ok_0;
        assert forall|i: int| 0 <= i < records.len() - k implies (#[trigger] records[k + i]) is Ok
            && record_row(hl, fc, sc, cc, records[k + i]->Ok_0, replace, k + i)
                == Ok::<RowView, Seq<char>>(rows[i]) by {
            if i > 0 {
                assert(records[k + i] == records[(k + 1) + (i - 1)]);
                assert(rows[i] == rest[i - 1]);
            }
        }
    }
}

/// A queue read from a file has the shape of its table.
pub proof fn lemma_parsed_queue_has_its_table(bytes: Seq<u8>, replace: bool, format: Format)
    ensures
        parse_of(bytes, replace, format) matches Ok(q) ==> table_shape(q),
{
    if parse_of(bytes, replace, format) is Ok {
        let q = parse_of(bytes, replace, format)->Ok_0;
        let read = csv_read(without_boms(decode_utf8(bytes)));
        let hs = read.0->Ok_0;
        let fc = column_of(hs, "First name"@)->0;
        let sc = column_of(hs, "Surname"@)->0;
        let cc = column_of(hs, "Card Number"@)->0;
        lemma_table_rows_ok(hs.len() as int, fc, sc, cc, read.1, replace, 0);
        assert forall|i: int| 0 <= i < q.rows.len() implies !misaligned(q.headers.len() as int, #[trigger] q.rows[i].fields)
            && !(trimmed(q.rows[i].fields[q.first_column]).len() == 0 && trimmed(q.rows[i].fields[q.surname_column]).len() == 0) by {
            assert(read.1[0 + i] is Ok);
        }
        assert(q.rows.len() <= 10_000) by {
            lemma_table_rows_short(hs.len() as int, fc, sc, cc, read.1, replace, 0);
        }
    }
}

/// Records past 10,000 are refused, so at most 10,000 rows come from them.
proof fn lemma_table_rows_short(
    hl: int,
    fc: int,
    sc: int,
    cc: int,
    records: Seq<Result<Seq<Seq<char>>, Seq<char>>>,
    replace: bool,
    k: int,
)
    requires
        0 <= k <= 10_000,
        table_rows(hl, fc, sc, cc, records, replace, k) is Ok,
    ensures
        table_rows(hl, fc, sc, cc, records, replace, k)->Ok_0.len() <= 10_000 - k,
    decreases records.len() - k,
{
    if k < records.len() && k < 10_000 {
        lemma_table_rows_short(hl, fc, sc, cc, records, replace, k + 1);
    }
}

/// Every operation keeps the table: the header, the columns and every field
/// stay as they are; only the rows' flags and cards change.
pub proof fn lemma_operations_keep_the_table(
    b: BatchView,
    card: Option<TokenView>,
    message: Seq<char>,
    kept: bool,
    unsure: bool,
    stop: bool,
)
    requires
        well_formed(b),
    ensures
        same_table(resume_of(b, card), b),
        same_table(observe_of(b, card), b),
        same_table(saved_of(b), b),
        same_table(refused_of(b, message, kept, unsure, stop), b),
        same_table(skip_of(b), b),
        same_table(undo_of(b), b),
{
    lemma_current_waits(b);
    assert(b.history.len() > 0 ==> b.history[b.history.len() - 1] < b.rows.len());
    assert(b.sending matches Some((i, _)) ==> i < b.rows.len());
    let identity = match card {
        Some(t) => Some(t.hex),
        None => None,
    };
    let b1 = BatchView { last_seen: identity, ..b };
    assert(current_of(b1) == current_of(b));
}

/// The header a column is picked by names it.
proof fn lemma_first_match(headers: Seq<Seq<char>>, name: Seq<char>)
    ensures
        first_match(headers, name) matches Some(i) ==> 0 <= i < headers.len() && header_matches(headers[i], name),
    decreases headers.len(),
{
    if headers.len() > 0 {
        lemma_first_match(headers.drop_last(), name);
    }
}

/// No header names two of the three columns, so they are three columns.
proof fn lemma_columns_differ(b: BatchView)
    requires
        table_shape(b),
    ensures
        b.first_column != b.card_column,
        b.surname_column != b.card_column,
{
    reveal_strlit("First name");
    reveal_strlit("Surname");
    reveal_strlit("Card Number");
    lemma_first_match(b.headers, "First name"@);
    lemma_first_match(b.headers, "Surname"@);
    lemma_first_match(b.headers, "Card Number"@);
    let f = lowercase("First name"@);
    let s = lowercase("Surname"@);
    let c = lowercase("Card Number"@);
    assert(f[0] == 'f' && s[0] == 's' && c[0] == 'c');
}

/// The row a queue reads back for its row `i` from its own export.
pub open spec fn reread_row(b: BatchView, i: int, replace: bool) -> RowView {
    RowView {
        fields: b.rows[i].fields.update(b.card_column, value_of(b, i)),
        assigned: None,
        skipped: false,
        unsure: false,
        eligible: replace || trimmed(value_of(b, i)).len() == 0,
    }
}

/// The exported records, from the one after the header, read as rows.
proof fn lemma_export_rows(
    b: BatchView,
    replace: bool,
    records: Seq<Result<Seq<Seq<char>>, Seq<char>>>,
    k: int,
)
    requires
        well_formed(b),
        table_shape(b),
        b.first_column != b.card_column,
        b.surname_column != b.card_column,
        0 <= k <= b.rows.len(),
        records == Seq::new(b.rows.len(), |i: int| Ok::<Seq<Seq<char>>, Seq<char>>(export_records(b)[i + 1])),
    ensures
        table_rows(b.headers.len() as int, b.first_column, b.surname_column, b.card_column, records, replace, k)
            == Ok::<Seq<RowView>, Seq<char>>(Seq::new((b.rows.len() - k) as nat, |i: int| reread_row(b, k + i, replace))),
    decreases b.rows.len() - k,
{
    let n = b.rows.len() as int;
    let hl = b.headers.len() as int;
    if k < n {
        lemma_export_rows(b, replace, records, k + 1);
        let fields = b.rows[k].fields;
        let newf = export_records(b)[k + 1];
        assert(newf == fields.update(b.card_column, value_of(b, k)));
        assert(!misaligned(hl, fields));
        assert forall|j: int| hl <= j < newf.len() implies #[trigger] newf[j].len() == 0 by {
            assert(newf[j] == fields[j]);
            if fields[j].len() > 0 {
                assert(misaligned(hl, fields));
            }
        }
        assert(!misaligned(hl, newf));
        assert(newf[b.first_column] == fields[b.first_column]);
        assert(newf[b.surname_column] == fields[b.surname_column]);
        assert(records[k] == Ok::<Seq<Seq<char>>, Seq<char>>(newf));
        assert(record_row(hl, b.first_column, b.surname_column, b.card_column, newf, replace, k)
            == Ok::<RowView, Seq<char>>(reread_row(b, k, replace)));
        let rest = Seq::new((n - k - 1) as nat, |i: int| reread_row(b, k + 1 + i, replace));
        assert(seq![reread_row(b, k, replace)] + rest =~= Seq::new((n - k) as nat, |i: int| reread_row(b, k + i, replace)));
    } else {
        assert(Seq::new((n - k) as nat, |i: int| reread_row(b, k + i, replace)) =~= Seq::<RowView>::empty());
    }
}

/// Reading an export gives the queue's table back with each row's Card
/// Number as the queue showed it, every person waiting again, and the byte
/// order mark kept, for as long as the csv crate reads back the records it
/// wrote. That reading is the crate's, and is all this law takes of it.
pub proof fn lemma_export_reads_back(b: BatchView, replace: bool, format: Format)
    requires
        well_formed(b),
        table_shape(b),
        export_of(b) is Ok,
        valid_utf8(export_of(b)->Ok_0),
        csv_read(without_boms(decode_utf8(export_of(b)->Ok_0))) == (
            Ok::<Seq<Seq<char>>, Seq<char>>(b.headers),
            Seq::new(b.rows.len(), |i: int| Ok::<Seq<Seq<char>>, Seq<char>>(export_records(b)[i + 1])),
        ),
    ensures
        parse_of(export_of(b)->Ok_0, replace, format) is Ok,
        same_table(parse_of(export_of(b)->Ok_0, replace, format)->Ok_0, BatchView {
            rows: Seq::new(b.rows.len(), |i: int| reread_row(b, i, replace)),
            ..b
        }),
        parse_of(export_of(b)->Ok_0, replace, format)->Ok_0.rows == Seq::new(b.rows.len(), |i: int| reread_row(b, i, replace)),
        b.bom ==> parse_of(export_of(b)->Ok_0, replace, format)->Ok_0.bom,
{
    lemma_columns_differ(b);
    let bytes = export_of(b)->Ok_0;
    let records = Seq::new(b.rows.len(), |i: int| Ok::<Seq<Seq<char>>, Seq<char>>(export_records(b)[i + 1]));
    lemma_export_rows(b, replace, records, 0);
    let rows = Seq::new(b.rows.len(), |i: int| reread_row(b, i, replace));
    assert(Seq::new((b.rows.len() - 0) as nat, |i: int| reread_row(b, 0 + i, replace)) =~= rows);
    let q = parse_of(bytes, replace, format);
    assert(q is Ok);
    assert(q->Ok_0.rows == rows);
}

/// A queue over the same table as one read from a file has that table's
/// shape, so every queue a file and its later operations make has it.
pub proof fn lemma_same_table_same_shape(a: BatchView, b: BatchView)
    requires
        same_table(a, b),
        table_shape(b),
    ensures
        table_shape(a),
{
    assert forall|i: int| 0 <= i < a.rows.len() implies !misaligned(a.headers.len() as int, #[trigger] a.rows[i].fields)
        && !(trimmed(a.rows[i].fields[a.first_column]).len() == 0 && trimmed(a.rows[i].fields[a.surname_column]).len() == 0) by {
        assert(a.rows[i].fields == b.rows[i].fields);
        assert(!misaligned(b.headers.len() as int, b.rows[i].fields));
    }
}

/// The records a queue from Net2 starts from: the header, then one record
/// per user, in order. A user's record holds their ID, their first and
/// middle name trimmed as the First name, their surname, and no card.
/// "(No name)" stands in for the First name only when the user has no name
/// at all.
pub proof fn lemma_user_records(users: Seq<User>, i: int)
    requires
        0 <= i < users.len(),
    ensures
        users_records(users).len() == users.len() + 1,
        users_records(users)[0] == users_header(),
        ({
            let r = users_records(users)[i + 1];
            let u = users[i];
            let f = trimmed(u.first@ + seq![' '] + u.middle@);
            &&& r.len() == 4
            &&& r[0] == signed_text(u.id as int)
            &&& r[2] == u.last@
            &&& r[3].len() == 0
            &&& u.last@.len() > 0 ==> r[1] == f
            &&& f.len() > 0 ==> r[1] == f
            &&& (u.first@.len() == 0 && u.middle@.len() == 0 && u.last@.len() == 0) ==> r[1] == "(No name)"@
        }),
{
    reveal_strlit("(No name)");
    let u = users[i];
    if u.first@.len() == 0 && u.middle@.len() == 0 {
        let both = u.first@ + seq![' '] + u.middle@;
        assert(both =~= seq![' ']);
        assert(is_white_space(' '));
        assert(both.len() == 1 && both[0] == ' ');
        assert(both.drop_first() =~= Seq::<char>::empty());
        assert(trim_start(Seq::<char>::empty()) =~= Seq::<char>::empty());
        assert(trim_start(both.drop_first()) =~= Seq::<char>::empty());
        assert(trim_start(both) =~= Seq::<char>::empty());
        assert(trim_end(Seq::<char>::empty()) =~= Seq::<char>::empty());
    }
}

} // verus!
