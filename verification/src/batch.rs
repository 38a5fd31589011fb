//! CSV data and the card assignment queue. Only Card Number changes on
//! export. A queue loaded from Net2 is direct: each tap is saved to Net2
//! first, and only counts as assigned once Net2 has accepted it.
use vstd::prelude::*;
use crate::token::{Token, TokenView};
use crate::net2::{owned, Failure, User, no_name_chars, no_name_text};
use vstd::utf8::{decode_utf8, valid_utf8};
use crate::text::{last_index_of, append_str, last_index_of_char,
    append_chars, chars_of, decimal_chars, decimal_text, join_nonempty, join_push, lowercase,
    lower, parse_u32, parsed_u32, signed_chars, signed_text, string_of, trim, trimmed,
};

verus! {

/// How an assigned card is written into the Card Number column.
#[derive(Clone, Copy, Debug, PartialEq, Eq, Structural)]
pub enum Format {
    /// The number Net2 shows.
    Decimal,
    /// The raw hex the reader gives.
    Hex,
}

impl Default for Format {
    fn default() -> (res: Self)
        ensures
            res == Format::Decimal,
    {
        Format::Decimal
    }
}

/// The text a format writes for a token.
pub open spec fn format_value(format: Format, token: TokenView) -> Seq<char> {
    match format {
        Format::Decimal => decimal_text(token.number as nat),
        Format::Hex => token.hex,
    }
}

impl Format {
    /// The text this format writes for a token.
    pub fn value(self, token: &Token) -> (res: String)
        ensures
            res@ == format_value(self, token@),
    {
        match self {
            Format::Decimal => string_of(decimal_chars(token.number as u64).as_slice()),
            Format::Hex => token.hex.clone(),
        }
    }
}

/// One person in the queue: their CSV fields and what happened to them.
pub struct Row {
    fields: Vec<String>,
    assigned: Option<Token>,
    skipped: bool,
    /// Net2 may or may not have saved this card; left out of the queue.
    unsure: bool,
    eligible: bool,
}

/// A row as the specifications see it.
#[verifier::ext_equal]
pub struct RowView {
    pub fields: Seq<Seq<char>>,
    pub assigned: Option<TokenView>,
    pub skipped: bool,
    pub unsure: bool,
    pub eligible: bool,
}

impl View for Row {
    type V = RowView;

    closed spec fn view(&self) -> RowView {
        RowView {
            fields: self.fields.deep_view(),
            assigned: match self.assigned {
                Some(t) => Some(t@),
                None => None,
            },
            skipped: self.skipped,
            unsure: self.unsure,
            eligible: self.eligible,
        }
    }
}

/// The queue: the CSV's header and rows, the people still to get a card, and
/// what the page shows about them.
pub struct Batch {
    headers: Vec<String>,
    rows: Vec<Row>,
    format: Format,
    running: bool,
    notice: String,
    dirty: bool,
    /// Net2 user IDs, one per row, for a queue loaded from Net2.
    net2_ids: Option<Vec<i32>>,
    /// The tap waiting for Net2 to accept it.
    sending: Option<(usize, Token)>,
    /// Give a card to people who already have one.
    replace: bool,
    card_column: usize,
    first_column: usize,
    surname_column: usize,
    history: Vec<usize>,
    last_seen: Option<String>,
    bom: bool,
}

/// A queue as the specifications see it.
#[verifier::ext_equal]
pub struct BatchView {
    pub headers: Seq<Seq<char>>,
    pub rows: Seq<RowView>,
    pub format: Format,
    pub running: bool,
    pub notice: Seq<char>,
    pub dirty: bool,
    pub net2_ids: Option<Seq<i32>>,
    pub sending: Option<(usize, TokenView)>,
    pub replace: bool,
    pub card_column: int,
    pub first_column: int,
    pub surname_column: int,
    pub history: Seq<usize>,
    pub last_seen: Option<Seq<char>>,
    pub bom: bool,
}

impl View for Batch {
    type V = BatchView;

    closed spec fn view(&self) -> BatchView {
        BatchView {
            headers: self.headers.deep_view(),
            rows: self.rows@.map_values(|r: Row| r@),
            format: self.format,
            running: self.running,
            notice: self.notice@,
            dirty: self.dirty,
            net2_ids: match self.net2_ids {
                Some(ids) => Some(ids@),
                None => None,
            },
            sending: match self.sending {
                Some((i, t)) => Some((i, t@)),
                None => None,
            },
            replace: self.replace,
            card_column: self.card_column as int,
            first_column: self.first_column as int,
            surname_column: self.surname_column as int,
            history: self.history@,
            last_seen: match self.last_seen {
                Some(s) => Some(s@),
                None => None,
            },
            bom: self.bom,
        }
    }
}

impl Row {
    /// The row's fields, one per column (more where the CSV has more).
    pub fn fields(&self) -> (res: &Vec<String>)
        ensures
            res.deep_view() == self@.fields,
    {
        &self.fields
    }

    /// The card assigned in this run, if any.
    pub fn assigned(&self) -> (res: &Option<Token>)
        ensures
            match *res {
                Some(t) => self@.assigned == Some(t@),
                None => self@.assigned is None,
            },
    {
        &self.assigned
    }

    /// Whether the person was skipped.
    pub fn skipped(&self) -> (res: bool)
        ensures
            res == self@.skipped,
    {
        self.skipped
    }

    /// Whether Net2 may or may not have saved this row's card.
    pub fn unsure(&self) -> (res: bool)
        ensures
            res == self@.unsure,
    {
        self.unsure
    }
}

impl Batch {
    /// The CSV's header fields.
    pub fn headers(&self) -> (res: &Vec<String>)
        ensures
            res.deep_view() == self@.headers,
    {
        &self.headers
    }

    /// The rows, one per person.
    pub fn rows(&self) -> (res: &Vec<Row>)
        ensures
            res@.map_values(|r: Row| r@) == self@.rows,
    {
        &self.rows
    }

    /// How new cards are written.
    pub fn format(&self) -> (res: Format)
        ensures
            res == self@.format,
    {
        self.format
    }

    /// Whether taps are being taken.
    pub fn running(&self) -> (res: bool)
        ensures
            res == self@.running,
    {
        self.running
    }

    /// What the page says about the queue.
    pub fn notice(&self) -> (res: &String)
        ensures
            res@ == self@.notice,
    {
        &self.notice
    }

    /// Whether there are changes not yet downloaded.
    pub fn dirty(&self) -> (res: bool)
        ensures
            res == self@.dirty,
    {
        self.dirty
    }

    /// The Net2 user IDs of a queue loaded from Net2.
    pub fn net2_ids(&self) -> (res: &Option<Vec<i32>>)
        ensures
            match *res {
                Some(ids) => self@.net2_ids == Some(ids@),
                None => self@.net2_ids is None,
            },
    {
        &self.net2_ids
    }

    /// Whether a tap is waiting for Net2 to accept it.
    pub fn is_sending(&self) -> (res: bool)
        ensures
            res == self@.sending is Some,
    {
        self.sending.is_some()
    }

    /// Whether people who already have a card get a new one.
    pub fn replace(&self) -> (res: bool)
        ensures
            res == self@.replace,
    {
        self.replace
    }

    /// Write cards in another format, those already assigned included; their
    /// tokens stay as they are. The page itself changes the format only
    /// through `choose_format`.
    pub fn set_format(&mut self, format: Format)
        ensures
            final(self)@ == (BatchView { format: format, ..old(self)@ }),
    {
        self.format = format;
    }
}

/// The shape every queue keeps: the three columns exist, every row has a
/// field for each header, at most 10,000 rows, and the history and the
/// staged tap point at rows.
pub open spec fn well_formed(b: BatchView) -> bool {
    &&& 0 <= b.card_column < b.headers.len()
    &&& 0 <= b.first_column < b.headers.len()
    &&& 0 <= b.surname_column < b.headers.len()
    &&& b.rows.len() <= 10_000
    &&& forall|i: int| 0 <= i < b.rows.len() ==> (#[trigger] b.rows[i]).fields.len() >= b.headers.len()
    &&& forall|k: int| 0 <= k < b.history.len() ==> (#[trigger] b.history[k]) < b.rows.len()
    &&& b.sending matches Some((i, _)) ==> i < b.rows.len()
}

/// Still to get a card: eligible, not assigned, skipped or unsure.
pub open spec fn waiting(r: RowView) -> bool {
    r.eligible && r.assigned is None && !r.skipped && !r.unsure
}

/// The first waiting row at or after `k`.
pub open spec fn first_waiting(rows: Seq<RowView>, k: int) -> Option<int>
    decreases rows.len() - k,
{
    if k < 0 || k >= rows.len() {
        None
    } else if waiting(rows[k]) {
        Some(k)
    } else {
        first_waiting(rows, k + 1)
    }
}

/// The first waiting row from `k` on is waiting, and none before it is.
pub proof fn lemma_first_waiting(rows: Seq<RowView>, k: int)
    requires
        0 <= k,
    ensures
        first_waiting(rows, k) matches Some(i) ==> k <= i < rows.len() && waiting(rows[i])
            && forall|j: int| k <= j < i ==> !waiting(#[trigger] rows[j]),
        first_waiting(rows, k) is None ==> forall|j: int| k <= j < rows.len() ==> !waiting(#[trigger] rows[j]),
    decreases rows.len() - k,
{
    if k < rows.len() && !waiting(rows[k]) {
        lemma_first_waiting(rows, k + 1);
    }
}

/// The person whose card comes next.
pub open spec fn current_of(b: BatchView) -> Option<int> {
    first_waiting(b.rows, 0)
}

/// What the Card Number column shows for a row: the assigned card in the
/// queue's format, or the value the CSV had.
pub open spec fn value_of(b: BatchView, i: int) -> Seq<char> {
    match b.rows[i].assigned {
        Some(t) => format_value(b.format, t),
        None => b.rows[i].fields[b.card_column],
    }
}

/// First name and surname, trimmed, the empty ones left out.
pub open spec fn name_of(b: BatchView, i: int) -> Seq<char> {
    join_nonempty(seq![trimmed(b.rows[i].fields[b.first_column]), trimmed(b.rows[i].fields[b.surname_column])])
}

/// What the status column says about a row.
pub open spec fn status_of(b: BatchView, i: int) -> Seq<char> {
    let row = b.rows[i];
    if row.assigned is Some && b.net2_ids is Some {
        "Saved to Net2"@
    } else if row.assigned is Some {
        "Assigned"@
    } else if row.unsure {
        "Check in Net2"@
    } else if row.skipped {
        "Skipped"@
    } else if !row.eligible {
        "Kept"@
    } else {
        "Waiting"@
    }
}

/// How many rows have a card assigned.
pub open spec fn assigned_count_of(rows: Seq<RowView>) -> nat
    decreases rows.len(),
{
    if rows.len() == 0 {
        0
    } else {
        assigned_count_of(rows.drop_last()) + if rows.last().assigned is Some { 1nat } else { 0nat }
    }
}

/// Whether the last step can be taken back: nothing is being saved, and it
/// was not a card that Net2 already has.
pub open spec fn can_undo_of(b: BatchView) -> bool {
    &&& b.sending is None
    &&& b.history.len() > 0
    &&& (b.net2_ids is None || b.rows[b.history.last() as int].assigned is None)
}


/// Without leading zeros.
pub open spec fn strip_zeros(s: Seq<char>) -> Seq<char>
    decreases s.len(),
{
    if s.len() > 0 && s[0] == '0' {
        strip_zeros(s.drop_first())
    } else {
        s
    }
}

/// Whether an existing Card Number holds the same card as a new value: the
/// same number in decimal, or the same hex ignoring case and leading zeros.
/// An empty field holds no card.
pub open spec fn same_number_of(left: Seq<char>, right: Seq<char>, format: Format) -> bool {
    let l = trimmed(left);
    if l.len() == 0 {
        false
    } else {
        match format {
            Format::Decimal => parsed_u32(l) == parsed_u32(right),
            Format::Hex => lowercase(strip_zeros(l)) == lowercase(strip_zeros(right)),
        }
    }
}

/// Whether row `k` already holds the card `t` (whose value is `value`).
pub open spec fn holds_card(b: BatchView, k: int, t: TokenView, value: Seq<char>) -> bool {
    ||| b.rows[k].assigned matches Some(a) && a.hex == t.hex
    ||| same_number_of(value_of(b, k), value, b.format)
}

/// The first row at or after `k`, other than `index`, that already holds the
/// card.
pub open spec fn duplicate_from(b: BatchView, index: int, t: TokenView, value: Seq<char>, k: int) -> Option<int>
    decreases b.rows.len() - k,
{
    if k < 0 || k >= b.rows.len() {
        None
    } else if k != index && holds_card(b, k, t, value) {
        Some(k)
    } else {
        duplicate_from(b, index, t, value, k + 1)
    }
}

/// A row with a card.
pub open spec fn with_card(r: RowView, t: TokenView) -> RowView {
    RowView { assigned: Some(t), ..r }
}

/// Give row `index` the card, record the step, and say so. The run stops
/// when nobody is left.
pub open spec fn assign_of(b: BatchView, index: int, t: TokenView) -> BatchView {
    let b1 = BatchView {
        rows: b.rows.update(index, with_card(b.rows[index], t)),
        history: b.history.push(index as usize),
        notice: (if b.net2_ids is Some { "Saved "@ } else { "Assigned "@ }) + format_value(b.format, t)
            + " to "@ + name_of(b, index) + ". Remove this card before the next tap."@,
        ..b
    };
    if current_of(b1) is None {
        BatchView { running: false, ..b1 }
    } else {
        b1
    }
}

/// Start or resume: running while someone is waiting. A card already on the
/// reader is remembered, so it is not taken as a tap.
pub open spec fn resume_of(b: BatchView, card: Option<TokenView>) -> BatchView {
    BatchView {
        running: current_of(b) is Some,
        last_seen: match card {
            Some(t) => Some(t.hex),
            None => None,
        },
        notice: if card is Some { "Remove the card already on the reader before starting."@ } else { Seq::empty() },
        ..b
    }
}

/// A change in what is on the reader. Repeated reports of the same held card
/// change nothing; a new card goes to the next person unless some other row
/// already holds it. A direct queue stages it for Net2 instead of assigning.
pub open spec fn observe_of(b: BatchView, card: Option<TokenView>) -> BatchView {
    let identity = match card {
        Some(t) => Some(t.hex),
        None => None,
    };
    if identity == b.last_seen {
        b
    } else {
        let b1 = BatchView { last_seen: identity, ..b };
        if !b.running || b.sending is Some {
            b1
        } else {
            match (card, current_of(b)) {
                (Some(t), Some(index)) => {
                    let value = format_value(b.format, t);
                    match duplicate_from(b, index, t, value, 0) {
                        Some(other) => BatchView {
                            notice: "Card already belongs to "@ + name_of(b, other) + " (row "@
                                + decimal_text((other + 2) as nat) + "). Use a different card."@,
                            ..b1
                        },
                        None => if b.net2_ids is Some {
                            BatchView {
                                notice: "Saving "@ + value + " to "@ + name_of(b, index) + " in Net2\u{2026}"@,
                                sending: Some((index as usize, t)),
                                ..b1
                            }
                        } else {
                            BatchView { dirty: true, ..assign_of(b1, index, t) }
                        },
                    }
                },
                _ => b1,
            }
        }
    }
}

/// Net2 accepted the staged card: it is assigned now.
pub open spec fn saved_of(b: BatchView) -> BatchView {
    match b.sending {
        Some((i, t)) => assign_of(BatchView { sending: None, ..b }, i as int, t),
        None => b,
    }
}

/// Net2 did not take the staged card. The person stays next unless they
/// already had a card (`kept`) or the outcome is unknown (`unsure`).
pub open spec fn refused_of(b: BatchView, message: Seq<char>, kept: bool, unsure: bool, stop: bool) -> BatchView {
    match b.sending {
        None => b,
        Some((i, _)) => {
            let row = b.rows[i as int];
            let b1 = BatchView {
                rows: b.rows.update(i as int, RowView { eligible: row.eligible && !kept, unsure: unsure, ..row }),
                sending: None,
                ..b
            };
            BatchView { running: b.running && !stop && current_of(b1) is Some, notice: message, ..b1 }
        },
    }
}

/// Skip the next person; their Card Number stays as it was.
pub open spec fn skip_of(b: BatchView) -> BatchView {
    if b.sending is Some {
        b
    } else {
        match current_of(b) {
            None => b,
            Some(i) => {
                let b1 = BatchView {
                    rows: b.rows.update(i, RowView { skipped: true, ..b.rows[i] }),
                    history: b.history.push(i as usize),
                    dirty: b.dirty || b.net2_ids is None,
                    notice: "Skipped "@ + name_of(b, i) + ". Their original Card Number is unchanged."@,
                    ..b
                };
                if current_of(b1) is None {
                    BatchView { running: false, ..b1 }
                } else {
                    b1
                }
            },
        }
    }
}

/// Take back the last step: the row goes back to waiting, and the run pauses.
pub open spec fn undo_of(b: BatchView) -> BatchView {
    if !can_undo_of(b) {
        b
    } else {
        let i = b.history.last() as int;
        BatchView {
            rows: b.rows.update(i, RowView { assigned: None, skipped: false, ..b.rows[i] }),
            history: b.history.drop_last(),
            running: false,
            dirty: b.dirty || b.net2_ids is None,
            notice: "Returned to "@ + name_of(b, i) + ". Press Start / resume when ready."@,
            ..b
        }
    }
}

/// The Net2 user the staged card is for: their ID, name and the value.
pub open spec fn sending_to_of(b: BatchView) -> Option<(i32, Seq<char>, Seq<char>)> {
    match (b.sending, b.net2_ids) {
        (Some((i, t)), Some(ids)) => if i < ids.len() {
            Some((ids[i as int], name_of(b, i as int), format_value(b.format, t)))
        } else {
            None
        },
        _ => None,
    }
}

/// Whether a header names a column: trimmed, and ignoring ASCII case.
pub open spec fn header_matches(h: Seq<char>, name: Seq<char>) -> bool {
    lowercase(trimmed(h)) == lowercase(name)
}

/// How many headers name the column.
pub open spec fn match_count(headers: Seq<Seq<char>>, name: Seq<char>) -> nat
    decreases headers.len(),
{
    if headers.len() == 0 {
        0
    } else {
        match_count(headers.drop_last(), name) + if header_matches(headers.last(), name) { 1nat } else { 0nat }
    }
}

/// The first header that names the column.
pub open spec fn first_match(headers: Seq<Seq<char>>, name: Seq<char>) -> Option<int>
    decreases headers.len(),
{
    if headers.len() == 0 {
        None
    } else {
        match first_match(headers.drop_last(), name) {
            Some(i) => Some(i),
            None => if header_matches(headers.last(), name) { Some(headers.len() - 1) } else { None },
        }
    }
}

/// The column a name picks, when exactly one header names it.
pub open spec fn column_of(headers: Seq<Seq<char>>, name: Seq<char>) -> Option<int> {
    if match_count(headers, name) == 1 { first_match(headers, name) } else { None }
}

/// Why a header does not do: the column is missing or named twice.
pub open spec fn column_error(name: Seq<char>) -> Seq<char> {
    "The CSV must contain exactly one "@ + name + " column."@
}

/// A record that does not line up with the header: short, or with a value
/// past the last header (Net2's sample has a trailing empty field, so empty
/// extras are fine).
pub open spec fn misaligned(header_len: int, record: Seq<Seq<char>>) -> bool {
    record.len() < header_len || exists|j: int| header_len <= j < record.len() && #[trigger] record[j].len() > 0
}

/// The queue row for record `k`, or why it is refused.
pub open spec fn record_row(
    header_len: int,
    first: int,
    surname: int,
    card: int,
    record: Seq<Seq<char>>,
    replace: bool,
    k: int,
) -> Result<RowView, Seq<char>> {
    if misaligned(header_len, record) {
        Err("CSV row "@ + decimal_text((k + 2) as nat) + " does not match the header columns."@)
    } else if trimmed(record[first]).len() == 0 && trimmed(record[surname]).len() == 0 {
        Err("CSV row "@ + decimal_text((k + 2) as nat) + " has no first name or surname."@)
    } else {
        Ok(RowView {
            fields: record,
            assigned: None,
            skipped: false,
            unsure: false,
            eligible: replace || trimmed(record[card]).len() == 0,
        })
    }
}

/// The rows for the records from `k` on, or the first reason to refuse them.
/// At most 10,000 people.
pub open spec fn table_rows(
    header_len: int,
    first: int,
    surname: int,
    card: int,
    records: Seq<Result<Seq<Seq<char>>, Seq<char>>>,
    replace: bool,
    k: int,
) -> Result<Seq<RowView>, Seq<char>>
    decreases records.len() - k,
{
    if k < 0 || k >= records.len() {
        Ok(Seq::empty())
    } else if k == 10_000 {
        Err("Please split this CSV into batches of at most 10,000 people."@)
    } else {
        match records[k] {
            Err(e) => Err("Could not read CSV: "@ + e),
            Ok(record) => match record_row(header_len, first, surname, card, record, replace, k) {
                Err(e) => Err(e),
                Ok(row) => match table_rows(header_len, first, surname, card, records, replace, k + 1) {
                    Err(e) => Err(e),
                    Ok(rest) => Ok(seq![row] + rest),
                },
            },
        }
    }
}

/// The queue a CSV table makes: the header must name each of First name,
/// Surname and Card Number exactly once, and every record must line up
/// with it and name someone.
pub open spec fn table_batch(
    header: Result<Seq<Seq<char>>, Seq<char>>,
    records: Seq<Result<Seq<Seq<char>>, Seq<char>>>,
    replace: bool,
    format: Format,
    bom: bool,
) -> Result<BatchView, Seq<char>> {
    match header {
        Err(e) => Err(e),
        Ok(hs) => match column_of(hs, "First name"@) {
            None => Err(column_error("First name"@)),
            Some(fc) => match column_of(hs, "Surname"@) {
                None => Err(column_error("Surname"@)),
                Some(sc) => match column_of(hs, "Card Number"@) {
                    None => Err(column_error("Card Number"@)),
                    Some(cc) => match table_rows(hs.len() as int, fc, sc, cc, records, replace, 0) {
                        Err(e) => Err(e),
                        Ok(rows) => if rows.len() == 0 {
                            Err("The CSV has headers but no people to assign cards to."@)
                        } else {
                            Ok(BatchView {
                                headers: hs,
                                rows: rows,
                                format: format,
                                running: false,
                                notice: Seq::empty(),
                                dirty: false,
                                net2_ids: None,
                                sending: None,
                                replace: replace,
                                card_column: cc,
                                first_column: fc,
                                surname_column: sc,
                                history: Seq::empty(),
                                last_seen: None,
                                bom: bom,
                            })
                        },
                    },
                },
            },
        },
    }
}

/// Without leading byte order marks.
pub open spec fn without_boms(s: Seq<char>) -> Seq<char>
    decreases s.len(),
{
    if s.len() > 0 && s[0] == '\u{feff}' {
        without_boms(s.drop_first())
    } else {
        s
    }
}

/// Whether the file starts with the UTF-8 byte order mark.
pub open spec fn has_bom(bytes: Seq<u8>) -> bool {
    bytes.len() >= 3 && bytes[0] == 0xEFu8 && bytes[1] == 0xBBu8 && bytes[2] == 0xBFu8
}

/// The queue a file makes: it must be UTF-8; any byte order mark is set
/// aside (and written back on export); the rest is read as CSV.
pub open spec fn parse_of(bytes: Seq<u8>, replace: bool, format: Format) -> Result<BatchView, Seq<char>> {
    if !valid_utf8(bytes) {
        Err("Save the spreadsheet as CSV UTF-8, then choose it again."@)
    } else {
        let read = csv_read(without_boms(decode_utf8(bytes)));
        table_batch(read.0, read.1, replace, format, has_bom(bytes))
    }
}

/// The records an export writes: the header, then each row with its Card
/// Number column showing its value. No other field changes.
pub open spec fn export_records(b: BatchView) -> Seq<Seq<Seq<char>>> {
    seq![b.headers] + Seq::new(b.rows.len(), |i: int| b.rows[i].fields.update(b.card_column, value_of(b, i)))
}

/// The bytes of an export: the records as CSV with CRLF line ends, behind the
/// byte order mark when the loaded file had one.
pub open spec fn export_of(b: BatchView) -> Result<Seq<u8>, Seq<char>> {
    match csv_written_crlf(export_records(b)) {
        Err(e) => Err(e),
        Ok(bytes) => Ok(if b.bom { seq![0xEFu8, 0xBBu8, 0xBFu8] + bytes } else { bytes }),
    }
}

impl Batch {
    /// The shape every queue keeps.
    pub open spec fn wf(&self) -> bool {
        well_formed(self@)
    }

    proof fn lemma_row_view(&self, i: int)
        requires
            0 <= i < self.rows@.len(),
        ensures
            self@.rows[i] == self.rows@[i]@,
            self@.rows.len() == self.rows@.len(),
            self@.rows[i].fields.len() == self.rows@[i].fields@.len(),
            forall|j: int| 0 <= j < self.rows@[i].fields@.len() ==> #[trigger] self@.rows[i].fields[j] == self.rows@[i].fields@[j]@,
    {
    }

    /// First name and surname, trimmed, the empty ones left out.
    pub fn name(&self, index: usize) -> (res: String)
        requires
            self.wf(),
            index < self@.rows.len(),
        ensures
            res@ == name_of(self@, index as int),
    {
        proof { self.lemma_row_view(index as int); }
        let row = &self.rows[index];
        let first = trim(chars_of(row.fields[self.first_column].as_str()).as_slice());
        let surname = trim(chars_of(row.fields[self.surname_column].as_str()).as_slice());
        let mut out: Vec<char> = Vec::new();
        let ghost parts = seq![first@, surname@];
        proof {
            assert(first@ == trimmed(self@.rows[index as int].fields[self@.first_column]));
            assert(surname@ == trimmed(self@.rows[index as int].fields[self@.surname_column]));
            assert(seq![first@].drop_last() =~= Seq::<Seq<char>>::empty());
            assert(join_nonempty(Seq::<Seq<char>>::empty()) =~= Seq::<char>::empty());
        }
        join_push(&mut out, first.as_slice());
        proof {
            assert(out@ == join_nonempty(seq![first@]));
            assert(parts.drop_last() =~= seq![first@]);
        }
        join_push(&mut out, surname.as_slice());
        proof {
            assert(out@ == join_nonempty(parts));
        }
        string_of(out.as_slice())
    }

    /// The person whose card comes next.
    pub fn current(&self) -> (res: Option<usize>)
        ensures
            match current_of(self@) {
                Some(i) => res == Some(i as usize),
                None => res is None,
            },
            res matches Some(i) ==> i < self@.rows.len(),
            current_of(self@) matches Some(i) ==> 0 <= i < self@.rows.len(),
    {
        proof { lemma_first_waiting(self@.rows, 0); }
        let n = self.rows.len();
        let mut k: usize = 0;
        while k < n
            invariant
                k <= n == self.rows@.len(),
                self@.rows.len() == n,
                current_of(self@) == first_waiting(self@.rows, k as int),
            decreases n - k,
        {
            let row = &self.rows[k];
            proof { self.lemma_row_view(k as int); }
            if row.eligible && row.assigned.is_none() && !row.skipped && !row.unsure {
                return Some(k);
            }
            k = k + 1;
        }
        None
    }

    /// What the Card Number column shows for a row.
    pub fn value(&self, index: usize) -> (res: String)
        requires
            self.wf(),
            index < self@.rows.len(),
        ensures
            res@ == value_of(self@, index as int),
    {
        proof { self.lemma_row_view(index as int); }
        let row = &self.rows[index];
        match &row.assigned {
            Some(t) => self.format.value(t),
            None => row.fields[self.card_column].clone(),
        }
    }

    /// What the status column says about a row.
    pub fn row_status(&self, index: usize) -> (res: &'static str)
        requires
            index < self@.rows.len(),
        ensures
            res@ == status_of(self@, index as int),
    {
        proof { self.lemma_row_view(index as int); }
        let row = &self.rows[index];
        if row.assigned.is_some() && self.net2_ids.is_some() {
            "Saved to Net2"
        } else if row.assigned.is_some() {
            "Assigned"
        } else if row.unsure {
            "Check in Net2"
        } else if row.skipped {
            "Skipped"
        } else if !row.eligible {
            "Kept"
        } else {
            "Waiting"
        }
    }

    /// How many rows have a card assigned.
    pub fn assigned_count(&self) -> (res: usize)
        ensures
            res == assigned_count_of(self@.rows),
    {
        let n = self.rows.len();
        let mut count: usize = 0;
        let mut k: usize = 0;
        while k < n
            invariant
                k <= n == self.rows@.len(),
                self@.rows.len() == n,
                count == assigned_count_of(self@.rows.take(k as int)),
                count <= k,
            decreases n - k,
        {
            proof {
                self.lemma_row_view(k as int);
                assert(self@.rows.take(k + 1).drop_last() =~= self@.rows.take(k as int));
            }
            if self.rows[k].assigned.is_some() {
                count = count + 1;
            }
            k = k + 1;
        }
        assert(self@.rows.take(n as int) =~= self@.rows);
        count
    }

    /// A card saved to Net2 can only be removed in Net2.
    pub fn can_undo(&self) -> (res: bool)
        requires
            self.wf(),
        ensures
            res == can_undo_of(self@),
    {
        if self.sending.is_some() || self.history.len() == 0 {
            return false;
        }
        let index = self.history[self.history.len() - 1];
        proof {
            assert(self@.history[self@.history.len() - 1] == index);
            self.lemma_row_view(index as int);
        }
        self.net2_ids.is_none() || self.rows[index].assigned.is_none()
    }
}

impl Batch {
    proof fn lemma_view_rows(&self)
        ensures
            self@.rows.len() == self.rows@.len(),
            forall|i: int| 0 <= i < self.rows@.len() ==> #[trigger] self@.rows[i] == self.rows@[i]@,
    {
    }

    /// Give row `index` the card, record the step, and say so.
    fn assign(&mut self, index: usize, token: Token)
        requires
            old(self).wf(),
            index < old(self)@.rows.len(),
        ensures
            final(self).wf(),
            final(self)@ == assign_of(old(self)@, index as int, token@),
    {
        let ghost b = self@;
        let value = self.format.value(&token);
        let name = self.name(index);
        let ghost tv = token@;
        self.rows[index].assigned = Some(token);
        self.history.push(index);
        let mut msg: Vec<char> = Vec::new();
        if self.net2_ids.is_some() {
            append_str(&mut msg, "Saved ");
        } else {
            append_str(&mut msg, "Assigned ");
        }
        append_chars(&mut msg, chars_of(value.as_str()).as_slice());
        append_str(&mut msg, " to ");
        append_chars(&mut msg, chars_of(name.as_str()).as_slice());
        append_str(&mut msg, ". Remove this card before the next tap.");
        self.notice = string_of(msg.as_slice());
        proof {
            assert(self@.rows =~= b.rows.update(index as int, with_card(b.rows[index as int], tv)));
            assert(self@.history =~= b.history.push(index));
        }
        let ghost b1 = self@;
        assert(b1 =~= BatchView {
            rows: b.rows.update(index as int, with_card(b.rows[index as int], tv)),
            history: b.history.push(index as usize),
            notice: (if b.net2_ids is Some { "Saved "@ } else { "Assigned "@ }) + format_value(b.format, tv)
                + " to "@ + name_of(b, index as int) + ". Remove this card before the next tap."@,
            ..b
        });
        if self.current().is_none() {
            self.running = false;
        }
        assert(self@ =~= assign_of(b, index as int, tv));
    }
}

/// Without leading zeros.
fn strip_zeros_chars(s: &[char]) -> (res: Vec<char>)
    ensures
        res@ == strip_zeros(s@),
{
    let n = s.len();
    let mut a: usize = 0;
    assert(s@.subrange(0, n as int) =~= s@);
    while a < n && s[a] == '0'
        invariant
            a <= n == s@.len(),
            strip_zeros(s@) == strip_zeros(s@.subrange(a as int, n as int)),
        decreases n - a,
    {
        assert(s@.subrange(a as int, n as int).drop_first() =~= s@.subrange(a + 1, n as int));
        a = a + 1;
    }
    let rest = &s[a..n];
    let mut out: Vec<char> = Vec::new();
    append_chars(&mut out, rest);
    out
}

/// Whether an existing Card Number holds the same card as a new value: the
/// same number in decimal, or the same hex ignoring case and leading zeros.
#[verifier::loop_isolation(false)]
pub fn same_number(left: &str, right: &str, format: Format) -> (res: bool)
    ensures
        res == same_number_of(left@, right@, format),
{
    let l = trim(chars_of(left).as_slice());
    if l.len() == 0 {
        return false;
    }
    let r = chars_of(right);
    match format {
        Format::Decimal => {
            let a = parse_u32(l.as_slice());
            let b = parse_u32(r.as_slice());
            match (a, b) {
                (None, None) => true,
                (Some(x), Some(y)) => x == y,
                _ => false,
            }
        }
        Format::Hex => {
            let a = lower(strip_zeros_chars(l.as_slice()).as_slice());
            let b = lower(strip_zeros_chars(r.as_slice()).as_slice());
            if a.len() != b.len() {
                assert(a@ != b@);
                return false;
            }
            let mut k: usize = 0;
            while k < a.len()
                invariant
                    k <= a@.len() == b@.len(),
                    forall|j: int| 0 <= j < k ==> a@[j] == b@[j],
                decreases a@.len() - k,
            {
                if a[k] != b[k] {
                    assert(a@[k as int] != b@[k as int]);
                    assert(a@ != b@);
                    return false;
                }
                k = k + 1;
            }
            assert(a@ =~= b@);
            true
        }
    }
}

impl Batch {
    /// Start or resume. A card already on the reader is remembered, so it is
    /// not taken as a tap.
    pub fn resume(&mut self, card: Option<&Token>)
        requires
            old(self).wf(),
        ensures
            final(self).wf(),
            final(self)@ == resume_of(old(self)@, match card {
                Some(t) => Some(t@),
                None => None,
            }),
    {
        let ghost b = self@;
        self.running = self.current().is_some();
        self.last_seen = match card {
            Some(t) => Some(t.hex.clone()),
            None => None,
        };
        self.notice = match card {
            Some(_) => owned("Remove the card already on the reader before starting."),
            None => String::new(),
        };
        assert(self@ =~= resume_of(b, match card {
            Some(t) => Some(t@),
            None => None,
        }));
    }

    /// Observe changes, never repeated polling reports of the same held card.
    #[verifier::loop_isolation(false)]
    pub fn observe(&mut self, card: Option<&Token>)
        requires
            old(self).wf(),
        ensures
            final(self).wf(),
            final(self)@ == observe_of(old(self)@, match card {
                Some(t) => Some(t@),
                None => None,
            }),
    {
        let ghost b = self@;
        let ghost cv = match card {
            Some(t) => Some(t@),
            None => None,
        };
        let identity: Option<String> = match card {
            Some(t) => Some(t.hex.clone()),
            None => None,
        };
        let same = match (&identity, &self.last_seen) {
            (None, None) => true,
            (Some(x), Some(y)) => *x == *y,
            _ => false,
        };
        if same {
            return;
        }
        self.last_seen = identity;
        let ghost b1 = self@;
        assert(b1 =~= BatchView { last_seen: match cv { Some(t) => Some(t.hex), None => None }, ..b });
        if !self.running || self.sending.is_some() {
            return;
        }
        let token = match card {
            Some(t) => t,
            None => return,
        };
        let index = match self.current() {
            Some(i) => i,
            None => return,
        };
        assert(current_of(b1) == current_of(b)) by {
            assert(b1.rows == b.rows);
        }
        let value = self.format.value(token);
        let n = self.rows.len();
        let mut other: usize = 0;
        let mut found = false;
        proof { self.lemma_view_rows(); }
        while other < n
            invariant
                other <= n == self.rows@.len(),
                self@ == b1,
                well_formed(b1),
                b1.rows == b.rows,
                b1.format == b.format,
                b1.card_column == b.card_column,
                index < n,
                value@ == format_value(b.format, token@),
                !found ==> duplicate_from(b, index as int, token@, value@, 0)
                    == duplicate_from(b, index as int, token@, value@, other as int),
                found ==> other < n && duplicate_from(b, index as int, token@, value@, 0) == Some(other as int),
            decreases n - other, if found { 0int } else { 1int },
        {
            if found {
                break;
            }
            if other != index {
                proof { self.lemma_view_rows(); }
                let row = &self.rows[other];
                let by_hex = match &row.assigned {
                    Some(t) => t.hex == token.hex,
                    None => false,
                };
                let held = by_hex || same_number(self.value(other).as_str(), value.as_str(), self.format);
                assert(held == holds_card(b, other as int, token@, value@));
                if held {
                    found = true;
                } else {
                    other = other + 1;
                }
            } else {
                other = other + 1;
            }
        }
        if found {
            let mut msg: Vec<char> = Vec::new();
            append_str(&mut msg, "Card already belongs to ");
            append_chars(&mut msg, chars_of(self.name(other).as_str()).as_slice());
            append_str(&mut msg, " (row ");
            append_chars(&mut msg, decimal_chars((other + 2) as u64).as_slice());
            append_str(&mut msg, "). Use a different card.");
            self.notice = string_of(msg.as_slice());
            assert(self@ =~= observe_of(b, cv));
            return;
        }
        if self.net2_ids.is_some() {
            let mut msg: Vec<char> = Vec::new();
            append_str(&mut msg, "Saving ");
            append_chars(&mut msg, chars_of(value.as_str()).as_slice());
            append_str(&mut msg, " to ");
            append_chars(&mut msg, chars_of(self.name(index).as_str()).as_slice());
            append_str(&mut msg, " in Net2\u{2026}");
            self.notice = string_of(msg.as_slice());
            self.sending = Some((index, token.clone()));
            assert(self@ =~= observe_of(b, cv));
            return;
        }
        self.assign(index, token.clone());
        self.dirty = true;
        assert(self@ =~= observe_of(b, cv));
    }

    /// Net2 accepted the staged card.
    pub fn saved(&mut self)
        requires
            old(self).wf(),
        ensures
            final(self).wf(),
            final(self)@ == saved_of(old(self)@),
    {
        let ghost b = self@;
        let staged = self.sending.take();
        match staged {
            Some((index, token)) => {
                assert(self@ =~= BatchView { sending: None, ..b });
                self.assign(index, token);
            }
            None => {}
        }
    }

    /// Net2 did not take the staged card. The person stays next unless they
    /// already had a card (`kept`) or the outcome is unknown (`unsure`).
    pub fn refused(&mut self, message: String, kept: bool, unsure: bool, stop: bool)
        requires
            old(self).wf(),
        ensures
            final(self).wf(),
            final(self)@ == refused_of(old(self)@, message@, kept, unsure, stop),
    {
        let ghost b = self@;
        let index = match self.sending.take() {
            Some((index, _)) => index,
            None => return,
        };
        self.rows[index].eligible = self.rows[index].eligible && !kept;
        self.rows[index].unsure = unsure;
        let still = self.current().is_some();
        self.running = self.running && !stop && still;
        self.notice = message;
        proof {
            let row = b.rows[index as int];
            let b1 = BatchView {
                rows: b.rows.update(index as int, RowView { eligible: row.eligible && !kept, unsure: unsure, ..row }),
                sending: None,
                ..b
            };
            assert(self@.rows =~= b1.rows);
        }
        assert(self@ =~= refused_of(b, message@, kept, unsure, stop));
    }

    /// The Net2 user the staged card is for.
    pub fn sending_to(&self) -> (res: Option<(i32, String, String)>)
        requires
            self.wf(),
        ensures
            match sending_to_of(self@) {
                None => res is None,
                Some((id, name, value)) => res matches Some(r) && r.0 == id && r.1@ == name && r.2@ == value,
            },
    {
        let (index, token) = match &self.sending {
            Some((i, t)) => (*i, t),
            None => return None,
        };
        let ids = match &self.net2_ids {
            Some(ids) => ids,
            None => return None,
        };
        if index >= ids.len() {
            return None;
        }
        let id = ids[index];
        Some((id, self.name(index), self.format.value(token)))
    }

    /// Skip the next person. Their Card Number stays as it was.
    pub fn skip(&mut self)
        requires
            old(self).wf(),
        ensures
            final(self).wf(),
            final(self)@ == skip_of(old(self)@),
    {
        let ghost b = self@;
        if self.sending.is_some() {
            return;
        }
        let index = match self.current() {
            Some(i) => i,
            None => return,
        };
        let name = self.name(index);
        self.rows[index].skipped = true;
        self.history.push(index);
        self.dirty = self.dirty || self.net2_ids.is_none();
        let mut msg: Vec<char> = Vec::new();
        append_str(&mut msg, "Skipped ");
        append_chars(&mut msg, chars_of(name.as_str()).as_slice());
        append_str(&mut msg, ". Their original Card Number is unchanged.");
        self.notice = string_of(msg.as_slice());
        let ghost b1 = BatchView {
            rows: b.rows.update(index as int, RowView { skipped: true, ..b.rows[index as int] }),
            history: b.history.push(index as usize),
            dirty: b.dirty || b.net2_ids is None,
            notice: "Skipped "@ + name_of(b, index as int) + ". Their original Card Number is unchanged."@,
            ..b
        };
        proof {
            assert(self@.rows =~= b1.rows);
            assert(self@.history =~= b1.history);
            assert(self@.notice =~= b1.notice);
            assert(self@ =~= b1);
        }
        if self.current().is_none() {
            self.running = false;
        }
        assert(self@ =~= skip_of(b));
    }

    /// Take back the last step: the row goes back to waiting, and the run
    /// pauses. A card saved to Net2 is not taken back.
    pub fn undo(&mut self)
        requires
            old(self).wf(),
        ensures
            final(self).wf(),
            final(self)@ == undo_of(old(self)@),
    {
        let ghost b = self@;
        if !self.can_undo() {
            return;
        }
        let index = match self.history.pop() {
            Some(i) => i,
            None => return,
        };
        assert(index == b.history.last());
        let name = self.name(index);
        self.rows[index].assigned = None;
        self.rows[index].skipped = false;
        self.running = false;
        self.dirty = self.dirty || self.net2_ids.is_none();
        let mut msg: Vec<char> = Vec::new();
        append_str(&mut msg, "Returned to ");
        append_chars(&mut msg, chars_of(name.as_str()).as_slice());
        append_str(&mut msg, ". Press Start / resume when ready.");
        self.notice = string_of(msg.as_slice());
        proof {
            assert(self@.rows =~= b.rows.update(index as int, RowView { assigned: None, skipped: false, ..b.rows[index as int] }));
            assert(self@.history =~= b.history.drop_last());
        }
        assert(self@ =~= undo_of(b));
    }
}

/// What the `csv` crate reads from a text with a flexible reader (records
/// may differ in length): the header record, then every later record, each
/// as its fields or its error's message.
pub uninterp spec fn csv_read(text: Seq<char>) -> (Result<Seq<Seq<char>>, Seq<char>>, Seq<Result<Seq<Seq<char>>, Seq<char>>>);

/// The bytes the `csv` crate's default writer produces for these records,
/// or its error's message.
pub uninterp spec fn csv_written(records: Seq<Seq<Seq<char>>>) -> Result<Seq<u8>, Seq<char>>;

/// The bytes the `csv` crate writes for these records with a flexible
/// writer that ends each record with CRLF, or its error's message.
pub uninterp spec fn csv_written_crlf(records: Seq<Seq<Seq<char>>>) -> Result<Seq<u8>, Seq<char>>;

/// A read record as the specifications see it.
pub open spec fn fields_result(r: Result<Vec<String>, String>) -> Result<Seq<Seq<char>>, Seq<char>> {
    match r {
        Ok(v) => Ok(v.deep_view()),
        Err(e) => Err(e@),
    }
}

/// Read records as the specifications see them.
pub open spec fn records_view(records: Seq<Result<Vec<String>, String>>) -> Seq<Result<Seq<Seq<char>>, Seq<char>>> {
    records.map_values(|r: Result<Vec<String>, String>| fields_result(r))
}

/// Written bytes, or why they could not be written, as the specifications see them.
pub open spec fn bytes_result(r: Result<Vec<u8>, String>) -> Result<Seq<u8>, Seq<char>> {
    match r {
        Ok(v) => Ok(v@),
        Err(e) => Err(e@),
    }
}

/// Reads CSV text with `csv::ReaderBuilder` (flexible, first record as
/// header) and hands out the header and each record as plain strings. The
/// contract only names the result: it is what the crate reads.
#[verifier::external_body]
fn read_csv(text: &str) -> (res: (Result<Vec<String>, String>, Vec<Result<Vec<String>, String>>))
    ensures
        csv_read(text@) == (fields_result(res.0), records_view(res.1@)),
{
    let mut reader = csv::ReaderBuilder::new().flexible(true).from_reader(text.as_bytes());
    let header = reader.headers().map(|h| h.iter().map(str::to_owned).collect()).map_err(|e| e.to_string());
    let records = reader.records().map(|r| r.map(|r| r.iter().map(str::to_owned).collect()).map_err(|e| e.to_string())).collect();
    (header, records)
}

/// Writes records with `csv::Writer::from_writer`, the crate's default
/// configuration. The contract only names the result.
#[verifier::external_body]
fn write_csv(records: &Vec<Vec<String>>) -> (res: Result<Vec<u8>, String>)
    ensures
        bytes_result(res) == csv_written(records.deep_view()),
{
    let mut writer = csv::Writer::from_writer(Vec::new());
    for record in records {
        writer.write_record(record).map_err(|e| e.to_string())?;
    }
    writer.into_inner().map_err(|e| e.to_string())
}

/// Writes records with `csv::WriterBuilder`, flexible and with CRLF record
/// ends. The contract only names the result.
#[verifier::external_body]
fn write_csv_crlf(records: &Vec<Vec<String>>) -> (res: Result<Vec<u8>, String>)
    ensures
        bytes_result(res) == csv_written_crlf(records.deep_view()),
{
    let mut writer = csv::WriterBuilder::new().flexible(true).terminator(csv::Terminator::CRLF).from_writer(Vec::new());
    for record in records {
        writer.write_record(record).map_err(|e| e.to_string())?;
    }
    writer.into_inner().map_err(|e| e.to_string())
}

/// `std::str::from_utf8`: the text, exactly when the bytes are valid UTF-8.
#[verifier::external_body]
fn utf8_text(bytes: &[u8]) -> (res: Option<&str>)
    ensures
        res is Some <==> valid_utf8(bytes@),
        res matches Some(t) ==> t@ == decode_utf8(bytes@),
{
    std::str::from_utf8(bytes).ok()
}

/// Rows from a result, behind the rows already made.
pub open spec fn after_rows(done: Seq<RowView>, rest: Result<Seq<RowView>, Seq<char>>) -> Result<Seq<RowView>, Seq<char>> {
    match rest {
        Ok(rows) => Ok(done + rows),
        Err(e) => Err(e),
    }
}

/// The column a name picks, or the message saying it must be there once.
fn column(headers: &Vec<String>, name: &str) -> (res: Result<usize, String>)
    ensures
        match column_of(headers.deep_view(), name@) {
            Some(i) => res == Ok::<usize, String>(i as usize) && 0 <= i < headers@.len(),
            None => res matches Err(e) && e@ == column_error(name@),
        },
{
    let target = lower(chars_of(name).as_slice());
    let n = headers.len();
    let mut count: usize = 0;
    let mut first: Option<usize> = None;
    let mut k: usize = 0;
    while k < n
        invariant
            k <= n == headers@.len(),
            target@ == lowercase(name@),
            count <= k,
            count == match_count(headers.deep_view().take(k as int), name@),
            match first_match(headers.deep_view().take(k as int), name@) {
                Some(i) => first == Some(i as usize) && 0 <= i < k,
                None => first is None,
            },
        decreases n - k,
    {
        let h = lower(trim(chars_of(headers[k].as_str()).as_slice()).as_slice());
        let hit = crate::text::chars_equal(h.as_slice(), target.as_slice());
        proof {
            assert(headers.deep_view().take(k + 1).drop_last() =~= headers.deep_view().take(k as int));
            assert(headers.deep_view().take(k + 1).last() == headers@[k as int]@);
        }
        if hit {
            count = count + 1;
            if first.is_none() {
                first = Some(k);
            }
        }
        k = k + 1;
    }
    assert(headers.deep_view().take(n as int) =~= headers.deep_view());
    if count == 1 {
        match first {
            Some(i) => Ok(i),
            None => Err(string_of(column_message(name).as_slice())),
        }
    } else {
        Err(string_of(column_message(name).as_slice()))
    }
}

fn column_message(name: &str) -> (res: Vec<char>)
    ensures
        res@ == column_error(name@),
{
    let mut msg: Vec<char> = Vec::new();
    append_str(&mut msg, "The CSV must contain exactly one ");
    append_str(&mut msg, name);
    append_str(&mut msg, " column.");
    msg
}

fn row_message(k: usize, tail: &str) -> (res: String)
    requires
        k <= 10_000,
    ensures
        res@ == "CSV row "@ + decimal_text((k + 2) as nat) + tail@,
{
    let mut msg: Vec<char> = Vec::new();
    append_str(&mut msg, "CSV row ");
    append_chars(&mut msg, decimal_chars((k + 2) as u64).as_slice());
    append_str(&mut msg, tail);
    string_of(msg.as_slice())
}

/// Copies of the strings.
fn clone_strings(v: &Vec<String>) -> (res: Vec<String>)
    ensures
        res.deep_view() == v.deep_view(),
        res@.len() == v@.len(),
{
    let mut out: Vec<String> = Vec::new();
    let mut k: usize = 0;
    while k < v.len()
        invariant
            k <= v@.len(),
            out@.len() == k,
            forall|j: int| 0 <= j < k ==> out@[j]@ == v@[j]@,
        decreases v@.len() - k,
    {
        out.push(v[k].clone());
        k = k + 1;
    }
    assert(out.deep_view() =~= v.deep_view());
    out
}

/// The queue row for one record, or why it is refused.
fn make_row(headers_len: usize, first: usize, surname: usize, card: usize, record: &Vec<String>, replace: bool, k: usize) -> (res: Result<Row, String>)
    requires
        first < headers_len,
        surname < headers_len,
        card < headers_len,
        k <= 10_000,
    ensures
        match record_row(headers_len as int, first as int, surname as int, card as int, record.deep_view(), replace, k as int) {
            Ok(row) => res matches Ok(r) && r@ == row,
            Err(e) => res matches Err(m) && m@ == e,
        },
{
    let ghost rv = record.deep_view();
    if record.len() < headers_len {
        return Err(row_message(k, " does not match the header columns."));
    }
    let mut j: usize = headers_len;
    while j < record.len()
        invariant
            headers_len <= j <= record@.len(),
            rv == record.deep_view(),
            k <= 10_000,
            forall|i: int| headers_len <= i < j ==> rv[i].len() == 0,
        decreases record@.len() - j,
    {
        if !record[j].as_str().is_empty() {
            assert(rv[j as int].len() > 0);
            return Err(row_message(k, " does not match the header columns."));
        }
        j = j + 1;
    }
    assert(!misaligned(headers_len as int, rv));
    let first_name = trim(chars_of(record[first].as_str()).as_slice());
    let surname_text = trim(chars_of(record[surname].as_str()).as_slice());
    if first_name.len() == 0 && surname_text.len() == 0 {
        return Err(row_message(k, " has no first name or surname."));
    }
    let card_text = trim(chars_of(record[card].as_str()).as_slice());
    let row = Row {
        eligible: replace || card_text.len() == 0,
        fields: clone_strings(record),
        assigned: None,
        skipped: false,
        unsure: false,
    };
    assert(row@ =~= RowView { fields: rv, assigned: None, skipped: false, unsure: false, eligible: replace || trimmed(rv[card as int]).len() == 0 });
    Ok(row)
}

/// The queue rows for all records, or the first reason to refuse them.
fn build_rows(
    headers_len: usize,
    first_column: usize,
    surname_column: usize,
    card_column: usize,
    records: &Vec<Result<Vec<String>, String>>,
    replace: bool,
) -> (res: Result<Vec<Row>, String>)
    requires
        first_column < headers_len,
        surname_column < headers_len,
        card_column < headers_len,
    ensures
        match table_rows(headers_len as int, first_column as int, surname_column as int, card_column as int, records_view(records@), replace, 0) {
            Ok(rows) => res matches Ok(v) && v@.map_values(|r: Row| r@) == rows && v@.len() <= 10_000
                && forall|i: int| 0 <= i < v@.len() ==> (#[trigger] v@[i])@.fields.len() >= headers_len,
            Err(e) => res matches Err(m) && m@ == e,
        },
{
    let ghost hl = headers_len as int;
    let ghost fc = first_column as int;
    let ghost sc = surname_column as int;
    let ghost cc = card_column as int;
    let ghost rs = records_view(records@);
    let n = records.len();
    let mut rows: Vec<Row> = Vec::new();
    let mut k: usize = 0;
    while k < n
        invariant
            k <= n == records@.len(),
            rs == records_view(records@),
            rs.len() == n,
            hl == headers_len,
            fc == first_column,
            sc == surname_column,
            cc == card_column,
            first_column < headers_len,
            surname_column < headers_len,
            card_column < headers_len,
            k <= 10_000,
            rows@.len() == k,
            forall|i: int| 0 <= i < k ==> (#[trigger] rows@[i])@.fields.len() >= hl,
            table_rows(hl, fc, sc, cc, rs, replace, 0)
                == after_rows(rows@.map_values(|r: Row| r@), table_rows(hl, fc, sc, cc, rs, replace, k as int)),
        decreases n - k,
    {
        let ghost tail = table_rows(hl, fc, sc, cc, rs, replace, k as int);
        if k == 10_000 {
            assert(tail == Err::<Seq<RowView>, Seq<char>>("Please split this CSV into batches of at most 10,000 people."@));
            return Err(owned("Please split this CSV into batches of at most 10,000 people."));
        }
        let row = match &records[k] {
            Err(e) => {
                let mut msg: Vec<char> = Vec::new();
                append_str(&mut msg, "Could not read CSV: ");
                append_chars(&mut msg, chars_of(e.as_str()).as_slice());
                assert(rs[k as int] == Err::<Seq<Seq<char>>, Seq<char>>(e@));
                assert(tail == Err::<Seq<RowView>, Seq<char>>(msg@));
                return Err(string_of(msg.as_slice()));
            }
            Ok(record) => {
                assert(rs[k as int] == Ok::<Seq<Seq<char>>, Seq<char>>(record.deep_view()));
                match make_row(headers_len, first_column, surname_column, card_column, record, replace, k) {
                    Ok(r) => r,
                    Err(e) => {
                        assert(tail == Err::<Seq<RowView>, Seq<char>>(e@));
                        return Err(e);
                    }
                }
            }
        };
        let ghost before = rows@.map_values(|r: Row| r@);
        rows.push(row);
        proof {
            assert(rows@.map_values(|r: Row| r@) =~= before.push(row@));
            let rest = table_rows(hl, fc, sc, cc, rs, replace, k as int + 1);
            match rest {
                Ok(more) => {
                    assert(before + (seq![row@] + more) =~= before.push(row@) + more);
                }
                Err(_) => {}
            }
        }
        k = k + 1;
    }
    proof {
        let done = rows@.map_values(|r: Row| r@);
        assert(done =~= done + Seq::<RowView>::empty());
    }
    Ok(rows)
}

impl Batch {
    /// The queue a CSV table makes. The header must name each of First name,
    /// Surname and Card Number exactly once, and every record must line up
    /// with it and name someone. At most 10,000 people.
    pub fn from_table(
        header: Result<Vec<String>, String>,
        records: Vec<Result<Vec<String>, String>>,
        replace: bool,
        format: Format,
        bom: bool,
    ) -> (res: Result<Batch, String>)
        ensures
            match table_batch(fields_result(header), records_view(records@), replace, format, bom) {
                Ok(v) => res matches Ok(b) && b@ == v && b.wf(),
                Err(e) => res matches Err(m) && m@ == e,
            },
    {
        let headers = match header {
            Ok(h) => h,
            Err(e) => return Err(e),
        };
        let first_column = match column(&headers, "First name") {
            Ok(i) => i,
            Err(e) => return Err(e),
        };
        let surname_column = match column(&headers, "Surname") {
            Ok(i) => i,
            Err(e) => return Err(e),
        };
        let card_column = match column(&headers, "Card Number") {
            Ok(i) => i,
            Err(e) => return Err(e),
        };
        let rows = match build_rows(headers.len(), first_column, surname_column, card_column, &records, replace) {
            Ok(rows) => rows,
            Err(e) => return Err(e),
        };
        if rows.len() == 0 {
            return Err(owned("The CSV has headers but no people to assign cards to."));
        }
        let ghost spec_rows = rows@.map_values(|r: Row| r@);
        let b = Batch {
            headers,
            rows,
            format,
            running: false,
            notice: String::new(),
            dirty: false,
            net2_ids: None,
            sending: None,
            replace,
            card_column,
            first_column,
            surname_column,
            history: Vec::new(),
            last_seen: None,
            bom,
        };
        proof {
            assert(b@.rows =~= spec_rows);
            assert forall|i: int| 0 <= i < b@.rows.len() implies (#[trigger] b@.rows[i]).fields.len() >= b@.headers.len() by {
                assert(b@.rows[i] == b.rows@[i]@);
            }
        }
        Ok(b)
    }

    /// Read a Net2 import CSV. It must be UTF-8; a byte order mark is set
    /// aside and written back on export.
    pub fn parse(bytes: &[u8], replace: bool, format: Format) -> (res: Result<Batch, String>)
        ensures
            match parse_of(bytes@, replace, format) {
                Ok(v) => res matches Ok(b) && b@ == v && b.wf(),
                Err(e) => res matches Err(m) && m@ == e,
            },
    {
        let text = match utf8_text(bytes) {
            Some(t) => t,
            None => return Err(owned("Save the spreadsheet as CSV UTF-8, then choose it again.")),
        };
        let chars = chars_of(text);
        let n = chars.len();
        let mut a: usize = 0;
        assert(chars@.subrange(0, n as int) =~= chars@);
        while a < n && chars[a] == '\u{feff}'
            invariant
                a <= n == chars@.len(),
                without_boms(chars@) == without_boms(chars@.subrange(a as int, n as int)),
            decreases n - a,
        {
            assert(chars@.subrange(a as int, n as int).drop_first() =~= chars@.subrange(a + 1, n as int));
            a = a + 1;
        }
        let body = string_of(&chars.as_slice()[a..n]);
        let (header, records) = read_csv(body.as_str());
        let bom = bytes.len() >= 3 && bytes[0] == 0xEF && bytes[1] == 0xBB && bytes[2] == 0xBF;
        Self::from_table(header, records, replace, format, bom)
    }

    /// The CSV to download: only the Card Number column changes, each row
    /// showing its value; rows end with CRLF, and the byte order mark the
    /// file came with is put back.
    pub fn export(&self) -> (res: Result<Vec<u8>, String>)
        requires
            self.wf(),
        ensures
            match export_of(self@) {
                Ok(bytes) => res matches Ok(r) && r@ == bytes,
                Err(e) => res matches Err(m) && m@ == e,
            },
    {
        let mut records: Vec<Vec<String>> = Vec::new();
        records.push(clone_strings(&self.headers));
        let n = self.rows.len();
        let mut k: usize = 0;
        proof { self.lemma_view_rows(); }
        while k < n
            invariant
                k <= n == self.rows@.len(),
                self.wf(),
                self@.rows.len() == n,
                records@.len() == k + 1,
                records.deep_view().take(k as int + 1) =~= export_records(self@).take(k as int + 1),
            decreases n - k,
        {
            proof { self.lemma_view_rows(); }
            let mut fields = clone_strings(&self.rows[k].fields);
            let value = self.value(k);
            fields.set(self.card_column, value);
            proof {
                assert(fields.deep_view() =~= self@.rows[k as int].fields.update(self@.card_column, value_of(self@, k as int)));
            }
            records.push(fields);
            k = k + 1;
        }
        assert(export_records(self@).len() == n + 1);
        assert(records.deep_view().take(n as int + 1) =~= records.deep_view());
        assert(export_records(self@).take(n as int + 1) =~= export_records(self@));
        assert(records.deep_view() =~= export_records(self@));
        let bytes = match write_csv_crlf(&records) {
            Ok(b) => b,
            Err(e) => return Err(e),
        };
        if self.bom {
            let mut out: Vec<u8> = Vec::new();
            out.push(0xEF);
            out.push(0xBB);
            out.push(0xBF);
            let mut j: usize = 0;
            while j < bytes.len()
                invariant
                    j <= bytes@.len(),
                    out@ == seq![0xEFu8, 0xBBu8, 0xBFu8] + bytes@.take(j as int),
                decreases bytes@.len() - j,
            {
                out.push(bytes[j]);
                assert(seq![0xEFu8, 0xBBu8, 0xBFu8] + bytes@.take(j + 1) =~= (seq![0xEFu8, 0xBBu8, 0xBFu8] + bytes@.take(j as int)).push(bytes@[j as int]));
                j = j + 1;
            }
            assert(bytes@.take(j as int) =~= bytes@);
            Ok(out)
        } else {
            Ok(bytes)
        }
    }
}


/// The First name a Net2 user gets in a queue: first and middle name,
/// trimmed, or "(No name)" when the user has no name at all.
pub open spec fn queue_first_name(first: Seq<char>, middle: Seq<char>, last: Seq<char>) -> Seq<char> {
    let f = trimmed(first + seq![' '] + middle);
    if f.len() == 0 && last.len() == 0 { no_name_text() } else { f }
}

/// The CSV record for a Net2 user: ID, first name, surname and no card.
pub open spec fn user_record(u: User) -> Seq<Seq<char>> {
    seq![signed_text(u.id as int), queue_first_name(u.first@, u.middle@, u.last@), u.last@, Seq::empty()]
}

/// The header of a queue loaded from Net2.
pub open spec fn users_header() -> Seq<Seq<char>> {
    seq!["User ID"@, "First name"@, "Surname"@, "Card Number"@]
}

/// The CSV records a queue from Net2 starts from.
pub open spec fn users_records(users: Seq<User>) -> Seq<Seq<Seq<char>>> {
    seq![users_header()] + Seq::new(users.len(), |i: int| user_record(users[i]))
}

/// The direct queue for Net2 users: their records are written as CSV and
/// read back as a queue in decimal, which keeps the users' IDs in order.
pub open spec fn from_users_of(users: Seq<User>, replace: bool) -> Result<BatchView, Seq<char>> {
    if users.len() == 0 {
        Err("Net2 has no users there."@)
    } else {
        match csv_written(users_records(users)) {
            Err(e) => Err(e),
            Ok(bytes) => match parse_of(bytes, replace, Format::Decimal) {
                Err(e) => Err(e),
                Ok(b) => Ok(BatchView { net2_ids: Some(users.map_values(|u: User| u.id)), ..b }),
            },
        }
    }
}

/// The CSV record for one Net2 user.
fn user_row(user: &User) -> (res: Vec<String>)
    ensures
        res.deep_view() == user_record(*user),
{
    let mut both: Vec<char> = Vec::new();
    append_chars(&mut both, chars_of(user.first.as_str()).as_slice());
    both.push(' ');
    append_chars(&mut both, chars_of(user.middle.as_str()).as_slice());
    assert(both@ =~= user.first@ + seq![' '] + user.middle@);
    let f = trim(both.as_slice());
    let first = if f.len() == 0 && user.last.as_str().is_empty() {
        string_of(no_name_chars().as_slice())
    } else {
        string_of(f.as_slice())
    };
    let mut out: Vec<String> = Vec::new();
    out.push(string_of(signed_chars(user.id).as_slice()));
    out.push(first);
    out.push(user.last.clone());
    out.push(String::new());
    assert(out.deep_view() =~= user_record(*user));
    out
}

impl Batch {
    /// A direct queue for Net2 users, in Net2 decimal. Its CSV download keeps
    /// the user IDs, so it is also a record of what was saved.
    pub fn from_users(users: &[User], replace: bool) -> (res: Result<Batch, String>)
        ensures
            match from_users_of(users@, replace) {
                Ok(v) => res matches Ok(b) && b@ == v && b.wf(),
                Err(e) => res matches Err(m) && m@ == e,
            },
    {
        if users.len() == 0 {
            return Err(owned("Net2 has no users there."));
        }
        let mut header: Vec<String> = Vec::new();
        header.push(owned("User ID"));
        header.push(owned("First name"));
        header.push(owned("Surname"));
        header.push(owned("Card Number"));
        assert(header.deep_view() =~= users_header());
        let mut records: Vec<Vec<String>> = Vec::new();
        records.push(header);
        let mut ids: Vec<i32> = Vec::new();
        let n = users.len();
        let mut k: usize = 0;
        while k < n
            invariant
                k <= n == users@.len(),
                records.deep_view() =~= users_records(users@).take(k as int + 1),
                ids@ =~= users@.take(k as int).map_values(|u: User| u.id),
            decreases n - k,
        {
            let row = user_row(&users[k]);
            records.push(row);
            ids.push(users[k].id);
            proof {
                assert(users@.take(k + 1).map_values(|u: User| u.id) =~= users@.take(k as int).map_values(|u: User| u.id).push(users@[k as int].id));
                assert(users_records(users@).take(k + 2) =~= users_records(users@).take(k + 1).push(user_record(users@[k as int])));
            }
            k = k + 1;
        }
        proof {
            assert(users_records(users@).take(n as int + 1) =~= users_records(users@));
            assert(users@.take(n as int) =~= users@);
        }
        let bytes = match write_csv(&records) {
            Ok(b) => b,
            Err(e) => return Err(e),
        };
        let mut batch = match Batch::parse(bytes.as_slice(), replace, Format::Decimal) {
            Ok(b) => b,
            Err(e) => return Err(e),
        };
        let ghost before = batch@;
        batch.net2_ids = Some(ids);
        assert(batch@ =~= BatchView { net2_ids: Some(users@.map_values(|u: User| u.id)), ..before });
        Ok(batch)
    }
}

/// The largest CSV file the page reads.
pub const MAX_CSV_BYTES: u64 = 10 * 1024 * 1024;

/// How many rows are kept with the card they had.
pub open spec fn kept_count_of(rows: Seq<RowView>) -> nat
    decreases rows.len(),
{
    if rows.len() == 0 {
        0
    } else {
        let r = rows.last();
        kept_count_of(rows.drop_last()) + if r.assigned is None && !r.unsure && !r.skipped && !r.eligible { 1nat } else { 0nat }
    }
}

/// How many rows were skipped.
pub open spec fn skipped_count_of(rows: Seq<RowView>) -> nat
    decreases rows.len(),
{
    if rows.len() == 0 {
        0
    } else {
        skipped_count_of(rows.drop_last()) + if rows.last().skipped { 1nat } else { 0nat }
    }
}

/// The progress line: people, assigned, kept and skipped.
pub open spec fn progress_of(b: BatchView) -> Seq<char> {
    decimal_text(b.rows.len()) + " people \u{b7} "@ + decimal_text(assigned_count_of(b.rows)) + " assigned \u{b7} "@
        + decimal_text(kept_count_of(b.rows)) + " kept \u{b7} "@ + decimal_text(skipped_count_of(b.rows)) + " skipped"@
}

/// What the queue asks for next.
pub open spec fn prompt_of(b: BatchView) -> Seq<char> {
    match current_of(b) {
        Some(i) => if b.running {
            "Please tap "@ + name_of(b, i) + "\u{2019}s card"@
        } else {
            "Next: "@ + name_of(b, i)
        },
        None => "Queue complete \u{2014} review and download your CSV"@,
    }
}

/// The name of a download: the loaded file's name without its extension,
/// then "-cards.csv".
pub open spec fn download_name_of(filename: Seq<char>) -> Seq<char> {
    match last_index_of(filename, '.') {
        Some(i) => filename.take(i) + "-cards.csv"@,
        None => filename + "-cards.csv"@,
    }
}

/// What Net2 answered about a staged card.
#[derive(Debug)]
pub enum SaveOutcome {
    /// Net2 took the card.
    Saved,
    /// The person already has this card in Net2, so they keep it.
    HasCard(String),
    /// Net2 refused it or did not answer.
    Failed(Failure),
}

/// What to do next about a staged card: ask Net2 for the person's cards,
/// keep the one they already have, or add the tapped one.
#[derive(Debug)]
pub enum SaveStep {
    ReadCards,
    Keep(String),
    Add,
}

/// The next step of saving a staged card. Unless replacing, Net2 is first
/// asked for the person's cards (`cards` is `None` until it has answered),
/// and a person who already has one keeps the first; otherwise the tapped
/// card is added.
pub fn save_step(replace: bool, cards: Option<&Vec<String>>) -> (res: SaveStep)
    ensures
        replace ==> res is Add,
        !replace ==> match cards {
            None => res is ReadCards,
            Some(c) => if c@.len() > 0 {
                res matches SaveStep::Keep(k) && k@ == c@[0]@
            } else {
                res is Add
            },
        },
{
    if replace {
        return SaveStep::Add;
    }
    match cards {
        None => SaveStep::ReadCards,
        Some(c) => if c.len() > 0 {
            SaveStep::Keep(c[0].clone())
        } else {
            SaveStep::Add
        },
    }
}

/// A queue after Net2 answered about the card staged for user `id`; an
/// answer for anyone else, or with nothing staged, changes nothing.
pub open spec fn answer_of(b: BatchView, id: i32, outcome: SaveOutcome) -> BatchView {
    match sending_to_of(b) {
        Some((staged, name, _)) => if staged != id {
            b
        } else {
            match outcome {
                SaveOutcome::Saved => saved_of(b),
                SaveOutcome::HasCard(card) => refused_of(
                    b,
                    name + " already has card "@ + card@
                        + " in Net2, so they keep it. Lift the card and tap it again for the next person."@,
                    true,
                    false,
                    false,
                ),
                SaveOutcome::Failed(problem) => if problem.uncertain {
                    refused_of(b, name + ": "@ + problem.message@ + " Paused."@, false, true, true)
                } else {
                    refused_of(b, "Not saved for "@ + name + ". "@ + problem.message@, false, false, problem.halt)
                },
            }
        }
        None => b,
    }
}

/// Count the rows kept with their card and the skipped rows.
fn kept_and_skipped(rows: &Vec<Row>) -> (res: (usize, usize))
    ensures
        res.0 == kept_count_of(rows@.map_values(|r: Row| r@)),
        res.1 == skipped_count_of(rows@.map_values(|r: Row| r@)),
{
    let ghost all = rows@.map_values(|r: Row| r@);
    let n = rows.len();
    let mut kept: usize = 0;
    let mut skipped: usize = 0;
    let mut k: usize = 0;
    while k < n
        invariant
            k <= n == rows@.len(),
            all == rows@.map_values(|r: Row| r@),
            kept == kept_count_of(all.take(k as int)),
            skipped == skipped_count_of(all.take(k as int)),
            kept <= k,
            skipped <= k,
        decreases n - k,
    {
        let r = &rows[k];
        proof {
            assert(all.take(k + 1).drop_last() =~= all.take(k as int));
            assert(all.take(k + 1).last() == r@);
        }
        if r.assigned.is_none() && !r.unsure && !r.skipped && !r.eligible {
            kept = kept + 1;
        }
        if r.skipped {
            skipped = skipped + 1;
        }
        k = k + 1;
    }
    assert(all.take(n as int) =~= all);
    (kept, skipped)
}

/// The name of a download: the loaded file's name without its extension,
/// then "-cards.csv".
pub fn download_name(filename: &str) -> (res: String)
    ensures
        res@ == download_name_of(filename@),
{
    let chars = chars_of(filename);
    let mut out: Vec<char> = Vec::new();
    let found = last_index_of_char(chars.as_slice(), '.');
    match found {
        Some(i) => {
            append_chars(&mut out, &chars.as_slice()[0..i]);
            assert(out@ =~= filename@.take(i as int));
            assert(last_index_of(filename@, '.') == Some(i as int));
            append_str(&mut out, "-cards.csv");
            assert(out@ =~= download_name_of(filename@));
        }
        None => {
            append_chars(&mut out, chars.as_slice());
            append_str(&mut out, "-cards.csv");
            assert(out@ =~= download_name_of(filename@));
        }
    }
    string_of(out.as_slice())
}

impl Batch {
    /// Stop taking cards until the run is resumed.
    pub fn pause(&mut self)
        ensures
            final(self)@ == (BatchView { running: false, notice: "Paused. Press Start / resume when ready."@, ..old(self)@ }),
    {
        self.running = false;
        self.notice = owned("Paused. Press Start / resume when ready.");
    }

    /// Stop taking cards, as when the page leaves the queue or another file
    /// is chosen. Nothing else changes.
    pub fn stop(&mut self)
        ensures
            final(self)@ == (BatchView { running: false, ..old(self)@ }),
    {
        self.running = false;
    }

    /// Choose how new cards are written. The format can change only before
    /// any card is assigned, and never in a direct queue, which Net2 keeps in
    /// decimal; otherwise nothing changes.
    pub fn choose_format(&mut self, format: Format)
        ensures
            final(self)@ == (if assigned_count_of(old(self)@.rows) == 0 && old(self)@.net2_ids is None {
                BatchView { format: format, ..old(self)@ }
            } else {
                old(self)@
            }),
    {
        if self.assigned_count() == 0 && self.net2_ids.is_none() {
            self.format = format;
        }
    }

    /// The CSV was downloaded: nothing is left unsaved.
    pub fn downloaded(&mut self)
        ensures
            final(self)@ == (BatchView { dirty: false, notice: "CSV downloaded. Keep this copy of your progress."@, ..old(self)@ }),
    {
        self.dirty = false;
        self.notice = owned("CSV downloaded. Keep this copy of your progress.");
    }

    /// The progress line: people, assigned, kept and skipped.
    pub fn progress(&self) -> (res: String)
        ensures
            res@ == progress_of(self@),
    {
        let (kept, skipped) = kept_and_skipped(&self.rows);
        proof { self.lemma_view_rows(); assert(self.rows@.map_values(|r: Row| r@) =~= self@.rows); }
        let mut out: Vec<char> = Vec::new();
        append_chars(&mut out, decimal_chars(self.rows.len() as u64).as_slice());
        append_str(&mut out, " people \u{b7} ");
        append_chars(&mut out, decimal_chars(self.assigned_count() as u64).as_slice());
        append_str(&mut out, " assigned \u{b7} ");
        append_chars(&mut out, decimal_chars(kept as u64).as_slice());
        append_str(&mut out, " kept \u{b7} ");
        append_chars(&mut out, decimal_chars(skipped as u64).as_slice());
        append_str(&mut out, " skipped");
        string_of(out.as_slice())
    }

    /// What the queue asks for next.
    pub fn prompt(&self) -> (res: String)
        requires
            self.wf(),
        ensures
            res@ == prompt_of(self@),
    {
        let mut out: Vec<char> = Vec::new();
        match self.current() {
            Some(i) => {
                if self.running {
                    append_str(&mut out, "Please tap ");
                    append_str(&mut out, self.name(i).as_str());
                    append_str(&mut out, "\u{2019}s card");
                } else {
                    append_str(&mut out, "Next: ");
                    append_str(&mut out, self.name(i).as_str());
                }
            }
            None => append_str(&mut out, "Queue complete \u{2014} review and download your CSV"),
        }
        string_of(out.as_slice())
    }

    /// Take Net2's answer about the card staged for user `id`.
    pub fn answer(&mut self, id: i32, outcome: SaveOutcome)
        requires
            old(self).wf(),
        ensures
            final(self).wf(),
            final(self)@ == answer_of(old(self)@, id, outcome),
    {
        let (staged, name) = match self.sending_to() {
            Some((staged, name, _)) => (staged, name),
            None => return,
        };
        if staged != id {
            return;
        }
        match outcome {
            SaveOutcome::Saved => self.saved(),
            SaveOutcome::HasCard(card) => {
                let mut msg: Vec<char> = Vec::new();
                append_str(&mut msg, name.as_str());
                append_str(&mut msg, " already has card ");
                append_str(&mut msg, card.as_str());
                append_str(&mut msg, " in Net2, so they keep it. Lift the card and tap it again for the next person.");
                self.refused(string_of(msg.as_slice()), true, false, false);
            }
            SaveOutcome::Failed(problem) => {
                let mut msg: Vec<char> = Vec::new();
                if problem.uncertain {
                    append_str(&mut msg, name.as_str());
                    append_str(&mut msg, ": ");
                    append_str(&mut msg, problem.message.as_str());
                    append_str(&mut msg, " Paused.");
                    self.refused(string_of(msg.as_slice()), false, true, true);
                } else {
                    append_str(&mut msg, "Not saved for ");
                    append_str(&mut msg, name.as_str());
                    append_str(&mut msg, ". ");
                    append_str(&mut msg, problem.message.as_str());
                    self.refused(string_of(msg.as_slice()), false, false, problem.halt);
                }
            }
        }
    }
}


/// Which of the queue's controls can be used: start only with the reader
/// ready and someone waiting, nothing that moves the queue while a card is
/// with Net2, and the format only before any card is assigned, and never in
/// a direct queue, which Net2 keeps in decimal.
pub struct Controls {
    pub start: bool,
    pub pause: bool,
    pub skip: bool,
    pub undo: bool,
    pub format: bool,
}

/// The note under the prompt: while someone is waiting and the reader is not
/// ready, how to carry on; otherwise the queue's own notice.
pub open spec fn shown_notice_of(b: BatchView, reader_ready: bool) -> Seq<char> {
    if !reader_ready && current_of(b) is Some {
        "Connect the reader, then press Start / resume. Your progress is kept."@
    } else {
        b.notice
    }
}

impl Batch {
    /// Which of the queue's controls can be used.
    pub fn controls(&self, reader_ready: bool) -> (res: Controls)
        requires
            self.wf(),
        ensures
            res.start == (current_of(self@) is Some && !self@.running && reader_ready),
            res.pause == (self@.running && self@.sending is None),
            res.skip == (current_of(self@) is Some && self@.sending is None),
            res.undo == can_undo_of(self@),
            res.format == (assigned_count_of(self@.rows) == 0 && self@.net2_ids is None),
    {
        let waiting = self.current().is_some();
        let sending = self.sending.is_some();
        Controls {
            start: waiting && !self.running && reader_ready,
            pause: self.running && !sending,
            skip: waiting && !sending,
            undo: self.can_undo(),
            format: self.assigned_count() == 0 && self.net2_ids.is_none(),
        }
    }

    /// The note under the prompt.
    pub fn shown_notice(&self, reader_ready: bool) -> (res: String)
        ensures
            res@ == shown_notice_of(self@, reader_ready),
    {
        if !reader_ready && self.current().is_some() {
            owned("Connect the reader, then press Start / resume. Your progress is kept.")
        } else {
            self.notice.clone()
        }
    }
}

} // verus!
