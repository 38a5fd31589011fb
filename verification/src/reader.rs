//! The decisions of the polling loop: what a report from the reader does to
//! the card on display, and which kind of read comes next. The page performs
//! them; the reader itself is only reachable from the browser.
use vstd::prelude::*;
use crate::protocol::{is_read, is_read_reply, parse, parsed, ACK};
use crate::token::{token, token_of, Read, Token, TokenView};

verus! {

/// Polls in a row without an answer before the display stops being trusted.
/// Writes can keep succeeding while no replies come back.
pub const MAX_MISSES: u32 = 4;

/// What a report does to the card on display.
#[derive(Debug, PartialEq)]
pub enum CardChange {
    Keep,
    Show(Token),
    Clear,
}

/// A change as the specifications see it.
pub enum CardChangeView {
    Keep,
    Show(TokenView),
    Clear,
}

impl View for CardChange {
    type V = CardChangeView;

    open spec fn view(&self) -> CardChangeView {
        match self {
            CardChange::Keep => CardChangeView::Keep,
            CardChange::Show(t) => CardChangeView::Show(t@),
            CardChange::Clear => CardChangeView::Clear,
        }
    }
}

/// What a report means: whether it answers a read (the only proof that the
/// reader is working), and what it does to the card on display.
#[derive(Debug, PartialEq)]
pub struct Report {
    pub answered: bool,
    pub card: CardChange,
}

/// What the bytes of a report mean while `reading` is the read last asked
/// for and `held` the kind of read that found the card on display. The LED
/// command answers with a short ack that answers nothing; a read that finds
/// nothing can only clear a card that kind of read found.
pub open spec fn report_of(bytes: Seq<u8>, reading: Read, held: Option<Read>) -> (bool, CardChangeView) {
    match parsed(bytes) {
        None => (false, CardChangeView::Keep),
        Some((t, p)) => if t == ACK && !is_read(t, p) {
            (false, CardChangeView::Keep)
        } else {
            match token_of(reading, t, p) {
                Some((h, n)) => (true, CardChangeView::Show(TokenView { read: reading, hex: h, number: n })),
                None => if held == Some(reading) {
                    (true, CardChangeView::Clear)
                } else {
                    (true, CardChangeView::Keep)
                },
            }
        }
    }
}

/// A report clears the card on display only when it answers the same kind
/// of read that found that card, and only an answer to a read changes it.
pub proof fn lemma_only_the_same_read_clears(bytes: Seq<u8>, reading: Read, held: Option<Read>)
    ensures
        report_of(bytes, reading, held).1 is Clear ==> held == Some(reading),
        !report_of(bytes, reading, held).0 ==> report_of(bytes, reading, held).1 is Keep,
{
}

/// What a report from the reader does.
pub fn on_report(bytes: &[u8], reading: Read, held: Option<Read>) -> (res: Report)
    ensures
        (res.answered, res.card@) == report_of(bytes@, reading, held),
{
    let reply = match parse(bytes) {
        Some(r) => r,
        None => return Report { answered: false, card: CardChange::Keep },
    };
    if reply.msg_type == ACK && !is_read_reply(&reply) {
        return Report { answered: false, card: CardChange::Keep };
    }
    match token(reading, &reply) {
        Some(t) => Report { answered: true, card: CardChange::Show(t) },
        None => {
            let clear = match held {
                Some(r) => r == reading,
                None => false,
            };
            if clear {
                Report { answered: true, card: CardChange::Clear }
            } else {
                Report { answered: true, card: CardChange::Keep }
            }
        }
    }
}

/// The reads take turns: Mifare, then Hitag2, then Mifare again.
pub fn next_read(read: Read) -> (res: Read)
    ensures
        res == (match read {
            Read::Mifare => Read::Hitag2,
            Read::Hitag2 => Read::Mifare,
        }),
{
    match read {
        Read::Mifare => Read::Hitag2,
        Read::Hitag2 => Read::Mifare,
    }
}

/// One more poll without an answer: the new count, and whether the display
/// stops being trusted now, which is when the count reaches `MAX_MISSES`.
pub fn missed(misses: u32) -> (res: (u32, bool))
    requires
        misses < u32::MAX,
    ensures
        res.0 == misses + 1,
        res.1 == (misses + 1 == MAX_MISSES),
{
    let next = misses + 1;
    (next, next == MAX_MISSES)
}

/// A connection's claim on the reader: the session it gets, or `None` while
/// another connection is opening the reader (`opening`) or the reader is
/// already open (`device_open`), so that only one polling loop runs per
/// reader. Sessions count up from the newest one, `session`, and wrap.
pub fn claim_reader(opening: bool, device_open: bool, session: u32) -> (res: Option<u32>)
    ensures
        res == (if opening || device_open {
            None
        } else if session == u32::MAX {
            Some(0u32)
        } else {
            Some((session + 1) as u32)
        }),
{
    if opening || device_open {
        None
    } else if session == u32::MAX {
        Some(0)
    } else {
        Some(session + 1)
    }
}

} // verus!
