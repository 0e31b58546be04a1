//! The two requests that the client sends, and their text on the wire.

use crate::decimal::{decimal, lemma_decimal_round_trip, push_decimal};
use vstd::prelude::*;
use vstd::string::StringExecFns;

verus! {

/// A request to the server.
#[derive(Debug, PartialEq, Eq, Clone, Copy)]
pub enum Requests {
    /// The whole payload.
    Full,
    /// The payload from the first offset on; the second number is the length
    /// of the whole payload, as the server declared it.
    Range(usize, usize),
}

/// The request line with the line break that ends it.
pub open spec fn request_line() -> Seq<char> {
    "GET / HTTP/1.0\r\n"@
}

/// The directive that names the bounds `start` and `end` of a range.
pub open spec fn range_directive(start: nat, end: nat) -> Seq<char> {
    "bytes="@ + decimal(start) + "-"@ + decimal(end)
}

/// The text of a request on the wire: the request line, for a range one more
/// line that names its bounds in decimal, and the blank line that ends a header block.
pub open spec fn wire_text(request: Requests) -> Seq<char> {
    match request {
        Requests::Full => request_line() + "\r\n"@,
        Requests::Range(start, end) => request_line() + "Range: "@ + range_directive(
            start as nat,
            end as nat,
        ) + "\r\n"@ + "\r\n"@,
    }
}

/// Whether `piece` stands in `text` at the place `at`.
pub open spec fn stands_at(text: Seq<char>, piece: Seq<char>, at: int) -> bool {
    &&& 0 <= at
    &&& at + piece.len() <= text.len()
    &&& text.subrange(at, at + piece.len()) == piece
}

/// The text of a range request holds `bytes=S-E`, with `S` and `E` the two
/// bounds written in decimal: digits only, and no leading zero.
pub proof fn lemma_range_names_bounds(start: usize, end: usize)
    ensures
        stands_at(
            wire_text(Requests::Range(start, end)),
            range_directive(start as nat, end as nat),
            (request_line() + "Range: "@).len() as int,
        ),
        range_directive(start as nat, end as nat) == "bytes="@ + decimal(start as nat) + "-"@
            + decimal(end as nat),
        crate::decimal::numeral_value(decimal(start as nat)) == Some(start as nat),
        crate::decimal::numeral_value(decimal(end as nat)) == Some(end as nat),
        start > 0 ==> decimal(start as nat)[0] != '0',
        end > 0 ==> decimal(end as nat)[0] != '0',
{
    lemma_decimal_round_trip(start as nat);
    lemma_decimal_round_trip(end as nat);
    let head = request_line() + "Range: "@;
    let piece = range_directive(start as nat, end as nat);
    let text = wire_text(Requests::Range(start, end));
    assert(text =~= head + piece + ("\r\n"@ + "\r\n"@));
    assert(text.subrange(head.len() as int, (head.len() + piece.len()) as int) =~= piece);
}

/// Every request ends with the blank line: a line break twice.
pub proof fn lemma_wire_text_ends_blank(request: Requests)
    ensures
        wire_text(request).len() >= 4,
        wire_text(request).skip(wire_text(request).len() - 4) == seq!['\r', '\n', '\r', '\n'],
{
    reveal_strlit("GET / HTTP/1.0\r\n");
    reveal_strlit("\r\n");
    let text = wire_text(request);
    assert(text.skip(text.len() - 4) =~= seq!['\r', '\n', '\r', '\n']);
}

impl Requests {
    /// The text of this request as it goes on the wire.
    pub fn to_header(&self) -> (text: String)
        ensures
            text@ == wire_text(*self),
    {
        match self {
            Requests::Full => {
                let mut text = String::from_str("GET / HTTP/1.0\r\n");
                text.append("\r\n");
                text
            },
            Requests::Range(start, end) => {
                let mut text = String::from_str("GET / HTTP/1.0\r\n");
                text.append("Range: ");
                text.append("bytes=");
                push_decimal(&mut text, *start);
                text.append("-");
                push_decimal(&mut text, *end);
                text.append("\r\n");
                text.append("\r\n");
                assert(text@ =~= wire_text(*self));
                text
            },
        }
    }
}

} // verus!
