//! One response as it came off the wire: header text, a blank line, payload bytes.

use crate::headers::Headers;
use vstd::prelude::*;
use vstd::slice::{slice_subrange, slice_to_vec};
use vstd::utf8::{decode_utf8, valid_utf8};

verus! {

/// How the server can break the protocol.
#[derive(Debug, PartialEq, Eq, Clone, Copy)]
pub enum ProtocolError {
    /// No blank line anywhere in what was received.
    NoTerminator,
    /// What stands before the blank line is not UTF-8 text.
    InvalidText,
    /// The header block declares no payload length that can be read.
    MissingLength,
}

/// Whether the blank line that ends a header block (CR LF CR LF) begins at `p`.
pub open spec fn terminator_at(raw: Seq<u8>, p: int) -> bool {
    &&& 0 <= p
    &&& p + 4 <= raw.len()
    &&& raw[p] == 13
    &&& raw[p + 1] == 10
    &&& raw[p + 2] == 13
    &&& raw[p + 3] == 10
}

/// Whether `raw` holds a terminator at all.
pub open spec fn has_terminator(raw: Seq<u8>) -> bool {
    exists|p: int| terminator_at(raw, p)
}

/// Whether the first terminator of `raw` begins at `p`.
pub open spec fn first_terminator_at(raw: Seq<u8>, p: int) -> bool {
    &&& terminator_at(raw, p)
    &&& forall|q: int| 0 <= q < p ==> !terminator_at(raw, q)
}

/// Where the first terminator of `raw` begins, if it has one.
pub open spec fn first_terminator(raw: Seq<u8>) -> int {
    choose|p: int| first_terminator_at(raw, p)
}

/// What the received bytes `raw` split into: the header text and the place where
/// the payload begins, right behind the first terminator.
pub open spec fn split(raw: Seq<u8>) -> Result<(Seq<char>, int), ProtocolError> {
    if !has_terminator(raw) {
        Err(ProtocolError::NoTerminator)
    } else {
        let p = first_terminator(raw);
        if valid_utf8(raw.take(p)) {
            Ok((decode_utf8(raw.take(p)), p + 4))
        } else {
            Err(ProtocolError::InvalidText)
        }
    }
}

/// Bytes with a terminator have a first one.
pub proof fn lemma_first_terminator_exists(raw: Seq<u8>, p: int)
    requires
        terminator_at(raw, p),
    ensures
        exists|q: int| first_terminator_at(raw, q),
    decreases p,
{
    if forall|q: int| 0 <= q < p ==> !terminator_at(raw, q) {
        assert(first_terminator_at(raw, p));
    } else {
        let q = choose|q: int| 0 <= q < p && terminator_at(raw, q);
        lemma_first_terminator_exists(raw, q);
    }
}

/// There is one first terminator: if it begins at `p`, [`first_terminator`] is `p`.
pub proof fn lemma_first_terminator_is(raw: Seq<u8>, p: int)
    requires
        first_terminator_at(raw, p),
    ensures
        has_terminator(raw),
        first_terminator(raw) == p,
{
    let q = first_terminator(raw);
    assert(first_terminator_at(raw, q));
    if q < p {
        assert(!terminator_at(raw, q));
    } else if p < q {
        assert(!terminator_at(raw, p));
    }
}

/// Where bytes split, the payload begins right behind their first terminator,
/// inside the bytes or at their end.
pub proof fn lemma_split_offset(raw: Seq<u8>)
    requires
        split(raw) is Ok,
    ensures
        first_terminator_at(raw, split(raw)->Ok_0.1 - 4),
        4 <= split(raw)->Ok_0.1 <= raw.len(),
        split(raw)->Ok_0.0 == decode_utf8(raw.take(split(raw)->Ok_0.1 - 4)),
        valid_utf8(raw.take(split(raw)->Ok_0.1 - 4)),
{
    let p = choose|p: int| terminator_at(raw, p);
    lemma_first_terminator_exists(raw, p);
}

/// Bytes without a terminator do not split.
pub proof fn lemma_no_terminator(raw: Seq<u8>)
    requires
        forall|p: int| !terminator_at(raw, p),
    ensures
        split(raw) == Err::<(Seq<char>, int), ProtocolError>(ProtocolError::NoTerminator),
{
}

/// Bytes with exactly one terminator, at `p`, and UTF-8 text before it split
/// into that text and the place right behind the terminator.
pub proof fn lemma_single_terminator(raw: Seq<u8>, p: int)
    requires
        terminator_at(raw, p),
        forall|q: int| q != p ==> !terminator_at(raw, q),
        valid_utf8(raw.take(p)),
    ensures
        split(raw) == Ok::<(Seq<char>, int), ProtocolError>((decode_utf8(raw.take(p)), p + 4)),
{
    assert(first_terminator_at(raw, p));
    lemma_first_terminator_is(raw, p);
}

/// Looks for the first terminator of `raw`.
pub fn find_terminator(raw: &[u8]) -> (res: Option<usize>)
    ensures
        match res {
            Some(p) => first_terminator_at(raw@, p as int),
            None => !has_terminator(raw@),
        },
{
    let n = raw.len();
    if n < 4 {
        return None;
    }
    let mut p: usize = 0;
    while p <= n - 4
        invariant
            n == raw@.len(),
            n >= 4,
            p <= n - 3,
            forall|q: int| 0 <= q < p ==> !terminator_at(raw@, q),
        decreases n - p,
    {
        if raw[p] == 13 && raw[p + 1] == 10 && raw[p + 2] == 13 && raw[p + 3] == 10 {
            return Some(p);
        }
        p += 1;
    }
    None
}

/// Decodes `bytes` as UTF-8 text with `String::from_utf8`.  Believed of it: it
/// gives a text exactly where the bytes are valid UTF-8, and the text is then the
/// one that these bytes encode.
#[verifier::external_body]
fn text_from_utf8(bytes: Vec<u8>) -> (res: Option<String>)
    ensures
        res is Some <==> valid_utf8(bytes@),
        res matches Some(s) ==> s@ == decode_utf8(bytes@),
{
    String::from_utf8(bytes).ok()
}

/// One response: everything that one connection delivered before it closed.
#[derive(Debug)]
pub struct Response {
    full_data: Vec<u8>,
    headers_splitoff: usize,
    headers: Headers,
}

impl Response {
    /// A response's payload begins right behind the first terminator of its
    /// bytes, and its headers are the text before that terminator.
    #[verifier::type_invariant]
    pub closed spec fn wf(self) -> bool {
        &&& first_terminator_at(self.full_data@, self.headers_splitoff - 4)
        &&& valid_utf8(self.full_data@.take(self.headers_splitoff - 4))
        &&& self.headers.all@ == decode_utf8(self.full_data@.take(self.headers_splitoff - 4))
    }

    /// All the bytes received.
    pub closed spec fn raw(self) -> Seq<u8> {
        self.full_data@
    }

    /// Where in [`Self::raw`] the payload begins.
    pub closed spec fn body_offset(self) -> int {
        self.headers_splitoff as int
    }

    /// The header text.
    pub closed spec fn header_text(self) -> Seq<char> {
        self.headers.all@
    }

    /// The payload bytes that this response carries.
    pub closed spec fn body(self) -> Seq<u8> {
        self.full_data@.skip(self.headers_splitoff as int)
    }

    /// The parts of a well-formed response are what its bytes split into.
    pub proof fn lemma_parts(self)
        requires
            self.wf(),
        ensures
            split(self.raw()) == Ok::<(Seq<char>, int), ProtocolError>(
                (self.header_text(), self.body_offset()),
            ),
            4 <= self.body_offset() <= self.raw().len(),
            self.body() == self.raw().skip(self.body_offset()),
            self.body().len() == self.raw().len() - self.body_offset(),
    {
        lemma_first_terminator_is(self.full_data@, self.headers_splitoff - 4);
    }

    /// Splits what one connection delivered into headers and payload.
    ///
    /// Fails where the bytes hold no terminator, or where those before the first
    /// terminator are not UTF-8 text.
    pub fn try_from(value: Vec<u8>) -> (res: Result<Response, ProtocolError>)
        ensures
            match res {
                Ok(r) => {
                    &&& r.wf()
                    &&& r.raw() == value@
                    &&& split(value@) == Ok::<(Seq<char>, int), ProtocolError>(
                        (r.header_text(), r.body_offset()),
                    )
                    &&& r.body() == value@.skip(r.body_offset())
                },
                Err(e) => split(value@) == Err::<(Seq<char>, int), ProtocolError>(e),
            },
    {
        match find_terminator(value.as_slice()) {
            Some(pos) => {
                proof {
                    lemma_first_terminator_is(value@, pos as int);
                }
                let before = slice_to_vec(slice_subrange(value.as_slice(), 0, pos));
                assert(before@ =~= value@.take(pos as int));
                assert(pos + 4 <= value.len());
                match text_from_utf8(before) {
                    Some(all) => Ok(
                        Response {
                            full_data: value,
                            headers_splitoff: pos + 4,
                            headers: Headers { all },
                        },
                    ),
                    None => Err(ProtocolError::InvalidText),
                }
            },
            None => Err(ProtocolError::NoTerminator),
        }
    }

    /// The payload bytes.
    pub fn data(&self) -> (body: &[u8])
        ensures
            body@ == self.body(),
    {
        proof {
            use_type_invariant(self);
        }
        slice_subrange(self.full_data.as_slice(), self.headers_splitoff, self.full_data.len())
    }

    /// The header block.
    pub fn headers(&self) -> (h: &Headers)
        ensures
            h.all@ == self.header_text(),
    {
        &self.headers
    }

    /// All the bytes received, headers and terminator included.
    pub fn full_data(&self) -> (all: &[u8])
        ensures
            all@ == self.raw(),
    {
        self.full_data.as_slice()
    }

    /// Where in the received bytes the payload begins.
    pub fn headers_splitoff(&self) -> (offset: usize)
        ensures
            offset == self.body_offset(),
    {
        self.headers_splitoff
    }
}

} // verus!
