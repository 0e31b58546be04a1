//! The accumulator: the responses received so far, how many payload bytes they
//! hold together, and how many the server declared.

use crate::response::Response;
use vstd::prelude::*;

verus! {

/// The bodies one after another, in their order.
pub open spec fn joined(bodies: Seq<Seq<u8>>) -> Seq<u8>
    decreases bodies.len(),
{
    if bodies.len() == 0 {
        Seq::empty()
    } else {
        joined(bodies.drop_last()) + bodies.last()
    }
}

/// Whether `cuts` cuts the range from 0 to `len` into consecutive pieces: it
/// begins with 0, ends with `len`, and never steps back.
pub open spec fn is_partition(cuts: Seq<int>, len: int) -> bool {
    &&& cuts.len() >= 1
    &&& cuts[0] == 0
    &&& cuts.last() == len
    &&& forall|i: int| 0 <= i < cuts.len() - 1 ==> cuts[i] <= #[trigger] cuts[i + 1]
}

/// The pieces into which `cuts` cuts `payload`.
pub open spec fn pieces(payload: Seq<u8>, cuts: Seq<int>) -> Seq<Seq<u8>> {
    Seq::new((cuts.len() - 1) as nat, |i: int| payload.subrange(cuts[i], cuts[i + 1]))
}

/// One more body adds its bytes behind those of the others.
pub proof fn lemma_joined_push(bodies: Seq<Seq<u8>>, body: Seq<u8>)
    ensures
        joined(bodies.push(body)) == joined(bodies) + body,
        joined(seq![body]) == body,
{
    assert(bodies.push(body).drop_last() =~= bodies);
    assert(seq![body].drop_last() =~= Seq::<Seq<u8>>::empty());
    assert(joined(seq![body].drop_last()) =~= Seq::<u8>::empty());
    assert(joined(seq![body]) =~= body);
}

/// Joining more bodies gives no fewer bytes.
pub proof fn lemma_joined_grows(bodies: Seq<Seq<u8>>, k: int)
    requires
        0 <= k <= bodies.len(),
    ensures
        joined(bodies.take(k)).len() <= joined(bodies).len(),
    decreases bodies.len(),
{
    if k == bodies.len() {
        assert(bodies.take(k) =~= bodies);
    } else {
        lemma_joined_grows(bodies.drop_last(), k);
        assert(bodies.drop_last().take(k) =~= bodies.take(k));
    }
}

/// The first `k` pieces of a partition rejoin to the payload up to the `k`th cut.
pub proof fn lemma_pieces_rejoin_upto(payload: Seq<u8>, cuts: Seq<int>, k: int)
    requires
        is_partition(cuts, payload.len() as int),
        0 <= k <= cuts.len() - 1,
    ensures
        0 <= cuts[k] <= payload.len(),
        joined(pieces(payload, cuts).take(k)) == payload.take(cuts[k]),
    decreases k,
{
    lemma_cuts_bounded(cuts, payload.len() as int, k);
    let all = pieces(payload, cuts);
    if k == 0 {
        assert(joined(all.take(0)) =~= payload.take(0));
    } else {
        lemma_pieces_rejoin_upto(payload, cuts, k - 1);
        assert(all.take(k).drop_last() =~= all.take(k - 1));
        assert(all.take(k).last() == payload.subrange(cuts[k - 1], cuts[k]));
        assert(payload.take(cuts[k - 1]) + payload.subrange(cuts[k - 1], cuts[k]) =~= payload.take(
            cuts[k],
        ));
    }
}

/// Every cut of a partition lies between those before it and those behind it,
/// and so inside the range.
pub proof fn lemma_cuts_bounded(cuts: Seq<int>, len: int, k: int)
    requires
        is_partition(cuts, len),
        0 <= k <= cuts.len() - 1,
    ensures
        0 <= cuts[k] <= len,
        k > 0 ==> cuts[k - 1] <= cuts[k],
{
    lemma_cuts_ordered(cuts, 0, k);
    lemma_cuts_ordered(cuts, k, cuts.len() - 1);
    if k > 0 {
        lemma_cuts_ordered(cuts, k - 1, k);
    }
}

/// The cuts of a partition are in order.
pub proof fn lemma_cuts_ordered(cuts: Seq<int>, i: int, j: int)
    requires
        forall|i: int| 0 <= i < cuts.len() - 1 ==> cuts[i] <= #[trigger] cuts[i + 1],
        0 <= i <= j < cuts.len(),
    ensures
        cuts[i] <= cuts[j],
    decreases j - i,
{
    if i < j {
        lemma_cuts_ordered(cuts, i, j - 1);
        assert(cuts[j - 1] <= cuts[j - 1 + 1]);
    }
}

/// A payload cut into consecutive pieces is the pieces joined in their order.
pub proof fn lemma_pieces_rejoin(payload: Seq<u8>, cuts: Seq<int>)
    requires
        is_partition(cuts, payload.len() as int),
    ensures
        joined(pieces(payload, cuts)) == payload,
{
    let all = pieces(payload, cuts);
    lemma_pieces_rejoin_upto(payload, cuts, cuts.len() - 1);
    assert(all.take(cuts.len() - 1) =~= all);
    assert(payload.take(payload.len() as int) =~= payload);
}

/// Each body has its own place in the joined bytes, right behind the bodies
/// before it: no two overlap, and nothing lies between them.
pub proof fn lemma_body_place(bodies: Seq<Seq<u8>>, k: int)
    requires
        0 <= k < bodies.len(),
    ensures
        joined(bodies.take(k + 1)) == joined(bodies.take(k)) + bodies[k],
        joined(bodies.take(k + 1)).len() <= joined(bodies).len(),
        joined(bodies).subrange(
            joined(bodies.take(k)).len() as int,
            joined(bodies.take(k + 1)).len() as int,
        ) == bodies[k],
    decreases bodies.len(),
{
    assert(bodies.take(k + 1).drop_last() =~= bodies.take(k));
    lemma_joined_grows(bodies, k + 1);
    if k + 1 == bodies.len() {
        assert(bodies.take(k + 1) =~= bodies);
        assert(joined(bodies).subrange(
            joined(bodies.take(k)).len() as int,
            joined(bodies.take(k + 1)).len() as int,
        ) =~= bodies[k]);
    } else {
        let front = bodies.drop_last();
        lemma_body_place(front, k);
        assert(front.take(k + 1) =~= bodies.take(k + 1));
        assert(front.take(k) =~= bodies.take(k));
        lemma_joined_grows(front, k + 1);
        assert(joined(bodies).subrange(
            joined(bodies.take(k)).len() as int,
            joined(bodies.take(k + 1)).len() as int,
        ) =~= joined(front).subrange(
            joined(bodies.take(k)).len() as int,
            joined(bodies.take(k + 1)).len() as int,
        ));
    }
}

/// Until the body arrives with which the bytes held first reach `target`, fewer
/// than `target` bytes are held: completion is reported for that body and for
/// none before it.
pub proof fn lemma_completion_first(bodies: Seq<Seq<u8>>, target: nat, last: int, k: int)
    requires
        0 <= k < last < bodies.len(),
        joined(bodies.take(last + 1)).len() == target,
        forall|j: int| 0 <= j < last ==> joined(#[trigger] bodies.take(j + 1)).len() != target,
    ensures
        joined(bodies.take(k + 1)).len() < target,
{
    let upto = bodies.take(last + 1);
    lemma_joined_grows(upto, k + 1);
    assert(upto.take(k + 1) =~= bodies.take(k + 1));
}

/// Why persisting stops.
#[derive(Debug, PartialEq, Eq, Clone, Copy)]
pub enum PersistError {
    /// A write transferred another number of bytes than the body it was given.
    ShortWrite { expected: usize, written: usize },
}

/// The payload as far as it has been received.
#[derive(Debug)]
pub struct WholeData {
    target_len: usize,
    current_len: usize,
    data: Vec<Response>,
}

impl WholeData {
    /// The length of the whole payload, as the server declared it.
    pub closed spec fn target(self) -> nat {
        self.target_len as nat
    }

    /// The number of payload bytes counted so far.
    pub closed spec fn received(self) -> nat {
        self.current_len as nat
    }

    /// The bodies of the responses held, in the order of their arrival.
    pub closed spec fn bodies(self) -> Seq<Seq<u8>> {
        Seq::new(self.data@.len(), |i: int| self.data@[i].body())
    }

    /// The payload bytes held: the bodies in the order of their arrival.
    pub open spec fn payload(self) -> Seq<u8> {
        joined(self.bodies())
    }

    /// The count of received bytes is the number of payload bytes held.
    pub open spec fn wf(self) -> bool {
        self.received() == self.payload().len()
    }

    /// What persisting has written after `done` writes: the first `done` bodies.
    pub open spec fn saved(self, done: int) -> Seq<u8> {
        joined(self.bodies().take(done))
    }

    /// An accumulator for a payload of `target_len` bytes that holds the first response.
    pub fn new(target_len: usize, first: Response) -> (acc: WholeData)
        ensures
            acc.wf(),
            acc.target() == target_len,
            acc.bodies() == seq![first.body()],
            acc.received() == first.body().len(),
    {
        let current_len = first.data().len();
        let mut data: Vec<Response> = Vec::new();
        data.push(first);
        let acc = WholeData { target_len, current_len, data };
        assert(acc.bodies() =~= seq![first.body()]);
        assert(acc.bodies().drop_last() =~= Seq::<Seq<u8>>::empty());
        assert(joined(acc.bodies().drop_last()) =~= Seq::<u8>::empty());
        assert(joined(acc.bodies()) =~= first.body());
        acc
    }

    /// Takes the next response in.  Returns true if the whole payload has now
    /// been received: if the count of received bytes equals the declared length.
    pub fn add(&mut self, response: Response) -> (complete: bool)
        requires
            old(self).received() + response.body().len() <= usize::MAX,
        ensures
            final(self).target() == old(self).target(),
            final(self).bodies() == old(self).bodies().push(response.body()),
            final(self).received() == old(self).received() + response.body().len(),
            complete == (final(self).received() == final(self).target()),
            old(self).wf() ==> final(self).wf(),
    {
        self.current_len += response.data().len();
        self.data.push(response);
        assert(self.bodies() =~= old(self).bodies().push(response.body()));
        assert(self.bodies().drop_last() =~= old(self).bodies());
        self.current_len == self.target_len
    }

    /// The declared length of the whole payload.
    pub fn target_len(&self) -> (n: usize)
        ensures
            n == self.target(),
    {
        self.target_len
    }

    /// The number of payload bytes received so far.
    pub fn current_len(&self) -> (n: usize)
        ensures
            n == self.received(),
    {
        self.current_len
    }

    /// The number of responses held.
    pub fn fragments(&self) -> (n: usize)
        ensures
            n == self.bodies().len(),
    {
        self.data.len()
    }

    /// The payload bytes held, in one buffer.
    pub fn _to_vec(&self) -> (all: Vec<u8>)
        ensures
            all@ == self.payload(),
    {
        let mut all: Vec<u8> = Vec::new();
        let mut i: usize = 0;
        while i < self.data.len()
            invariant
                i <= self.data@.len(),
                all@ == joined(self.bodies().take(i as int)),
            decreases self.data@.len() - i,
        {
            let body = self.data[i].data();
            let ghost before = all@;
            let mut j: usize = 0;
            while j < body.len()
                invariant
                    j <= body@.len(),
                    all@ == before + body@.take(j as int),
                decreases body@.len() - j,
            {
                all.push(body[j]);
                assert(all@ =~= before + body@.take(j + 1));
                j += 1;
            }
            assert(body@.take(body@.len() as int) =~= body@);
            assert(self.bodies().take(i + 1).drop_last() =~= self.bodies().take(i as int));
            assert(self.bodies().take(i + 1).last() == body@);
            i += 1;
        }
        assert(self.bodies().take(i as int) =~= self.bodies());
        all
    }

    /// What persisting writes next after `done` writes: the body of the next
    /// response, or nothing once every body has been written.
    pub fn save(&self, done: usize) -> (next: Option<&[u8]>)
        ensures
            match next {
                Some(body) => done < self.bodies().len() && body@ == self.bodies()[done as int],
                None => done >= self.bodies().len(),
            },
    {
        if done < self.data.len() {
            Some(self.data[done].data())
        } else {
            None
        }
    }

    /// Judges the write that followed `done` earlier ones: it must have
    /// transferred exactly the bytes of the body it was given.  Returns the
    /// number of writes now done.
    pub fn written(&self, done: usize, count: usize) -> (res: Result<usize, PersistError>)
        requires
            done < self.bodies().len(),
        ensures
            match res {
                Ok(now) => {
                    &&& count == self.bodies()[done as int].len()
                    &&& now == done + 1
                    &&& self.saved(now as int) == self.saved(done as int) + self.bodies()[done as int]
                },
                Err(e) => {
                    &&& count != self.bodies()[done as int].len()
                    &&& e == (PersistError::ShortWrite {
                        expected: self.bodies()[done as int].len() as usize,
                        written: count,
                    })
                },
            },
    {
        let expected = self.data[done].data().len();
        if count == expected {
            assert(done < self.data.len());
            assert(self.bodies().take(done + 1).drop_last() =~= self.bodies().take(done as int));
            Ok(done + 1)
        } else {
            Err(PersistError::ShortWrite { expected, written: count })
        }
    }

    /// Both counts are such as a `usize` can hold.
    pub proof fn lemma_counts_fit(self)
        ensures
            self.target() <= usize::MAX,
            self.received() <= usize::MAX,
    {
    }

    /// Once every body has been written, what was written is the payload; and
    /// before any write it is nothing.
    pub proof fn lemma_saved_all(self)
        ensures
            self.saved(0) == Seq::<u8>::empty(),
            self.saved(self.bodies().len() as int) == self.payload(),
    {
        assert(self.bodies().take(self.bodies().len() as int) =~= self.bodies());
        assert(self.bodies().take(0) =~= Seq::<Seq<u8>>::empty());
    }

    /// A payload that arrived cut into consecutive pieces, in their order, is held
    /// whole: the bytes held are the payload, and their count is its length.
    pub proof fn lemma_reassembled(self, payload: Seq<u8>, cuts: Seq<int>)
        requires
            self.wf(),
            is_partition(cuts, payload.len() as int),
            self.bodies() == pieces(payload, cuts),
        ensures
            self.payload() == payload,
            self.received() == payload.len(),
    {
        lemma_pieces_rejoin(payload, cuts);
    }
}

} // verus!
