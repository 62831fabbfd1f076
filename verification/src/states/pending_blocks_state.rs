use vstd::prelude::*;
use crate::hashing::{bytes_equal, copy_bytes};

verus! {

/// The age, in milliseconds, above which a request for a block is stale.
pub const STALE_AFTER_MILLIS: i64 = 5000;

/// The clock: `chrono::Local::now().timestamp_millis()`, the milliseconds
/// since the epoch at the moment of the call. Nothing is claimed of it.
#[verifier::external_body]
fn now_millis() -> i64 {
    chrono::Local::now().timestamp_millis()
}

/// Where `hash` stands among the requests, if it does.
pub open spec fn request_position(requests: Seq<(Seq<u8>, i64)>, hash: Seq<u8>) -> Option<int>
    decreases requests.len(),
{
    if requests.len() == 0 {
        None
    } else if requests.last().0 == hash {
        Some(requests.len() - 1)
    } else {
        request_position(requests.drop_last(), hash)
    }
}

/// Whether a block with this hash has been asked for and not yet stored.
pub open spec fn is_pending(requests: Seq<(Seq<u8>, i64)>, hash: Seq<u8>) -> bool {
    request_position(requests, hash) is Some
}

/// No hash occurs twice.
pub open spec fn distinct_hashes(requests: Seq<(Seq<u8>, i64)>) -> bool {
    forall|i: int, j: int|
        0 <= i < requests.len() && 0 <= j < requests.len() && i != j ==> (#[trigger] requests[i]).0
            != (#[trigger] requests[j]).0
}

/// The requests after `hash` is asked for at time `now`: one more request
/// at the end, unless the hash is pending already, in which case nothing
/// changes, not even its time.
pub open spec fn with_request(requests: Seq<(Seq<u8>, i64)>, hash: Seq<u8>, now: i64) -> Seq<
    (Seq<u8>, i64),
> {
    if is_pending(requests, hash) {
        requests
    } else {
        requests.push((hash, now))
    }
}

/// The requests after the one for `hash`, if any, is dropped.
pub open spec fn without_request(requests: Seq<(Seq<u8>, i64)>, hash: Seq<u8>) -> Seq<
    (Seq<u8>, i64),
> {
    match request_position(requests, hash) {
        Some(i) => requests.remove(i),
        None => requests,
    }
}

/// Whether a request made at `stamp` is stale at `now`: older than the
/// threshold.
pub open spec fn is_stale(stamp: i64, now: i64) -> bool {
    now - stamp > STALE_AFTER_MILLIS
}

/// The hashes of the stale requests, in the order of the requests.
pub open spec fn stale_hashes(requests: Seq<(Seq<u8>, i64)>, now: i64) -> Seq<Seq<u8>>
    decreases requests.len(),
{
    if requests.len() == 0 {
        Seq::empty()
    } else if is_stale(requests.last().1, now) {
        stale_hashes(requests.drop_last(), now).push(requests.last().0)
    } else {
        stale_hashes(requests.drop_last(), now)
    }
}

/// The requests with every stale one given the time `now`.
pub open spec fn restamped(requests: Seq<(Seq<u8>, i64)>, now: i64) -> Seq<(Seq<u8>, i64)> {
    requests.map_values(
        |request: (Seq<u8>, i64)|
            if is_stale(request.1, now) {
                (request.0, now)
            } else {
                request
            },
    )
}

/// `request_position` finds the hash where it stands, and finds nothing
/// only where the hash stands nowhere.
pub proof fn lemma_request_position(requests: Seq<(Seq<u8>, i64)>, hash: Seq<u8>)
    ensures
        match request_position(requests, hash) {
            Some(i) => 0 <= i < requests.len() && requests[i].0 == hash,
            None => forall|i: int| 0 <= i < requests.len() ==> (#[trigger] requests[i]).0 != hash,
        },
    decreases requests.len(),
{
    if requests.len() > 0 && requests.last().0 != hash {
        lemma_request_position(requests.drop_last(), hash);
        assert forall|i: int|
            0 <= i < requests.len() && request_position(requests, hash) is None implies (
        #[trigger] requests[i]).0 != hash by {
            if i < requests.len() - 1 {
                assert(requests.drop_last()[i] == requests[i]);
            }
        }
    }
}

/// Once the request for a block is dropped, the block is not pending.
pub proof fn lemma_removed_not_pending(requests: Seq<(Seq<u8>, i64)>, hash: Seq<u8>)
    requires
        distinct_hashes(requests),
    ensures
        !is_pending(without_request(requests, hash), hash),
{
    lemma_request_position(requests, hash);
    let left = without_request(requests, hash);
    lemma_request_position(left, hash);
    match request_position(requests, hash) {
        Some(p) => {
            if is_pending(left, hash) {
                let q = request_position(left, hash)->Some_0;
                let source = if q < p {
                    q
                } else {
                    q + 1
                };
                assert(left[q] == requests[source]);
            }
        },
        None => {},
    }
}

/// Asking twice for a block leaves what asking once leaves: one request,
/// with the time of the first.
pub proof fn lemma_request_twice(
    requests: Seq<(Seq<u8>, i64)>,
    hash: Seq<u8>,
    first: i64,
    second: i64,
)
    ensures
        with_request(with_request(requests, hash, first), hash, second) == with_request(
            requests,
            hash,
            first,
        ),
        is_pending(with_request(requests, hash, first), hash),
        !is_pending(requests, hash) ==> with_request(
            with_request(requests, hash, first),
            hash,
            second,
        ).len() == requests.len() + 1,
{
    let once = with_request(requests, hash, first);
    if !is_pending(requests, hash) {
        assert(once.drop_last() =~= requests);
    }
}

/// A request that was restamped is no longer stale: a second look at the
/// same time reports nothing.
pub proof fn lemma_restamped_not_stale(requests: Seq<(Seq<u8>, i64)>, now: i64)
    ensures
        stale_hashes(restamped(requests, now), now) == Seq::<Seq<u8>>::empty(),
    decreases requests.len(),
{
    let after = restamped(requests, now);
    if requests.len() > 0 {
        lemma_restamped_not_stale(requests.drop_last(), now);
        assert(after.drop_last() =~= restamped(requests.drop_last(), now));
    }
}

/// The requests for blocks that are under way: for each hash asked for and
/// not yet stored, the time of the request. No hash occurs twice.
pub struct PendingBlocks {
    requests: Vec<(Vec<u8>, i64)>,
}

/// The requests as plain values, in their order.
pub open spec fn requests_view(requests: Seq<(Vec<u8>, i64)>) -> Seq<(Seq<u8>, i64)> {
    requests.map_values(|request: (Vec<u8>, i64)| (request.0@, request.1))
}

/// The hashes as plain values, in their order.
pub open spec fn hashes_view(hashes: Seq<Vec<u8>>) -> Seq<Seq<u8>> {
    hashes.map_values(|hash: Vec<u8>| hash@)
}

impl View for PendingBlocks {
    type V = Seq<(Seq<u8>, i64)>;

    closed spec fn view(&self) -> Seq<(Seq<u8>, i64)> {
        requests_view(self.requests@)
    }
}

impl PendingBlocks {
    /// No hash occurs twice among the requests.
    #[verifier::type_invariant]
    pub closed spec fn wf(&self) -> bool {
        distinct_hashes(requests_view(self.requests@))
    }

    /// No request.
    pub fn new() -> (pending: Self)
        ensures
            pending@ == Seq::<(Seq<u8>, i64)>::empty(),
            pending.wf(),
    {
        let pending = Self { requests: Vec::new() };
        assert(requests_view(pending.requests@) =~= Seq::empty());
        pending
    }

    /// No hash occurs twice among the requests.
    pub proof fn lemma_distinct(&self)
        requires
            self.wf(),
        ensures
            distinct_hashes(self@),
    {
    }

    /// Where `hash` stands among the requests, if it does.
    fn find(&self, hash: &Vec<u8>) -> (found: Option<usize>)
        ensures
            match found {
                Some(k) => k < self.requests@.len() && request_position(self@, hash@) == Some(
                    k as int,
                ),
                None => request_position(self@, hash@) is None,
            },
    {
        let ghost requests = self@;
        let mut i: usize = self.requests.len();
        assert(requests.take(i as int) =~= requests);
        while i > 0
            invariant
                i <= self.requests@.len(),
                requests == requests_view(self.requests@),
                request_position(requests, hash@) == request_position(
                    requests.take(i as int),
                    hash@,
                ),
            decreases i,
        {
            proof {
                let front = requests.take(i as int);
                assert(front.drop_last() =~= requests.take(i - 1));
                assert(front.last() == requests[i - 1]);
            }
            i = i - 1;
            if bytes_equal(self.requests[i].0.as_slice(), hash.as_slice()) {
                return Some(i);
            }
        }
        None
    }

    /// Notes that the block with hash `header_hash` is asked for now. A
    /// hash that is pending already keeps its request and its time.
    pub fn append_block(&mut self, header_hash: Vec<u8>)
        ensures
            exists|now: i64| final(self)@ == with_request(old(self)@, header_hash@, now),
            final(self).wf(),
    {
        let now = now_millis();
        self.append_block_at(header_hash, now);
    }

    /// Notes that the block with hash `header_hash` is asked for at time
    /// `now`. A hash that is pending already keeps its request and its
    /// time.
    pub fn append_block_at(&mut self, header_hash: Vec<u8>, now: i64)
        ensures
            final(self)@ == with_request(old(self)@, header_hash@, now),
            final(self).wf(),
    {
        proof {
            use_type_invariant(&*self);
            lemma_request_position(self@, header_hash@);
        }
        if self.find(&header_hash).is_some() {
            return ;
        }
        let mut requests: Vec<(Vec<u8>, i64)> = Vec::new();
        assert(requests_view(requests@) =~= Seq::empty());
        core::mem::swap(&mut self.requests, &mut requests);
        requests.push((header_hash, now));
        proof {
            let after = requests_view(requests@);
            assert(after =~= old(self)@.push((header_hash@, now)));
            assert forall|i: int, j: int|
                0 <= i < after.len() && 0 <= j < after.len() && i != j implies (#[trigger] after[i]).0
                != (#[trigger] after[j]).0 by {
                if i < old(self)@.len() {
                    assert(after[i] == old(self)@[i]);
                }
                if j < old(self)@.len() {
                    assert(after[j] == old(self)@[j]);
                }
            }
        }
        self.requests = requests;
    }

    /// Whether the block with hash `block_hash` is asked for and not yet
    /// stored.
    pub fn is_block_pending(&self, block_hash: &Vec<u8>) -> (pending: bool)
        ensures
            pending == is_pending(self@, block_hash@),
    {
        self.find(block_hash).is_some()
    }

    /// Drops the request for the block with hash `block_hash`, if there is
    /// one. Says whether there was.
    pub fn remove_block(&mut self, block_hash: &Vec<u8>) -> (removed: bool)
        ensures
            removed == is_pending(old(self)@, block_hash@),
            final(self)@ == without_request(old(self)@, block_hash@),
            !is_pending(final(self)@, block_hash@),
            final(self).wf(),
    {
        proof {
            use_type_invariant(&*self);
            lemma_removed_not_pending(self@, block_hash@);
        }
        let found = self.find(block_hash);
        match found {
            None => false,
            Some(i) => {
                let mut requests: Vec<(Vec<u8>, i64)> = Vec::new();
                assert(requests_view(requests@) =~= Seq::empty());
                core::mem::swap(&mut self.requests, &mut requests);
                let _ = requests.remove(i);
                proof {
                    let before = old(self)@;
                    let after = requests_view(requests@);
                    assert(after =~= before.remove(i as int));
                    assert forall|a: int, b: int|
                        0 <= a < after.len() && 0 <= b < after.len() && a != b implies (
                    #[trigger] after[a]).0 != (#[trigger] after[b]).0 by {
                        let x = if a < i {
                            a
                        } else {
                            a + 1
                        };
                        let y = if b < i {
                            b
                        } else {
                            b + 1
                        };
                        assert(after[a] == before[x]);
                        assert(after[b] == before[y]);
                    }
                }
                self.requests = requests;
                true
            },
        }
    }

    /// Whether no block is pending.
    pub fn is_empty(&self) -> (empty: bool)
        ensures
            empty == (self@.len() == 0),
    {
        self.requests.len() == 0
    }

    /// The number of pending blocks.
    pub fn len(&self) -> (n: usize)
        ensures
            n == self@.len(),
    {
        self.requests.len()
    }

    /// The hashes whose requests are stale now, in the order of the
    /// requests. Each of them gets the time of this call, so that the next
    /// call does not report it again until it has aged again.
    pub fn get_stale_requests(&mut self) -> (stale: Vec<Vec<u8>>)
        ensures
            exists|now: i64|
                hashes_view(stale@) == stale_hashes(old(self)@, now) && final(self)@ == restamped(
                    old(self)@,
                    now,
                ),
            final(self).wf(),
    {
        let now = now_millis();
        self.get_stale_requests_at(now)
    }

    /// The hashes whose requests are stale at time `now`: older than five
    /// seconds. Each of them gets the time `now`.
    pub fn get_stale_requests_at(&mut self, now: i64) -> (stale: Vec<Vec<u8>>)
        ensures
            hashes_view(stale@) == stale_hashes(old(self)@, now),
            final(self)@ == restamped(old(self)@, now),
            final(self).wf(),
    {
        proof {
            use_type_invariant(&*self);
        }
        let ghost before = self@;
        let mut requests: Vec<(Vec<u8>, i64)> = Vec::new();
        assert(requests_view(requests@) =~= Seq::empty());
        core::mem::swap(&mut self.requests, &mut requests);
        let mut stale: Vec<Vec<u8>> = Vec::new();
        let mut i: usize = 0;
        assert(hashes_view(stale@) =~= Seq::empty());
        while i < requests.len()
            invariant
                i <= requests@.len(),
                requests@.len() == before.len(),
                hashes_view(stale@) == stale_hashes(before.take(i as int), now),
                forall|j: int| 0 <= j < i ==> (#[trigger] requests_view(requests@)[j]) == restamped(before, now)[j],
                forall|j: int| i <= j < before.len() ==> (#[trigger] requests_view(requests@)[j]) == before[j],
            decreases requests@.len() - i,
        {
            proof {
                let next = before.take(i + 1);
                assert(next.drop_last() =~= before.take(i as int));
                assert(next.last() == before[i as int]);
                assert(requests_view(requests@)[i as int] == before[i as int]);
            }
            let stamp = requests[i].1;
            if now as i128 - stamp as i128 > STALE_AFTER_MILLIS as i128 {
                let hash = copy_bytes(&requests[i].0);
                proof {
                    assert(hashes_view(stale@.push(hash)) =~= hashes_view(stale@).push(hash@));
                }
                stale.push(copy_bytes(&hash));
                let ghost earlier = requests_view(requests@);
                requests[i] = (hash, now);
                proof {
                    let later = requests_view(requests@);
                    assert forall|j: int| 0 <= j < i + 1 implies (#[trigger] later[j]) == restamped(
                        before,
                        now,
                    )[j] by {
                        if j < i {
                            assert(later[j] == earlier[j]);
                        }
                    }
                    assert forall|j: int| i + 1 <= j < before.len() implies (#[trigger] later[j])
                        == before[j] by {
                        assert(later[j] == earlier[j]);
                    }
                }
            }
            i = i + 1;
        }
        proof {
            assert(before.take(i as int) =~= before);
            let after = requests_view(requests@);
            assert(after =~= restamped(before, now));
            assert forall|a: int, b: int|
                0 <= a < after.len() && 0 <= b < after.len() && a != b implies (#[trigger] after[a]).0
                != (#[trigger] after[b]).0 by {
                assert(after[a].0 == before[a].0);
                assert(after[b].0 == before[b].0);
            }
        }
        self.requests = requests;
        stale
    }
}

} // verus!
