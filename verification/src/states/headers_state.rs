use vstd::prelude::*;
use crate::error::CustomError;
use crate::hashing::{bytes_equal, copy_bytes};
use crate::messages::get_headers::GetHeaders;
use crate::states::pending_blocks_state::hashes_view;
use crate::structs::block_header::{BlockHeader, BlockHeaderView};

verus! {

/// The most headers that one answer to a request for headers carries. An
/// answer with fewer says that the chain has been followed to its tip.
pub const MAX_HEADERS_PER_REPLY: usize = 2000;

/// The time after which a header's block is downloaded: blocks of earlier
/// headers are not asked for.
pub const START_DATE_IBD: u32 = 1681095630;

/// The headers as plain values, in their order.
pub open spec fn headers_view(headers: Seq<BlockHeader>) -> Seq<BlockHeaderView> {
    headers.map_values(|header: BlockHeader| header@)
}

/// The hash that the next header must name as the one before it: that of
/// the last header, or the anchor while the chain is empty.
pub open spec fn tip_hash(chain: Seq<BlockHeaderView>, anchor: Seq<u8>) -> Seq<u8> {
    if chain.len() == 0 {
        anchor
    } else {
        chain.last().hash
    }
}

/// Where the header with this hash stands in the chain, if it does.
pub open spec fn header_position(chain: Seq<BlockHeaderView>, hash: Seq<u8>) -> Option<int>
    decreases chain.len(),
{
    if chain.len() == 0 {
        None
    } else if chain.last().hash == hash {
        Some(chain.len() - 1)
    } else {
        header_position(chain.drop_last(), hash)
    }
}

/// Every header names the one before it, and the first names the anchor.
pub open spec fn linked(chain: Seq<BlockHeaderView>, anchor: Seq<u8>) -> bool {
    forall|i: int|
        0 <= i < chain.len() ==> (#[trigger] chain[i]).prev_block_hash == if i == 0 {
            anchor
        } else {
            chain[i - 1].hash
        }
}

/// No hash occurs twice.
pub open spec fn distinct_headers(chain: Seq<BlockHeaderView>) -> bool {
    forall|i: int, j: int|
        0 <= i < chain.len() && 0 <= j < chain.len() && i != j ==> (#[trigger] chain[i]).hash != (
        #[trigger] chain[j]).hash
}

/// The chain holds together: every header names the one before it, and no
/// hash occurs twice.
#[verifier::opaque]
pub open spec fn well_linked(chain: Seq<BlockHeaderView>, anchor: Seq<u8>) -> bool {
    linked(chain, anchor) && distinct_headers(chain)
}

/// A chain with no header holds together.
pub proof fn lemma_empty_chain(anchor: Seq<u8>)
    ensures
        well_linked(Seq::empty(), anchor),
{
    reveal(well_linked);
}

/// A chain that holds together still does when a header that it does not
/// have and that names its tip is added.
pub proof fn lemma_push_keeps_chain(
    chain: Seq<BlockHeaderView>,
    anchor: Seq<u8>,
    header: BlockHeaderView,
)
    requires
        well_linked(chain, anchor),
        header_position(chain, header.hash) is None,
        header.prev_block_hash == tip_hash(chain, anchor),
    ensures
        well_linked(chain.push(header), anchor),
{
    reveal(well_linked);
    lemma_header_position(chain, header.hash);
    let longer = chain.push(header);
    assert forall|k: int| 0 <= k < longer.len() implies (#[trigger] longer[k]).prev_block_hash
        == if k == 0 {
        anchor
    } else {
        longer[k - 1].hash
    } by {
        if k < chain.len() {
            assert(longer[k] == chain[k]);
            if k > 0 {
                assert(longer[k - 1] == chain[k - 1]);
            }
        }
    }
    assert forall|a: int, b: int|
        0 <= a < longer.len() && 0 <= b < longer.len() && a != b implies (#[trigger] longer[a]).hash
        != (#[trigger] longer[b]).hash by {
        if a < chain.len() {
            assert(longer[a] == chain[a]);
        }
        if b < chain.len() {
            assert(longer[b] == chain[b]);
        }
    }
}

/// A chain that holds together still does when the note on one header
/// changes.
pub proof fn lemma_note_keeps_chain(
    chain: Seq<BlockHeaderView>,
    anchor: Seq<u8>,
    after: Seq<BlockHeaderView>,
)
    requires
        well_linked(chain, anchor),
        after.len() == chain.len(),
        forall|k: int|
            0 <= k < chain.len() ==> (#[trigger] after[k]).hash == chain[k].hash
                && after[k].prev_block_hash == chain[k].prev_block_hash,
    ensures
        well_linked(after, anchor),
{
    reveal(well_linked);
    assert forall|k: int| 0 <= k < after.len() implies (#[trigger] after[k]).prev_block_hash
        == if k == 0 {
        anchor
    } else {
        after[k - 1].hash
    } by {
        assert(after[k].prev_block_hash == chain[k].prev_block_hash);
        if k > 0 {
            assert(after[k - 1].hash == chain[k - 1].hash);
        }
    }
    assert forall|a: int, b: int|
        0 <= a < after.len() && 0 <= b < after.len() && a != b implies (#[trigger] after[a]).hash
        != (#[trigger] after[b]).hash by {
        assert(after[a].hash == chain[a].hash);
        assert(after[b].hash == chain[b].hash);
    }
}

/// The chain after a batch of headers is offered, in the order of the
/// batch: a header whose hash the chain has already is passed over; one
/// that names the tip is added and becomes the tip; at the first header
/// that does neither, the rest of the batch is dropped.
pub open spec fn extend(
    chain: Seq<BlockHeaderView>,
    anchor: Seq<u8>,
    batch: Seq<BlockHeaderView>,
) -> Seq<BlockHeaderView>
    decreases batch.len(),
{
    if batch.len() == 0 {
        chain
    } else if header_position(chain, batch[0].hash) is Some {
        extend(chain, anchor, batch.drop_first())
    } else if batch[0].prev_block_hash == tip_hash(chain, anchor) {
        extend(chain.push(batch[0]), anchor, batch.drop_first())
    } else {
        chain
    }
}

/// The headers of a batch that the chain takes: what `extend` adds.
pub open spec fn accepted(
    chain: Seq<BlockHeaderView>,
    anchor: Seq<u8>,
    batch: Seq<BlockHeaderView>,
) -> Seq<BlockHeaderView>
    decreases batch.len(),
{
    if batch.len() == 0 {
        Seq::empty()
    } else if header_position(chain, batch[0].hash) is Some {
        accepted(chain, anchor, batch.drop_first())
    } else if batch[0].prev_block_hash == tip_hash(chain, anchor) {
        seq![batch[0]] + accepted(chain.push(batch[0]), anchor, batch.drop_first())
    } else {
        Seq::empty()
    }
}

/// Whether a header of the batch is turned away: it is not in the chain
/// and does not name the tip.
pub open spec fn rejects(
    chain: Seq<BlockHeaderView>,
    anchor: Seq<u8>,
    batch: Seq<BlockHeaderView>,
) -> bool
    decreases batch.len(),
{
    if batch.len() == 0 {
        false
    } else if header_position(chain, batch[0].hash) is Some {
        rejects(chain, anchor, batch.drop_first())
    } else if batch[0].prev_block_hash == tip_hash(chain, anchor) {
        rejects(chain.push(batch[0]), anchor, batch.drop_first())
    } else {
        true
    }
}

/// The chain after batches are offered one after the other.
pub open spec fn extend_all(
    chain: Seq<BlockHeaderView>,
    anchor: Seq<u8>,
    batches: Seq<Seq<BlockHeaderView>>,
) -> Seq<BlockHeaderView>
    decreases batches.len(),
{
    if batches.len() == 0 {
        chain
    } else {
        extend(extend_all(chain, anchor, batches.drop_last()), anchor, batches.last())
    }
}

/// What the chain takes of each batch, one after the other.
pub open spec fn accepted_all(
    chain: Seq<BlockHeaderView>,
    anchor: Seq<u8>,
    batches: Seq<Seq<BlockHeaderView>>,
) -> Seq<BlockHeaderView>
    decreases batches.len(),
{
    if batches.len() == 0 {
        Seq::empty()
    } else {
        accepted_all(chain, anchor, batches.drop_last()) + accepted(
            extend_all(chain, anchor, batches.drop_last()),
            anchor,
            batches.last(),
        )
    }
}

/// The chain after a batch is the chain before it followed by what it took
/// of the batch.
pub proof fn lemma_extend_appends(
    chain: Seq<BlockHeaderView>,
    anchor: Seq<u8>,
    batch: Seq<BlockHeaderView>,
)
    ensures
        extend(chain, anchor, batch) == chain + accepted(chain, anchor, batch),
    decreases batch.len(),
{
    if batch.len() == 0 {
        assert(chain + Seq::<BlockHeaderView>::empty() =~= chain);
    } else if header_position(chain, batch[0].hash) is Some {
        lemma_extend_appends(chain, anchor, batch.drop_first());
    } else if batch[0].prev_block_hash == tip_hash(chain, anchor) {
        lemma_extend_appends(chain.push(batch[0]), anchor, batch.drop_first());
        assert(chain.push(batch[0]) + accepted(chain.push(batch[0]), anchor, batch.drop_first())
            =~= chain + (seq![batch[0]] + accepted(
            chain.push(batch[0]),
            anchor,
            batch.drop_first(),
        )));
    } else {
        assert(chain + Seq::<BlockHeaderView>::empty() =~= chain);
    }
}

/// After batches are offered in order to an empty chain, the chain is what
/// it took of the first batch, then what it took of the second, and so on.
pub proof fn lemma_chain_is_concatenation(anchor: Seq<u8>, batches: Seq<Seq<BlockHeaderView>>)
    ensures
        extend_all(Seq::empty(), anchor, batches) == accepted_all(Seq::empty(), anchor, batches),
    decreases batches.len(),
{
    if batches.len() > 0 {
        lemma_chain_is_concatenation(anchor, batches.drop_last());
        lemma_extend_appends(
            extend_all(Seq::empty(), anchor, batches.drop_last()),
            anchor,
            batches.last(),
        );
    }
}

/// `header_position` finds the hash where it stands, and finds nothing
/// only where the hash stands nowhere.
pub proof fn lemma_header_position(chain: Seq<BlockHeaderView>, hash: Seq<u8>)
    ensures
        match header_position(chain, hash) {
            Some(i) => 0 <= i < chain.len() && chain[i].hash == hash,
            None => forall|i: int| 0 <= i < chain.len() ==> (#[trigger] chain[i]).hash != hash,
        },
    decreases chain.len(),
{
    if chain.len() > 0 && chain.last().hash != hash {
        lemma_header_position(chain.drop_last(), hash);
        assert forall|i: int|
            0 <= i < chain.len() && header_position(chain, hash) is None implies (
        #[trigger] chain[i]).hash != hash by {
            if i < chain.len() - 1 {
                assert(chain.drop_last()[i] == chain[i]);
            }
        }
    }
}

/// Where the answer to a locator starts: behind the first hash of the
/// locator that the chain has, or at the first header when it has none.
pub open spec fn locator_start(chain: Seq<BlockHeaderView>, locator: Seq<Seq<u8>>) -> int
    decreases locator.len(),
{
    if locator.len() == 0 {
        0
    } else {
        match header_position(chain, locator[0]) {
            Some(i) => i + 1,
            None => locator_start(chain, locator.drop_first()),
        }
    }
}

/// Where the answer that starts at `start` ends: behind the header with the
/// stop hash, when that header is among the first 2000 from `start`; else
/// after 2000 headers, or at the tip when fewer are left.
pub open spec fn reply_end(chain: Seq<BlockHeaderView>, start: int, hash_stop: Seq<u8>) -> int {
    let limit = if chain.len() - start > MAX_HEADERS_PER_REPLY {
        start + MAX_HEADERS_PER_REPLY
    } else {
        chain.len() as int
    };
    match header_position(chain, hash_stop) {
        Some(i) => if start <= i < limit {
            i + 1
        } else {
            limit
        },
        None => limit,
    }
}

/// The headers that answer a request: up to 2000 headers that follow the
/// first hash of the locator that the chain has, up to and with the header
/// that has the stop hash.
pub open spec fn reply_headers(
    chain: Seq<BlockHeaderView>,
    locator: Seq<Seq<u8>>,
    hash_stop: Seq<u8>,
) -> Seq<BlockHeaderView> {
    let start = locator_start(chain, locator);
    chain.subrange(start, reply_end(chain, start, hash_stop))
}

/// The newest `count` headers, the tip first, each with its place in the
/// chain.
pub open spec fn last_headers(chain: Seq<BlockHeaderView>, count: nat) -> Seq<
    (int, BlockHeaderView),
> {
    Seq::new(
        if count < chain.len() {
            count
        } else {
            chain.len()
        },
        |k: int| (chain.len() - 1 - k, chain[chain.len() - 1 - k]),
    )
}

/// The headers with their places as plain values.
pub open spec fn placed_headers_view(headers: Seq<(usize, BlockHeader)>) -> Seq<
    (int, BlockHeaderView),
> {
    headers.map_values(|placed: (usize, BlockHeader)| (placed.0 as int, placed.1@))
}

/// The number of headers whose block has been stored.
pub open spec fn downloaded_count(chain: Seq<BlockHeaderView>) -> nat
    decreases chain.len(),
{
    if chain.len() == 0 {
        0
    } else {
        downloaded_count(chain.drop_last()) + if chain.last().block_downloaded {
            1nat
        } else {
            0nat
        }
    }
}

/// The number of headers whose block is to be downloaded: those made
/// after the start date.
pub open spec fn to_download_count(chain: Seq<BlockHeaderView>) -> nat
    decreases chain.len(),
{
    if chain.len() == 0 {
        0
    } else {
        to_download_count(chain.drop_last()) + if chain.last().timestamp > START_DATE_IBD {
            1nat
        } else {
            0nat
        }
    }
}

/// The hashes of the headers whose block has been stored, in the order of
/// the chain.
pub open spec fn downloaded_hashes(chain: Seq<BlockHeaderView>) -> Seq<Seq<u8>>
    decreases chain.len(),
{
    if chain.len() == 0 {
        Seq::empty()
    } else if chain.last().block_downloaded {
        downloaded_hashes(chain.drop_last()).push(chain.last().hash)
    } else {
        downloaded_hashes(chain.drop_last())
    }
}

/// Where the first header that has not been pushed to the peers stands: at
/// the end of the chain when all have been.
pub open spec fn first_unsent(chain: Seq<BlockHeaderView>) -> int
    decreases chain.len(),
{
    if chain.len() == 0 {
        0
    } else {
        let before = first_unsent(chain.drop_last());
        if before < chain.len() - 1 || !chain.last().broadcasted {
            before
        } else {
            chain.len() as int
        }
    }
}

/// Where the run of headers that are ready to be pushed ends, from place
/// `start` on: a header is ready when its block is stored and it has not
/// been pushed.
pub open spec fn ready_end(chain: Seq<BlockHeaderView>, start: int) -> int
    decreases chain.len() - start,
{
    if 0 <= start < chain.len() && chain[start].block_downloaded && !chain[start].broadcasted {
        ready_end(chain, start + 1)
    } else {
        start
    }
}

/// The places of the headers that are pushed to the peers once the block
/// with hash `block_hash` is stored: from the first header that has not
/// been pushed, in the order of the chain, as long as the blocks of the
/// headers are stored. Headers behind a header whose block is missing wait
/// for it. No place when the chain has no header with that hash.
pub open spec fn ready_range(chain: Seq<BlockHeaderView>, block_hash: Seq<u8>) -> (int, int) {
    if header_position(chain, block_hash) is None {
        (0, 0)
    } else {
        (first_unsent(chain), ready_end(chain, first_unsent(chain)))
    }
}

/// The chain with the headers from place `from` up to, not including,
/// place `to` noted as pushed.
pub open spec fn with_pushed(chain: Seq<BlockHeaderView>, from: int, to: int) -> Seq<
    BlockHeaderView,
> {
    Seq::new(
        chain.len(),
        |k: int|
            if from <= k < to {
                BlockHeaderView { broadcasted: true, ..chain[k] }
            } else {
                chain[k]
            },
    )
}

/// The first header that has not been pushed stands where every header
/// before has been pushed and the header there has not.
pub proof fn lemma_first_unsent(chain: Seq<BlockHeaderView>, at: int)
    requires
        0 <= at <= chain.len(),
        forall|j: int| 0 <= j < at ==> (#[trigger] chain[j]).broadcasted,
        at < chain.len() ==> !chain[at].broadcasted,
    ensures
        first_unsent(chain) == at,
    decreases chain.len(),
{
    if chain.len() > 0 {
        let front = chain.drop_last();
        if at < chain.len() {
            assert(front.len() == at || front[at] == chain[at]);
            assert forall|j: int| 0 <= j < at implies (#[trigger] front[j]).broadcasted by {
                assert(front[j] == chain[j]);
            }
            lemma_first_unsent(front, at);
        } else {
            assert forall|j: int| 0 <= j < front.len() implies (#[trigger] front[j]).broadcasted by {
                assert(front[j] == chain[j]);
            }
            lemma_first_unsent(front, at - 1);
            assert(chain[chain.len() - 1].broadcasted);
        }
    }
}

/// The chain with the header that has this hash, if any, noted as having
/// its block stored.
pub open spec fn with_downloaded(chain: Seq<BlockHeaderView>, hash: Seq<u8>) -> Seq<
    BlockHeaderView,
> {
    match header_position(chain, hash) {
        Some(i) => chain.update(i, BlockHeaderView { block_downloaded: true, ..chain[i] }),
        None => chain,
    }
}

/// The bytes of the headers in the node's own store, one after the other.
pub open spec fn backup_bytes(chain: Seq<BlockHeaderView>) -> Seq<u8>
    decreases chain.len(),
{
    if chain.len() == 0 {
        Seq::empty()
    } else {
        backup_bytes(chain.drop_last()) + chain.last().serialize_for_backup()
    }
}

/// The headers that `count` records of 112 bytes hold, from the front of
/// `s`; the error of the first record that cannot be read.
pub open spec fn parse_backup(s: Seq<u8>, count: nat) -> Result<Seq<BlockHeaderView>, CustomError>
    decreases count,
{
    if count == 0 {
        Ok(Seq::empty())
    } else {
        match parse_backup(s, (count - 1) as nat) {
            Err(e) => Err(e),
            Ok(front) => match BlockHeaderView::parse_from_backup(
                s.subrange(112 * (count - 1), 112 * count as int),
            ) {
                Err(e) => Err(e),
                Ok(header) => Ok(front.push(header)),
            },
        }
    }
}

/// Once a record cannot be read, reading more records fails in the same
/// way.
pub proof fn lemma_parse_backup_failure(s: Seq<u8>, failed: nat, count: nat)
    requires
        failed <= count,
        parse_backup(s, failed) is Err,
    ensures
        parse_backup(s, count) == parse_backup(s, failed),
    decreases count,
{
    if failed < count {
        lemma_parse_backup_failure(s, failed, (count - 1) as nat);
    }
}

/// The headers as they are read back from the node's own store: both notes
/// set.
pub open spec fn as_stored(chain: Seq<BlockHeaderView>) -> Seq<BlockHeaderView> {
    chain.map_values(
        |header: BlockHeaderView|
            BlockHeaderView { broadcasted: true, block_downloaded: true, ..header },
    )
}

/// The bytes of the store have 112 bytes for each header.
pub proof fn lemma_backup_len(chain: Seq<BlockHeaderView>)
    requires
        forall|i: int|
            0 <= i < chain.len() ==> (#[trigger] chain[i]).wf() && chain[i].hash.len() == 32,
    ensures
        backup_bytes(chain).len() == 112 * chain.len(),
    decreases chain.len(),
{
    if chain.len() > 0 {
        let front = chain.drop_last();
        assert forall|i: int| 0 <= i < front.len() implies (#[trigger] front[i]).wf()
            && front[i].hash.len() == 32 by {
            assert(front[i] == chain[i]);
        }
        lemma_backup_len(front);
        chain.last().lemma_fields_roundtrip(Seq::empty(), Seq::empty(), false);
        assert(chain[chain.len() - 1] == chain.last());
    }
}

/// Headers that have their proof of work are read back from the bytes of
/// the store as they were, both notes set.
pub proof fn lemma_store_roundtrip(chain: Seq<BlockHeaderView>, rest: Seq<u8>)
    requires
        forall|i: int|
            0 <= i < chain.len() ==> (#[trigger] chain[i]).wf() && chain[i].hash.len() == 32
                && crate::structs::block_header::meets_target(chain[i].hash, chain[i].bits),
    ensures
        parse_backup(backup_bytes(chain) + rest, chain.len()) == Ok::<
            Seq<BlockHeaderView>,
            CustomError,
        >(as_stored(chain)),
    decreases chain.len(),
{
    if chain.len() == 0 {
        assert(as_stored(chain) =~= Seq::empty());
    } else {
        let n = chain.len() - 1;
        let front = chain.drop_last();
        let last = chain.last();
        let record = last.serialize_for_backup();
        let s = backup_bytes(chain) + rest;
        let stored = BlockHeaderView { broadcasted: true, block_downloaded: true, ..last };
        assert(chain[n] == last);
        assert forall|i: int| 0 <= i < front.len() implies (#[trigger] front[i]).wf()
            && front[i].hash.len() == 32 && crate::structs::block_header::meets_target(
            front[i].hash,
            front[i].bits,
        ) by {
            assert(front[i] == chain[i]);
        }
        assert(backup_bytes(front).len() == 112 * n) by {
            lemma_backup_len(front);
        }
        assert(record.len() == 112) by {
            last.lemma_fields_roundtrip(Seq::empty(), Seq::empty(), false);
        }
        assert(parse_backup(s, n as nat) == Ok::<Seq<BlockHeaderView>, CustomError>(
            as_stored(front),
        )) by {
            assert(s =~= backup_bytes(front) + (record + rest));
            lemma_store_roundtrip(front, record + rest);
        }
        assert(s.subrange(112 * n, 112 * n + 112) =~= record);
        assert(BlockHeaderView::parse_from_backup(record) == Ok::<BlockHeaderView, CustomError>(
            stored,
        )) by {
            last.lemma_backup_roundtrip();
        }
        assert(as_stored(front).push(stored) =~= as_stored(chain));
    }
}

/// The headers that the bytes of the node's own store hold: records of
/// 112 bytes, each a header and its hash. Fails when the bytes are not a
/// whole number of records, or when a record cannot be read or does not
/// have its proof of work.
#[verifier::loop_isolation(false)]
pub fn headers_from_backup(buffer: &[u8]) -> (r: Result<Vec<BlockHeader>, CustomError>)
    ensures
        buffer@.len() % 112 != 0 ==> r is Err && r->Err_0
            == CustomError::SerializedBufferIsInvalid,
        buffer@.len() % 112 == 0 ==> match parse_backup(buffer@, buffer@.len() / 112) {
            Ok(headers) => r is Ok && headers_view(r->Ok_0@) == headers,
            Err(e) => r is Err && r->Err_0 == e,
        },
{
    if buffer.len() % 112 != 0 {
        return Err(CustomError::SerializedBufferIsInvalid);
    }
    let count = buffer.len() / 112;
    let mut headers: Vec<BlockHeader> = Vec::new();
    let mut i: usize = 0;
    assert(headers_view(headers@) =~= Seq::empty());
    while i < count
        invariant
            i <= count,
            parse_backup(buffer@, i as nat) == Ok::<Seq<BlockHeaderView>, CustomError>(
                headers_view(headers@),
            ),
        decreases count - i,
    {
        let record = vstd::slice::slice_to_vec(
            vstd::slice::slice_subrange(buffer, 112 * i, 112 * (i + 1)),
        );
        match BlockHeader::parse_from_backup(record) {
            Ok(header) => {
                proof {
                    assert(headers_view(headers@.push(header)) =~= headers_view(headers@).push(
                        header@,
                    ));
                }
                headers.push(header);
            },
            Err(e) => {
                proof {
                    lemma_parse_backup_failure(buffer@, (i + 1) as nat, count as nat);
                }
                return Err(e);
            },
        }
        i = i + 1;
    }
    Ok(headers)
}

/// The chain of block headers: each header names the one before it, the
/// first names the anchor, and no hash occurs twice. Headers are only ever
/// added at the tip.
pub struct HeadersChain {
    headers: Vec<BlockHeader>,
    anchor: Vec<u8>,
    synced: bool,
}

impl View for HeadersChain {
    type V = Seq<BlockHeaderView>;

    closed spec fn view(&self) -> Seq<BlockHeaderView> {
        headers_view(self.headers@)
    }
}

impl HeadersChain {
    /// The chain holds together: every header names the one before it, the
    /// first names the anchor, and no hash occurs twice.
    #[verifier::type_invariant]
    pub closed spec fn wf(&self) -> bool {
        well_linked(headers_view(self.headers@), self.anchor@)
    }

    /// The hash that the first header names as the one before it.
    pub closed spec fn anchor(&self) -> Seq<u8> {
        self.anchor@
    }

    /// Whether the last batch said that the chain has been followed to its
    /// tip.
    pub closed spec fn synced(&self) -> bool {
        self.synced
    }

    /// An empty chain that starts behind the block with hash `anchor`.
    pub fn new(anchor: Vec<u8>) -> (chain: Self)
        ensures
            chain@ == Seq::<BlockHeaderView>::empty(),
            chain.anchor() == anchor@,
            !chain.synced(),
            chain.wf(),
    {
        let headers: Vec<BlockHeader> = Vec::new();
        proof {
            assert(headers_view(headers@) =~= Seq::empty());
            lemma_empty_chain(anchor@);
        }
        Self { headers, anchor, synced: false }
    }

    /// Every header names the one before it, and no hash occurs twice.
    pub proof fn lemma_chain(&self)
        requires
            self.wf(),
        ensures
            linked(self@, self.anchor()),
            distinct_headers(self@),
    {
        reveal(well_linked);
    }

    /// Where the header with this hash stands, if it does.
    fn find_in(headers: &Vec<BlockHeader>, hash: &Vec<u8>) -> (found: Option<usize>)
        ensures
            match found {
                Some(k) => k < headers@.len() && header_position(headers_view(headers@), hash@)
                    == Some(k as int),
                None => header_position(headers_view(headers@), hash@) is None,
            },
    {
        let ghost chain = headers_view(headers@);
        let mut i: usize = headers.len();
        assert(chain.take(i as int) =~= chain);
        while i > 0
            invariant
                i <= headers@.len(),
                chain == headers_view(headers@),
                header_position(chain, hash@) == header_position(chain.take(i as int), hash@),
            decreases i,
        {
            proof {
                let front = chain.take(i as int);
                assert(front.drop_last() =~= chain.take(i - 1));
                assert(front.last() == chain[i - 1]);
            }
            i = i - 1;
            if bytes_equal(headers[i].hash.as_slice(), hash.as_slice()) {
                return Some(i);
            }
        }
        None
    }

    /// Offers a batch of headers, in its order. A header that the chain
    /// has already is passed over; one that names the tip is added; at the
    /// first header that does neither the rest of the batch is dropped and
    /// an error says so. The chain counts as followed to its tip exactly
    /// when the batch has fewer than 2000 headers.
    pub fn append_headers(&mut self, headers: Vec<BlockHeader>) -> (r: Result<(), CustomError>)
        ensures
            final(self)@ == extend(old(self)@, old(self).anchor(), headers_view(headers@)),
            final(self)@ == old(self)@ + accepted(
                old(self)@,
                old(self).anchor(),
                headers_view(headers@),
            ),
            final(self).anchor() == old(self).anchor(),
            final(self).synced() == (headers@.len() < MAX_HEADERS_PER_REPLY),
            rejects(old(self)@, old(self).anchor(), headers_view(headers@)) ==> r is Err
                && r->Err_0 == CustomError::HeaderNotLinked,
            !rejects(old(self)@, old(self).anchor(), headers_view(headers@)) ==> r is Ok,
            final(self).wf(),
    {
        proof {
            use_type_invariant(&*self);
            lemma_extend_appends(self@, self.anchor(), headers_view(headers@));
        }
        let ghost start = self@;
        let ghost anchor = self.anchor@;
        let ghost batch = headers_view(headers@);
        let count = headers.len();
        let mut chain: Vec<BlockHeader> = Vec::new();
        proof {
            assert(headers_view(chain@) =~= Seq::empty());
            lemma_empty_chain(self.anchor@);
        }
        core::mem::swap(&mut self.headers, &mut chain);
        self.synced = count < MAX_HEADERS_PER_REPLY;
        let mut rejected = false;
        let mut i: usize = 0;
        assert(batch.skip(0) =~= batch);
        while i < count && !rejected
            invariant
                i <= count,
                count == headers@.len(),
                batch == headers_view(headers@),
                anchor == self.anchor@,
                well_linked(headers_view(chain@), anchor),
                !rejected ==> extend(start, anchor, batch) == extend(
                    headers_view(chain@),
                    anchor,
                    batch.skip(i as int),
                ),
                !rejected ==> rejects(start, anchor, batch) == rejects(
                    headers_view(chain@),
                    anchor,
                    batch.skip(i as int),
                ),
                rejected ==> extend(start, anchor, batch) == headers_view(chain@),
                rejected ==> rejects(start, anchor, batch),
            decreases count - i + if rejected { 0int } else { 1int },
        {
            let ghost current = headers_view(chain@);
            proof {
                let rest = batch.skip(i as int);
                assert(rest[0] == headers@[i as int]@);
                assert(rest.drop_first() =~= batch.skip(i + 1));
                lemma_header_position(current, rest[0].hash);
            }
            let header = &headers[i];
            if Self::find_in(&chain, &header.hash).is_some() {
                i = i + 1;
            } else {
                let links = if chain.len() == 0 {
                    bytes_equal(header.prev_block_hash.as_slice(), self.anchor.as_slice())
                } else {
                    bytes_equal(
                        header.prev_block_hash.as_slice(),
                        chain[chain.len() - 1].hash.as_slice(),
                    )
                };
                if links {
                    let copy = header.duplicate();
                    chain.push(copy);
                    proof {
                        assert(headers_view(chain@) =~= current.push(header@));
                        lemma_push_keeps_chain(current, anchor, header@);
                    }
                    i = i + 1;
                } else {
                    rejected = true;
                }
            }
        }
        self.headers = chain;
        if rejected {
            Err(CustomError::HeaderNotLinked)
        } else {
            Ok(())
        }
    }

    /// The bytes of the chain for the node's own store: for each header
    /// its 80 bytes and its hash.
    pub fn serialize_for_backup(&self) -> (buffer: Vec<u8>)
        ensures
            buffer@ == backup_bytes(self@),
    {
        let ghost chain = self@;
        let mut buffer: Vec<u8> = Vec::new();
        let mut i: usize = 0;
        while i < self.headers.len()
            invariant
                i <= self.headers@.len(),
                chain == headers_view(self.headers@),
                buffer@ == backup_bytes(chain.take(i as int)),
            decreases self.headers@.len() - i,
        {
            let mut bytes = self.headers[i].serialize_for_backup();
            buffer.append(&mut bytes);
            proof {
                let next = chain.take(i + 1);
                assert(next.drop_last() =~= chain.take(i as int));
                assert(next.last() == self.headers@[i as int]@);
            }
            i = i + 1;
        }
        assert(chain.take(i as int) =~= chain);
        buffer
    }

    /// All the headers, in the order of the chain.
    pub fn get_all(&self) -> (headers: &Vec<BlockHeader>)
        ensures
            headers_view(headers@) == self@,
    {
        &self.headers
    }

    /// The number of headers.
    pub fn len(&self) -> (n: usize)
        ensures
            n == self@.len(),
    {
        self.headers.len()
    }

    /// The header with this hash, if the chain has it.
    pub fn get_header(&self, hash: &Vec<u8>) -> (header: Option<&BlockHeader>)
        ensures
            match header_position(self@, hash@) {
                Some(i) => header is Some && header->Some_0@ == self@[i],
                None => header is None,
            },
    {
        match Self::find_in(&self.headers, hash) {
            Some(i) => Some(&self.headers[i]),
            None => None,
        }
    }

    /// The hash of the tip, when the chain has a header.
    pub fn get_last_header_hash(&self) -> (hash: Option<Vec<u8>>)
        ensures
            self@.len() == 0 ==> hash is None,
            self@.len() > 0 ==> hash is Some && hash->Some_0@ == self@.last().hash,
    {
        if self.headers.len() == 0 {
            None
        } else {
            Some(copy_bytes(&self.headers[self.headers.len() - 1].hash))
        }
    }

    /// The newest `count` headers, the tip first, each with its place in
    /// the chain.
    pub fn get_last_headers(&self, count: usize) -> (headers: Vec<(usize, BlockHeader)>)
        ensures
            placed_headers_view(headers@) == last_headers(self@, count as nat),
    {
        let ghost chain = self@;
        let total = self.headers.len();
        let wanted = if count < total {
            count
        } else {
            total
        };
        let mut headers: Vec<(usize, BlockHeader)> = Vec::new();
        let mut k: usize = 0;
        while k < wanted
            invariant
                k <= wanted <= total,
                total == self.headers@.len(),
                chain == headers_view(self.headers@),
                headers@.len() == k,
                forall|j: int|
                    0 <= j < k ==> (#[trigger] placed_headers_view(headers@)[j]) == (
                        total - 1 - j,
                        chain[total - 1 - j],
                    ),
            decreases wanted - k,
        {
            let place = total - 1 - k;
            let ghost earlier = placed_headers_view(headers@);
            headers.push((place, self.headers[place].duplicate()));
            proof {
                let later = placed_headers_view(headers@);
                assert forall|j: int| 0 <= j < k + 1 implies (#[trigger] later[j]) == (
                    total - 1 - j,
                    chain[total - 1 - j],
                ) by {
                    if j < k {
                        assert(later[j] == earlier[j]);
                    }
                }
            }
            k = k + 1;
        }
        assert(placed_headers_view(headers@) =~= last_headers(chain, count as nat));
        headers
    }

    /// The headers that answer a request for headers: up to 2000 headers
    /// that follow the first hash of the locator that the chain has, up to
    /// and with the header that has the stop hash. When the chain has no
    /// hash of the locator, the answer starts at the first header.
    pub fn get_headers(&self, get_headers: &GetHeaders) -> (headers: Vec<BlockHeader>)
        ensures
            headers_view(headers@) == reply_headers(
                self@,
                get_headers@.block_locator_hashes,
                get_headers@.hash_stop,
            ),
    {
        let ghost chain = self@;
        let ghost locator = get_headers@.block_locator_hashes;
        let total = self.headers.len();
        let mut start: usize = 0;
        let mut found = false;
        let mut i: usize = 0;
        assert(locator.skip(0) =~= locator);
        while i < get_headers.block_locator_hashes.len() && !found
            invariant
                i <= get_headers.block_locator_hashes@.len(),
                locator == hashes_view(get_headers.block_locator_hashes@),
                chain == headers_view(self.headers@),
                total == self.headers@.len(),
                !found ==> locator_start(chain, locator) == locator_start(
                    chain,
                    locator.skip(i as int),
                ),
                !found ==> start == 0,
                found ==> start == locator_start(chain, locator),
                start <= total,
            decreases
                    get_headers.block_locator_hashes@.len() - i + if found {
                        0int
                    } else {
                        1int
                    },
        {
            proof {
                let rest = locator.skip(i as int);
                assert(rest[0] == get_headers.block_locator_hashes@[i as int]@);
                assert(rest.drop_first() =~= locator.skip(i + 1));
            }
            match Self::find_in(&self.headers, &get_headers.block_locator_hashes[i]) {
                Some(p) => {
                    start = p + 1;
                    found = true;
                },
                None => {
                    i = i + 1;
                },
            }
        }
        let limit = if total - start > MAX_HEADERS_PER_REPLY {
            start + MAX_HEADERS_PER_REPLY
        } else {
            total
        };
        let end = match Self::find_in(&self.headers, &get_headers.hash_stop) {
            Some(p) => if start <= p && p < limit {
                p + 1
            } else {
                limit
            },
            None => limit,
        };
        let mut headers: Vec<BlockHeader> = Vec::new();
        let mut k: usize = start;
        assert(headers_view(headers@) =~= chain.subrange(start as int, start as int));
        while k < end
            invariant
                start <= k <= end <= total,
                total == self.headers@.len(),
                chain == headers_view(self.headers@),
                headers_view(headers@) == chain.subrange(start as int, k as int),
            decreases end - k,
        {
            let copy = self.headers[k].duplicate();
            proof {
                assert(headers_view(headers@.push(copy)) =~= headers_view(headers@).push(copy@));
                assert(chain.subrange(start as int, k + 1) =~= chain.subrange(
                    start as int,
                    k as int,
                ).push(chain[k as int]));
            }
            headers.push(copy);
            k = k + 1;
        }
        headers
    }

    /// Notes that the block of the header with this hash has been stored.
    /// Says whether the chain has such a header.
    pub fn set_downloaded(&mut self, hash: &Vec<u8>) -> (found: bool)
        ensures
            found == (header_position(old(self)@, hash@) is Some),
            final(self)@ == with_downloaded(old(self)@, hash@),
            final(self).anchor() == old(self).anchor(),
            final(self).synced() == old(self).synced(),
            final(self).wf(),
    {
        proof {
            use_type_invariant(&*self);
        }
        match Self::find_in(&self.headers, hash) {
            None => false,
            Some(i) => {
                let ghost before = self@;
                let mut chain: Vec<BlockHeader> = Vec::new();
                proof {
                    assert(headers_view(chain@) =~= Seq::empty());
                    lemma_empty_chain(self.anchor@);
                }
                core::mem::swap(&mut self.headers, &mut chain);
                let mut header = chain[i].duplicate();
                header.block_downloaded = true;
                chain[i] = header;
                proof {
                    let after = headers_view(chain@);
                    assert(after =~= with_downloaded(before, hash@));
                    lemma_note_keeps_chain(before, self.anchor@, after);
                }
                self.headers = chain;
                true
            },
        }
    }

    /// The headers that are to be pushed to the peers now that the block
    /// with hash `block_hash` is stored: from the first header that has
    /// not been pushed, in the order of the chain, as long as the blocks of
    /// the headers are stored. They are noted as pushed. Nothing, and no
    /// change, when the chain has no header with that hash.
    #[verifier::loop_isolation(false)]
    pub fn get_headers_to_send(&mut self, block_hash: &Vec<u8>) -> (headers: Vec<BlockHeader>)
        ensures
            headers_view(headers@) == old(self)@.subrange(
                ready_range(old(self)@, block_hash@).0,
                ready_range(old(self)@, block_hash@).1,
            ),
            final(self)@ == with_pushed(
                old(self)@,
                ready_range(old(self)@, block_hash@).0,
                ready_range(old(self)@, block_hash@).1,
            ),
            0 <= ready_range(old(self)@, block_hash@).0 <= ready_range(old(self)@, block_hash@).1
                <= old(self)@.len(),
            final(self).anchor() == old(self).anchor(),
            final(self).synced() == old(self).synced(),
            final(self).wf(),
    {
        proof {
            use_type_invariant(&*self);
        }
        let ghost before = self@;
        let mut headers: Vec<BlockHeader> = Vec::new();
        if Self::find_in(&self.headers, block_hash).is_none() {
            assert(headers_view(headers@) =~= before.subrange(0, 0));
            assert(before =~= with_pushed(before, 0, 0));
            return headers;
        }
        let total = self.headers.len();
        let mut start: usize = 0;
        while start < total && self.headers[start].broadcasted
            invariant
                start <= total,
                forall|j: int| 0 <= j < start ==> (#[trigger] before[j]).broadcasted,
            decreases total - start,
        {
            start = start + 1;
        }
        proof {
            lemma_first_unsent(before, start as int);
        }
        let mut end: usize = start;
        while end < total && self.headers[end].block_downloaded && !self.headers[end].broadcasted
            invariant
                start <= end <= total,
                ready_end(before, start as int) == ready_end(before, end as int),
            decreases total - end,
        {
            end = end + 1;
        }
        let mut chain: Vec<BlockHeader> = Vec::new();
        proof {
            assert(headers_view(chain@) =~= Seq::empty());
            lemma_empty_chain(self.anchor@);
        }
        core::mem::swap(&mut self.headers, &mut chain);
        let mut k: usize = start;
        assert(headers_view(headers@) =~= before.subrange(start as int, start as int));
        assert(headers_view(chain@) =~= with_pushed(before, start as int, start as int));
        while k < end
            invariant
                start <= k <= end <= total,
                chain@.len() == total,
                headers_view(headers@) == before.subrange(start as int, k as int),
                headers_view(chain@) == with_pushed(before, start as int, k as int),
            decreases end - k,
        {
            let ghost current = headers_view(chain@);
            assert(current[k as int] == before[k as int]);
            let copy = chain[k].duplicate();
            let mut pushed = chain[k].duplicate();
            pushed.broadcasted = true;
            proof {
                assert(headers_view(headers@.push(copy)) =~= headers_view(headers@).push(copy@));
                assert(before.subrange(start as int, k + 1) =~= before.subrange(
                    start as int,
                    k as int,
                ).push(before[k as int]));
            }
            headers.push(copy);
            chain[k] = pushed;
            proof {
                let later = headers_view(chain@);
                let wanted = with_pushed(before, start as int, k + 1);
                assert forall|i: int| 0 <= i < later.len() implies later[i] == wanted[i] by {
                    if i != k {
                        assert(later[i] == current[i]);
                    }
                }
                assert(later =~= wanted);
            }
            k = k + 1;
        }
        proof {
            let after = headers_view(chain@);
            lemma_note_keeps_chain(before, self.anchor@, after);
        }
        self.headers = chain;
        headers
    }

    /// Whether the last batch said that the chain has been followed to its
    /// tip: it had fewer than 2000 headers.
    pub fn is_synced(&self) -> (synced: bool)
        ensures
            synced == self.synced(),
    {
        self.synced
    }

    /// The number of headers whose block has been stored.
    pub fn total_downloaded(&self) -> (n: usize)
        ensures
            n == downloaded_count(self@),
    {
        let ghost chain = self@;
        let mut n: usize = 0;
        let mut i: usize = 0;
        while i < self.headers.len()
            invariant
                i <= self.headers@.len(),
                chain == headers_view(self.headers@),
                n == downloaded_count(chain.take(i as int)),
                n <= i,
            decreases self.headers@.len() - i,
        {
            proof {
                let next = chain.take(i + 1);
                assert(next.drop_last() =~= chain.take(i as int));
                assert(next.last() == chain[i as int]);
            }
            if self.headers[i].block_downloaded {
                n = n + 1;
            }
            i = i + 1;
        }
        assert(chain.take(i as int) =~= chain);
        n
    }

    /// The hashes of the headers whose block has been stored, in the order
    /// of the chain.
    pub fn get_downloaded_hashes(&self) -> (hashes: Vec<Vec<u8>>)
        ensures
            hashes_view(hashes@) == downloaded_hashes(self@),
    {
        let ghost chain = self@;
        let mut hashes: Vec<Vec<u8>> = Vec::new();
        let mut i: usize = 0;
        assert(hashes_view(hashes@) =~= Seq::empty());
        while i < self.headers.len()
            invariant
                i <= self.headers@.len(),
                chain == headers_view(self.headers@),
                hashes_view(hashes@) == downloaded_hashes(chain.take(i as int)),
            decreases self.headers@.len() - i,
        {
            proof {
                let next = chain.take(i + 1);
                assert(next.drop_last() =~= chain.take(i as int));
                assert(next.last() == chain[i as int]);
            }
            if self.headers[i].block_downloaded {
                let hash = copy_bytes(&self.headers[i].hash);
                proof {
                    assert(hashes_view(hashes@.push(hash)) =~= hashes_view(hashes@).push(hash@));
                }
                hashes.push(hash);
            }
            i = i + 1;
        }
        assert(chain.take(i as int) =~= chain);
        hashes
    }

    /// The number of headers whose block is to be downloaded: those made
    /// after the start date.
    pub fn total_headers_to_download(&self) -> (n: usize)
        ensures
            n == to_download_count(self@),
    {
        let ghost chain = self@;
        let mut n: usize = 0;
        let mut i: usize = 0;
        while i < self.headers.len()
            invariant
                i <= self.headers@.len(),
                chain == headers_view(self.headers@),
                n == to_download_count(chain.take(i as int)),
                n <= i,
            decreases self.headers@.len() - i,
        {
            proof {
                let next = chain.take(i + 1);
                assert(next.drop_last() =~= chain.take(i as int));
                assert(next.last() == chain[i as int]);
            }
            if self.headers[i].timestamp > START_DATE_IBD {
                n = n + 1;
            }
            i = i + 1;
        }
        assert(chain.take(i as int) =~= chain);
        n
    }
}

} // verus!
