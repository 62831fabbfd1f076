use vstd::prelude::*;
use vstd::slice::slice_to_vec;
use crate::error::CustomError;
use crate::parser::{parse_varint, varint_bytes, varint_encoding, BufferParser, Parsed};
use crate::states::headers_state::headers_view;
use crate::structs::block_header::{BlockHeader, BlockHeaderView};

verus! {

/// An answer to a request for headers: headers in the order of the chain.
#[derive(Debug, Clone)]
pub struct Headers {
    pub headers: Vec<BlockHeader>,
}

impl View for Headers {
    type V = Seq<BlockHeaderView>;

    open spec fn view(&self) -> Seq<BlockHeaderView> {
        headers_view(self.headers@)
    }
}

/// The bytes of the headers in an answer: after each header's 80 bytes a
/// zero, the count of transactions that an answer never carries.
pub open spec fn serialize_headers(headers: Seq<BlockHeaderView>) -> Seq<u8>
    decreases headers.len(),
{
    if headers.len() == 0 {
        Seq::empty()
    } else {
        serialize_headers(headers.drop_last()) + headers.last().serialize() + seq![0u8]
    }
}

/// Reads `count` headers from the front of `s`, each on 80 bytes and
/// followed by a count of transactions, which is passed over. The proof of
/// work of each header is checked. Gives the headers, or the error of the
/// first that cannot be read.
pub open spec fn parse_headers(s: Seq<u8>, count: nat) -> Result<
    (Seq<BlockHeaderView>, nat),
    CustomError,
>
    decreases count,
{
    if count == 0 {
        Ok((Seq::empty(), 0))
    } else {
        match parse_headers(s, (count - 1) as nat) {
            Err(e) => Err(e),
            Ok((headers, used)) => if s.len() < used + 80 {
                Err(CustomError::SerializedBufferIsInvalid)
            } else {
                match BlockHeaderView::parse(s.subrange(used as int, used + 80 as int)) {
                    Err(e) => Err(e),
                    Ok(header) => match parse_varint(s.skip(used + 80 as int)) {
                        Parsed::Done { value, used: more } => Ok(
                            (headers.push(header), used + 80 + more),
                        ),
                        _ => Err(CustomError::SerializedBufferIsInvalid),
                    },
                }
            },
        }
    }
}

/// Once a header cannot be read, asking for more headers fails in the same
/// way.
pub proof fn lemma_parse_headers_failure(s: Seq<u8>, failed: nat, count: nat)
    requires
        failed <= count,
        parse_headers(s, failed) is Err,
    ensures
        parse_headers(s, count) == parse_headers(s, failed),
    decreases count,
{
    if failed < count {
        lemma_parse_headers_failure(s, failed, (count - 1) as nat);
    }
}

impl Headers {
    /// An answer that carries these headers.
    pub fn new(headers: Vec<BlockHeader>) -> (message: Self)
        ensures
            message@ == headers_view(headers@),
    {
        Self { headers }
    }

    /// The command under which the answer travels.
    pub fn get_command(&self) -> (command: String)
        ensures
            command@ == "headers"@,
    {
        String::from_str("headers")
    }

    /// The payload of the answer: the number of headers as a compact size,
    /// then the headers.
    pub fn serialize(&self) -> (buffer: Vec<u8>)
        ensures
            buffer@ == varint_encoding(self@.len()) + serialize_headers(self@),
    {
        let mut buffer = varint_bytes(self.headers.len() as u64);
        let ghost head = buffer@;
        let ghost items = self@;
        let mut i: usize = 0;
        assert(buffer@ =~= head + serialize_headers(items.take(0)));
        while i < self.headers.len()
            invariant
                i <= self.headers@.len(),
                items == headers_view(self.headers@),
                buffer@ == head + serialize_headers(items.take(i as int)),
            decreases self.headers@.len() - i,
        {
            let mut bytes = self.headers[i].serialize();
            buffer.append(&mut bytes);
            buffer.push(0);
            proof {
                let next = items.take(i + 1);
                assert(next.drop_last() =~= items.take(i as int));
                assert(next.last() == self.headers@[i as int]@);
                assert(buffer@ =~= head + serialize_headers(next));
            }
            i = i + 1;
        }
        assert(items.take(i as int) =~= items);
        buffer
    }

    /// Reads an answer from its payload: a count, then that many headers.
    /// One header that cannot be read, or whose proof of work does not
    /// hold, fails the whole answer.
    #[verifier::loop_isolation(false)]
    pub fn parse(buffer: Vec<u8>) -> (r: Result<Self, CustomError>)
        ensures
            match parse_varint(buffer@) {
                Parsed::Done { value: count, used } => match parse_headers(
                    buffer@.skip(used as int),
                    count,
                ) {
                    Ok((headers, _)) => r is Ok && r->Ok_0@ == headers,
                    Err(e) => r is Err && r->Err_0 == e,
                },
                _ => r is Err && r->Err_0 == CustomError::SerializedBufferIsInvalid,
            },
    {
        let mut parser = BufferParser::new(buffer);
        let count = match parser.extract_varint() {
            Ok(count) => count,
            Err(e) => { return Err(e); },
        };
        let ghost body = parser.remaining();
        let ghost mut used: int = 0;
        let mut headers: Vec<BlockHeader> = Vec::new();
        let mut i: u64 = 0;
        assert(body.skip(0) =~= body);
        assert(headers_view(headers@) =~= Seq::empty());
        while i < count
            invariant
                i <= count,
                0 <= used <= body.len(),
                parse_headers(body, i as nat) == Ok::<(Seq<BlockHeaderView>, nat), CustomError>(
                    (headers_view(headers@), used as nat),
                ),
                parser.remaining() == body.skip(used),
            decreases count - i,
        {
            let bytes = match parser.extract_buffer(80) {
                Ok(bytes) => slice_to_vec(bytes),
                Err(e) => {
                    proof {
                        lemma_parse_headers_failure(body, (i + 1) as nat, count as nat);
                    }
                    return Err(e);
                },
            };
            proof {
                assert(body.skip(used).take(80) =~= body.subrange(used, used + 80));
                assert(body.skip(used).skip(80) =~= body.skip(used + 80));
            }
            let header = match BlockHeader::parse(bytes) {
                Ok(header) => header,
                Err(e) => {
                    proof {
                        lemma_parse_headers_failure(body, (i + 1) as nat, count as nat);
                    }
                    return Err(e);
                },
            };
            let ghost more = parse_varint(body.skip(used + 80)).used() as int;
            let transactions = parser.extract_varint();
            proof {
                assert(body.skip(used + 80).skip(more) =~= body.skip(used + 80 + more));
            }
            match transactions {
                Ok(_) => {},
                Err(e) => {
                    proof {
                        lemma_parse_headers_failure(body, (i + 1) as nat, count as nat);
                    }
                    return Err(e);
                },
            }
            proof {
                assert(headers_view(headers@.push(header)) =~= headers_view(headers@).push(
                    header@,
                ));
                used = used + 80 + more;
            }
            headers.push(header);
            i = i + 1;
        }
        Ok(Self { headers })
    }
}

} // verus!
