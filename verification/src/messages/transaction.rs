use vstd::prelude::*;
use vstd::slice::slice_to_vec;
use crate::encoding::{
    le_bytes, le_value, lemma_le_bytes_len, lemma_le_value_bound, lemma_le_value_of_bytes,
    lemma_pow256_values, pow256, write_le,
};
use crate::error::CustomError;
use crate::hashing::{copy_bytes, sha256, sha256_digest};
use crate::parser::{
    lemma_counted_list_roundtrip, lemma_parse_list_failure, lemma_varint_roundtrip,
    parse_counted_list, parse_list, parse_varint, rejected_with, serialize_counted_list, serialize_list,
    varint_bytes, varint_encoding, BufferParser, Parsed,
};
use crate::states::utxo_state::{lookup, UTXOValueView, UTXO};
use crate::structs::outpoint::{OutPoint, OutPointView};
use crate::structs::tx_output::{compare_p2pkh, pays_to_key, TransactionOutput, TransactionOutputView};
use crate::structs::tx_output::p2pkh_script;
use crate::wallet::{
    get_script_pubkey, pubkey_error_text, pubkey_hash_of, Movement, MovementView, Wallet,
};

verus! {

/// An input of a transaction: the output it spends, the script that
/// unlocks it, and a sequence number.
#[derive(Debug, Clone, PartialEq, Eq)]
pub struct TransactionInput {
    pub previous_output: OutPoint,
    pub script_sig: Vec<u8>,
    pub sequence: u32,
}

/// An input as plain values.
pub struct TransactionInputView {
    pub previous_output: OutPointView,
    pub script_sig: Seq<u8>,
    pub sequence: u32,
}

impl View for TransactionInput {
    type V = TransactionInputView;

    open spec fn view(&self) -> TransactionInputView {
        TransactionInputView {
            previous_output: self.previous_output@,
            script_sig: self.script_sig@,
            sequence: self.sequence,
        }
    }
}

impl TransactionInputView {
    /// The outpoint's hash has 32 bytes and the script's length fits a
    /// compact size.
    pub open spec fn wf(self) -> bool {
        self.previous_output.wf() && self.script_sig.len() <= u64::MAX
    }

    /// The bytes of the input on the wire: the outpoint, the script's
    /// length as a compact size, the script, the sequence number on four
    /// bytes, least significant first.
    pub open spec fn serialize(self) -> Seq<u8> {
        self.previous_output.serialize() + varint_encoding(self.script_sig.len())
            + self.script_sig + le_bytes(self.sequence as nat, 4)
    }

    /// Reads an input from the front of `s`.
    pub open spec fn parse(s: Seq<u8>) -> Parsed<TransactionInputView> {
        if s.len() < 36 {
            Parsed::Failed { used: 0 }
        } else {
            match parse_varint(s.skip(36)) {
                Parsed::Failed { used } => Parsed::Failed { used: 36 + used },
                Parsed::Rejected { used, message } => Parsed::Rejected {
                    used: 36 + used,
                    message,
                },
                Parsed::Done { value: len, used } => if s.len() < 36 + used + len {
                    Parsed::Failed { used: 36 + used }
                } else if s.len() < 36 + used + len + 4 {
                    Parsed::Failed { used: 36 + used + len }
                } else {
                    Parsed::Done {
                        value: TransactionInputView {
                            previous_output: OutPointView {
                                hash: s.subrange(0, 32),
                                index: le_value(s.subrange(32, 36)) as u32,
                            },
                            script_sig: s.subrange(36 + used as int, 36 + used + len as int),
                            sequence: le_value(
                                s.subrange(36 + used + len as int, 36 + used + len + 4 as int),
                            ) as u32,
                        },
                        used: 36 + used + len + 4,
                    }
                },
            }
        }
    }

    /// Parsing what was serialized, whatever follows it, gives the input
    /// back and passes exactly its bytes.
    pub proof fn lemma_roundtrip(self, rest: Seq<u8>)
        requires
            self.wf(),
        ensures
            TransactionInputView::parse(self.serialize() + rest) == (Parsed::Done {
                value: self,
                used: self.serialize().len(),
            }),
    {
        let s = self.serialize() + rest;
        let len = self.script_sig.len() as int;
        let enc = varint_encoding(self.script_sig.len());
        let n = enc.len() as int;
        let tail = le_bytes(self.sequence as nat, 4);
        self.previous_output.lemma_roundtrip(enc + self.script_sig + tail + rest);
        assert(s =~= self.previous_output.serialize() + (enc + self.script_sig + tail + rest));
        lemma_le_bytes_len(self.sequence as nat, 4);
        lemma_le_value_of_bytes(self.sequence as nat, 4);
        lemma_pow256_values();
        vstd::arithmetic::div_mod::lemma_small_mod(self.sequence as nat, pow256(4));
        assert(s.skip(36) =~= enc + (self.script_sig + tail + rest));
        lemma_varint_roundtrip(self.script_sig.len() as u64, self.script_sig + tail + rest);
        assert(s.subrange(36 + n, 36 + n + len) =~= self.script_sig);
        assert(s.subrange(36 + n + len, 36 + n + len + 4) =~= tail);
    }
}

impl TransactionInput {
    /// The bytes of the input on the wire.
    pub fn serialize(&self) -> (buffer: Vec<u8>)
        ensures
            buffer@ == self@.serialize(),
    {
        let mut buffer = self.previous_output.serialize();
        let mut length = varint_bytes(self.script_sig.len() as u64);
        let mut script = copy_bytes(&self.script_sig);
        let mut sequence = write_le(self.sequence as u64, 4);
        buffer.append(&mut length);
        buffer.append(&mut script);
        buffer.append(&mut sequence);
        buffer
    }

    /// Reads an input at the cursor. When it fails, the cursor stays where
    /// the read that failed left it.
    pub fn parse(parser: &mut BufferParser) -> (r: Result<Self, CustomError>)
        ensures
            match TransactionInputView::parse(old(parser).remaining()) {
                Parsed::Done { value, used } => r is Ok && r->Ok_0@ == value,
                Parsed::Failed { used } => r is Err && r->Err_0
                    == CustomError::SerializedBufferIsInvalid,
                Parsed::Rejected { used, message } => r is Err && rejected_with(r->Err_0, message),
            },
            TransactionInputView::parse(old(parser).remaining()).used() <= old(parser).remaining().len(),
            final(parser).remaining() == old(parser).remaining().skip(
                TransactionInputView::parse(old(parser).remaining()).used() as int,
            ),
    {
        let ghost before = parser.remaining();
        assert(before.skip(0) =~= before);
        let outpoint_bytes = match parser.extract_buffer(36) {
            Ok(bytes) => slice_to_vec(bytes),
            Err(e) => { return Err(e); },
        };
        let previous_output = match OutPoint::parse(outpoint_bytes) {
            Ok(outpoint) => outpoint,
            Err(e) => { return Err(e); },
        };
        proof {
            assert(before.take(36).subrange(0, 32) =~= before.subrange(0, 32));
            assert(before.take(36).subrange(32, 36) =~= before.subrange(32, 36));
        }
        let ghost after_outpoint = parser.remaining();
        let ghost used = parse_varint(after_outpoint).used() as int;
        let length = parser.extract_varint();
        assert(before.skip(36).skip(used) =~= before.skip(36 + used));
        let length = match length {
            Ok(length) => length,
            Err(e) => { return Err(e); },
        };
        let left = parser.len();
        if length > left as u64 {
            return Err(CustomError::SerializedBufferIsInvalid);
        }
        let script_sig = match parser.extract_buffer(length as usize) {
            Ok(bytes) => slice_to_vec(bytes),
            Err(e) => { return Err(e); },
        };
        proof {
            assert(before.skip(36 + used).take(length as int) =~= before.subrange(
                36 + used,
                36 + used + length,
            ));
            assert(before.skip(36 + used).skip(length as int) =~= before.skip(
                36 + used + length,
            ));
        }
        let sequence = match parser.extract_u32() {
            Ok(sequence) => sequence,
            Err(e) => { return Err(e); },
        };
        proof {
            let at = 36 + used + length;
            assert(before.skip(at).take(4) =~= before.subrange(at, at + 4));
            assert(before.skip(at).skip(4) =~= before.skip(at + 4));
            lemma_le_value_bound(before.subrange(at, at + 4));
            lemma_pow256_values();
        }
        Ok(Self { previous_output, script_sig, sequence })
    }

    /// A copy of the input.
    pub fn duplicate(&self) -> (copy: TransactionInput)
        ensures
            copy@ == self@,
    {
        TransactionInput {
            previous_output: self.previous_output.duplicate(),
            script_sig: copy_bytes(&self.script_sig),
            sequence: self.sequence,
        }
    }
}

/// A transaction: inputs that spend earlier outputs and the outputs they
/// pay for.
#[derive(Debug, Clone, PartialEq, Eq)]
pub struct Transaction {
    pub version: u32,
    pub inputs: Vec<TransactionInput>,
    pub outputs: Vec<TransactionOutput>,
    pub lock_time: u32,
}

/// A transaction as plain values.
pub struct TransactionView {
    pub version: u32,
    pub inputs: Seq<TransactionInputView>,
    pub outputs: Seq<TransactionOutputView>,
    pub lock_time: u32,
}

/// The inputs as plain values, in their order.
pub open spec fn inputs_view(inputs: Seq<TransactionInput>) -> Seq<TransactionInputView> {
    inputs.map_values(|input: TransactionInput| input@)
}

/// The outputs as plain values, in their order.
pub open spec fn outputs_view(outputs: Seq<TransactionOutput>) -> Seq<TransactionOutputView> {
    outputs.map_values(|output: TransactionOutput| output@)
}

impl View for Transaction {
    type V = TransactionView;

    open spec fn view(&self) -> TransactionView {
        TransactionView {
            version: self.version,
            inputs: inputs_view(self.inputs@),
            outputs: outputs_view(self.outputs@),
            lock_time: self.lock_time,
        }
    }
}

/// How one input is written.
pub open spec fn input_encoder() -> spec_fn(TransactionInputView) -> Seq<u8> {
    |input: TransactionInputView| input.serialize()
}

/// How one input is read.
pub open spec fn input_decoder() -> spec_fn(Seq<u8>) -> Parsed<TransactionInputView> {
    |s: Seq<u8>| TransactionInputView::parse(s)
}

/// How one output is written.
pub open spec fn output_encoder() -> spec_fn(TransactionOutputView) -> Seq<u8> {
    |output: TransactionOutputView| output.serialize()
}

/// How one output is read.
pub open spec fn output_decoder() -> spec_fn(Seq<u8>) -> Parsed<TransactionOutputView> {
    |s: Seq<u8>| TransactionOutputView::parse(s)
}

/// The sum of the values of the outputs that pay to the key with hash
/// `key_hash`.
pub open spec fn received_value(outputs: Seq<TransactionOutputView>, key_hash: Seq<u8>) -> nat
    decreases outputs.len(),
{
    if outputs.len() == 0 {
        0
    } else {
        received_value(outputs.drop_last(), key_hash) + if pays_to_key(
            outputs.last().script_pubkey,
            key_hash,
        ) {
            outputs.last().value as nat
        } else {
            0
        }
    }
}

/// What one input takes from the key with hash `key_hash`: the value of
/// the unspent output it spends, when the set holds that output and it
/// pays to the key; nothing otherwise.
pub open spec fn input_value(
    input: TransactionInputView,
    entries: Seq<(OutPointView, UTXOValueView)>,
    key_hash: Seq<u8>,
) -> nat {
    match lookup(entries, input.previous_output) {
        Some(kept) => if pays_to_key(kept.tx_out.script_pubkey, key_hash) {
            kept.tx_out.value as nat
        } else {
            0
        },
        None => 0,
    }
}

/// The sum of what the inputs take from the key with hash `key_hash`.
pub open spec fn spent_value(
    inputs: Seq<TransactionInputView>,
    entries: Seq<(OutPointView, UTXOValueView)>,
    key_hash: Seq<u8>,
) -> nat
    decreases inputs.len(),
{
    if inputs.len() == 0 {
        0
    } else {
        spent_value(inputs.drop_last(), entries, key_hash) + input_value(
            inputs.last(),
            entries,
            key_hash,
        )
    }
}

impl TransactionView {
    /// What the transaction changes in the funds of the key with hash
    /// `key_hash`, given the unspent outputs `entries`: what its outputs
    /// pay to the key less what its inputs take from it.
    pub open spec fn movement_value(
        self,
        entries: Seq<(OutPointView, UTXOValueView)>,
        key_hash: Seq<u8>,
    ) -> int {
        received_value(self.outputs, key_hash) - spent_value(self.inputs, entries, key_hash)
    }

    /// Every input and output is well formed, and their counts fit a
    /// compact size.
    pub open spec fn wf(self) -> bool {
        &&& self.inputs.len() <= u64::MAX
        &&& self.outputs.len() <= u64::MAX
        &&& forall|i: int| 0 <= i < self.inputs.len() ==> (#[trigger] self.inputs[i]).wf()
        &&& forall|i: int| 0 <= i < self.outputs.len() ==> (#[trigger] self.outputs[i]).wf()
    }

    /// The canonical bytes of the transaction: the version on four bytes,
    /// the number of inputs as a compact size, the inputs, the number of
    /// outputs as a compact size, the outputs, the lock time on four
    /// bytes.
    pub open spec fn serialize(self) -> Seq<u8> {
        le_bytes(self.version as nat, 4) + serialize_counted_list(input_encoder(), self.inputs)
            + serialize_counted_list(output_encoder(), self.outputs) + le_bytes(
            self.lock_time as nat,
            4,
        )
    }

    /// The hash that names the transaction: SHA-256 of the SHA-256 of its
    /// canonical bytes.
    pub open spec fn hash(self) -> Seq<u8> {
        sha256_digest(sha256_digest(self.serialize()))
    }

    /// Reads a transaction from the front of `s`.
    #[verifier::opaque]
    pub open spec fn parse(s: Seq<u8>) -> Parsed<TransactionView> {
        if s.len() < 4 {
            Parsed::Failed { used: 0 }
        } else {
            match parse_counted_list(input_decoder(), s.skip(4)) {
                Parsed::Failed { used } => Parsed::Failed { used: 4 + used },
                Parsed::Rejected { used, message } => Parsed::Rejected {
                    used: 4 + used,
                    message,
                },
                Parsed::Done { value: inputs, used: a } => match parse_counted_list(
                    output_decoder(),
                    s.skip(4 + a as int),
                ) {
                    Parsed::Failed { used } => Parsed::Failed { used: 4 + a + used },
                    Parsed::Rejected { used, message } => Parsed::Rejected {
                        used: 4 + a + used,
                        message,
                    },
                    Parsed::Done { value: outputs, used: b } => if s.len() < 4 + a + b + 4 {
                        Parsed::Failed { used: 4 + a + b }
                    } else {
                        Parsed::Done {
                            value: TransactionView {
                                version: le_value(s.take(4)) as u32,
                                inputs,
                                outputs,
                                lock_time: le_value(
                                    s.subrange(4 + a + b as int, 4 + a + b + 4 as int),
                                ) as u32,
                            },
                            used: 4 + a + b + 4,
                        }
                    },
                },
            }
        }
    }

    /// Parsing what was serialized, whatever follows it, gives the
    /// transaction back and passes exactly its bytes.
    pub proof fn lemma_roundtrip(self, rest: Seq<u8>)
        requires
            self.wf(),
        ensures
            TransactionView::parse(self.serialize() + rest) == (Parsed::Done {
                value: self,
                used: self.serialize().len(),
            }),
    {
        reveal(TransactionView::parse);
        let s = self.serialize() + rest;
        let version = le_bytes(self.version as nat, 4);
        let lock_time = le_bytes(self.lock_time as nat, 4);
        let inputs = serialize_counted_list(input_encoder(), self.inputs);
        let outputs = serialize_counted_list(output_encoder(), self.outputs);
        let a = inputs.len() as int;
        let b = outputs.len() as int;
        lemma_four_bytes(self.version);
        lemma_four_bytes(self.lock_time);
        lemma_framed(version, inputs, outputs, lock_time, rest);
        lemma_inputs_roundtrip(self.inputs, outputs + lock_time + rest);
        lemma_outputs_roundtrip(self.outputs, lock_time + rest);
    }
}

/// A number of 32 bits is written on four bytes that hold its value.
proof fn lemma_four_bytes(n: u32)
    ensures
        le_bytes(n as nat, 4).len() == 4,
        le_value(le_bytes(n as nat, 4)) == n,
{
    lemma_pow256_values();
    lemma_le_bytes_len(n as nat, 4);
    lemma_le_value_of_bytes(n as nat, 4);
    vstd::arithmetic::div_mod::lemma_small_mod(n as nat, pow256(4));
}

/// Where the parts of a record of four parts lie, once more bytes follow
/// it: four bytes, two parts of any length, four bytes.
proof fn lemma_framed(
    head: Seq<u8>,
    first: Seq<u8>,
    second: Seq<u8>,
    last: Seq<u8>,
    rest: Seq<u8>,
)
    requires
        head.len() == 4,
        last.len() == 4,
    ensures
        ({
            let s = head + first + second + last + rest;
            let a = first.len() as int;
            let b = second.len() as int;
            &&& (head + first + second + last).len() == 4 + a + b + 4
            &&& s.len() >= 4 + a + b + 4
            &&& s.take(4) == head
            &&& s.skip(4) == first + (second + last + rest)
            &&& s.skip(4 + a) == second + (last + rest)
            &&& s.subrange(4 + a + b, 4 + a + b + 4) == last
        }),
{
    let s = head + first + second + last + rest;
    let a = first.len() as int;
    let b = second.len() as int;
    assert(s.take(4) =~= head);
    assert(s.skip(4) =~= first + (second + last + rest));
    assert(s.skip(4 + a) =~= second + (last + rest));
    assert(s.subrange(4 + a + b, 4 + a + b + 4) =~= last);
}

/// Reading what was written of counted inputs, whatever follows it, gives
/// the inputs back and passes exactly their bytes.
pub proof fn lemma_inputs_roundtrip(inputs: Seq<TransactionInputView>, rest: Seq<u8>)
    requires
        inputs.len() <= u64::MAX,
        forall|i: int| 0 <= i < inputs.len() ==> (#[trigger] inputs[i]).wf(),
    ensures
        parse_counted_list(
            input_decoder(),
            serialize_counted_list(input_encoder(), inputs) + rest,
        ) == (Parsed::Done {
            value: inputs,
            used: serialize_counted_list(input_encoder(), inputs).len(),
        }),
{
    assert forall|i: int, tail: Seq<u8>| 0 <= i < inputs.len() implies #[trigger] input_decoder()(
        input_encoder()(inputs[i]) + tail,
    ) == (Parsed::Done { value: inputs[i], used: input_encoder()(inputs[i]).len() }) by {
        inputs[i].lemma_roundtrip(tail);
    }
    lemma_counted_list_roundtrip(input_encoder(), input_decoder(), inputs, rest);
}

/// Reading what was written of counted outputs, whatever follows it, gives
/// the outputs back and passes exactly their bytes.
pub proof fn lemma_outputs_roundtrip(outputs: Seq<TransactionOutputView>, rest: Seq<u8>)
    requires
        outputs.len() <= u64::MAX,
        forall|i: int| 0 <= i < outputs.len() ==> (#[trigger] outputs[i]).wf(),
    ensures
        parse_counted_list(
            output_decoder(),
            serialize_counted_list(output_encoder(), outputs) + rest,
        ) == (Parsed::Done {
            value: outputs,
            used: serialize_counted_list(output_encoder(), outputs).len(),
        }),
{
    assert forall|i: int, tail: Seq<u8>| 0 <= i < outputs.len() implies #[trigger] output_decoder()(
        output_encoder()(outputs[i]) + tail,
    ) == (Parsed::Done { value: outputs[i], used: output_encoder()(outputs[i]).len() }) by {
        outputs[i].lemma_roundtrip(tail);
    }
    lemma_counted_list_roundtrip(output_encoder(), output_decoder(), outputs, rest);
}

/// Reading a transaction either gives one or fails for want of bytes: no
/// rule of the record can be broken.
pub proof fn lemma_transaction_not_rejected(s: Seq<u8>)
    ensures
        !(TransactionView::parse(s) is Rejected),
{
    reveal(TransactionView::parse);
    if s.len() >= 4 {
        crate::parser::lemma_parse_list_not_rejected(input_decoder(), s.skip(4), 0);
        match parse_counted_list(input_decoder(), s.skip(4)) {
            Parsed::Done { value, used } => {
                crate::parser::lemma_parse_list_not_rejected(
                    output_decoder(),
                    s.skip(4 + used as int),
                    0,
                );
            },
            _ => {},
        }
    }
}

impl Transaction {
    /// The hash that names the transaction.
    pub fn hash(&self) -> (digest: Vec<u8>)
        ensures
            digest@ == self@.hash(),
            digest@.len() == 32,
    {
        let bytes = self.serialize();
        let once = sha256(bytes.as_slice());
        sha256(once.as_slice())
    }

    /// The movement that the transaction makes in the funds of the key
    /// with hash `public_key_hash`, given the unspent outputs `utxo`: none
    /// when it changes nothing, an error when the change does not fit in a
    /// movement. The movement names no block.
    pub fn get_movement(&self, public_key_hash: &Vec<u8>, utxo: &UTXO) -> (r: Result<
        Option<Movement>,
        CustomError,
    >)
        ensures
            movement_outcome(
                self@.movement_value(utxo@, public_key_hash@),
                self@.hash(),
                None,
                r,
            ),
    {
        self.movement_with_hash(self.hash(), None, public_key_hash, utxo)
    }

    /// The movement that the transaction makes in the funds of the key
    /// with hash `public_key_hash`, with `tx_hash` as the name of the
    /// transaction and `block_hash` as the block that confirmed it.
    pub fn movement_with_hash(
        &self,
        tx_hash: Vec<u8>,
        block_hash: Option<Vec<u8>>,
        public_key_hash: &Vec<u8>,
        utxo: &UTXO,
    ) -> (r: Result<Option<Movement>, CustomError>)
        ensures
            movement_outcome(
                self@.movement_value(utxo@, public_key_hash@),
                tx_hash@,
                crate::wallet::optional_bytes_view(block_hash),
                r,
            ),
    {
        let ghost key = public_key_hash@;
        let ghost entries = utxo@;
        let ghost outputs = self@.outputs;
        let ghost inputs = self@.inputs;
        let mut received: u128 = 0;
        let mut i: usize = 0;
        while i < self.outputs.len()
            invariant
                i <= self.outputs@.len(),
                outputs == outputs_view(self.outputs@),
                received == received_value(outputs.take(i as int), key),
                received <= i * u64::MAX,
                key == public_key_hash@,
            decreases self.outputs@.len() - i,
        {
            proof {
                let next = outputs.take(i + 1);
                assert(next.drop_last() =~= outputs.take(i as int));
                assert(next.last() == self.outputs@[i as int]@);
                assert(i * u64::MAX + u64::MAX == (i + 1) * u64::MAX) by (nonlinear_arith);
                assert((i + 1) * u64::MAX <= usize::MAX * u64::MAX) by (nonlinear_arith)
                    requires
                        i + 1 <= usize::MAX,
                ;
            }
            if compare_p2pkh(&self.outputs[i].script_pubkey, public_key_hash) {
                received = received + self.outputs[i].value as u128;
            }
            i = i + 1;
        }
        assert(outputs.take(i as int) =~= outputs);
        let mut spent: u128 = 0;
        let mut i: usize = 0;
        while i < self.inputs.len()
            invariant
                i <= self.inputs@.len(),
                inputs == inputs_view(self.inputs@),
                entries == utxo@,
                spent == spent_value(inputs.take(i as int), entries, key),
                spent <= i * u64::MAX,
                key == public_key_hash@,
            decreases self.inputs@.len() - i,
        {
            proof {
                let next = inputs.take(i + 1);
                assert(next.drop_last() =~= inputs.take(i as int));
                assert(next.last() == self.inputs@[i as int]@);
                assert(i * u64::MAX + u64::MAX == (i + 1) * u64::MAX) by (nonlinear_arith);
                assert((i + 1) * u64::MAX <= usize::MAX * u64::MAX) by (nonlinear_arith)
                    requires
                        i + 1 <= usize::MAX,
                ;
            }
            match utxo.get(&self.inputs[i].previous_output) {
                Some(kept) => {
                    if compare_p2pkh(&kept.tx_out.script_pubkey, public_key_hash) {
                        spent = spent + kept.tx_out.value as u128;
                    }
                },
                None => {},
            }
            i = i + 1;
        }
        assert(inputs.take(i as int) =~= inputs);
        if received == spent {
            return Ok(None);
        }
        let value: i64 = if received > spent {
            let gain = received - spent;
            if gain > i64::MAX as u128 {
                return Err(CustomError::ValueOutOfRange);
            }
            gain as i64
        } else {
            let loss = spent - received;
            if loss > 0x8000_0000_0000_0000 {
                return Err(CustomError::ValueOutOfRange);
            }
            (0 - loss as i128) as i64
        };
        Ok(Some(Movement { tx_hash, value, block_hash }))
    }

    /// The transaction that spends `inputs_outpoints`, which are to be
    /// unspent outputs of `sender_wallet`, to pay each of `outputs`, a
    /// public key in base 58 and an amount. It has version 1 and lock time
    /// 0. It is not signed: every input carries the sender's own script in
    /// the place of the signature, and the highest sequence number. Fails
    /// when the key of the sender or of an output cannot be read.
    pub fn create(
        sender_wallet: &Wallet,
        inputs_outpoints: Vec<OutPoint>,
        outputs: Vec<(String, u64)>,
    ) -> (r: Result<Self, CustomError>)
        ensures
            match created_transaction(
                sender_wallet.pubkey@,
                outpoints_view(inputs_outpoints@),
                payments_view(outputs@),
            ) {
                Some(transaction) => r is Ok && r->Ok_0@ == transaction,
                None => r is Err && rejected_with(r->Err_0, pubkey_error_text()),
            },
    {
        let script_pubkey = match sender_wallet.get_script_pubkey() {
            Ok(script) => script,
            Err(e) => { return Err(e); },
        };
        let ghost payments = payments_view(outputs@);
        let mut paid: Vec<TransactionOutput> = Vec::new();
        let mut k: usize = 0;
        assert(outputs_view(paid@) =~= Seq::empty());
        while k < outputs.len()
            invariant
                k <= outputs@.len(),
                payments == payments_view(outputs@),
                payment_outputs(payments.take(k as int)) == Some(outputs_view(paid@)),
            decreases outputs@.len() - k,
        {
            proof {
                let next = payments.take(k + 1);
                assert(next.drop_last() =~= payments.take(k as int));
                assert(next.last() == payments[k as int]);
            }
            let script = match get_script_pubkey(outputs[k].0.clone()) {
                Ok(script) => script,
                Err(e) => {
                    proof {
                        lemma_payments_fail(payments, k + 1);
                    }
                    return Err(e);
                },
            };
            let output = TransactionOutput { value: outputs[k].1, script_pubkey: script };
            proof {
                assert(outputs_view(paid@.push(output)) =~= outputs_view(paid@).push(output@));
            }
            paid.push(output);
            k = k + 1;
        }
        assert(payments.take(k as int) =~= payments);
        Ok(Self::unsigned(&script_pubkey, &inputs_outpoints, paid))
    }

    /// The transaction that spends `inputs_outpoints` and has `outputs`,
    /// before it is signed: version 1, lock time 0, every input with
    /// `script_pubkey`, the script of the sender, in the place of the
    /// signature, and the highest sequence number.
    pub fn unsigned(
        script_pubkey: &Vec<u8>,
        inputs_outpoints: &Vec<OutPoint>,
        outputs: Vec<TransactionOutput>,
    ) -> (transaction: Self)
        ensures
            transaction@ == (TransactionView {
                version: 1,
                inputs: unsigned_inputs(outpoints_view(inputs_outpoints@), script_pubkey@),
                outputs: outputs_view(outputs@),
                lock_time: 0,
            }),
    {
        let ghost outpoints = outpoints_view(inputs_outpoints@);
        let mut inputs: Vec<TransactionInput> = Vec::new();
        let mut i: usize = 0;
        while i < inputs_outpoints.len()
            invariant
                i <= inputs_outpoints@.len(),
                outpoints == outpoints_view(inputs_outpoints@),
                inputs@.len() == i,
                forall|j: int|
                    0 <= j < i ==> (#[trigger] inputs@[j])@ == (TransactionInputView {
                        previous_output: outpoints[j],
                        script_sig: script_pubkey@,
                        sequence: 0xffff_ffff,
                    }),
            decreases inputs_outpoints@.len() - i,
        {
            let input = TransactionInput {
                previous_output: inputs_outpoints[i].duplicate(),
                script_sig: copy_bytes(script_pubkey),
                sequence: 0xffff_ffff,
            };
            inputs.push(input);
            i = i + 1;
        }
        assert(inputs_view(inputs@) =~= unsigned_inputs(outpoints, script_pubkey@));
        Transaction { version: 1, inputs, outputs, lock_time: 0 }
    }

    /// A copy of the transaction.
    pub fn duplicate(&self) -> (copy: Transaction)
        ensures
            copy@ == self@,
    {
        let mut inputs: Vec<TransactionInput> = Vec::new();
        let mut i: usize = 0;
        assert(inputs_view(inputs@) =~= inputs_view(self.inputs@.take(0)));
        while i < self.inputs.len()
            invariant
                i <= self.inputs@.len(),
                inputs_view(inputs@) == inputs_view(self.inputs@.take(i as int)),
            decreases self.inputs@.len() - i,
        {
            let input = self.inputs[i].duplicate();
            proof {
                assert(self.inputs@.take(i + 1) =~= self.inputs@.take(i as int).push(
                    self.inputs@[i as int],
                ));
                assert(inputs_view(inputs@.push(input)) =~= inputs_view(inputs@).push(input@));
                assert(inputs_view(self.inputs@.take(i + 1)) =~= inputs_view(
                    self.inputs@.take(i as int),
                ).push(self.inputs@[i as int]@));
            }
            inputs.push(input);
            i = i + 1;
        }
        assert(self.inputs@.take(i as int) =~= self.inputs@);
        let mut outputs: Vec<TransactionOutput> = Vec::new();
        let mut i: usize = 0;
        assert(outputs_view(outputs@) =~= outputs_view(self.outputs@.take(0)));
        while i < self.outputs.len()
            invariant
                i <= self.outputs@.len(),
                outputs_view(outputs@) == outputs_view(self.outputs@.take(i as int)),
            decreases self.outputs@.len() - i,
        {
            let output = self.outputs[i].duplicate();
            proof {
                assert(self.outputs@.take(i + 1) =~= self.outputs@.take(i as int).push(
                    self.outputs@[i as int],
                ));
                assert(outputs_view(outputs@.push(output)) =~= outputs_view(outputs@).push(
                    output@,
                ));
                assert(outputs_view(self.outputs@.take(i + 1)) =~= outputs_view(
                    self.outputs@.take(i as int),
                ).push(self.outputs@[i as int]@));
            }
            outputs.push(output);
            i = i + 1;
        }
        assert(self.outputs@.take(i as int) =~= self.outputs@);
        Transaction { version: self.version, inputs, outputs, lock_time: self.lock_time }
    }

    /// The canonical bytes of the transaction.
    pub fn serialize(&self) -> (buffer: Vec<u8>)
        ensures
            buffer@ == self@.serialize(),
    {
        let mut buffer = write_le(self.version as u64, 4);
        let mut inputs = serialize_inputs(&self.inputs);
        buffer.append(&mut inputs);
        let mut outputs = serialize_outputs(&self.outputs);
        buffer.append(&mut outputs);
        let mut lock_time = write_le(self.lock_time as u64, 4);
        buffer.append(&mut lock_time);
        buffer
    }

    /// Reads a transaction from the front of `buffer`. Bytes that follow
    /// it are not looked at.
    pub fn parse(buffer: Vec<u8>) -> (r: Result<Self, CustomError>)
        ensures
            match TransactionView::parse(buffer@) {
                Parsed::Done { value, used } => r is Ok && r->Ok_0@ == value,
                Parsed::Failed { used } => r is Err && r->Err_0
                    == CustomError::SerializedBufferIsInvalid,
                Parsed::Rejected { used, message } => r is Err && rejected_with(r->Err_0, message),
            },
    {
        let mut parser = BufferParser::new(buffer);
        Self::parse_from_parser(&mut parser)
    }

    /// Reads a transaction at the cursor. When it fails, the cursor stays
    /// where the read that failed left it.
    pub fn parse_from_parser(parser: &mut BufferParser) -> (r: Result<Self, CustomError>)
        ensures
            match TransactionView::parse(old(parser).remaining()) {
                Parsed::Done { value, used } => r is Ok && r->Ok_0@ == value,
                Parsed::Failed { used } => r is Err && r->Err_0
                    == CustomError::SerializedBufferIsInvalid,
                Parsed::Rejected { used, message } => r is Err && rejected_with(r->Err_0, message),
            },
            TransactionView::parse(old(parser).remaining()).used() <= old(parser).remaining().len(),
            final(parser).remaining() == old(parser).remaining().skip(
                TransactionView::parse(old(parser).remaining()).used() as int,
            ),
    {
        reveal(TransactionView::parse);
        let ghost before = parser.remaining();
        assert(before.skip(0) =~= before);
        let version = match parser.extract_u32() {
            Ok(version) => version,
            Err(e) => { return Err(e); },
        };
        proof {
            lemma_le_value_bound(before.take(4));
            lemma_pow256_values();
        }
        let ghost a = parse_counted_list(input_decoder(), before.skip(4)).used() as int;
        let inputs = parse_inputs(parser);
        assert(before.skip(4).skip(a) =~= before.skip(4 + a));
        let inputs = match inputs {
            Ok(inputs) => inputs,
            Err(e) => { return Err(e); },
        };
        let ghost b = parse_counted_list(output_decoder(), before.skip(4 + a)).used() as int;
        let outputs = parse_outputs(parser);
        assert(before.skip(4 + a).skip(b) =~= before.skip(4 + a + b));
        let outputs = match outputs {
            Ok(outputs) => outputs,
            Err(e) => { return Err(e); },
        };
        let lock_time = match parser.extract_u32() {
            Ok(lock_time) => lock_time,
            Err(e) => { return Err(e); },
        };
        proof {
            let at = 4 + a + b;
            assert(before.skip(at).take(4) =~= before.subrange(at, at + 4));
            assert(before.skip(at).skip(4) =~= before.skip(at + 4));
            lemma_le_value_bound(before.subrange(at, at + 4));
        }
        Ok(Self { version, inputs, outputs, lock_time })
    }
}

/// The payments as plain values: the public key that is paid, in base 58,
/// and the amount.
pub open spec fn payments_view(payments: Seq<(String, u64)>) -> Seq<(Seq<char>, u64)> {
    payments.map_values(|payment: (String, u64)| (payment.0@, payment.1))
}

/// The outpoints as plain values, in their order.
pub open spec fn outpoints_view(outpoints: Seq<OutPoint>) -> Seq<OutPointView> {
    outpoints.map_values(|outpoint: OutPoint| outpoint@)
}

/// The outputs that make the payments: for each, the amount and the script
/// that pays to its key. Nothing when one of the keys cannot be read.
pub open spec fn payment_outputs(payments: Seq<(Seq<char>, u64)>) -> Option<
    Seq<TransactionOutputView>,
>
    decreases payments.len(),
{
    if payments.len() == 0 {
        Some(Seq::empty())
    } else {
        match payment_outputs(payments.drop_last()) {
            None => None,
            Some(outputs) => match pubkey_hash_of(payments.last().0) {
                None => None,
                Some(hash) => Some(
                    outputs.push(
                        TransactionOutputView {
                            value: payments.last().1,
                            script_pubkey: p2pkh_script(hash),
                        },
                    ),
                ),
            },
        }
    }
}

/// The inputs that spend the outpoints before they are signed: each
/// carries `script` in the place of the signature and the highest
/// sequence number.
pub open spec fn unsigned_inputs(outpoints: Seq<OutPointView>, script: Seq<u8>) -> Seq<
    TransactionInputView,
> {
    outpoints.map_values(
        |outpoint: OutPointView|
            TransactionInputView {
                previous_output: outpoint,
                script_sig: script,
                sequence: 0xffff_ffff,
            },
    )
}

/// The transaction that spends `outpoints` of the sender to make
/// `payments`: version 1, lock time 0, every input with the sender's own
/// script in the place of the signature. Nothing when the key of the
/// sender or of a payment cannot be read.
pub open spec fn created_transaction(
    sender_pubkey: Seq<char>,
    outpoints: Seq<OutPointView>,
    payments: Seq<(Seq<char>, u64)>,
) -> Option<TransactionView> {
    match pubkey_hash_of(sender_pubkey) {
        None => None,
        Some(sender) => match payment_outputs(payments) {
            None => None,
            Some(outputs) => Some(
                TransactionView {
                    version: 1,
                    inputs: unsigned_inputs(outpoints, p2pkh_script(sender)),
                    outputs,
                    lock_time: 0,
                },
            ),
        },
    }
}

/// Once the key of a payment cannot be read, no longer list of payments
/// has outputs.
pub proof fn lemma_payments_fail(payments: Seq<(Seq<char>, u64)>, failed: int)
    requires
        0 <= failed <= payments.len(),
        payment_outputs(payments.take(failed)) is None,
    ensures
        payment_outputs(payments) is None,
    decreases payments.len(),
{
    if failed < payments.len() {
        assert(payments.drop_last().take(failed) =~= payments.take(failed));
        lemma_payments_fail(payments.drop_last(), failed);
    } else {
        assert(payments.take(failed) =~= payments);
    }
}

/// Whether `r` is what asking for a movement gives when the change of
/// funds is `delta`: nothing when `delta` is zero, the movement with that
/// value, transaction and block when `delta` fits in 64 bits with a sign,
/// an error otherwise.
pub open spec fn movement_outcome(
    delta: int,
    tx_hash: Seq<u8>,
    block_hash: Option<Seq<u8>>,
    r: Result<Option<Movement>, CustomError>,
) -> bool {
    if delta == 0 {
        r is Ok && r->Ok_0 is None
    } else if i64::MIN <= delta <= i64::MAX {
        r is Ok && r->Ok_0 is Some && r->Ok_0->Some_0@ == (MovementView {
            tx_hash,
            value: delta as i64,
            block_hash,
        })
    } else {
        r is Err && r->Err_0 == CustomError::ValueOutOfRange
    }
}

/// The number of `inputs` and their bytes.
fn serialize_inputs(inputs: &Vec<TransactionInput>) -> (buffer: Vec<u8>)
    ensures
        buffer@ == serialize_counted_list(input_encoder(), inputs_view(inputs@)),
{
    let mut buffer = varint_bytes(inputs.len() as u64);
    let ghost head = buffer@;
    let ghost items = inputs_view(inputs@);
    let mut i: usize = 0;
    while i < inputs.len()
        invariant
            i <= inputs@.len(),
            items == inputs_view(inputs@),
            buffer@ == head + serialize_list(input_encoder(), items.take(i as int)),
        decreases inputs@.len() - i,
    {
        let mut bytes = inputs[i].serialize();
        buffer.append(&mut bytes);
        proof {
            let next = items.take(i + 1);
            assert(next.drop_last() =~= items.take(i as int));
            assert(next.last() == inputs@[i as int]@);
        }
        i = i + 1;
    }
    assert(items.take(i as int) =~= items);
    buffer
}

/// The number of `outputs` and their bytes.
fn serialize_outputs(outputs: &Vec<TransactionOutput>) -> (buffer: Vec<u8>)
    ensures
        buffer@ == serialize_counted_list(output_encoder(), outputs_view(outputs@)),
{
    let mut buffer = varint_bytes(outputs.len() as u64);
    let ghost head = buffer@;
    let ghost items = outputs_view(outputs@);
    let mut i: usize = 0;
    while i < outputs.len()
        invariant
            i <= outputs@.len(),
            items == outputs_view(outputs@),
            buffer@ == head + serialize_list(output_encoder(), items.take(i as int)),
        decreases outputs@.len() - i,
    {
        let mut bytes = outputs[i].serialize();
        buffer.append(&mut bytes);
        proof {
            let next = items.take(i + 1);
            assert(next.drop_last() =~= items.take(i as int));
            assert(next.last() == outputs@[i as int]@);
        }
        i = i + 1;
    }
    assert(items.take(i as int) =~= items);
    buffer
}

/// Reads a count and that many inputs at the cursor.
fn parse_inputs(parser: &mut BufferParser) -> (r: Result<Vec<TransactionInput>, CustomError>)
    ensures
        match parse_counted_list(input_decoder(), old(parser).remaining()) {
            Parsed::Done { value, used } => r is Ok && inputs_view(r->Ok_0@) == value,
            Parsed::Failed { used } => r is Err && r->Err_0
                == CustomError::SerializedBufferIsInvalid,
            Parsed::Rejected { used, message } => r is Err && rejected_with(r->Err_0, message),
        },
        parse_counted_list(input_decoder(), old(parser).remaining()).used() <= old(parser).remaining().len(),
        final(parser).remaining() == old(parser).remaining().skip(
            parse_counted_list(input_decoder(), old(parser).remaining()).used() as int,
        ),
{
    let ghost start = parser.remaining();
    let count = match parser.extract_varint() {
        Ok(count) => count,
        Err(e) => { return Err(e); },
    };
    let ghost head = parse_varint(start).used() as int;
    let ghost before = parser.remaining();
    let ghost mut used: int = 0;
    let mut inputs: Vec<TransactionInput> = Vec::new();
    let mut i: u64 = 0;
    assert(before.skip(0) =~= before);
    assert(inputs_view(inputs@) =~= Seq::empty());
    while i < count
        invariant
            i <= count,
            0 <= used <= before.len(),
            0 <= head <= start.len(),
            start == old(parser).remaining(),
            before == start.skip(head),
            parse_varint(start) == (Parsed::Done { value: count as nat, used: head as nat }),
            parse_list(input_decoder(), before, i as nat) == (Parsed::Done {
                value: inputs_view(inputs@),
                used: used as nat,
            }),
            parser.remaining() == before.skip(used),
        decreases count - i,
    {
        let ghost more = TransactionInputView::parse(before.skip(used)).used() as int;
        let input = TransactionInput::parse(parser);
        assert(before.skip(used).skip(more) =~= before.skip(used + more));
        match input {
            Ok(input) => {
                proof {
                    assert(inputs_view(inputs@.push(input)) =~= inputs_view(inputs@).push(input@));
                }
                inputs.push(input);
            },
            Err(e) => {
                proof {
                    lemma_parse_list_failure(input_decoder(), before, (i + 1) as nat, count as nat);
                    assert(start.skip(head).skip(used + more) =~= start.skip(head + used + more));
                }
                return Err(e);
            },
        }
        proof {
            used = used + more;
        }
        i = i + 1;
    }
    assert(start.skip(head).skip(used) =~= start.skip(head + used));
    Ok(inputs)
}

/// Reads a count and that many outputs at the cursor.
fn parse_outputs(parser: &mut BufferParser) -> (r: Result<Vec<TransactionOutput>, CustomError>)
    ensures
        match parse_counted_list(output_decoder(), old(parser).remaining()) {
            Parsed::Done { value, used } => r is Ok && outputs_view(r->Ok_0@) == value,
            Parsed::Failed { used } => r is Err && r->Err_0
                == CustomError::SerializedBufferIsInvalid,
            Parsed::Rejected { used, message } => r is Err && rejected_with(r->Err_0, message),
        },
        parse_counted_list(output_decoder(), old(parser).remaining()).used() <= old(parser).remaining().len(),
        final(parser).remaining() == old(parser).remaining().skip(
            parse_counted_list(output_decoder(), old(parser).remaining()).used() as int,
        ),
{
    let ghost start = parser.remaining();
    let count = match parser.extract_varint() {
        Ok(count) => count,
        Err(e) => { return Err(e); },
    };
    let ghost head = parse_varint(start).used() as int;
    let ghost before = parser.remaining();
    let ghost mut used: int = 0;
    let mut outputs: Vec<TransactionOutput> = Vec::new();
    let mut i: u64 = 0;
    assert(before.skip(0) =~= before);
    assert(outputs_view(outputs@) =~= Seq::empty());
    while i < count
        invariant
            i <= count,
            0 <= used <= before.len(),
            0 <= head <= start.len(),
            start == old(parser).remaining(),
            before == start.skip(head),
            parse_varint(start) == (Parsed::Done { value: count as nat, used: head as nat }),
            parse_list(output_decoder(), before, i as nat) == (Parsed::Done {
                value: outputs_view(outputs@),
                used: used as nat,
            }),
            parser.remaining() == before.skip(used),
        decreases count - i,
    {
        let ghost more = TransactionOutputView::parse(before.skip(used)).used() as int;
        let output = TransactionOutput::parse(parser);
        assert(before.skip(used).skip(more) =~= before.skip(used + more));
        match output {
            Ok(output) => {
                proof {
                    assert(outputs_view(outputs@.push(output)) =~= outputs_view(outputs@).push(
                        output@,
                    ));
                }
                outputs.push(output);
            },
            Err(e) => {
                proof {
                    lemma_parse_list_failure(
                        output_decoder(),
                        before,
                        (i + 1) as nat,
                        count as nat,
                    );
                    assert(start.skip(head).skip(used + more) =~= start.skip(head + used + more));
                }
                return Err(e);
            },
        }
        proof {
            used = used + more;
        }
        i = i + 1;
    }
    assert(start.skip(head).skip(used) =~= start.skip(head + used));
    Ok(outputs)
}

} // verus!
