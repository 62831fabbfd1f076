use vstd::prelude::*;
use vstd::slice::{slice_subrange, slice_to_vec};
use vstd::utf8::encode_utf8;
use crate::encoding::{
    from_twos_complement, le_bytes, le_value, lemma_le_value_bound, lemma_pow256_values, pow256,
    twos_complement, write_le,
};
use crate::error::CustomError;
use crate::hashing::copy_bytes;
use crate::parser::{
    is_utf8, lemma_parse_list_failure, parse_list, rejected_with, serialize_list, utf8_bytes,
    utf8_text, BufferParser, Parsed,
};
use crate::states::utxo_state::{OutPointView, UTXOValueView, UTXO};
use crate::structs::tx_output::{compare_p2pkh, make_p2pkh_script, p2pkh_script, pays_to_key};

verus! {

/// The error of `bs58`'s decoder. Nothing is read from it.
#[verifier::external_type_specification]
#[verifier::external_body]
pub struct ExBase58DecodeError(bs58::decode::Error);

/// The bytes that a text stands for in base 58 with the Bitcoin alphabet,
/// as `bs58` decodes it; nothing where `bs58` rejects the text.
pub uninterp spec fn base58_decode(text: Seq<char>) -> Option<Seq<u8>>;

/// `bs58::decode(text).into_vec()`: the decoded bytes, or the decoder's
/// error. What comes back depends on the text alone; nothing else is
/// claimed of it.
#[verifier::external_body]
fn decode_base58(text: &str) -> (r: Result<Vec<u8>, bs58::decode::Error>)
    ensures
        match base58_decode(text@) {
            Some(bytes) => r is Ok && r->Ok_0@ == bytes,
            None => r is Err,
        },
{
    bs58::decode(text).into_vec()
}

/// The text of the error for a public key that cannot be read.
pub open spec fn pubkey_error_text() -> Seq<char> {
    "User PubKey incorrectly formatted"@
}

/// The text of the error for a private key that cannot be read.
pub open spec fn privkey_error_text() -> Seq<char> {
    "User PrivKey incorrectly formatted"@
}

/// The bytes of `decoded` from the second up to, not including, the one at
/// `end`: what is left of a decoded key when the version byte before it and
/// the checksum after it are dropped. Nothing when `decoded` is shorter.
pub open spec fn key_bytes(decoded: Option<Seq<u8>>, end: int) -> Option<Seq<u8>> {
    match decoded {
        Some(bytes) => if bytes.len() >= end {
            Some(bytes.subrange(1, end))
        } else {
            None
        },
        None => None,
    }
}

/// The hash of twenty bytes that a public key in base 58 holds.
pub open spec fn pubkey_hash_of(pubkey: Seq<char>) -> Option<Seq<u8>> {
    key_bytes(base58_decode(pubkey), 21)
}

/// The 32 bytes that a private key in base 58 holds.
pub open spec fn privkey_hash_of(privkey: Seq<char>) -> Option<Seq<u8>> {
    key_bytes(base58_decode(privkey), 33)
}

/// Cuts the key out of decoded bytes: the bytes from the second up to, not
/// including, the one at `end`.
pub fn key_from_decoded(decoded: &Vec<u8>, end: usize) -> (key: Option<Vec<u8>>)
    requires
        1 <= end,
    ensures
        match key_bytes(Some(decoded@), end as int) {
            Some(bytes) => key is Some && key->Some_0@ == bytes,
            None => key is None,
        },
{
    if decoded.len() < end {
        None
    } else {
        Some(slice_to_vec(slice_subrange(decoded.as_slice(), 1, end)))
    }
}

/// The hash of twenty bytes in a public key written in base 58: the
/// decoded bytes without the version byte before it and the checksum after
/// it.
pub fn get_pubkey_hash(pubkey: String) -> (r: Result<Vec<u8>, CustomError>)
    ensures
        match pubkey_hash_of(pubkey@) {
            Some(hash) => r is Ok && r->Ok_0@ == hash,
            None => r is Err && rejected_with(r->Err_0, pubkey_error_text()),
        },
{
    let key = match decode_base58(pubkey.as_str()) {
        Ok(decoded) => key_from_decoded(&decoded, 21),
        Err(_) => None,
    };
    match key {
        Some(hash) => Ok(hash),
        None => Err(CustomError::Validation(String::from_str("User PubKey incorrectly formatted"))),
    }
}

/// The 32 bytes in a private key written in base 58: the decoded bytes
/// without the version byte before them and what follows them. The error
/// names the private key when the text is not base 58, and the public key
/// when the decoded bytes are too few.
pub fn get_privkey_hash(privkey: String) -> (r: Result<Vec<u8>, CustomError>)
    ensures
        match privkey_hash_of(privkey@) {
            Some(hash) => r is Ok && r->Ok_0@ == hash,
            None => r is Err && rejected_with(
                r->Err_0,
                if base58_decode(privkey@) is None {
                    privkey_error_text()
                } else {
                    pubkey_error_text()
                },
            ),
        },
{
    let decoded = match decode_base58(privkey.as_str()) {
        Ok(decoded) => decoded,
        Err(_) => {
            return Err(
                CustomError::Validation(String::from_str("User PrivKey incorrectly formatted")),
            );
        },
    };
    match key_from_decoded(&decoded, 33) {
        Some(hash) => Ok(hash),
        None => Err(CustomError::Validation(String::from_str("User PubKey incorrectly formatted"))),
    }
}

/// The script that pays to the public key written in base 58.
pub fn get_script_pubkey(pubkey: String) -> (r: Result<Vec<u8>, CustomError>)
    ensures
        match pubkey_hash_of(pubkey@) {
            Some(hash) => r is Ok && r->Ok_0@ == p2pkh_script(hash),
            None => r is Err && rejected_with(r->Err_0, pubkey_error_text()),
        },
{
    match get_pubkey_hash(pubkey) {
        Ok(hash) => Ok(make_p2pkh_script(&hash)),
        Err(e) => Err(e),
    }
}

/// A change of a wallet's funds by one transaction: positive when the
/// wallet received, negative when it spent. `block_hash` names the block
/// that confirmed the transaction, once one has.
#[derive(Clone, Debug, PartialEq, Eq)]
pub struct Movement {
    pub tx_hash: Vec<u8>,
    pub value: i64,
    pub block_hash: Option<Vec<u8>>,
}

/// A movement as plain values.
pub struct MovementView {
    pub tx_hash: Seq<u8>,
    pub value: i64,
    pub block_hash: Option<Seq<u8>>,
}

/// The bytes of an optional hash as plain values.
pub open spec fn optional_bytes_view(bytes: Option<Vec<u8>>) -> Option<Seq<u8>> {
    match bytes {
        Some(bytes) => Some(bytes@),
        None => None,
    }
}

impl View for Movement {
    type V = MovementView;

    open spec fn view(&self) -> MovementView {
        MovementView {
            tx_hash: self.tx_hash@,
            value: self.value,
            block_hash: optional_bytes_view(self.block_hash),
        }
    }
}

/// The movements as plain values, in their order.
pub open spec fn movements_view(movements: Seq<Movement>) -> Seq<MovementView> {
    movements.map_values(|movement: Movement| movement@)
}

/// The text of the error for a movement whose mark for the block hash is
/// neither zero nor one.
pub open spec fn presence_error_text() -> Seq<char> {
    "Block hash presence incorrectly formatted"@
}

impl MovementView {
    /// Both hashes fit the one byte that holds their length.
    pub open spec fn wf(self) -> bool {
        self.tx_hash.len() <= 255 && (self.block_hash matches Some(hash) ==> hash.len() <= 255)
    }

    /// The bytes of the movement in the wallets file: the length of the
    /// transaction hash on one byte, the hash, the value on eight bytes in
    /// two's complement, least significant first, then a zero, or a one
    /// followed by the length of the block hash on one byte and the hash.
    /// A length above 255 is written as its remainder by 256.
    pub open spec fn serialize(self) -> Seq<u8> {
        seq![(self.tx_hash.len() % 256) as u8] + self.tx_hash + le_bytes(
            twos_complement(self.value as int, 8),
            8,
        ) + match self.block_hash {
            Some(hash) => seq![1u8, (hash.len() % 256) as u8] + hash,
            None => seq![0u8],
        }
    }

    /// Reads a movement from the front of `s`.
    pub open spec fn parse(s: Seq<u8>) -> Parsed<MovementView> {
        if s.len() < 1 {
            Parsed::Failed { used: 0 }
        } else {
            let n = s[0] as nat;
            if s.len() < 1 + n {
                Parsed::Failed { used: 1 }
            } else if s.len() < 1 + n + 8 {
                Parsed::Failed { used: 1 + n }
            } else if s.len() < 1 + n + 9 {
                Parsed::Failed { used: 1 + n + 8 }
            } else {
                let tx_hash = s.subrange(1, 1 + n as int);
                let value = from_twos_complement(
                    le_value(s.subrange(1 + n as int, 1 + n + 8 as int)),
                    8,
                ) as i64;
                let mark = s[1 + n + 8 as int];
                if mark == 0 {
                    Parsed::Done {
                        value: MovementView { tx_hash, value, block_hash: None },
                        used: 1 + n + 9,
                    }
                } else if mark != 1 {
                    Parsed::Rejected { used: 1 + n + 9, message: presence_error_text() }
                } else if s.len() < 1 + n + 10 {
                    Parsed::Failed { used: 1 + n + 9 }
                } else {
                    let m = s[1 + n + 9 as int] as nat;
                    if s.len() < 1 + n + 10 + m {
                        Parsed::Failed { used: 1 + n + 10 }
                    } else {
                        Parsed::Done {
                            value: MovementView {
                                tx_hash,
                                value,
                                block_hash: Some(
                                    s.subrange(1 + n + 10 as int, 1 + n + 10 + m as int),
                                ),
                            },
                            used: 1 + n + 10 + m,
                        }
                    }
                }
            }
        }
    }
}

/// Reading what was written of a movement, whatever follows it, gives the
/// movement back and passes exactly its bytes.
pub proof fn lemma_movement_roundtrip(movement: MovementView, rest: Seq<u8>)
    requires
        movement.wf(),
    ensures
        MovementView::parse(movement.serialize() + rest) == (Parsed::Done {
            value: movement,
            used: movement.serialize().len(),
        }),
{
    let s = movement.serialize() + rest;
    let n = movement.tx_hash.len() as int;
    let raw = twos_complement(movement.value as int, 8);
    let value_bytes = le_bytes(raw, 8);
    lemma_pow256_values();
    crate::encoding::lemma_le_bytes_len(raw, 8);
    crate::encoding::lemma_le_value_of_bytes(raw, 8);
    vstd::arithmetic::div_mod::lemma_small_mod(raw, pow256(8));
    assert(s[0] == n as u8);
    assert(s.subrange(1, 1 + n) =~= movement.tx_hash);
    assert(s.subrange(1 + n, 1 + n + 8) =~= value_bytes);
    match movement.block_hash {
        Some(hash) => {
            let m = hash.len() as int;
            assert(s[1 + n + 8] == 1u8);
            assert(s[1 + n + 9] == m as u8);
            assert(s.subrange(1 + n + 10, 1 + n + 10 + m) =~= hash);
        },
        None => {
            assert(s[1 + n + 8] == 0u8);
        },
    }
}

impl Movement {
    /// The bytes of the movement in the wallets file.
    pub fn serialize(&self) -> (buffer: Vec<u8>)
        ensures
            buffer@ == self@.serialize(),
    {
        proof {
            lemma_pow256_values();
        }
        let mut buffer: Vec<u8> = Vec::new();
        buffer.push((self.tx_hash.len() % 256) as u8);
        let mut tx_hash = copy_bytes(&self.tx_hash);
        buffer.append(&mut tx_hash);
        let value: u64 = if self.value >= 0 {
            self.value as u64
        } else {
            (self.value as i128 + 0x1_0000_0000_0000_0000) as u64
        };
        let mut value_bytes = write_le(value, 8);
        buffer.append(&mut value_bytes);
        match &self.block_hash {
            Some(block_hash) => {
                buffer.push(1);
                buffer.push((block_hash.len() % 256) as u8);
                let mut hash = copy_bytes(block_hash);
                buffer.append(&mut hash);
                assert(buffer@ =~= self@.serialize());
            },
            None => {
                buffer.push(0);
                assert(buffer@ =~= self@.serialize());
            },
        }
        buffer
    }

    /// Reads a movement at the cursor. When it fails, the cursor stays
    /// where the read that failed left it.
    pub fn parse(parser: &mut BufferParser) -> (r: Result<Self, CustomError>)
        ensures
            match MovementView::parse(old(parser).remaining()) {
                Parsed::Done { value, used } => r is Ok && r->Ok_0@ == value,
                Parsed::Failed { used } => r is Err && r->Err_0
                    == CustomError::SerializedBufferIsInvalid,
                Parsed::Rejected { used, message } => r is Err && rejected_with(r->Err_0, message),
            },
            MovementView::parse(old(parser).remaining()).used() <= old(parser).remaining().len(),
            final(parser).remaining() == old(parser).remaining().skip(
                MovementView::parse(old(parser).remaining()).used() as int,
            ),
    {
        let ghost s = parser.remaining();
        assert(s.skip(0) =~= s);
        let tx_hash_len = match parser.extract_u8() {
            Ok(len) => len as usize,
            Err(e) => { return Err(e); },
        };
        let ghost n = tx_hash_len as int;
        let tx_hash = match parser.extract_buffer(tx_hash_len) {
            Ok(bytes) => slice_to_vec(bytes),
            Err(e) => { return Err(e); },
        };
        proof {
            assert(s.skip(1).take(n) =~= s.subrange(1, 1 + n));
            assert(s.skip(1).skip(n) =~= s.skip(1 + n));
        }
        let value = match parser.extract_i64() {
            Ok(value) => value,
            Err(e) => { return Err(e); },
        };
        proof {
            assert(s.skip(1 + n).take(8) =~= s.subrange(1 + n, 1 + n + 8));
            assert(s.skip(1 + n).skip(8) =~= s.skip(1 + n + 8));
            lemma_le_value_bound(s.subrange(1 + n, 1 + n + 8));
            lemma_pow256_values();
        }
        let block_hash_present = match parser.extract_u8() {
            Ok(mark) => mark,
            Err(e) => { return Err(e); },
        };
        proof {
            assert(s.skip(1 + n + 8).skip(1) =~= s.skip(1 + n + 9));
        }
        let block_hash = if block_hash_present == 0 {
            None
        } else if block_hash_present == 1 {
            let block_hash_len = match parser.extract_u8() {
                Ok(len) => len as usize,
                Err(e) => { return Err(e); },
            };
            let ghost m = block_hash_len as int;
            proof {
                assert(s.skip(1 + n + 9).skip(1) =~= s.skip(1 + n + 10));
            }
            let hash = match parser.extract_buffer(block_hash_len) {
                Ok(bytes) => slice_to_vec(bytes),
                Err(e) => { return Err(e); },
            };
            proof {
                assert(s.skip(1 + n + 10).take(m) =~= s.subrange(1 + n + 10, 1 + n + 10 + m));
                assert(s.skip(1 + n + 10).skip(m) =~= s.skip(1 + n + 10 + m));
            }
            Some(hash)
        } else {
            return Err(
                CustomError::Validation(
                    String::from_str("Block hash presence incorrectly formatted"),
                ),
            );
        };
        Ok(Self { tx_hash, value, block_hash })
    }

    /// A copy of the movement.
    pub fn duplicate(&self) -> (copy: Movement)
        ensures
            copy@ == self@,
    {
        let block_hash = match &self.block_hash {
            Some(hash) => Some(copy_bytes(hash)),
            None => None,
        };
        Movement { tx_hash: copy_bytes(&self.tx_hash), value: self.value, block_hash }
    }
}

/// Copies of the movements, in their order.
pub fn duplicate_movements(movements: &Vec<Movement>) -> (copy: Vec<Movement>)
    ensures
        movements_view(copy@) == movements_view(movements@),
{
    let mut copy: Vec<Movement> = Vec::new();
    let mut i: usize = 0;
    while i < movements.len()
        invariant
            i <= movements@.len(),
            movements_view(copy@) == movements_view(movements@.take(i as int)),
        decreases movements@.len() - i,
    {
        let movement = movements[i].duplicate();
        proof {
            assert(movements@.take(i + 1) =~= movements@.take(i as int).push(movements@[i as int]));
            assert(movements_view(copy@.push(movement)) =~= movements_view(copy@).push(movement@));
            assert(movements_view(movements@.take(i + 1)) =~= movements_view(
                movements@.take(i as int),
            ).push(movements@[i as int]@));
        }
        copy.push(movement);
        i = i + 1;
    }
    assert(movements@.take(i as int) =~= movements@);
    copy
}

/// The movements that seed the history of a wallet made while the set of
/// unspent outputs holds `entries`: one for each entry that pays to the
/// key, with the entry's value and block.
pub open spec fn seed_history(entries: Seq<(OutPointView, UTXOValueView)>, key_hash: Seq<u8>) -> Seq<
    MovementView,
>
    decreases entries.len(),
{
    if entries.len() == 0 {
        Seq::empty()
    } else if pays_to_key(entries.last().1.tx_out.script_pubkey, key_hash) {
        seed_history(entries.drop_last(), key_hash).push(
            MovementView {
                tx_hash: entries.last().0.hash,
                value: entries.last().1.tx_out.value as i64,
                block_hash: Some(entries.last().1.block_hash),
            },
        )
    } else {
        seed_history(entries.drop_last(), key_hash)
    }
}

/// Every entry that pays to the key has a value that a movement can hold.
pub open spec fn seed_values_fit(entries: Seq<(OutPointView, UTXOValueView)>, key_hash: Seq<u8>) -> bool {
    forall|i: int|
        0 <= i < entries.len() && pays_to_key(
            (#[trigger] entries[i]).1.tx_out.script_pubkey,
            key_hash,
        ) ==> entries[i].1.tx_out.value <= i64::MAX
}

/// The movements that seed the history of a wallet with key hash
/// `key_hash`: one for each unspent output that pays to the key. Fails when
/// one of these outputs has a value above what a movement can hold.
pub fn seed_movements(utxo_set: &UTXO, key_hash: &Vec<u8>) -> (r: Result<Vec<Movement>, CustomError>)
    ensures
        seed_values_fit(utxo_set@, key_hash@) ==> r is Ok && movements_view(r->Ok_0@)
            == seed_history(utxo_set@, key_hash@),
        !seed_values_fit(utxo_set@, key_hash@) ==> r is Err && r->Err_0
            == CustomError::ValueOutOfRange,
{
    let ghost entries = utxo_set@;
    let mut history: Vec<Movement> = Vec::new();
    let mut i: usize = 0;
    assert(movements_view(history@) =~= Seq::empty());
    while i < utxo_set.len()
        invariant
            i <= utxo_set@.len(),
            entries == utxo_set@,
            seed_values_fit(entries.take(i as int), key_hash@),
            movements_view(history@) == seed_history(entries.take(i as int), key_hash@),
        decreases utxo_set@.len() - i,
    {
        proof {
            let next = entries.take(i + 1);
            assert(next.drop_last() =~= entries.take(i as int));
            assert(next.last() == entries[i as int]);
        }
        let (outpoint, value) = utxo_set.entry(i);
        if compare_p2pkh(&value.tx_out.script_pubkey, key_hash) {
            if value.tx_out.value > i64::MAX as u64 {
                return Err(CustomError::ValueOutOfRange);
            }
            let movement = Movement {
                tx_hash: copy_bytes(&outpoint.hash),
                value: value.tx_out.value as i64,
                block_hash: Some(copy_bytes(&value.block_hash)),
            };
            proof {
                assert(movements_view(history@.push(movement)) =~= movements_view(history@).push(
                    movement@,
                ));
            }
            history.push(movement);
        }
        proof {
            let next = entries.take(i + 1);
            assert forall|j: int|
                0 <= j < next.len() && pays_to_key(
                    (#[trigger] next[j]).1.tx_out.script_pubkey,
                    key_hash@,
                ) implies next[j].1.tx_out.value <= i64::MAX by {
                if j < i {
                    assert(entries.take(i as int)[j] == next[j]);
                }
            }
        }
        i = i + 1;
    }
    assert(entries.take(i as int) =~= entries);
    Ok(history)
}

/// A wallet: a name, a pair of keys written in base 58, and the movements
/// of its funds in the order in which the node saw them.
#[derive(Clone, Debug)]
pub struct Wallet {
    pub name: String,
    pub pubkey: String,
    pub privkey: String,
    pub history: Vec<Movement>,
}

/// A wallet as plain values.
pub struct WalletView {
    pub name: Seq<char>,
    pub pubkey: Seq<char>,
    pub privkey: Seq<char>,
    pub history: Seq<MovementView>,
}

impl View for Wallet {
    type V = WalletView;

    open spec fn view(&self) -> WalletView {
        WalletView {
            name: self.name@,
            pubkey: self.pubkey@,
            privkey: self.privkey@,
            history: movements_view(self.history@),
        }
    }
}

/// The wallets as plain values, in their order.
pub open spec fn wallets_view(wallets: Seq<Wallet>) -> Seq<WalletView> {
    wallets.map_values(|wallet: Wallet| wallet@)
}

/// How one movement is written.
pub open spec fn movement_encoder() -> spec_fn(MovementView) -> Seq<u8> {
    |movement: MovementView| movement.serialize()
}

/// How one movement is read.
pub open spec fn movement_decoder() -> spec_fn(Seq<u8>) -> Parsed<MovementView> {
    |s: Seq<u8>| MovementView::parse(s)
}

/// A text in the wallets file: the number of its bytes on one byte, then
/// the bytes of its UTF-8 encoding. A number above 255 is written as its
/// remainder by 256.
pub open spec fn serialize_text(text: Seq<char>) -> Seq<u8> {
    seq![(utf8_bytes(text).len() % 256) as u8] + utf8_bytes(text)
}

/// Reads a text from the front of `s`.
pub open spec fn parse_text(s: Seq<u8>) -> Parsed<Seq<char>> {
    if s.len() < 1 {
        Parsed::Failed { used: 0 }
    } else if s.len() < 1 + s[0] {
        Parsed::Failed { used: 1 }
    } else if !is_utf8(s.subrange(1, 1 + s[0])) {
        Parsed::Failed { used: (1 + s[0]) as nat }
    } else {
        Parsed::Done { value: utf8_text(s.subrange(1, 1 + s[0])), used: (1 + s[0]) as nat }
    }
}

impl WalletView {
    /// The bytes of the wallet in the wallets file: the name, the public
    /// key and the private key as texts, the number of movements on four
    /// bytes, least significant first, then the movements. A number of
    /// movements above what four bytes hold is written as its remainder.
    pub open spec fn serialize(self) -> Seq<u8> {
        serialize_text(self.name) + serialize_text(self.pubkey) + serialize_text(self.privkey)
            + serialize_history(self.history)
    }

    /// Reads a wallet from the front of `s`.
    #[verifier::opaque]
    pub open spec fn parse(s: Seq<u8>) -> Parsed<WalletView> {
        match parse_text(s) {
            Parsed::Failed { used } => Parsed::Failed { used },
            Parsed::Rejected { used, message } => Parsed::Rejected { used, message },
            Parsed::Done { value: name, used: a } => match parse_text(s.skip(a as int)) {
                Parsed::Failed { used } => Parsed::Failed { used: a + used },
                Parsed::Rejected { used, message } => Parsed::Rejected { used: a + used, message },
                Parsed::Done { value: pubkey, used: b } => match parse_text(
                    s.skip(a + b as int),
                ) {
                    Parsed::Failed { used } => Parsed::Failed { used: a + b + used },
                    Parsed::Rejected { used, message } => Parsed::Rejected {
                        used: a + b + used,
                        message,
                    },
                    Parsed::Done { value: privkey, used: c } => match parse_history(
                        s.skip(a + b + c as int),
                    ) {
                        Parsed::Failed { used } => Parsed::Failed { used: a + b + c + used },
                        Parsed::Rejected { used, message } => Parsed::Rejected {
                            used: a + b + c + used,
                            message,
                        },
                        Parsed::Done { value: history, used } => Parsed::Done {
                            value: WalletView { name, pubkey, privkey, history },
                            used: a + b + c + used,
                        },
                    },
                },
            },
        }
    }
}

/// Reads a history from the front of `s`: the number of movements on four
/// bytes, least significant first, then the movements.
pub open spec fn parse_history(s: Seq<u8>) -> Parsed<Seq<MovementView>> {
    if s.len() < 4 {
        Parsed::Failed { used: 0 }
    } else {
        match parse_list(movement_decoder(), s.skip(4), le_value(s.take(4))) {
            Parsed::Failed { used } => Parsed::Failed { used: 4 + used },
            Parsed::Rejected { used, message } => Parsed::Rejected { used: 4 + used, message },
            Parsed::Done { value, used } => Parsed::Done { value, used: 4 + used },
        }
    }
}

/// Reading what was written of a text of at most 255 bytes, whatever
/// follows it, gives the text back and passes exactly its bytes.
pub proof fn lemma_text_roundtrip(text: Seq<char>, rest: Seq<u8>)
    requires
        utf8_bytes(text).len() <= 255,
    ensures
        parse_text(serialize_text(text) + rest) == (Parsed::Done {
            value: text,
            used: serialize_text(text).len(),
        }),
        serialize_text(text).len() > 0,
{
    reveal(is_utf8);
    reveal(utf8_text);
    reveal(utf8_bytes);
    let bytes = encode_utf8(text);
    let s = serialize_text(text) + rest;
    vstd::utf8::encode_utf8_valid_utf8(text);
    vstd::utf8::encode_utf8_decode_utf8(text);
    assert(s[0] == bytes.len() as u8);
    assert(s.subrange(1, 1 + s[0]) =~= bytes);
}

impl WalletView {
    /// The texts of the wallet fit the one byte that holds their length,
    /// the number of its movements fits four bytes, and every movement is
    /// well formed.
    pub open spec fn wf(self) -> bool {
        &&& utf8_bytes(self.name).len() <= 255
        &&& utf8_bytes(self.pubkey).len() <= 255
        &&& utf8_bytes(self.privkey).len() <= 255
        &&& self.history.len() <= u32::MAX
        &&& forall|i: int| 0 <= i < self.history.len() ==> (#[trigger] self.history[i]).wf()
    }

    /// Reading what was written of a wallet, whatever follows it, gives
    /// the wallet back and passes exactly its bytes.
    pub proof fn lemma_roundtrip(self, rest: Seq<u8>)
        requires
            self.wf(),
        ensures
            WalletView::parse(self.serialize() + rest) == (Parsed::Done {
                value: self,
                used: self.serialize().len(),
            }),
            self.serialize().len() > 0,
    {
        reveal(WalletView::parse);
        let s = self.serialize() + rest;
        let name = serialize_text(self.name);
        let pubkey = serialize_text(self.pubkey);
        let privkey = serialize_text(self.privkey);
        let history = serialize_history(self.history);
        let a = name.len() as int;
        let b = pubkey.len() as int;
        let c = privkey.len() as int;
        lemma_four_parts(name, pubkey, privkey, history, rest);
        lemma_text_roundtrip(self.name, pubkey + privkey + history + rest);
        lemma_text_roundtrip(self.pubkey, privkey + history + rest);
        lemma_text_roundtrip(self.privkey, history + rest);
        lemma_history_roundtrip(self.history, rest);
    }
}

/// Where the parts of a record of four parts begin, once more bytes follow
/// it.
proof fn lemma_four_parts(
    first: Seq<u8>,
    second: Seq<u8>,
    third: Seq<u8>,
    fourth: Seq<u8>,
    rest: Seq<u8>,
)
    ensures
        ({
            let s = first + second + third + fourth + rest;
            let a = first.len() as int;
            let b = second.len() as int;
            let c = third.len() as int;
            &&& (first + second + third + fourth).len() == a + b + c + fourth.len()
            &&& s == first + (second + third + fourth + rest)
            &&& s.skip(a) == second + (third + fourth + rest)
            &&& s.skip(a + b) == third + (fourth + rest)
            &&& s.skip(a + b + c) == fourth + rest
        }),
{
    let s = first + second + third + fourth + rest;
    let a = first.len() as int;
    let b = second.len() as int;
    let c = third.len() as int;
    assert(s =~= first + (second + third + fourth + rest));
    assert(s.skip(a) =~= second + (third + fourth + rest));
    assert(s.skip(a + b) =~= third + (fourth + rest));
    assert(s.skip(a + b + c) =~= fourth + rest);
}

/// The bytes of a history: the number of movements on four bytes, least
/// significant first, then the movements.
pub open spec fn serialize_history(history: Seq<MovementView>) -> Seq<u8> {
    le_bytes(history.len() % pow256(4), 4) + serialize_list(movement_encoder(), history)
}

/// Reading what was written of a history, whatever follows it, gives the
/// history back and passes exactly its bytes.
pub proof fn lemma_history_roundtrip(history: Seq<MovementView>, rest: Seq<u8>)
    requires
        history.len() <= u32::MAX,
        forall|i: int| 0 <= i < history.len() ==> (#[trigger] history[i]).wf(),
    ensures
        parse_history(serialize_history(history) + rest) == (Parsed::Done {
            value: history,
            used: serialize_history(history).len(),
        }),
{
    let count = le_bytes(history.len() % pow256(4), 4);
    let body = serialize_list(movement_encoder(), history);
    let s = serialize_history(history) + rest;
    lemma_pow256_values();
    vstd::arithmetic::div_mod::lemma_small_mod(history.len(), pow256(4));
    crate::encoding::lemma_le_bytes_len(history.len(), 4);
    crate::encoding::lemma_le_value_of_bytes(history.len(), 4);
    assert(s =~= count + (body + rest));
    assert(s.take(4) =~= count);
    assert(s.skip(4) =~= body + rest);
    assert forall|i: int, after: Seq<u8>| 0 <= i < history.len() implies #[trigger] movement_decoder()(
        movement_encoder()(history[i]) + after,
    ) == (Parsed::Done { value: history[i], used: movement_encoder()(history[i]).len() }) by {
        lemma_movement_roundtrip(history[i], after);
    }
    crate::parser::lemma_list_roundtrip(movement_encoder(), movement_decoder(), history, rest);
}

/// Puts `front` before the wallets that were read after it.
pub open spec fn after_wallets(front: Seq<WalletView>, rest: Parsed<Seq<WalletView>>, at: nat) -> Parsed<
    Seq<WalletView>,
> {
    match rest {
        Parsed::Done { value, used } => Parsed::Done { value: front + value, used: at + used },
        Parsed::Failed { used } => Parsed::Failed { used: at + used },
        Parsed::Rejected { used, message } => Parsed::Rejected { used: at + used, message },
    }
}

/// Reads wallets from `s`, one after the other, until no byte is left.
pub open spec fn parse_wallets(s: Seq<u8>) -> Parsed<Seq<WalletView>>
    decreases s.len(),
{
    if s.len() == 0 {
        Parsed::Done { value: Seq::empty(), used: 0 }
    } else {
        match WalletView::parse(s) {
            Parsed::Failed { used } => Parsed::Failed { used },
            Parsed::Rejected { used, message } => Parsed::Rejected { used, message },
            Parsed::Done { value, used } => if 0 < used <= s.len() {
                after_wallets(seq![value], parse_wallets(s.skip(used as int)), used)
            } else {
                Parsed::Failed { used }
            },
        }
    }
}

/// The bytes of the wallets file: the wallets, one after the other.
pub open spec fn serialize_wallets(wallets: Seq<WalletView>) -> Seq<u8>
    decreases wallets.len(),
{
    if wallets.len() == 0 {
        Seq::empty()
    } else {
        serialize_wallets(wallets.drop_last()) + wallets.last().serialize()
    }
}

/// The bytes of wallets are those of the first, then those of the others.
pub proof fn lemma_serialize_wallets_first(wallets: Seq<WalletView>)
    requires
        wallets.len() > 0,
    ensures
        serialize_wallets(wallets) == wallets[0].serialize() + serialize_wallets(
            wallets.drop_first(),
        ),
    decreases wallets.len(),
{
    if wallets.len() == 1 {
        assert(wallets.drop_last() =~= Seq::<WalletView>::empty());
        assert(wallets.drop_first() =~= Seq::<WalletView>::empty());
        assert(wallets.last() == wallets[0]);
        assert(Seq::<u8>::empty() + wallets[0].serialize() =~= wallets[0].serialize() + Seq::<
            u8,
        >::empty());
    } else {
        let front = wallets.drop_last();
        lemma_serialize_wallets_first(front);
        assert(front[0] == wallets[0]);
        assert(wallets.drop_first().drop_last() =~= front.drop_first());
        assert(wallets.drop_first().last() == wallets.last());
        assert((wallets[0].serialize() + serialize_wallets(front.drop_first()))
            + wallets.last().serialize() =~= wallets[0].serialize() + (serialize_wallets(
            front.drop_first(),
        ) + wallets.last().serialize()));
    }
}

/// Reading the wallets file that was written for well-formed wallets gives
/// the wallets back.
pub proof fn lemma_wallets_roundtrip(wallets: Seq<WalletView>)
    requires
        forall|i: int| 0 <= i < wallets.len() ==> (#[trigger] wallets[i]).wf(),
    ensures
        parse_wallets(serialize_wallets(wallets)) == (Parsed::Done {
            value: wallets,
            used: serialize_wallets(wallets).len(),
        }),
    decreases wallets.len(),
{
    if wallets.len() == 0 {
        assert(wallets =~= Seq::empty());
    } else {
        let first = wallets[0];
        let rest = wallets.drop_first();
        let s = serialize_wallets(wallets);
        lemma_serialize_wallets_first(wallets);
        first.lemma_roundtrip(serialize_wallets(rest));
        assert forall|i: int| 0 <= i < rest.len() implies (#[trigger] rest[i]).wf() by {
            assert(rest[i] == wallets[i + 1]);
        }
        lemma_wallets_roundtrip(rest);
        assert(s.skip(first.serialize().len() as int) =~= serialize_wallets(rest));
        assert(seq![first] + rest =~= wallets);
    }
}

/// Writes a text: the number of its bytes on one byte, then the bytes.
fn write_text(buffer: &mut Vec<u8>, text: &String)
    ensures
        final(buffer)@ == old(buffer)@ + serialize_text(text@),
{
    proof {
        reveal(utf8_bytes);
    }
    let bytes = text.as_str().as_bytes();
    buffer.push((bytes.len() % 256) as u8);
    let mut copy = slice_to_vec(bytes);
    buffer.append(&mut copy);
    assert(buffer@ =~= old(buffer)@ + serialize_text(text@));
}

/// Reads a text at the cursor.
fn read_text(parser: &mut BufferParser) -> (r: Result<String, CustomError>)
    ensures
        match parse_text(old(parser).remaining()) {
            Parsed::Done { value, used } => r is Ok && r->Ok_0@ == value,
            Parsed::Failed { used } => r is Err && r->Err_0
                == CustomError::SerializedBufferIsInvalid,
            Parsed::Rejected { used, message } => r is Err && rejected_with(r->Err_0, message),
        },
        parse_text(old(parser).remaining()).used() <= old(parser).remaining().len(),
        final(parser).remaining() == old(parser).remaining().skip(
            parse_text(old(parser).remaining()).used() as int,
        ),
{
    let ghost s = parser.remaining();
    assert(s.skip(0) =~= s);
    let len = match parser.extract_u8() {
        Ok(len) => len as usize,
        Err(e) => { return Err(e); },
    };
    let text = parser.extract_string(len);
    proof {
        if s.len() >= 1 + len {
            assert(s.skip(1).take(len as int) =~= s.subrange(1, 1 + len));
            assert(s.skip(1).skip(len as int) =~= s.skip(1 + len));
        }
    }
    text
}

/// Reads a history at the cursor.
fn read_history(parser: &mut BufferParser) -> (r: Result<Vec<Movement>, CustomError>)
    ensures
        match parse_history(old(parser).remaining()) {
            Parsed::Done { value, used } => r is Ok && movements_view(r->Ok_0@) == value,
            Parsed::Failed { used } => r is Err && r->Err_0
                == CustomError::SerializedBufferIsInvalid,
            Parsed::Rejected { used, message } => r is Err && rejected_with(r->Err_0, message),
        },
        parse_history(old(parser).remaining()).used() <= old(parser).remaining().len(),
        final(parser).remaining() == old(parser).remaining().skip(
            parse_history(old(parser).remaining()).used() as int,
        ),
{
    let ghost s = parser.remaining();
    assert(s.skip(0) =~= s);
    let history_len = match parser.extract_u32() {
        Ok(len) => len,
        Err(e) => { return Err(e); },
    };
    let ghost before = parser.remaining();
    let ghost mut used: int = 0;
    let mut history: Vec<Movement> = Vec::new();
    let mut i: u32 = 0;
    assert(before.skip(0) =~= before);
    assert(movements_view(history@) =~= Seq::empty());
    while i < history_len
        invariant
            i <= history_len,
            0 <= used <= before.len(),
            s.len() >= 4,
            s == old(parser).remaining(),
            before == s.skip(4),
            history_len as nat == le_value(s.take(4)),
            parse_list(movement_decoder(), before, i as nat) == (Parsed::Done {
                value: movements_view(history@),
                used: used as nat,
            }),
            parser.remaining() == before.skip(used),
        decreases history_len - i,
    {
        let ghost more = MovementView::parse(before.skip(used)).used() as int;
        let movement = Movement::parse(parser);
        assert(before.skip(used).skip(more) =~= before.skip(used + more));
        assert(s.skip(4).skip(used + more) =~= s.skip(4 + used + more));
        match movement {
            Ok(movement) => {
                proof {
                    assert(movements_view(history@.push(movement)) =~= movements_view(
                        history@,
                    ).push(movement@));
                }
                history.push(movement);
            },
            Err(e) => {
                proof {
                    lemma_parse_list_failure(
                        movement_decoder(),
                        before,
                        (i + 1) as nat,
                        history_len as nat,
                    );
                }
                return Err(e);
            },
        }
        proof {
            used = used + more;
        }
        i = i + 1;
    }
    assert(s.skip(4).skip(used) =~= s.skip(4 + used));
    Ok(history)
}

impl Wallet {
    /// A wallet with the given name and keys. Its history starts with one
    /// movement for each unspent output that pays to its public key. While
    /// no output is unspent the public key is not read, and any text is
    /// taken for it.
    pub fn new(name: String, pubkey: String, privkey: String, utxo_set: &UTXO) -> (r: Result<
        Self,
        CustomError,
    >)
        ensures
            utxo_set@.len() == 0 ==> r is Ok && r->Ok_0@ == (WalletView {
                name: name@,
                pubkey: pubkey@,
                privkey: privkey@,
                history: Seq::empty(),
            }),
            utxo_set@.len() > 0 ==> match pubkey_hash_of(pubkey@) {
                None => r is Err && rejected_with(r->Err_0, pubkey_error_text()),
                Some(hash) => if seed_values_fit(utxo_set@, hash) {
                    r is Ok && r->Ok_0@ == (WalletView {
                        name: name@,
                        pubkey: pubkey@,
                        privkey: privkey@,
                        history: seed_history(utxo_set@, hash),
                    })
                } else {
                    r is Err && r->Err_0 == CustomError::ValueOutOfRange
                },
            },
    {
        if utxo_set.len() == 0 {
            let wallet = Self { name, pubkey, privkey, history: Vec::new() };
            assert(movements_view(wallet.history@) =~= Seq::empty());
            return Ok(wallet);
        }
        let key_hash = match get_pubkey_hash(pubkey.clone()) {
            Ok(hash) => hash,
            Err(e) => { return Err(e); },
        };
        match seed_movements(utxo_set, &key_hash) {
            Ok(history) => Ok(Self { name, pubkey, privkey, history }),
            Err(e) => Err(e),
        }
    }

    /// The bytes of the wallet in the wallets file.
    pub fn serialize(&self) -> (buffer: Vec<u8>)
        ensures
            buffer@ == self@.serialize(),
    {
        let mut buffer: Vec<u8> = Vec::new();
        write_text(&mut buffer, &self.name);
        write_text(&mut buffer, &self.pubkey);
        write_text(&mut buffer, &self.privkey);
        proof {
            lemma_pow256_values();
        }
        let mut count = write_le((self.history.len() as u64) % 0x1_0000_0000, 4);
        buffer.append(&mut count);
        let ghost head = buffer@;
        let ghost items = movements_view(self.history@);
        let mut i: usize = 0;
        assert(buffer@ =~= head + serialize_list(movement_encoder(), items.take(0)));
        while i < self.history.len()
            invariant
                i <= self.history@.len(),
                items == movements_view(self.history@),
                buffer@ == head + serialize_list(movement_encoder(), items.take(i as int)),
            decreases self.history@.len() - i,
        {
            let mut bytes = self.history[i].serialize();
            buffer.append(&mut bytes);
            proof {
                let next = items.take(i + 1);
                assert(next.drop_last() =~= items.take(i as int));
                assert(next.last() == self.history@[i as int]@);
            }
            i = i + 1;
        }
        assert(items.take(i as int) =~= items);
        buffer
    }

    /// Reads one wallet at the cursor. When it fails, the cursor stays
    /// where the read that failed left it.
    pub fn parse(parser: &mut BufferParser) -> (r: Result<Self, CustomError>)
        ensures
            match WalletView::parse(old(parser).remaining()) {
                Parsed::Done { value, used } => r is Ok && r->Ok_0@ == value,
                Parsed::Failed { used } => r is Err && r->Err_0
                    == CustomError::SerializedBufferIsInvalid,
                Parsed::Rejected { used, message } => r is Err && rejected_with(r->Err_0, message),
            },
            WalletView::parse(old(parser).remaining()).used() <= old(parser).remaining().len(),
            final(parser).remaining() == old(parser).remaining().skip(
                WalletView::parse(old(parser).remaining()).used() as int,
            ),
    {
        proof {
            reveal(WalletView::parse);
        }
        let ghost s = parser.remaining();
        assert(s.skip(0) =~= s);
        let ghost a = parse_text(s).used() as int;
        let name = match read_text(parser) {
            Ok(name) => name,
            Err(e) => { return Err(e); },
        };
        let ghost b = parse_text(s.skip(a)).used() as int;
        let pubkey = read_text(parser);
        assert(s.skip(a).skip(b) =~= s.skip(a + b));
        let pubkey = match pubkey {
            Ok(pubkey) => pubkey,
            Err(e) => { return Err(e); },
        };
        let ghost c = parse_text(s.skip(a + b)).used() as int;
        let privkey = read_text(parser);
        assert(s.skip(a + b).skip(c) =~= s.skip(a + b + c));
        let privkey = match privkey {
            Ok(privkey) => privkey,
            Err(e) => { return Err(e); },
        };
        let ghost d = parse_history(s.skip(a + b + c)).used() as int;
        let history = read_history(parser);
        assert(s.skip(a + b + c).skip(d) =~= s.skip(a + b + c + d));
        match history {
            Ok(history) => Ok(Self { name, pubkey, privkey, history }),
            Err(e) => Err(e),
        }
    }

    /// Reads the wallets of a wallets file: one after the other until no
    /// byte is left. One wallet that cannot be read fails the whole read.
    pub fn parse_wallets(buffer: Vec<u8>) -> (r: Result<Vec<Self>, CustomError>)
        ensures
            match parse_wallets(buffer@) {
                Parsed::Done { value, used } => r is Ok && wallets_view(r->Ok_0@) == value,
                Parsed::Failed { used } => r is Err && r->Err_0
                    == CustomError::SerializedBufferIsInvalid,
                Parsed::Rejected { used, message } => r is Err && rejected_with(r->Err_0, message),
            },
    {
        let mut parser = BufferParser::new(buffer);
        let mut wallets: Vec<Self> = Vec::new();
        let ghost mut at: nat = 0;
        assert(wallets_view(wallets@) =~= Seq::empty());
        loop
            invariant
                parse_wallets(buffer@) == after_wallets(
                    wallets_view(wallets@),
                    parse_wallets(parser.remaining()),
                    at,
                ),
            decreases parser.remaining().len(),
        {
            let ghost s = parser.remaining();
            if parser.is_empty() {
                proof {
                    assert(wallets_view(wallets@) + Seq::<WalletView>::empty() =~= wallets_view(
                        wallets@,
                    ));
                }
                return Ok(wallets);
            }
            let ghost used = WalletView::parse(s).used();
            match Self::parse(&mut parser) {
                Ok(wallet) => {
                    proof {
                        assert(wallets_view(wallets@.push(wallet)) =~= wallets_view(wallets@)
                            + seq![wallet@]);
                        lemma_wallet_takes_bytes(s);
                        match parse_wallets(s.skip(used as int)) {
                            Parsed::Done { value, used: more } => {
                                assert(wallets_view(wallets@) + (seq![wallet@] + value) =~= (
                                wallets_view(wallets@) + seq![wallet@]) + value);
                            },
                            _ => {},
                        }
                        at = at + used;
                    }
                    wallets.push(wallet);
                },
                Err(e) => { return Err(e); },
            }
        }
    }

    /// The hash of twenty bytes in the wallet's public key.
    pub fn get_pubkey_hash(&self) -> (r: Result<Vec<u8>, CustomError>)
        ensures
            match pubkey_hash_of(self.pubkey@) {
                Some(hash) => r is Ok && r->Ok_0@ == hash,
                None => r is Err && rejected_with(r->Err_0, pubkey_error_text()),
            },
    {
        get_pubkey_hash(self.pubkey.clone())
    }

    /// The 32 bytes in the wallet's private key.
    pub fn get_privkey_hash(&self) -> (r: Result<Vec<u8>, CustomError>)
        ensures
            match privkey_hash_of(self.privkey@) {
                Some(hash) => r is Ok && r->Ok_0@ == hash,
                None => r is Err && rejected_with(
                    r->Err_0,
                    if base58_decode(self.privkey@) is None {
                        privkey_error_text()
                    } else {
                        pubkey_error_text()
                    },
                ),
            },
    {
        get_privkey_hash(self.privkey.clone())
    }

    /// The script that pays to the wallet's public key.
    pub fn get_script_pubkey(&self) -> (r: Result<Vec<u8>, CustomError>)
        ensures
            match pubkey_hash_of(self.pubkey@) {
                Some(hash) => r is Ok && r->Ok_0@ == p2pkh_script(hash),
                None => r is Err && rejected_with(r->Err_0, pubkey_error_text()),
            },
    {
        get_script_pubkey(self.pubkey.clone())
    }

    /// Adds a movement at the end of the history.
    pub fn update_history(&mut self, movement: Movement)
        ensures
            final(self)@ == (WalletView {
                history: old(self)@.history.push(movement@),
                ..old(self)@
            }),
    {
        self.history.push(movement);
        assert(movements_view(self.history@) =~= movements_view(old(self).history@).push(
            movement@,
        ));
    }

    /// A copy of the history.
    pub fn get_history(&self) -> (history: Vec<Movement>)
        ensures
            movements_view(history@) == self@.history,
    {
        duplicate_movements(&self.history)
    }

    /// The bytes of the wallets file for `wallets`.
    pub fn save_wallets(wallets: &[Self]) -> (buffer: Vec<u8>)
        ensures
            buffer@ == serialize_wallets(wallets_view(wallets@)),
    {
        let ghost items = wallets_view(wallets@);
        let mut buffer: Vec<u8> = Vec::new();
        let mut i: usize = 0;
        while i < wallets.len()
            invariant
                i <= wallets@.len(),
                items == wallets_view(wallets@),
                buffer@ == serialize_wallets(items.take(i as int)),
            decreases wallets@.len() - i,
        {
            let mut bytes = wallets[i].serialize();
            buffer.append(&mut bytes);
            proof {
                let next = items.take(i + 1);
                assert(next.drop_last() =~= items.take(i as int));
                assert(next.last() == wallets@[i as int]@);
            }
            i = i + 1;
        }
        assert(items.take(i as int) =~= items);
        buffer
    }

    /// The wallets that the bytes of a wallets file hold; none when the
    /// bytes cannot be read.
    pub fn restore_wallets(buffer: Vec<u8>) -> (wallets: Vec<Self>)
        ensures
            match parse_wallets(buffer@) {
                Parsed::Done { value, used } => wallets_view(wallets@) == value,
                _ => wallets@.len() == 0,
            },
    {
        match Self::parse_wallets(buffer) {
            Ok(wallets) => wallets,
            Err(_) => Vec::new(),
        }
    }

    /// A copy of the wallet.
    pub fn duplicate(&self) -> (copy: Wallet)
        ensures
            copy@ == self@,
    {
        Wallet {
            name: self.name.clone(),
            pubkey: self.pubkey.clone(),
            privkey: self.privkey.clone(),
            history: duplicate_movements(&self.history),
        }
    }
}

/// A wallet that was read took at least one byte, and no more than there
/// were.
pub proof fn lemma_wallet_takes_bytes(s: Seq<u8>)
    ensures
        WalletView::parse(s) matches Parsed::Done { used, .. } ==> 0 < used,
{
    reveal(WalletView::parse);
}

} // verus!
