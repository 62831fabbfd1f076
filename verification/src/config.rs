use vstd::prelude::*;
use vstd::slice::{slice_subrange, slice_to_vec};
use crate::error::CustomError;
use crate::hashing::bytes_equal;
use crate::parser::{is_utf8, string_from_utf8, utf8_bytes, utf8_text};

verus! {

/// The settings of the node, as its configuration file gives them.
#[derive(Debug)]
pub struct Config {
    pub seed: String,
    pub protocol_version: i32,
    pub port: u16,
    pub log_file: String,
    pub npeers: u8,
    pub client_only: bool,
    pub store_path: String,
}

/// The settings as plain values.
pub struct ConfigView {
    pub seed: Seq<char>,
    pub protocol_version: i32,
    pub port: u16,
    pub log_file: Seq<char>,
    pub npeers: u8,
    pub client_only: bool,
    pub store_path: Seq<char>,
}

impl View for Config {
    type V = ConfigView;

    open spec fn view(&self) -> ConfigView {
        ConfigView {
            seed: self.seed@,
            protocol_version: self.protocol_version,
            port: self.port,
            log_file: self.log_file@,
            npeers: self.npeers,
            client_only: self.client_only,
            store_path: self.store_path@,
        }
    }
}

/// The settings before any line is read: every required value missing,
/// the node not client only, the store at `store`.
pub open spec fn initial_settings() -> ConfigView {
    ConfigView {
        seed: Seq::empty(),
        protocol_version: 0,
        port: 0,
        log_file: Seq::empty(),
        npeers: 0,
        client_only: false,
        store_path: "store"@,
    }
}

/// Whether a byte is a decimal digit in ASCII.
pub open spec fn is_digit(byte: u8) -> bool {
    0x30 <= byte <= 0x39
}

/// The number that decimal digits spell; nothing when there is no digit
/// or a byte is not a digit.
pub open spec fn digits_value(s: Seq<u8>) -> Option<nat>
    decreases s.len(),
{
    if s.len() == 0 {
        None
    } else if !is_digit(s.last()) {
        None
    } else if s.len() == 1 {
        Some((s.last() - 0x30) as nat)
    } else {
        match digits_value(s.drop_last()) {
            None => None,
            Some(front) => Some(10 * front + (s.last() - 0x30) as nat),
        }
    }
}

/// The number that a text spells in decimal: digits, with a plus sign
/// before them if one likes, or, where `signed`, a minus sign. Nothing
/// when the text is anything else.
pub open spec fn decimal_value(s: Seq<u8>, signed: bool) -> Option<int> {
    if s.len() == 0 {
        None
    } else if s[0] == 0x2B {
        match digits_value(s.skip(1)) {
            Some(value) => Some(value as int),
            None => None,
        }
    } else if s[0] == 0x2D && signed {
        match digits_value(s.skip(1)) {
            Some(value) => Some(-(value as int)),
            None => None,
        }
    } else {
        match digits_value(s) {
            Some(value) => Some(value as int),
            None => None,
        }
    }
}

/// The number that a text spells, when it spells one between `low` and
/// `high`.
pub open spec fn number_between(s: Seq<u8>, signed: bool, low: int, high: int) -> Option<int> {
    match decimal_value(s, signed) {
        Some(value) => if low <= value <= high {
            Some(value)
        } else {
            None
        },
        None => None,
    }
}

/// More digits make no smaller number.
pub proof fn lemma_digits_grow(s: Seq<u8>, n: int)
    requires
        1 <= n <= s.len(),
        digits_value(s) is Some,
    ensures
        digits_value(s.take(n)) is Some,
        digits_value(s.take(n))->Some_0 <= digits_value(s)->Some_0,
    decreases s.len(),
{
    if n == s.len() {
        assert(s.take(n) =~= s);
    } else {
        assert(s.drop_last().take(n) =~= s.take(n));
        lemma_digits_grow(s.drop_last(), n);
    }
}

/// The number that decimal digits spell, when it is no more than `limit`.
fn parse_digits(digits: &[u8], limit: u64) -> (value: Option<u64>)
    requires
        limit <= 0xFFFF_FFFF,
    ensures
        match digits_value(digits@) {
            Some(spelled) => if spelled <= limit {
                value == Some(spelled as u64)
            } else {
                value is None
            },
            None => value is None,
        },
{
    if digits.len() == 0 {
        return None;
    }
    let mut value: u64 = 0;
    let mut i: usize = 0;
    while i < digits.len()
        invariant
            i <= digits@.len(),
            limit <= 0xFFFF_FFFF,
            value <= limit,
            i > 0 ==> digits_value(digits@.take(i as int)) == Some(value as nat),
            i == 0 ==> value == 0,
        decreases digits@.len() - i,
    {
        let byte = digits[i];
        proof {
            let next = digits@.take(i + 1);
            assert(next.drop_last() =~= digits@.take(i as int));
            assert(next.last() == byte);
        }
        if byte < 0x30 || byte > 0x39 {
            proof {
                if digits_value(digits@) is Some {
                    lemma_digits_grow(digits@, i + 1);
                }
            }
            return None;
        }
        let next_value = 10 * value + (byte - 0x30) as u64;
        if next_value > limit {
            proof {
                if digits_value(digits@) is Some {
                    lemma_digits_grow(digits@, i + 1);
                }
            }
            return None;
        }
        value = next_value;
        i = i + 1;
    }
    assert(digits@.take(i as int) =~= digits@);
    Some(value)
}

/// The number that a text spells in decimal, when it spells one between
/// `low` and `high`.
fn parse_number(text: &[u8], signed: bool, low: i64, high: i64) -> (value: Option<i64>)
    requires
        -0x8000_0000 <= low <= 0 <= high <= 0xFFFF_FFFF,
    ensures
        match number_between(text@, signed, low as int, high as int) {
            Some(spelled) => value == Some(spelled as i64),
            None => value is None,
        },
{
    if text.len() == 0 {
        return None;
    }
    if text[0] == 0x2D && signed {
        let digits = slice_subrange(text, 1, text.len());
        assert(digits@ =~= text@.skip(1));
        match parse_digits(digits, (0 - low) as u64) {
            Some(value) => Some(0 - value as i64),
            None => None,
        }
    } else {
        let digits = if text[0] == 0x2B {
            slice_subrange(text, 1, text.len())
        } else {
            text
        };
        assert(text[0] == 0x2B ==> digits@ =~= text@.skip(1));
        match parse_digits(digits, high as u64) {
            Some(value) => Some(value as i64),
            None => None,
        }
    }
}

/// The settings after one setting is read; nothing when its value is to be
/// a number and is none that fits. A name that is no setting changes
/// nothing.
pub open spec fn with_setting(settings: ConfigView, name: Seq<u8>, value: Seq<u8>) -> Option<
    ConfigView,
> {
    if name == utf8_bytes("SEED"@) {
        Some(ConfigView { seed: utf8_text(value), ..settings })
    } else if name == utf8_bytes("PROTOCOL_VERSION"@) {
        match number_between(value, true, i32::MIN as int, i32::MAX as int) {
            Some(number) => Some(ConfigView { protocol_version: number as i32, ..settings }),
            None => None,
        }
    } else if name == utf8_bytes("PORT"@) {
        match number_between(value, false, 0, u16::MAX as int) {
            Some(number) => Some(ConfigView { port: number as u16, ..settings }),
            None => None,
        }
    } else if name == utf8_bytes("LOG"@) {
        Some(ConfigView { log_file: utf8_text(value), ..settings })
    } else if name == utf8_bytes("NPEERS"@) {
        match number_between(value, false, 0, u8::MAX as int) {
            Some(number) => Some(ConfigView { npeers: number as u8, ..settings }),
            None => None,
        }
    } else if name == utf8_bytes("STORE_PATH"@) {
        Some(ConfigView { store_path: utf8_text(value), ..settings })
    } else if name == utf8_bytes("CLIENT_ONLY"@) {
        Some(ConfigView { client_only: value == utf8_bytes("true"@), ..settings })
    } else {
        Some(settings)
    }
}

/// Whether every required value is there: a seed and a log file that are
/// not empty, and a protocol version, a port and a number of peers that
/// are not zero.
pub open spec fn has_required_values(settings: ConfigView) -> bool {
    &&& settings.seed.len() > 0
    &&& settings.protocol_version != 0
    &&& settings.port != 0
    &&& settings.log_file.len() > 0
    &&& settings.npeers != 0
}

/// Where the first line of `s` ends: at its first line feed, or at its end
/// when it has none.
pub open spec fn line_end(s: Seq<u8>) -> int
    decreases s.len(),
{
    if s.len() == 0 {
        0
    } else if s[0] == 0x0A {
        0
    } else {
        1 + line_end(s.drop_first())
    }
}

/// The first line of `s`, without the line feed that ends it and without
/// a carriage return just before that line feed.
pub open spec fn first_line(s: Seq<u8>) -> Seq<u8> {
    let end = line_end(s);
    if end < s.len() && end > 0 && s[end - 1] == 0x0D {
        s.take(end - 1)
    } else {
        s.take(end)
    }
}

/// What follows the first line of `s` and its line feed.
pub open spec fn after_first_line(s: Seq<u8>) -> Seq<u8> {
    let end = line_end(s);
    if end < s.len() {
        s.skip(end + 1)
    } else {
        Seq::empty()
    }
}

/// Where the first equals sign of `s` stands: at the end of `s` when it
/// has none.
pub open spec fn equals_position(s: Seq<u8>) -> int
    decreases s.len(),
{
    if s.len() == 0 {
        0
    } else if s[0] == 0x3D {
        0
    } else {
        1 + equals_position(s.drop_first())
    }
}

/// The name and the value of a line `NAME=VALUE`: nothing when the line
/// does not have exactly one equals sign, or when the name or the value
/// is not UTF-8.
pub open spec fn split_setting(line: Seq<u8>) -> Option<(Seq<u8>, Seq<u8>)> {
    let at = equals_position(line);
    if at >= line.len() {
        None
    } else {
        let name = line.take(at);
        let value = line.skip(at + 1);
        if equals_position(value) < value.len() || !is_utf8(name) || !is_utf8(value) {
            None
        } else {
            Some((name, value))
        }
    }
}

/// The settings after the lines of `s` are read, one after the other; the
/// error of the first line that cannot be read.
pub open spec fn load_lines(settings: ConfigView, s: Seq<u8>) -> Result<ConfigView, CustomError>
    decreases s.len(),
{
    if s.len() == 0 {
        Ok(settings)
    } else {
        match split_setting(first_line(s)) {
            None => Err(CustomError::ConfigInvalid),
            Some((name, value)) => match with_setting(settings, name, value) {
                None => Err(CustomError::ConfigErrorReadingValue),
                Some(next) => if after_first_line(s).len() < s.len() {
                    load_lines(next, after_first_line(s))
                } else {
                    Ok(next)
                },
            },
        }
    }
}

/// The settings that the content of a configuration file gives.
pub open spec fn load_config(content: Seq<u8>) -> Result<ConfigView, CustomError> {
    match load_lines(initial_settings(), content) {
        Err(e) => Err(e),
        Ok(settings) => if has_required_values(settings) {
            Ok(settings)
        } else {
            Err(CustomError::ConfigMissingValue)
        },
    }
}

/// Where the first byte `mark` stands in `s` from `start` on, or the end
/// of `s`.
fn find_byte(s: &[u8], start: usize, mark: u8) -> (at: usize)
    requires
        start <= s@.len(),
    ensures
        start <= at <= s@.len(),
        forall|i: int| start <= i < at ==> s@[i] != mark,
        at < s@.len() ==> s@[at as int] == mark,
{
    let mut at = start;
    while at < s.len() && s[at] != mark
        invariant
            start <= at <= s@.len(),
            forall|i: int| start <= i < at ==> s@[i] != mark,
        decreases s@.len() - at,
    {
        at = at + 1;
    }
    at
}

/// The first line feed is where no byte before it is one.
proof fn lemma_line_end(s: Seq<u8>, at: int)
    requires
        0 <= at <= s.len(),
        forall|i: int| 0 <= i < at ==> s[i] != 0x0A,
        at < s.len() ==> s[at] == 0x0A,
    ensures
        line_end(s) == at,
    decreases s.len(),
{
    if s.len() > 0 && at > 0 {
        assert forall|i: int| 0 <= i < at - 1 implies s.drop_first()[i] != 0x0A by {
            assert(s.drop_first()[i] == s[i + 1]);
        }
        lemma_line_end(s.drop_first(), at - 1);
    }
}

/// The first equals sign is where no byte before it is one.
proof fn lemma_equals_position(s: Seq<u8>, at: int)
    requires
        0 <= at <= s.len(),
        forall|i: int| 0 <= i < at ==> s[i] != 0x3D,
        at < s.len() ==> s[at] == 0x3D,
    ensures
        equals_position(s) == at,
    decreases s.len(),
{
    if s.len() > 0 && at > 0 {
        assert forall|i: int| 0 <= i < at - 1 implies s.drop_first()[i] != 0x3D by {
            assert(s.drop_first()[i] == s[i + 1]);
        }
        lemma_equals_position(s.drop_first(), at - 1);
    }
}

/// Whether `bytes` are the bytes of `text`.
fn spells(bytes: &[u8], text: &str) -> (same: bool)
    ensures
        same == (bytes@ == utf8_bytes(text@)),
{
    proof {
        reveal(utf8_bytes);
    }
    bytes_equal(bytes, text.as_bytes())
}

impl Config {
    /// The settings that the content of a configuration file gives. Each
    /// line is `NAME=VALUE`; lines are parted by line feeds, with a
    /// carriage return before them if one likes. A line that is not of
    /// that form fails the whole read, and so does a value that is to be
    /// a number and is not, and so does a required value that is missing
    /// at the end.
    pub fn from_reader(content: &[u8]) -> (r: Result<Config, CustomError>)
        ensures
            match load_config(content@) {
                Ok(settings) => r is Ok && r->Ok_0@ == settings,
                Err(e) => r is Err && r->Err_0 == e,
            },
    {
        let mut config = Self {
            seed: String::new(),
            protocol_version: 0,
            port: 0,
            log_file: String::new(),
            npeers: 0,
            client_only: false,
            store_path: String::from_str("store"),
        };
        let mut pos: usize = 0;
        assert(content@.skip(0) =~= content@);
        while pos < content.len()
            invariant
                pos <= content@.len(),
                load_lines(initial_settings(), content@) == load_lines(
                    config@,
                    content@.skip(pos as int),
                ),
            decreases content@.len() - pos,
        {
            let ghost rest = content@.skip(pos as int);
            let end = find_byte(content, pos, 0x0A);
            proof {
                assert forall|i: int| 0 <= i < end - pos implies rest[i] != 0x0A by {
                    assert(rest[i] == content@[pos + i]);
                }
                lemma_line_end(rest, end - pos);
            }
            let line_finish = if end < content.len() && end > pos && content[end - 1] == 0x0D {
                end - 1
            } else {
                end
            };
            let line = slice_subrange(content, pos, line_finish);
            assert(line@ =~= first_line(rest));
            let next = if end < content.len() {
                end + 1
            } else {
                end
            };
            assert(content@.skip(next as int) =~= after_first_line(rest));
            let equals = find_byte(line, 0, 0x3D);
            proof {
                lemma_equals_position(line@, equals as int);
            }
            if equals >= line.len() {
                return Err(CustomError::ConfigInvalid);
            }
            let name = slice_subrange(line, 0, equals);
            let value = slice_subrange(line, equals + 1, line.len());
            assert(name@ =~= line@.take(equals as int));
            assert(value@ =~= line@.skip(equals + 1));
            let second = find_byte(value, 0, 0x3D);
            proof {
                lemma_equals_position(value@, second as int);
            }
            if second < value.len() {
                return Err(CustomError::ConfigInvalid);
            }
            if string_from_utf8(slice_to_vec(name)).is_none() {
                return Err(CustomError::ConfigInvalid);
            }
            if string_from_utf8(slice_to_vec(value)).is_none() {
                return Err(CustomError::ConfigInvalid);
            }
            match config.load_setting_bytes(name, value) {
                Ok(()) => {},
                Err(e) => { return Err(e); },
            }
            pos = next;
        }
        match Self::check_required_values(&config) {
            Ok(()) => Ok(config),
            Err(e) => Err(e),
        }
    }

    /// Whether every required value is there: says which error when one
    /// is missing.
    pub fn check_required_values(config: &Config) -> (r: Result<(), CustomError>)
        ensures
            has_required_values(config@) ==> r is Ok,
            !has_required_values(config@) ==> r is Err && r->Err_0
                == CustomError::ConfigMissingValue,
    {
        if config.seed.as_str().is_empty() {
            return Err(CustomError::ConfigMissingValue);
        }
        if config.protocol_version == 0 {
            return Err(CustomError::ConfigMissingValue);
        }
        if config.port == 0 {
            return Err(CustomError::ConfigMissingValue);
        }
        if config.log_file.as_str().is_empty() {
            return Err(CustomError::ConfigMissingValue);
        }
        if config.npeers == 0 {
            return Err(CustomError::ConfigMissingValue);
        }
        Ok(())
    }

    /// Reads one setting. A name that is no setting changes nothing. Fails,
    /// and changes nothing, when the value is to be a number and is none
    /// that fits.
    pub fn load_setting(&mut self, name: &str, value: &str) -> (r: Result<(), CustomError>)
        ensures
            match with_setting(old(self)@, utf8_bytes(name@), utf8_bytes(value@)) {
                Some(settings) => r is Ok && final(self)@ == settings,
                None => r is Err && r->Err_0 == CustomError::ConfigErrorReadingValue && final(self)@
                    == old(self)@,
            },
    {
        proof {
            reveal(is_utf8);
            reveal(utf8_bytes);
            vstd::utf8::encode_utf8_valid_utf8(value@);
        }
        self.load_setting_bytes(name.as_bytes(), value.as_bytes())
    }

    /// Reads one setting from the bytes of its name and of its value.
    fn load_setting_bytes(&mut self, name: &[u8], value: &[u8]) -> (r: Result<(), CustomError>)
        requires
            is_utf8(value@),
        ensures
            match with_setting(old(self)@, name@, value@) {
                Some(settings) => r is Ok && final(self)@ == settings,
                None => r is Err && r->Err_0 == CustomError::ConfigErrorReadingValue && final(self)@
                    == old(self)@,
            },
    {
        if spells(name, "SEED") {
            match string_from_utf8(slice_to_vec(value)) {
                Some(text) => {
                    self.seed = text;
                },
                None => {},
            }
        } else if spells(name, "PROTOCOL_VERSION") {
            match parse_number(value, true, i32::MIN as i64, i32::MAX as i64) {
                Some(number) => {
                    self.protocol_version = number as i32;
                },
                None => { return Err(CustomError::ConfigErrorReadingValue); },
            }
        } else if spells(name, "PORT") {
            match parse_number(value, false, 0, u16::MAX as i64) {
                Some(number) => {
                    self.port = number as u16;
                },
                None => { return Err(CustomError::ConfigErrorReadingValue); },
            }
        } else if spells(name, "LOG") {
            match string_from_utf8(slice_to_vec(value)) {
                Some(text) => {
                    self.log_file = text;
                },
                None => {},
            }
        } else if spells(name, "NPEERS") {
            match parse_number(value, false, 0, u8::MAX as i64) {
                Some(number) => {
                    self.npeers = number as u8;
                },
                None => { return Err(CustomError::ConfigErrorReadingValue); },
            }
        } else if spells(name, "STORE_PATH") {
            match string_from_utf8(slice_to_vec(value)) {
                Some(text) => {
                    self.store_path = text;
                },
                None => {},
            }
        } else if spells(name, "CLIENT_ONLY") {
            self.client_only = spells(value, "true");
        }
        Ok(())
    }
}

} // verus!
