//! Fixed-width binary trace records.
//!
//! One record describes a single cache access: a trace-relative timestamp,
//! a command (get or put), a numeric key, the length of the value, and an
//! optional TTL. On the wire a record occupies exactly 25 little-endian
//! bytes: 8 (timestamp) + 1 (command) + 8 (key) + 4 (value length) +
//! 4 (TTL, where 0 means "no TTL"). The value's payload bytes are not
//! carried on the wire, only their count: decoding yields a zero-filled
//! value of the declared length.

use vstd::prelude::*;
use vstd::bytes::*;
use vstd::slice::*;
use vstd::string::*;

verus! {

/// The exact number of bytes one encoded record occupies.
pub const RECORD_SIZE: usize = 25;

/// The kind of cache operation a trace record asks for.
///
/// `Put` is the write command (byte 1 on the wire); `Get` is the read
/// command (byte 0).
#[derive(Clone, Copy, Debug, PartialEq, Eq, Structural)]
pub enum Command {
    Get,
    Put,
}

/// The field of a record at which decoding failed.
#[derive(Clone, Copy, Debug, PartialEq, Eq, Structural)]
pub enum FieldName {
    Timestamp,
    Command,
    Key,
    ValueSize,
    Ttl,
}

/// Decoding failure: the buffer was truncated inside the named field, or
/// the named field held a value the format does not allow.
#[derive(Clone, Copy, Debug, PartialEq, Eq, Structural)]
pub enum DecodeError {
    InvalidField(FieldName),
}

/// Encoding failure: the record's key is not the decimal form of an
/// unsigned 64-bit integer, so it cannot be written to this format.
#[derive(Clone, Copy, Debug, PartialEq, Eq, Structural)]
pub enum EncodeError {
    KeyNotNumeric,
}

impl Command {
    /// The wire encoding of the command: 0 for get, 1 for put.
    pub open spec fn spec_as_byte(self) -> u8 {
        match self {
            Command::Get => 0,
            Command::Put => 1,
        }
    }

    /// Serializes the command to its wire byte.
    pub fn as_byte(&self) -> (b: u8)
        ensures
            b == self.spec_as_byte(),
    {
        match self {
            Command::Get => 0,
            Command::Put => 1,
        }
    }

    /// Parses a wire byte; only 0 and 1 denote commands.
    pub fn from_byte(byte: u8) -> (r: Result<Command, DecodeError>)
        ensures
            byte == 0 ==> r == Result::<Command, DecodeError>::Ok(Command::Get),
            byte == 1 ==> r == Result::<Command, DecodeError>::Ok(Command::Put),
            byte > 1 ==> r == Result::<Command, DecodeError>::Err(
                DecodeError::InvalidField(FieldName::Command),
            ),
    {
        match byte {
            0 => Ok(Command::Get),
            1 => Ok(Command::Put),
            _ => Err(DecodeError::InvalidField(FieldName::Command)),
        }
    }
}

// ---------------------------------------------------------------------------
// Decimal keys
//
// Keys travel on the wire as unsigned 64-bit integers but live in records as
// decimal strings. The spec functions below fix what "the decimal form of n"
// means, and the executable conversions are proved against them.
// ---------------------------------------------------------------------------

/// Whether `c` is a decimal digit.
pub open spec fn is_digit(c: char) -> bool {
    48 <= c as u32 <= 57
}

/// The numeric value of a digit character.
pub open spec fn digit_val(c: char) -> int {
    c as u32 - 48
}

/// The digit character for a value in 0..10.
pub open spec fn digit_char(d: int) -> char {
    if d == 0 {
        '0'
    } else if d == 1 {
        '1'
    } else if d == 2 {
        '2'
    } else if d == 3 {
        '3'
    } else if d == 4 {
        '4'
    } else if d == 5 {
        '5'
    } else if d == 6 {
        '6'
    } else if d == 7 {
        '7'
    } else if d == 8 {
        '8'
    } else {
        '9'
    }
}

/// Whether every character of `s` is a decimal digit.
pub open spec fn all_digits(s: Seq<char>) -> bool {
    forall|i: int| 0 <= i < s.len() ==> is_digit(#[trigger] s[i])
}

/// The number denoted by the digit string `s` (most significant first).
pub open spec fn dec_val(s: Seq<char>) -> int
    decreases s.len(),
{
    if s.len() == 0 {
        0
    } else {
        dec_val(s.drop_last()) * 10 + digit_val(s.last())
    }
}

/// The canonical decimal representation of `n`: no leading zeros, and `0`
/// itself is written as the single digit `0`.
pub open spec fn dec_rep(n: nat) -> Seq<char>
    decreases n,
{
    if n < 10 {
        seq![digit_char(n as int)]
    } else {
        dec_rep(n / 10).push(digit_char((n % 10) as int))
    }
}

/// Whether `s` parses as an unsigned 64-bit integer: nonempty, all digits,
/// and the denoted value fits in a `u64`.
pub open spec fn key_parseable(s: Seq<char>) -> bool {
    s.len() > 0 && all_digits(s) && dec_val(s) <= u64::MAX
}

/// Whether `s` is the canonical decimal form of some `u64`: parseable and
/// without leading zeros.
pub open spec fn key_canonical(s: Seq<char>) -> bool {
    key_parseable(s) && (s.len() == 1 || digit_val(s[0]) != 0)
}

/// A digit character is recovered from its numeric value.
proof fn lemma_digit_char_of_val(c: char)
    requires
        is_digit(c),
    ensures
        digit_char(digit_val(c)) == c,
{
    let d = digit_val(c);
    assert(0 <= d <= 9);
    assert(digit_char(d) as u32 == c as u32);
}

/// The numeric value of a digit character built from a value in 0..10.
proof fn lemma_digit_val_of_char(d: int)
    requires
        0 <= d <= 9,
    ensures
        is_digit(digit_char(d)),
        digit_val(digit_char(d)) == d,
{
}

/// The empty string denotes zero.
proof fn lemma_dec_val_empty()
    ensures
        dec_val(Seq::<char>::empty()) == 0,
{
}

/// The value of a digit string is nonnegative.
proof fn lemma_dec_val_nonneg(s: Seq<char>)
    requires
        all_digits(s),
    ensures
        dec_val(s) >= 0,
    decreases s.len(),
{
    if s.len() > 0 {
        lemma_dec_val_nonneg(s.drop_last());
    }
}

/// A digit string with a nonzero leading digit denotes at least 1.
proof fn lemma_dec_val_pos(s: Seq<char>)
    requires
        all_digits(s),
        s.len() >= 1,
        digit_val(s[0]) != 0,
    ensures
        dec_val(s) >= 1,
    decreases s.len(),
{
    if s.len() == 1 {
        assert(s.last() == s[0]);
        assert(s.drop_last() =~= Seq::<char>::empty());
        lemma_dec_val_empty();
        assert(is_digit(s[0]));
    } else {
        let t = s.drop_last();
        assert(t[0] == s[0]);
        assert(forall|i: int| 0 <= i < t.len() ==> #[trigger] t[i] == s[i]);
        lemma_dec_val_pos(t);
        assert(is_digit(s[s.len() - 1]));
        assert(s.last() == s[s.len() - 1]);
    }
}

/// Extending a digit string to the right never shrinks its value.
proof fn lemma_dec_val_prefix(s: Seq<char>, i: int)
    requires
        all_digits(s),
        0 <= i <= s.len(),
    ensures
        dec_val(s.subrange(0, i)) <= dec_val(s),
    decreases s.len() - i,
{
    if i < s.len() {
        lemma_dec_val_prefix(s, i + 1);
        let shorter = s.subrange(0, i);
        let longer = s.subrange(0, i + 1);
        assert(longer.drop_last() =~= shorter);
        assert(longer.last() == s[i]);
        lemma_dec_val_nonneg(shorter);
    } else {
        assert(s.subrange(0, i) =~= s);
    }
}

/// The canonical representation denotes its number, is made of digits,
/// and starts with `0` only for the number 0 itself.
proof fn lemma_dec_rep_props(n: nat)
    ensures
        dec_rep(n).len() >= 1,
        all_digits(dec_rep(n)),
        dec_val(dec_rep(n)) == n,
        digit_val(dec_rep(n)[0]) == 0 ==> n == 0,
    decreases n,
{
    if n < 10 {
        let s = dec_rep(n);
        assert(s.last() == digit_char(n as int));
        assert(s.drop_last() =~= Seq::<char>::empty());
        lemma_dec_val_empty();
        lemma_digit_val_of_char(n as int);
    } else {
        lemma_dec_rep_props(n / 10);
        assert(n / 10 >= 1 && n / 10 < n && n % 10 < 10) by (nonlinear_arith)
            requires
                n >= 10,
        ;
        lemma_digit_val_of_char((n % 10) as int);
        let prev = dec_rep(n / 10);
        let s = dec_rep(n);
        assert(s == prev.push(digit_char((n % 10) as int)));
        assert(s.drop_last() =~= prev);
        assert(s.last() == digit_char((n % 10) as int));
        assert(forall|i: int|
            0 <= i < s.len() ==> is_digit(#[trigger] s[i]) == if i < prev.len() {
                is_digit(prev[i])
            } else {
                is_digit(digit_char((n % 10) as int))
            });
        assert(dec_val(s) == dec_val(prev) * 10 + digit_val(digit_char((n % 10) as int)));
        assert((n / 10) * 10 + n % 10 == n) by (nonlinear_arith);
    }
}

/// A canonical digit string is reproduced by `dec_rep` from its value:
/// formatting after parsing gives back exactly the original key.
proof fn lemma_canonical_rep(s: Seq<char>)
    requires
        s.len() >= 1,
        all_digits(s),
        s.len() == 1 || digit_val(s[0]) != 0,
    ensures
        dec_val(s) >= 0,
        dec_rep(dec_val(s) as nat) == s,
    decreases s.len(),
{
    lemma_dec_val_nonneg(s);
    if s.len() == 1 {
        let d = digit_val(s[0]);
        assert(is_digit(s[0]));
        assert(s.last() == s[0]);
        assert(s.drop_last() =~= Seq::<char>::empty());
        lemma_dec_val_empty();
        assert(dec_val(s) == d);
        lemma_digit_char_of_val(s[0]);
        assert(dec_rep(d as nat) =~= s);
    } else {
        let t = s.drop_last();
        let d = digit_val(s.last());
        lemma_dec_val_pos(t);
        lemma_dec_val_nonneg(t);
        lemma_canonical_rep(t);
        let v = dec_val(s);
        assert(v == dec_val(t) * 10 + d);
        assert(v / 10 == dec_val(t) && v % 10 == d && v >= 10) by (nonlinear_arith)
            requires
                v == dec_val(t) * 10 + d,
                dec_val(t) >= 1,
                0 <= d < 10,
        ;
        assert(is_digit(s[s.len() - 1]) && s.last() == s[s.len() - 1]);
        lemma_digit_char_of_val(s.last());
        assert(dec_rep(v as nat) == dec_rep(dec_val(t) as nat).push(digit_char(d)));
        assert(dec_rep(v as nat) =~= s);
    }
}

/// The single-character string for a digit in 0..10.
fn digit_str(d: u64) -> (s: &'static str)
    requires
        d < 10,
    ensures
        s@ =~= seq![digit_char(d as int)],
{
    proof {
        reveal_strlit("0");
        reveal_strlit("1");
        reveal_strlit("2");
        reveal_strlit("3");
        reveal_strlit("4");
        reveal_strlit("5");
        reveal_strlit("6");
        reveal_strlit("7");
        reveal_strlit("8");
        reveal_strlit("9");
    }
    match d {
        0 => "0",
        1 => "1",
        2 => "2",
        3 => "3",
        4 => "4",
        5 => "5",
        6 => "6",
        7 => "7",
        8 => "8",
        _ => "9",
    }
}

/// Formats `n` as its canonical decimal string.
pub fn u64_to_dec_string(n: u64) -> (s: String)
    ensures
        s@ == dec_rep(n as nat),
        key_canonical(s@),
    decreases n,
{
    proof {
        lemma_dec_rep_props(n as nat);
    }
    if n < 10 {
        digit_str(n).to_owned()
    } else {
        assert(n / 10 < n && n % 10 < 10) by (nonlinear_arith)
            requires
                n >= 10,
        ;
        let mut s = u64_to_dec_string(n / 10);
        s.append(digit_str(n % 10));
        proof {
            assert(s@ =~= dec_rep(n as nat));
        }
        s
    }
}

/// Parses a decimal string as a `u64`. Returns the denoted value exactly
/// when the string is nonempty, all digits, and the value fits; returns
/// `None` otherwise (leading zeros are accepted, as in the wire format's
/// host language conventions).
pub fn parse_u64_dec(s: &str) -> (r: Option<u64>)
    ensures
        r is Some <==> key_parseable(s@),
        r is Some ==> r->0 == dec_val(s@),
{
    let len = s.unicode_len();
    if len == 0 {
        return None;
    }
    let mut acc: u64 = 0;
    let mut i: usize = 0;
    while i < len
        invariant
            0 <= i <= len,
            len == s@.len(),
            all_digits(s@.subrange(0, i as int)),
            acc == dec_val(s@.subrange(0, i as int)),
        decreases len - i,
    {
        let c = s.get_char(i);
        let code = c as u32;
        proof {
            let prefix = s@.subrange(0, i as int);
            let next = s@.subrange(0, i + 1);
            assert(next.drop_last() =~= prefix);
            assert(next.last() == s@[i as int]);
        }
        if code < 48 || code > 57 {
            assert(!is_digit(s@[i as int]));
            return None;
        }
        let d = (code - 48) as u64;
        let shifted = match acc.checked_mul(10) {
            Some(v) => v,
            None => {
                proof {
                    let next = s@.subrange(0, i + 1);
                    lemma_dec_val_nonneg(next);
                    if all_digits(s@) {
                        lemma_dec_val_prefix(s@, i + 1);
                        assert(dec_val(next) == acc * 10 + digit_val(s@[i as int]));
                        assert(dec_val(s@) > u64::MAX);
                    }
                }
                return None;
            },
        };
        let total = match shifted.checked_add(d) {
            Some(v) => v,
            None => {
                proof {
                    let next = s@.subrange(0, i + 1);
                    if all_digits(s@) {
                        lemma_dec_val_prefix(s@, i + 1);
                        assert(dec_val(next) == acc * 10 + digit_val(s@[i as int]));
                        assert(dec_val(s@) > u64::MAX);
                    }
                }
                return None;
            },
        };
        acc = total;
        i = i + 1;
    }
    proof {
        assert(s@.subrange(0, len as int) =~= s@);
    }
    Some(acc)
}

// ---------------------------------------------------------------------------
// Records and the 25-byte codec
// ---------------------------------------------------------------------------

/// One logical cache operation read from (or written to) a trace file.
///
/// The key is a decimal string; the wire format only admits keys that
/// parse as unsigned 64-bit integers. The value carries only its length's
/// worth of bytes; decoding fills it with zeros.
#[derive(Debug, Clone)]
pub struct Access {
    pub timestamp: u64,
    pub command: Command,
    pub key: String,
    pub value: Vec<u8>,
    pub ttl: Option<u32>,
}

/// The TTL as written to the wire: absent is encoded as 0.
pub open spec fn spec_wire_ttl(ttl: Option<u32>) -> u32 {
    match ttl {
        Option::None => 0,
        Option::Some(t) => t,
    }
}

/// The 25 bytes that encode a record with the given field values.
pub open spec fn spec_record_bytes(
    timestamp: u64,
    command: Command,
    key_val: u64,
    size: u32,
    ttl: Option<u32>,
) -> Seq<u8> {
    spec_u64_to_le_bytes(timestamp) + seq![command.spec_as_byte()] + spec_u64_to_le_bytes(key_val)
        + spec_u32_to_le_bytes(size) + spec_u32_to_le_bytes(spec_wire_ttl(ttl))
}

/// The field a truncated buffer of the given length ran out in.
pub open spec fn truncated_field(len: int) -> FieldName {
    if len < 8 {
        FieldName::Timestamp
    } else if len < 9 {
        FieldName::Command
    } else if len < 17 {
        FieldName::Key
    } else if len < 21 {
        FieldName::ValueSize
    } else {
        FieldName::Ttl
    }
}

impl Access {
    /// A record is well formed when its key is a parseable decimal number
    /// and its value's length fits the 4-byte size field.
    pub open spec fn wf(self) -> bool {
        key_parseable(self.key@) && self.value@.len() <= u32::MAX
    }

    /// Encodes the record into its 25-byte wire form.
    ///
    /// Only the value's length is serialized, never its contents. Fails
    /// exactly when the key does not parse as an unsigned 64-bit integer.
    pub fn encode(&self) -> (r: Result<Vec<u8>, EncodeError>)
        requires
            self.value@.len() <= u32::MAX,
        ensures
            r is Ok <==> key_parseable(self.key@),
            r is Err ==> r == Result::<Vec<u8>, EncodeError>::Err(EncodeError::KeyNotNumeric),
            r is Ok ==> r->Ok_0@ == spec_record_bytes(
                self.timestamp,
                self.command,
                (dec_val(self.key@) as u64),
                self.value@.len() as u32,
                self.ttl,
            ),
            r is Ok ==> r->Ok_0@.len() == 25,
    {
        let key_val = match parse_u64_dec(self.key.as_str()) {
            Some(v) => v,
            None => {
                return Err(EncodeError::KeyNotNumeric);
            },
        };
        let size = self.value.len() as u32;
        let wire_ttl = match self.ttl {
            Some(t) => t,
            None => 0,
        };
        let mut buf: Vec<u8> = Vec::new();
        let mut ts_bytes = u64_to_le_bytes(self.timestamp);
        buf.append(&mut ts_bytes);
        buf.push(self.command.as_byte());
        let mut key_bytes = u64_to_le_bytes(key_val);
        buf.append(&mut key_bytes);
        let mut size_bytes = u32_to_le_bytes(size);
        buf.append(&mut size_bytes);
        let mut ttl_bytes = u32_to_le_bytes(wire_ttl);
        buf.append(&mut ttl_bytes);
        proof {
            assert(buf@ =~= spec_record_bytes(
                self.timestamp,
                self.command,
                (dec_val(self.key@) as u64),
                self.value@.len() as u32,
                self.ttl,
            ));
        }
        Ok(buf)
    }

    /// Decodes one record from the first 25 bytes of `buf`.
    ///
    /// Fails with the offending field's name when the buffer is shorter
    /// than a record or the command byte is unknown; it never yields a
    /// partially populated record.
    pub fn decode(buf: &[u8]) -> (r: Result<Access, DecodeError>)
        ensures
            buf@.len() < 25 ==> r == Result::<Access, DecodeError>::Err(
                DecodeError::InvalidField(truncated_field(buf@.len() as int)),
            ),
            buf@.len() >= 25 ==> {
                let cmd_byte = buf@[8];
                if cmd_byte > 1 {
                    r == Result::<Access, DecodeError>::Err(
                        DecodeError::InvalidField(FieldName::Command),
                    )
                } else {
                    &&& r is Ok
                    &&& r->Ok_0.timestamp == spec_u64_from_le_bytes(buf@.subrange(0, 8))
                    &&& r->Ok_0.command.spec_as_byte() == cmd_byte
                    &&& r->Ok_0.key@ == dec_rep(spec_u64_from_le_bytes(buf@.subrange(9, 17)) as nat)
                    &&& key_canonical(r->Ok_0.key@)
                    &&& r->Ok_0.value@ == Seq::new(
                        spec_u32_from_le_bytes(buf@.subrange(17, 21)) as nat,
                        |i: int| 0u8,
                    )
                    &&& r->Ok_0.ttl == {
                        let w = spec_u32_from_le_bytes(buf@.subrange(21, 25));
                        if w == 0 {
                            Option::<u32>::None
                        } else {
                            Option::<u32>::Some(w)
                        }
                    }
                    &&& r->Ok_0.wf()
                }
            },
    {
        let len = buf.len();
        if len < RECORD_SIZE {
            let field = if len < 8 {
                FieldName::Timestamp
            } else if len < 9 {
                FieldName::Command
            } else if len < 17 {
                FieldName::Key
            } else if len < 21 {
                FieldName::ValueSize
            } else {
                FieldName::Ttl
            };
            return Err(DecodeError::InvalidField(field));
        }
        let timestamp = u64_from_le_bytes(slice_subrange(buf, 0, 8));
        let cmd_byte = *slice_index_get(buf, 8);
        let command = match Command::from_byte(cmd_byte) {
            Ok(c) => c,
            Err(e) => {
                return Err(e);
            },
        };
        let key_val = u64_from_le_bytes(slice_subrange(buf, 9, 17));
        let value_size = u32_from_le_bytes(slice_subrange(buf, 17, 21));
        let ttl_word = u32_from_le_bytes(slice_subrange(buf, 21, 25));
        let key = u64_to_dec_string(key_val);
        let value: Vec<u8> = vec![0u8; value_size as usize];
        let ttl = if ttl_word == 0 {
            None
        } else {
            Some(ttl_word)
        };
        proof {
            lemma_dec_rep_props(key_val as nat);
            assert(value@ =~= Seq::new(value_size as nat, |i: int| 0u8));
        }
        Ok(Access { timestamp, command, key, value, ttl })
    }
}

/// Round-trip law of the codec: by the contracts of `encode` and
/// `decode`, decoding the bytes that encode a well-formed record with a
/// canonical key reproduces the record's timestamp, command, key, value
/// length and TTL. A key with leading zeros comes back canonicalized,
/// and a TTL of `Some(0)` is excluded: the wire writes 0 for "absent",
/// so it comes back as `None`.
pub proof fn lemma_codec_round_trip(a: Access)
    requires
        key_canonical(a.key@),
        a.value@.len() <= u32::MAX,
        a.ttl != Option::<u32>::Some(0u32),
    ensures
        ({
            let b = spec_record_bytes(
                a.timestamp,
                a.command,
                (dec_val(a.key@) as u64),
                a.value@.len() as u32,
                a.ttl,
            );
            &&& b.len() == 25
            &&& spec_u64_from_le_bytes(b.subrange(0, 8)) == a.timestamp
            &&& b[8] == a.command.spec_as_byte()
            &&& b[8] <= 1
            &&& dec_rep(spec_u64_from_le_bytes(b.subrange(9, 17)) as nat) == a.key@
            &&& spec_u32_from_le_bytes(b.subrange(17, 21)) == a.value@.len()
            &&& (if spec_u32_from_le_bytes(b.subrange(21, 25)) == 0 {
                Option::<u32>::None
            } else {
                Option::<u32>::Some(spec_u32_from_le_bytes(b.subrange(21, 25)))
            }) == a.ttl
        }),
{
    lemma_record_bytes_round_trip(
        a.timestamp,
        a.command,
        (dec_val(a.key@) as u64),
        a.value@.len() as u32,
        a.ttl,
    );
    lemma_canonical_rep(a.key@);
}

/// Round-trip law at the byte level: the 25 bytes written for the given
/// field values decode back to the same timestamp, command byte, numeric
/// key, value length and wire TTL.
pub proof fn lemma_record_bytes_round_trip(
    timestamp: u64,
    command: Command,
    key_val: u64,
    size: u32,
    ttl: Option<u32>,
)
    requires
        ttl != Option::<u32>::Some(0u32),
    ensures
        ({
            let b = spec_record_bytes(timestamp, command, key_val, size, ttl);
            &&& b.len() == 25
            &&& spec_u64_from_le_bytes(b.subrange(0, 8)) == timestamp
            &&& b[8] == command.spec_as_byte()
            &&& b[8] <= 1
            &&& spec_u64_from_le_bytes(b.subrange(9, 17)) == key_val
            &&& spec_u32_from_le_bytes(b.subrange(17, 21)) == size
            &&& spec_u32_from_le_bytes(b.subrange(21, 25)) == spec_wire_ttl(ttl)
            &&& (spec_wire_ttl(ttl) == 0 <==> ttl is None)
        }),
{
    lemma_auto_spec_u64_to_from_le_bytes();
    lemma_auto_spec_u32_to_from_le_bytes();
    let b = spec_record_bytes(timestamp, command, key_val, size, ttl);
    assert(b.subrange(0, 8) =~= spec_u64_to_le_bytes(timestamp));
    assert(b.subrange(9, 17) =~= spec_u64_to_le_bytes(key_val));
    assert(b.subrange(17, 21) =~= spec_u32_to_le_bytes(size));
    assert(b.subrange(21, 25) =~= spec_u32_to_le_bytes(spec_wire_ttl(ttl)));
}

} // verus!
