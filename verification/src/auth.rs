//! Authenticated frames: a payload behind its length and before its
//! HMAC-SHA256 tag.
//!
//! Two keys are in use. The cluster key authenticates orders, results, replay
//! requests and the control messages of the replicas. The monitoring key
//! authenticates what replicas and the monitoring service say to each other,
//! so that the service never holds the cluster key.

use crate::bytes::{
    be_bytes, byte_span, lemma_byte_span, low_u32, push_u32_be, read_u32_be,
};
use crate::environment::{lookup, Environment, Fixed};
use hmac::{Hmac, Mac};
use sha2::Sha256;
use vstd::prelude::*;
use vstd::slice::slice_subrange;

verus! {

broadcast use crate::bytes::lemma_be_len;

pub const HMAC_TAG_LEN: usize = 32;

pub const LEN_PREFIX: usize = 4;

/// The HMAC-SHA256 tag of a payload under a key.
pub uninterp spec fn hmac_sha256(key: Seq<u8>, payload: Seq<u8>) -> Seq<u8>;

/// `hmac::Mac` over SHA-256: a new instance for the key, one update with the
/// payload, and its final output. A key of any length is accepted. The output
/// is a function of key and payload, which has the name `hmac_sha256`, and has
/// 32 bytes.
#[verifier::external_body]
fn mac_tag(key: &[u8], payload: &[u8]) -> (tag: Vec<u8>)
    ensures
        tag@ == hmac_sha256(key@, payload@),
        tag@.len() == HMAC_TAG_LEN,
{
    let mut mac = Hmac::<Sha256>::new_from_slice(key).expect("a key of any length is valid");
    mac.update(payload);
    mac.finalize().into_bytes().to_vec()
}

/// `hmac::Mac::verify_slice` over SHA-256: whether a tag is the one that the
/// instance for the key, updated with the payload, would put out. The
/// comparison takes the same time for every tag of the right length.
#[verifier::external_body]
fn mac_verifies(key: &[u8], payload: &[u8], tag: &[u8]) -> (valid: bool)
    ensures
        valid == (tag@ == hmac_sha256(key@, payload@)),
{
    let mut mac = Hmac::<Sha256>::new_from_slice(key).expect("a key of any length is valid");
    mac.update(payload);
    mac.verify_slice(tag).is_ok()
}

/// The frame of a payload: the low 32 bits of its length, most significant byte
/// first, the payload, and its tag.
pub open spec fn frame_of(payload: Seq<u8>, key: Seq<u8>) -> Seq<u8> {
    be_bytes(payload.len() % 0x1_0000_0000, 4) + payload + hmac_sha256(key, payload)
}

/// The value of a byte string, most significant byte first.
pub open spec fn be_value(bytes: Seq<u8>) -> nat
    decreases bytes.len(),
{
    if bytes.len() == 0 {
        0
    } else {
        256 * be_value(bytes.drop_last()) + bytes.last() as nat
    }
}

/// The payload of a frame, if the frame is complete and its tag is right. What
/// follows the tag is ignored.
pub open spec fn payload_of(frame: Seq<u8>, key: Seq<u8>) -> Option<Seq<u8>> {
    let n = be_value(frame.take(4));
    let payload = frame.subrange(4, 4 + n as int);
    let tag = frame.subrange(4 + n as int, 4 + n as int + 32);
    if frame.len() < 36 || frame.len() < 4 + n + 32 || tag != hmac_sha256(key, payload) {
        None
    } else {
        Some(payload)
    }
}

proof fn lemma_be_value(v: nat, n: nat)
    requires
        v < byte_span(n),
    ensures
        be_value(be_bytes(v, n)) == v,
    decreases n,
{
    if n > 0 {
        let m = (n - 1) as nat;
        lemma_be_value(v / 256, m);
        assert(be_bytes(v, n).drop_last() =~= be_bytes(v / 256, m));
    }
}

/// A frame with a tag of 32 bytes, as every tag that is made has, gives its
/// payload back, whatever follows it, and no proper prefix of it verifies.
pub proof fn law_signed_frames_read_back(payload: Seq<u8>, key: Seq<u8>)
    requires
        payload.len() < 0x1_0000_0000,
        hmac_sha256(key, payload).len() == HMAC_TAG_LEN,
    ensures
        reads_back(frame_of(payload, key), payload, key),
{
    let frame = frame_of(payload, key);
    let size = payload.len();
    lemma_byte_span();
    lemma_be_value(size, 4);
    assert forall|rest: Seq<u8>| #[trigger] payload_of(frame + rest, key) == Some(payload) by {
        let longer = frame + rest;
        assert(longer.take(4) =~= be_bytes(size, 4));
        assert(longer.subrange(4, 4 + size as int) =~= payload);
        assert(longer.subrange(4 + size as int, 4 + size as int + 32) =~= hmac_sha256(
            key,
            payload,
        ));
    }
    assert(frame + Seq::<u8>::empty() =~= frame);
    assert(payload_of(frame + Seq::<u8>::empty(), key) == Some(payload));
    assert forall|n: int| 0 <= n < frame.len() implies (#[trigger] payload_of(
        frame.take(n),
        key,
    )) is None by {
        let cut = frame.take(n);
        if cut.len() >= 36 {
            assert(cut.take(4) =~= be_bytes(size, 4));
        }
    }
}

/// Whether a frame gives its payload back, whatever follows it, and no proper
/// prefix of it verifies.
pub open spec fn reads_back(frame: Seq<u8>, payload: Seq<u8>, key: Seq<u8>) -> bool {
    &&& payload_of(frame, key) == Some(payload)
    &&& forall|rest: Seq<u8>| #[trigger] payload_of(frame + rest, key) == Some(payload)
    &&& forall|n: int|
        0 <= n < frame.len() ==> (#[trigger] payload_of(frame.take(n), key)) is None
}

/// A payload that verifies carries the tag that only its own key and its own
/// bytes make.
pub proof fn law_verified_payload_is_tagged(frame: Seq<u8>, key: Seq<u8>)
    ensures
        payload_of(frame, key) matches Some(payload) ==> {
            &&& frame.len() >= 4 + payload.len() + 32
            &&& payload == frame.subrange(4, 4 + payload.len() as int)
            &&& frame.subrange(4 + payload.len() as int, 4 + payload.len() as int + 32)
                == hmac_sha256(key, payload)
        },
{
}

/// Builds the frame of a payload. The frame verifies under the same key and
/// gives the payload back, whatever follows it; a part of it does not.
pub fn sign_with(payload: &[u8], key: &[u8]) -> (frame: Vec<u8>)
    ensures
        frame@ == frame_of(payload@, key@),
        payload@.len() < 0x1_0000_0000 ==> reads_back(frame@, payload@, key@),
{
    let tag = mac_tag(key, payload);
    let mut frame: Vec<u8> = Vec::new();
    push_u32_be(&mut frame, low_u32(payload.len()));
    frame.extend_from_slice(payload);
    frame.extend_from_slice(tag.as_slice());
    proof {
        assert(frame@ =~= frame_of(payload@, key@));
        if payload@.len() < 0x1_0000_0000 {
            law_signed_frames_read_back(payload@, key@);
        }
    }
    frame
}

/// The payload of a frame, if its tag is right under the key.
pub fn verify_with<'a>(frame: &'a [u8], key: &[u8]) -> (payload: Option<&'a [u8]>)
    ensures
        match payload {
            Some(p) => payload_of(frame@, key@) == Some(p@),
            None => payload_of(frame@, key@) is None,
        },
{
    if frame.len() < LEN_PREFIX + HMAC_TAG_LEN {
        return None;
    }
    let len: u32 = read_u32_be(frame, 0);
    proof {
        lemma_byte_span();
        lemma_be_value(len as nat, 4);
        assert(frame@.take(4) =~= frame@.subrange(0, 4));
    }
    if len as usize > frame.len() - LEN_PREFIX - HMAC_TAG_LEN {
        return None;
    }
    let end: usize = LEN_PREFIX + len as usize;
    let payload = slice_subrange(frame, LEN_PREFIX, end);
    let tag = slice_subrange(frame, end, end + HMAC_TAG_LEN);
    if mac_verifies(key, payload, tag) {
        Some(payload)
    } else {
        None
    }
}

/// The key of the cluster.
pub struct ClusterKey {
    bytes: Vec<u8>,
}

/// The key of the replicas and the monitoring service.
pub struct MonitoringKey {
    bytes: Vec<u8>,
}

impl View for ClusterKey {
    type V = Seq<u8>;

    closed spec fn view(&self) -> Seq<u8> {
        self.bytes@
    }
}

impl View for MonitoringKey {
    type V = Seq<u8>;

    closed spec fn view(&self) -> Seq<u8> {
        self.bytes@
    }
}

impl Clone for ClusterKey {
    fn clone(&self) -> (copy: Self)
        ensures
            copy@ == self@,
    {
        ClusterKey { bytes: self.bytes.clone() }
    }
}

impl Clone for MonitoringKey {
    fn clone(&self) -> (copy: Self)
        ensures
            copy@ == self@,
    {
        MonitoringKey { bytes: self.bytes.clone() }
    }
}

/// Why a key cannot be had.
#[derive(Debug)]
pub enum KeyError {
    /// The variable is not set.
    NotSet { name: String },
    /// The text has fewer than 32 bytes.
    TooShort { name: String, len: usize },
    /// Two characters, from this position on, are not the digits of a byte.
    NotHex { name: String, position: usize },
    /// The last digit has no second one.
    Unpaired { name: String },
}

/// The value of a hexadecimal digit.
pub open spec fn hex_digit(b: u8) -> Option<nat> {
    if 48 <= b <= 57 {
        Some((b - 48) as nat)
    } else if 65 <= b <= 70 {
        Some((b - 55) as nat)
    } else if 97 <= b <= 102 {
        Some((b - 87) as nat)
    } else {
        None
    }
}

/// The byte that two hexadecimal digits stand for.
pub open spec fn hex_pair(high: u8, low: u8) -> Option<nat> {
    match (hex_digit(high), hex_digit(low)) {
        (Some(h), Some(l)) => Some(16 * h + l),
        _ => None,
    }
}

/// Whether the text holds complete pairs of digits up to `end`.
pub open spec fn hex_up_to(text: Seq<u8>, end: int) -> bool {
    forall|i: int|
        0 <= i && 2 * i + 1 < end ==> hex_pair(#[trigger] text[2 * i], text[2 * i + 1]) is Some
}

/// What decoding the text of a key gives: one byte for each pair of digits, or
/// the first thing that is wrong with it.
pub open spec fn key_decodes(text: Seq<u8>, name: Seq<char>, result: Result<Seq<u8>, KeyError>) -> bool {
    if text.len() < 32 {
        result matches Err(KeyError::TooShort { name: n, len }) && n@ == name && len == text.len()
    } else {
        match result {
            Ok(key) => {
                &&& text.len() % 2 == 0
                &&& key.len() * 2 == text.len()
                &&& forall|i: int|
                    0 <= i < key.len() ==> hex_pair(text[2 * i], text[2 * i + 1]) == Some(
                        (#[trigger] key[i]) as nat,
                    )
            },
            Err(KeyError::NotHex { name: n, position }) => {
                &&& n@ == name
                &&& position % 2 == 0
                &&& position + 1 < text.len()
                &&& hex_up_to(text, position as int)
                &&& hex_pair(text[position as int], text[position + 1]) is None
            },
            Err(KeyError::Unpaired { name: n }) => {
                &&& n@ == name
                &&& text.len() % 2 == 1
                &&& hex_up_to(text, text.len() - 1)
            },
            _ => false,
        }
    }
}

fn digit_value(b: u8) -> (value: Option<u8>)
    ensures
        match value {
            Some(v) => hex_digit(b) == Some(v as nat) && v < 16,
            None => hex_digit(b) is None,
        },
{
    if 48 <= b && b <= 57 {
        Some(b - 48)
    } else if 65 <= b && b <= 70 {
        Some(b - 55)
    } else if 97 <= b && b <= 102 {
        Some(b - 87)
    } else {
        None
    }
}

fn pair_value(high: u8, low: u8) -> (value: Option<u8>)
    ensures
        match value {
            Some(v) => hex_pair(high, low) == Some(v as nat),
            None => hex_pair(high, low) is None,
        },
{
    match digit_value(low) {
        Some(l) => match digit_value(high) {
            Some(h) => Some(16 * h + l),
            None => None,
        },
        None => None,
    }
}

/// The bytes of a key in hexadecimal.
pub fn decode_hex_key(hex: &str, env_name: &str) -> (key: Result<Vec<u8>, KeyError>)
    ensures
        key_decodes(
            vstd::utf8::encode_utf8(hex@),
            env_name@,
            match key {
                Ok(k) => Ok(k@),
                Err(e) => Err(e),
            },
        ),
{
    let text = hex.as_bytes();
    if text.len() < 32 {
        return Err(KeyError::TooShort { name: env_name.to_owned(), len: text.len() });
    }
    let mut key: Vec<u8> = Vec::new();
    let mut at: usize = 0;
    while at < text.len()
        invariant
            text@ == vstd::utf8::encode_utf8(hex@),
            32 <= text@.len(),
            at <= text@.len(),
            at % 2 == 0,
            key@.len() * 2 == at,
            hex_up_to(text@, at as int),
            forall|i: int|
                0 <= i < key@.len() ==> hex_pair(text@[2 * i], text@[2 * i + 1]) == Some(
                    (#[trigger] key@[i]) as nat,
                ),
        decreases text@.len() - at,
    {
        if text.len() - at < 2 {
            return Err(KeyError::Unpaired { name: env_name.to_owned() });
        }
        match pair_value(text[at], text[at + 1]) {
            Some(byte) => {
                key.push(byte);
            },
            None => {
                return Err(KeyError::NotHex { name: env_name.to_owned(), position: at });
            },
        }
        proof {
            assert forall|i: int| 0 <= i && 2 * i + 1 < at + 2 implies hex_pair(
                #[trigger] text@[2 * i],
                text@[2 * i + 1],
            ) is Some by {
                if 2 * i != at {
                    assert(2 * i + 1 < at);
                }
            }
        }
        at = at + 2;
    }
    Ok(key)
}

/// The least number of digits of a key that is loaded: those of 32 bytes.
pub const MIN_KEY_DIGITS: usize = 64;

/// What reading a key from a variable gives. It has 32 bytes at least.
pub open spec fn key_loads(
    vars: Seq<(Seq<char>, Seq<char>)>,
    name: Seq<char>,
    result: Result<Seq<u8>, KeyError>,
) -> bool {
    match lookup(vars, name) {
        None => result matches Err(KeyError::NotSet { name: n }) && n@ == name,
        Some(hex) => {
            let text = vstd::utf8::encode_utf8(hex);
            if text.len() < MIN_KEY_DIGITS {
                result matches Err(KeyError::TooShort { name: n, len }) && n@ == name && len
                    == text.len()
            } else {
                key_decodes(text, name, result)
            }
        },
    }
}

/// A key that is loaded has 32 bytes at least.
pub proof fn law_loaded_keys_are_long(
    vars: Seq<(Seq<char>, Seq<char>)>,
    name: Seq<char>,
    key: Seq<u8>,
)
    requires
        key_loads(vars, name, Ok(key)),
    ensures
        key.len() >= 32,
{
}

fn load_key(env: &Environment, name: &str) -> (key: Result<Vec<u8>, KeyError>)
    ensures
        key_loads(
            env@,
            name@,
            match key {
                Ok(k) => Ok(k@),
                Err(e) => Err(e),
            },
        ),
{
    match env.var(name) {
        None => Err(KeyError::NotSet { name: name.to_owned() }),
        Some(hex) => {
            let len: usize = hex.as_str().as_bytes().len();
            if len < MIN_KEY_DIGITS {
                Err(KeyError::TooShort { name: name.to_owned(), len })
            } else {
                decode_hex_key(hex.as_str(), name)
            }
        },
    }
}

/// The key of the cluster, from `CLUSTER_HMAC_KEY`. What was read first stays, whatever
/// the environment says later.
pub fn cluster_key<'a>(cell: &'a mut Fixed<ClusterKey>, env: &Environment) -> (key: Result<
    &'a ClusterKey,
    KeyError,
>)
    ensures
        match old(cell)@ {
            Some(first) => {
                &&& final(cell)@ == Some(first)
                &&& key matches Ok(k)
                &&& *k == first
            },
            None => match key {
                Ok(k) => {
                    &&& final(cell)@ == Some(*k)
                    &&& key_loads(env@, "CLUSTER_HMAC_KEY"@, Ok(k@))
                },
                Err(e) => {
                    &&& final(cell)@ is None
                    &&& key_loads(env@, "CLUSTER_HMAC_KEY"@, Err(e))
                },
            },
        },
{
    if !cell.is_set() {
        match load_key(env, "CLUSTER_HMAC_KEY") {
            Ok(bytes) => cell.set(ClusterKey { bytes }),
            Err(e) => return Err(e),
        }
    }
    Ok(cell.get())
}

/// The monitoring key of a replica, from `monitoring_HMAC_KEY`. What was read first stays, whatever
/// the environment says later.
pub fn monitoring_key<'a>(cell: &'a mut Fixed<MonitoringKey>, env: &Environment) -> (key: Result<
    &'a MonitoringKey,
    KeyError,
>)
    ensures
        match old(cell)@ {
            Some(first) => {
                &&& final(cell)@ == Some(first)
                &&& key matches Ok(k)
                &&& *k == first
            },
            None => match key {
                Ok(k) => {
                    &&& final(cell)@ == Some(*k)
                    &&& key_loads(env@, "monitoring_HMAC_KEY"@, Ok(k@))
                },
                Err(e) => {
                    &&& final(cell)@ is None
                    &&& key_loads(env@, "monitoring_HMAC_KEY"@, Err(e))
                },
            },
        },
{
    if !cell.is_set() {
        match load_key(env, "monitoring_HMAC_KEY") {
            Ok(bytes) => cell.set(MonitoringKey { bytes }),
            Err(e) => return Err(e),
        }
    }
    Ok(cell.get())
}

/// The monitoring key of the witness, from `WITNESS_HMAC_KEY`. What was read first stays, whatever
/// the environment says later.
pub fn witness_key<'a>(cell: &'a mut Fixed<MonitoringKey>, env: &Environment) -> (key: Result<
    &'a MonitoringKey,
    KeyError,
>)
    ensures
        match old(cell)@ {
            Some(first) => {
                &&& final(cell)@ == Some(first)
                &&& key matches Ok(k)
                &&& *k == first
            },
            None => match key {
                Ok(k) => {
                    &&& final(cell)@ == Some(*k)
                    &&& key_loads(env@, "WITNESS_HMAC_KEY"@, Ok(k@))
                },
                Err(e) => {
                    &&& final(cell)@ is None
                    &&& key_loads(env@, "WITNESS_HMAC_KEY"@, Err(e))
                },
            },
        },
{
    if !cell.is_set() {
        match load_key(env, "WITNESS_HMAC_KEY") {
            Ok(bytes) => cell.set(MonitoringKey { bytes }),
            Err(e) => return Err(e),
        }
    }
    Ok(cell.get())
}

/// Builds the frame of a payload under the cluster key.
pub fn sign(payload: &[u8], key: &ClusterKey) -> (frame: Vec<u8>)
    ensures
        frame@ == frame_of(payload@, key@),
        payload@.len() < 0x1_0000_0000 ==> reads_back(frame@, payload@, key@),
{
    sign_with(payload, key.bytes.as_slice())
}

/// The payload of a frame, if its tag is right under the cluster key.
pub fn verify<'a>(frame: &'a [u8], key: &ClusterKey) -> (payload: Option<&'a [u8]>)
    ensures
        match payload {
            Some(p) => payload_of(frame@, key@) == Some(p@),
            None => payload_of(frame@, key@) is None,
        },
{
    verify_with(frame, key.bytes.as_slice())
}

/// Builds the frame of a payload under the monitoring key.
pub fn sign_monitoring(payload: &[u8], key: &MonitoringKey) -> (frame: Vec<u8>)
    ensures
        frame@ == frame_of(payload@, key@),
        payload@.len() < 0x1_0000_0000 ==> reads_back(frame@, payload@, key@),
{
    sign_with(payload, key.bytes.as_slice())
}

/// The payload of a frame, if its tag is right under the monitoring key.
pub fn verify_monitoring<'a>(frame: &'a [u8], key: &MonitoringKey) -> (payload: Option<&'a [u8]>)
    ensures
        match payload {
            Some(p) => payload_of(frame@, key@) == Some(p@),
            None => payload_of(frame@, key@) is None,
        },
{
    verify_with(frame, key.bytes.as_slice())
}

/// The digit of a value below 16, with small or capital letters.
pub open spec fn is_digit_of(digit: u8, value: int) -> bool {
    if value < 10 {
        digit == 48 + value
    } else {
        digit == 87 + value || digit == 55 + value
    }
}

/// A key is read from its digits: two for each byte, the high half first, in
/// either case. No such text of 32 digits or more is turned down.
pub proof fn law_hex_keys_are_read(
    key: Seq<u8>,
    text: Seq<u8>,
    name: Seq<char>,
    result: Result<Seq<u8>, KeyError>,
)
    requires
        key.len() >= 16,
        text.len() == 2 * key.len(),
        forall|i: int|
            0 <= i < key.len() ==> is_digit_of(text[2 * i], (#[trigger] key[i]) as int / 16)
                && is_digit_of(text[2 * i + 1], key[i] as int % 16),
        key_decodes(text, name, result),
    ensures
        result == Ok::<Seq<u8>, KeyError>(key),
{
    assert forall|i: int| 0 <= i < key.len() implies hex_pair(text[2 * i], text[2 * i + 1]) == Some(
        (#[trigger] key[i]) as nat,
    ) by {
        let v = key[i] as int;
        assert(16 * (v / 16) + v % 16 == v);
    }
    match result {
        Ok(read) => {
            assert forall|i: int| 0 <= i < key.len() implies read[i] == key[i] by {
                assert(hex_pair(text[2 * i], text[2 * i + 1]) == Some(key[i] as nat));
                assert(hex_pair(text[2 * i], text[2 * i + 1]) == Some(read[i] as nat));
            }
            assert(read =~= key);
        },
        Err(KeyError::NotHex { position, .. }) => {
            let i = position as int / 2;
            assert(position == 2 * i);
            assert(hex_pair(text[2 * i], text[2 * i + 1]) == Some(key[i] as nat));
        },
        Err(_) => {},
    }
}

/// A key of 32 bytes or more is loaded from the digits that its variable holds;
/// one with fewer digits is turned down as too short, and one that is unset as
/// missing.
pub proof fn law_keys_are_loaded(
    vars: Seq<(Seq<char>, Seq<char>)>,
    name: Seq<char>,
    key: Seq<u8>,
    result: Result<Seq<u8>, KeyError>,
)
    requires
        key_loads(vars, name, result),
        lookup(vars, name) matches Some(hex) ==> {
            let text = vstd::utf8::encode_utf8(hex);
            &&& text.len() == 2 * key.len()
            &&& forall|i: int|
                0 <= i < key.len() ==> is_digit_of(text[2 * i], (#[trigger] key[i]) as int / 16)
                    && is_digit_of(text[2 * i + 1], key[i] as int % 16)
        },
    ensures
        lookup(vars, name) is None ==> (result matches Err(KeyError::NotSet { .. })),
        lookup(vars, name) is Some && key.len() >= 32 ==> result == Ok::<Seq<u8>, KeyError>(key),
        lookup(vars, name) is Some && key.len() < 32 ==> (result matches Err(
            KeyError::TooShort { .. },
        )),
{
    if let Some(hex) = lookup(vars, name) {
        if key.len() >= 32 {
            law_hex_keys_are_read(key, vstd::utf8::encode_utf8(hex), name, result);
        }
    }
}

/// A frame is the length of the payload in four bytes, the highest first, then the
/// payload, then the tag of the payload under the key.
pub proof fn law_frame_layout(payload: Seq<u8>, key: Seq<u8>)
    requires
        payload.len() < 0x1_0000_0000,
    ensures
        ({
            let frame = frame_of(payload, key);
            let n = payload.len();
            &&& frame.len() == 4 + n + hmac_sha256(key, payload).len()
            &&& frame[0] == n / 0x100_0000
            &&& frame[1] == n / 0x1_0000 % 256
            &&& frame[2] == n / 256 % 256
            &&& frame[3] == n % 256
            &&& frame.subrange(4, 4 + n as int) == payload
            &&& frame.skip(4 + n as int) == hmac_sha256(key, payload)
        }),
{
    let n = payload.len();
    reveal_with_fuel(be_bytes, 5);
    let head = be_bytes(n, 4);
    assert(head.len() == 4);
    assert(n / 256 / 256 == n / 0x1_0000);
    assert(n / 256 / 256 / 256 == n / 0x100_0000);
    assert(n / 0x100_0000 < 256);
    let frame = frame_of(payload, key);
    assert(frame.subrange(4, 4 + n as int) =~= payload);
    assert(frame.skip(4 + n as int) =~= hmac_sha256(key, payload));
}

} // verus!
