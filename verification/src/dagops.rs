//! What an actor hands the host when it changes the DAG: base64 payloads, C strings,
//! JSON maps of dependencies, and the reading of the host's answers.

use vstd::prelude::*;
use vstd::string::StringExecFns;

use crate::text::{decimal_nat, push_decimal_u64};

verus! {

/// The base64 encoding of `bytes` with the standard alphabet and `=` padding.
pub uninterp spec fn base64_standard(bytes: Seq<u8>) -> Seq<u8>;

/// The JSON object text that maps each key to its number; a key given twice keeps its
/// last number.
pub uninterp spec fn json_u32_object(entries: Seq<(Seq<char>, u32)>) -> Seq<u8>;

/// The JSON object text with two fields, `code_key` holding the number `code` and
/// `message_key` holding the string `message`, written in the order of their keys
/// (serde_json's map is sorted by key).
pub uninterp spec fn json_error_object(code_key: Seq<char>, code: i32, message_key: Seq<char>, message: Seq<char>) -> Seq<char>;

/// Whether `b` is a byte of the standard base64 alphabet or the padding `=`.
pub open spec fn is_base64_byte(b: u8) -> bool {
    (65 <= b <= 90) || (97 <= b <= 122) || (48 <= b <= 57) || b == 43 || b == 47 || b == 61
}

/// The length of the padded base64 encoding of `n` bytes.
pub open spec fn base64_len(n: nat) -> nat {
    4 * ((n + 2) / 3)
}

/// `base64::Engine::encode` with `base64::engine::general_purpose::STANDARD`.
/// Claimed: the result is the standard padded encoding of the input, of length
/// `4 * ceil(n / 3)`, made of alphabet bytes and `=` only. The encoding panics when that
/// length does not fit in `usize`, which `requires` rules out.
#[verifier::external_body]
fn encode_standard(bytes: &[u8]) -> (r: Vec<u8>)
    requires
        base64_len(bytes@.len() as nat) <= usize::MAX,
    ensures
        r@ == base64_standard(bytes@),
        r@.len() == base64_len(bytes@.len() as nat),
        forall|i: int| 0 <= i < r@.len() ==> is_base64_byte(#[trigger] r@[i]),
{
    base64::Engine::encode(&base64::engine::general_purpose::STANDARD, bytes).into_bytes()
}

/// The view of dependency entries: each name by its characters.
pub open spec fn entries_view(entries: Seq<(String, u32)>) -> Seq<(Seq<char>, u32)> {
    entries.map_values(|e: (String, u32)| (e.0@, e.1))
}

/// `serde_json::to_vec` of the `serde_json::Map` built by inserting each entry in order,
/// every number as a JSON number. Claimed: it succeeds (its documentation names as the
/// only failures a `Serialize` impl that fails and a map with non-string keys; this map
/// has string keys and numbers), the bytes are a function of the entries alone, and they
/// hold no NUL byte (strings are written with control characters escaped).
#[verifier::external_body]
fn json_object_bytes(entries: &Vec<(String, u32)>) -> (r: Result<Vec<u8>, String>)
    ensures
        r is Ok,
        r matches Ok(b) ==> b@ == json_u32_object(entries_view(entries@)),
        r matches Ok(b) ==> forall|i: int| 0 <= i < b@.len() ==> #[trigger] b@[i] != 0u8,
{
    let map: serde_json::Map<String, serde_json::Value> = entries.iter().map(
        |e| (e.0.clone(), serde_json::Value::from(e.1)),
    ).collect();
    serde_json::to_vec(&map).map_err(|e| e.to_string())
}

/// `serde_json::Value::to_string` of the object that maps `code_key` to the number `code`
/// and `message_key` to the string `message` (the map keeps its keys sorted). Claimed: the
/// text is a function of the four arguments alone.
#[verifier::external_body]
fn json_error_text(code_key: &str, code: i32, message_key: &str, message: &str) -> (r: String)
    ensures
        r@ == json_error_object(code_key@, code, message_key@, message@),
{
    let mut map = serde_json::Map::new();
    map.insert(code_key.to_string(), serde_json::Value::from(code));
    map.insert(message_key.to_string(), serde_json::Value::from(message));
    serde_json::Value::Object(map).to_string()
}

/// What the host receives for a value node: the base64 text of the value, then a NUL.
pub open spec fn value_payload_spec(value: Seq<u8>) -> Seq<u8> {
    base64_standard(value).push(0u8)
}

/// The payload of a value node: the base64 encoding of `value` terminated by a NUL.
pub fn value_payload(value: &[u8]) -> (r: Vec<u8>)
    requires
        base64_len(value@.len() as nat) < usize::MAX,
    ensures
        r@ == value_payload_spec(value@),
        r@.len() == base64_len(value@.len() as nat) + 1,
        forall|i: int| 0 <= i < r@.len() - 1 ==> is_base64_byte(#[trigger] r@[i]),
        first_nul(r@) == Some((r@.len() - 1) as nat),
{
    let mut r = encode_standard(value);
    r.push(0u8);
    proof {
        lemma_single_nul(r@);
    }
    r
}

/// A NUL-terminated sequence of base64 bytes holds exactly one NUL, its last byte, so the
/// host reads the whole encoding as one C string.
proof fn lemma_single_nul(payload: Seq<u8>)
    requires
        payload.len() >= 1,
        payload.last() == 0u8,
        forall|i: int| 0 <= i < payload.len() - 1 ==> is_base64_byte(#[trigger] payload[i]),
    ensures
        first_nul(payload) == Some((payload.len() - 1) as nat),
{
    assert forall|i: int| 0 <= i < payload.len() - 1 implies payload[i] != 0u8 by {
        assert(is_base64_byte(payload[i]));
    }
    lemma_first_nul_at(payload, (payload.len() - 1) as nat);
}

/// The index of the first NUL byte, if any.
pub open spec fn first_nul(bytes: Seq<u8>) -> Option<nat>
    decreases bytes.len(),
{
    if bytes.len() == 0 {
        None
    } else if bytes[0] == 0u8 {
        Some(0nat)
    } else {
        match first_nul(bytes.drop_first()) {
            Some(i) => Some(i + 1),
            None => None,
        }
    }
}

proof fn lemma_first_nul_at(bytes: Seq<u8>, k: nat)
    requires
        k < bytes.len(),
        bytes[k as int] == 0u8,
        forall|i: int| 0 <= i < k ==> bytes[i] != 0u8,
    ensures
        first_nul(bytes) == Some(k),
    decreases k,
{
    if k > 0 {
        let rest = bytes.drop_first();
        assert forall|i: int| 0 <= i < k - 1 implies rest[i] != 0u8 by {
            assert(rest[i] == bytes[i + 1]);
        }
        lemma_first_nul_at(rest, (k - 1) as nat);
    }
}

proof fn lemma_first_nul_none(bytes: Seq<u8>)
    requires
        forall|i: int| 0 <= i < bytes.len() ==> bytes[i] != 0u8,
    ensures
        first_nul(bytes) is None,
    decreases bytes.len(),
{
    if bytes.len() > 0 {
        let rest = bytes.drop_first();
        assert forall|i: int| 0 <= i < rest.len() implies rest[i] != 0u8 by {
            assert(rest[i] == bytes[i + 1]);
        }
        lemma_first_nul_none(rest);
    }
}

/// The message of a C string refused for a NUL byte at `pos`.
pub open spec fn nul_error_message(pos: nat) -> Seq<char> {
    "nul byte found in provided data at position: "@ + decimal_nat(pos)
}

/// The C string made of `bytes`: the bytes and a terminating NUL, or, when they already
/// hold a NUL, the error naming the position of the first one.
pub fn c_string(bytes: &[u8]) -> (r: Result<Vec<u8>, String>)
    ensures
        match first_nul(bytes@) {
            Some(p) => r matches Err(e) && e@ == nul_error_message(p),
            None => r matches Ok(v) && v@ == bytes@.push(0u8),
        },
{
    let mut v: Vec<u8> = Vec::new();
    let mut i: usize = 0;
    while i < bytes.len()
        invariant
            i <= bytes@.len(),
            v@ == bytes@.subrange(0, i as int),
            forall|j: int| 0 <= j < i ==> bytes@[j] != 0u8,
        decreases bytes@.len() - i,
    {
        if bytes[i] == 0u8 {
            proof {
                lemma_first_nul_at(bytes@, i as nat);
            }
            let mut msg = String::from_str("nul byte found in provided data at position: ");
            push_decimal_u64(&mut msg, i as u64);
            proof {
                reveal_strlit("nul byte found in provided data at position: ");
            }
            return Err(msg);
        }
        v.push(bytes[i]);
        i = i + 1;
        assert(v@ =~= bytes@.subrange(0, i as int));
    }
    proof {
        lemma_first_nul_none(bytes@);
    }
    assert(bytes@.subrange(0, i as int) =~= bytes@);
    v.push(0u8);
    Ok(v)
}

/// The message of a host call that failed.
pub open spec fn host_error_message(what: Seq<char>) -> Seq<char> {
    what + ": error"@
}

/// Reads the host's answer to a call that creates a node: a non-negative handle, or an
/// error naming the call.
pub fn handle_result(handle: i32, what: &str) -> (r: Result<u32, String>)
    ensures
        handle >= 0 ==> r == Ok::<u32, String>(handle as u32),
        handle < 0 ==> (r matches Err(e) && e@ == host_error_message(what@)),
{
    if handle >= 0 {
        Ok(handle as u32)
    } else {
        let mut e = String::from_str(what);
        e.append(": error");
        Err(e)
    }
}

/// Reads the host's answer to a call that returns a status: zero is success.
pub fn status_result(result: i32, what: &str) -> (r: Result<(), String>)
    ensures
        result == 0 ==> r is Ok,
        result != 0 ==> (r matches Err(e) && e@ == host_error_message(what@)),
{
    if result == 0 {
        Ok(())
    } else {
        let mut e = String::from_str(what);
        e.append(": error");
        Err(e)
    }
}

/// The C string of the JSON map of dependencies handed to the host.
pub fn deps_payload(deps: &Vec<(String, u32)>) -> (r: Result<Vec<u8>, String>)
    ensures
        r matches Ok(v) && v@ == json_u32_object(entries_view(deps@)).push(0u8),
        first_nul(json_u32_object(entries_view(deps@))) is None,
{
    match json_object_bytes(deps) {
        Ok(json) => {
            proof {
                lemma_first_nul_none(json@);
            }
            c_string(json.as_slice())
        },
        Err(e) => Err(e),
    }
}

/// The JSON text that reports an error to the host: `{"code":..,"message":..}`.
pub fn error_message_json(code: i32, message: &str) -> (r: String)
    ensures
        r@ == json_error_object("code"@, code, "message"@, message@),
{
    json_error_text("code", code, "message", message)
}

} // verus!
