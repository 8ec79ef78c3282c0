//! The request dispatcher and the server's pure decisions.
//!
//! A request is one buffer of newline-delimited fields: the operation name,
//! then its arguments.  The dispatcher parses the buffer, calls the engine,
//! and hands back the bytes of the response; reading the connection and
//! writing the response stay with the caller.

use vstd::prelude::*;
use vstd::utf8::*;
use vstd::string::StrSliceExecFns;
use vstd::string::StringExecFns;
use vstd::slice::slice_subrange;
use vstd::slice::slice_to_vec;
use crate::codec::bytes_to_string;
use crate::engine::KvsEngine;
use crate::error::KvsError;

verus! {

/// A buffer split at every newline, the pieces in order: the separators are
/// dropped, and both a leading newline and an empty buffer give empty
/// pieces, so there is always at least one piece.
pub open spec fn split_fields_spec(s: Seq<u8>) -> Seq<Seq<u8>>
    decreases s.len(),
{
    if s.len() == 0 {
        seq![Seq::<u8>::empty()]
    } else if s[0] == 10 {
        seq![Seq::<u8>::empty()] + split_fields_spec(s.drop_first())
    } else {
        let rest = split_fields_spec(s.drop_first());
        seq![seq![s[0]] + rest[0]] + rest.drop_first()
    }
}

/// Splitting yields at least one piece.
pub proof fn lemma_split_fields_nonempty(s: Seq<u8>)
    ensures
        split_fields_spec(s).len() >= 1,
    decreases s.len(),
{
    if s.len() > 0 {
        lemma_split_fields_nonempty(s.drop_first());
    }
}

/// A buffer without newlines is one single piece.
proof fn lemma_split_no_newline(s: Seq<u8>)
    requires
        forall|t: int| 0 <= t < s.len() ==> s[t] != 10,
    ensures
        split_fields_spec(s) == seq![s],
    decreases s.len(),
{
    if s.len() == 0 {
        assert(split_fields_spec(s) =~~= seq![s]);
    } else {
        lemma_split_no_newline(s.drop_first());
        lemma_split_fields_nonempty(s.drop_first());
        assert(split_fields_spec(s) =~~= seq![s]);
    }
}

/// Splitting at the first newline: everything before it is the first piece,
/// and the rest of the buffer splits on its own.
proof fn lemma_split_at_newline(s: Seq<u8>, j: int)
    requires
        0 <= j < s.len(),
        forall|t: int| 0 <= t < j ==> s[t] != 10,
        s[j] == 10,
    ensures
        split_fields_spec(s) == seq![s.take(j)] + split_fields_spec(s.skip(j + 1)),
    decreases j,
{
    if j == 0 {
        assert(split_fields_spec(s) =~~= seq![s.take(0)] + split_fields_spec(s.skip(1)));
    } else {
        let d = s.drop_first();
        lemma_split_at_newline(d, j - 1);
        lemma_split_fields_nonempty(d.skip(j));
        assert(d.take(j - 1) =~= s.take(j).drop_first());
        assert(d.skip(j) =~= s.skip(j + 1));
        assert(seq![s[0]] + d.take(j - 1) =~= s.take(j));
        assert(split_fields_spec(s) =~~= seq![s.take(j)] + split_fields_spec(s.skip(j + 1)));
    }
}

/// Splits a request buffer into its newline-delimited fields.
pub fn split_fields(buf: &[u8]) -> (r: Vec<Vec<u8>>)
    ensures
        r.deep_view() == split_fields_spec(buf@),
        r@.len() >= 1,
{
    let mut done: Vec<Vec<u8>> = Vec::new();
    let mut from: usize = 0;
    proof {
        assert(buf@.skip(0) =~= buf@);
        assert(done.deep_view() =~~= Seq::<Seq<u8>>::empty());
        assert(done.deep_view() + split_fields_spec(buf@) =~~= split_fields_spec(buf@));
    }
    loop
        invariant
            from <= buf@.len(),
            split_fields_spec(buf@) == done.deep_view() + split_fields_spec(
                buf@.skip(from as int),
            ),
        decreases buf@.len() - from,
    {
        let mut j = from;
        while j < buf.len() && buf[j] != 10
            invariant
                from <= j <= buf@.len(),
                forall|t: int| from <= t < j ==> buf@[t] != 10,
            decreases buf@.len() - j,
        {
            j = j + 1;
        }
        let seg = slice_to_vec(slice_subrange(buf, from, j));
        let ghost prev = done.deep_view();
        let ghost suffix = buf@.skip(from as int);
        proof {
            assert(seg@ =~= suffix.take(j - from));
        }
        done.push(seg);
        proof {
            assert(done.deep_view() =~~= prev.push(suffix.take(j - from)));
        }
        if j == buf.len() {
            proof {
                assert(forall|t: int| 0 <= t < suffix.len() ==> suffix[t] != 10);
                lemma_split_no_newline(suffix);
                assert(suffix.take(j - from) =~= suffix);
                assert(prev.push(suffix) =~~= prev + seq![suffix]);
                lemma_split_fields_nonempty(buf@);
            }
            return done;
        }
        proof {
            assert(suffix[j - from] == 10);
            lemma_split_at_newline(suffix, j - from);
            assert(suffix.skip(j - from + 1) =~= buf@.skip(j + 1));
            assert(prev.push(suffix.take(j - from)) + split_fields_spec(buf@.skip(j + 1))
                =~~= prev + (seq![suffix.take(j - from)] + split_fields_spec(buf@.skip(j + 1))));
        }
        from = j + 1;
    }
}

/// A string free of newline characters: one that travels as a single field
/// of a request.
pub open spec fn newline_free(s: Seq<char>) -> bool {
    forall|i: int| 0 <= i < s.len() ==> s[i] != '\n'
}

/// No byte of the UTF-8 encoding of a character other than the newline is
/// the newline byte.
proof fn lemma_encode_scalar_no_newline(c: char)
    requires
        c != '\n',
    ensures
        forall|t: int|
            0 <= t < encode_scalar(c as u32).len() ==> #[trigger] encode_scalar(c as u32)[t]
                != 10,
{
    broadcast use char_is_scalar;

    let s = c as u32;
    if s == 10 {
        char_u32_cast(c, s);
        assert(('\n' as u32) == 10);
        char_u32_cast('\n', 10);
    }
    if has_width_1_encoding(s) {
        assert(leading_byte_width_1(s) != 10) by (bit_vector)
            requires
                s != 10 && s <= 0x7F,
        ;
    } else if has_width_2_encoding(s) {
        assert(leading_byte_width_2(s) != 10 && last_continuation_byte(s) != 10)
            by (bit_vector);
    } else if has_width_3_encoding(s) {
        assert(leading_byte_width_3(s) != 10 && second_last_continuation_byte(s) != 10
            && last_continuation_byte(s) != 10) by (bit_vector);
    } else {
        assert(leading_byte_width_4(s) != 10 && third_last_continuation_byte(s) != 10
            && second_last_continuation_byte(s) != 10 && last_continuation_byte(s) != 10)
            by (bit_vector);
    }
}

/// The encoding of a newline-free string holds no newline byte.
proof fn lemma_encode_no_newline(s: Seq<char>)
    requires
        newline_free(s),
    ensures
        forall|t: int| 0 <= t < encode_utf8(s).len() ==> encode_utf8(s)[t] != 10,
    decreases s.len(),
{
    if s.len() > 0 {
        lemma_encode_scalar_no_newline(s[0]);
        assert(newline_free(s.drop_first()));
        lemma_encode_no_newline(s.drop_first());
        let es = encode_scalar(s[0] as u32);
        let rest = encode_utf8(s.drop_first());
        assert forall|t: int| 0 <= t < encode_utf8(s).len() implies encode_utf8(s)[t] != 10 by {
            if t < es.len() {
                assert(encode_utf8(s)[t] == es[t]);
            } else {
                assert(encode_utf8(s)[t] == rest[t - es.len()]);
            }
        }
    }
}

/// UTF-8 encodes a concatenation piece by piece.
proof fn lemma_encode_utf8_concat(a: Seq<char>, b: Seq<char>)
    ensures
        encode_utf8(a + b) == encode_utf8(a) + encode_utf8(b),
    decreases a.len(),
{
    if a.len() == 0 {
        assert(a + b =~= b);
        assert(encode_utf8(a) + encode_utf8(b) =~= encode_utf8(b));
    } else {
        assert((a + b).drop_first() =~= a.drop_first() + b);
        assert((a + b)[0] == a[0]);
        lemma_encode_utf8_concat(a.drop_first(), b);
        assert(encode_utf8(a + b) =~= encode_utf8(a) + encode_utf8(b));
    }
}

/// A newline-free field followed by a newline splits off as one piece.
proof fn lemma_split_field(field: Seq<u8>, rest: Seq<u8>)
    requires
        forall|t: int| 0 <= t < field.len() ==> field[t] != 10,
    ensures
        split_fields_spec(field + seq![10u8] + rest) == seq![field] + split_fields_spec(rest),
{
    let s = field + seq![10u8] + rest;
    lemma_split_at_newline(s, field.len() as int);
    assert(s.take(field.len() as int) =~= field);
    assert(s.skip(field.len() as int + 1) =~= rest);
}

/// The bytes that name each operation on the wire.
pub open spec fn get_op() -> Seq<u8> {
    seq!['G' as u8, 'E' as u8, 'T' as u8]
}

/// The bytes of the `SET` operation name.
pub open spec fn set_op() -> Seq<u8> {
    seq!['S' as u8, 'E' as u8, 'T' as u8]
}

/// The bytes of the `RM` operation name.
pub open spec fn rm_op() -> Seq<u8> {
    seq!['R' as u8, 'M' as u8]
}

/// A parsed request: the operation and its decoded arguments.
pub enum Req {
    Get { key: Seq<char> },
    Put { key: Seq<char>, value: Seq<char> },
    Rm { key: Seq<char> },
}

/// What a request buffer asks for, judged on its newline-delimited fields:
/// an unknown operation, a missing field, or a field that is not UTF-8 parse
/// as nothing.
pub open spec fn parse_request(fields: Seq<Seq<u8>>) -> Option<Req> {
    if fields.len() == 0 {
        None
    } else if fields[0] == get_op() {
        if fields.len() >= 2 && valid_utf8(fields[1]) {
            Some(Req::Get { key: decode_utf8(fields[1]) })
        } else {
            None
        }
    } else if fields[0] == set_op() {
        if fields.len() >= 3 && valid_utf8(fields[1]) && valid_utf8(fields[2]) {
            Some(Req::Put { key: decode_utf8(fields[1]), value: decode_utf8(fields[2]) })
        } else {
            None
        }
    } else if fields[0] == rm_op() {
        if fields.len() >= 2 && valid_utf8(fields[1]) {
            Some(Req::Rm { key: decode_utf8(fields[1]) })
        } else {
            None
        }
    } else {
        None
    }
}

/// The response that carries a value or a message: `+`, the text, a newline.
pub open spec fn value_response(v: Seq<char>) -> Seq<u8> {
    seq!['+' as u8] + encode_utf8(v) + seq!['\n' as u8]
}

/// The response to a successful mutation.
pub open spec fn ok_response() -> Seq<u8> {
    seq!['+' as u8, 'O' as u8, 'K' as u8, '\n' as u8]
}

/// The response for a key that has no live value.
pub open spec fn not_found_response() -> Seq<u8> {
    value_response("Key not found"@)
}

/// Whether two byte strings hold the same bytes.
fn bytes_eq(a: &[u8], b: &[u8]) -> (r: bool)
    ensures
        r == (a@ == b@),
{
    if a.len() != b.len() {
        return false;
    }
    let mut i: usize = 0;
    while i < a.len()
        invariant
            i <= a@.len(),
            a@.len() == b@.len(),
            forall|t: int| 0 <= t < i ==> a@[t] == b@[t],
        decreases a@.len() - i,
    {
        if a[i] != b[i] {
            return false;
        }
        i = i + 1;
    }
    proof {
        assert(a@ =~= b@);
    }
    true
}

/// Builds the `+<text>\n` response around a value or message.
fn value_response_exec(v: &String) -> (r: Vec<u8>)
    ensures
        r@ == value_response(v@),
{
    let mut out: Vec<u8> = Vec::new();
    out.push('+' as u8);
    let mut vb = v.as_str().as_bytes_vec();
    out.append(&mut vb);
    out.push('\n' as u8);
    proof {
        assert(out@ =~= value_response(v@));
    }
    out
}

/// The `+OK\n` response.
fn ok_response_exec() -> (r: Vec<u8>)
    ensures
        r@ == ok_response(),
{
    let out: Vec<u8> = vec!['+' as u8, 'O' as u8, 'K' as u8, '\n' as u8];
    proof {
        assert(out@ =~= ok_response());
    }
    out
}

/// The `+Key not found\n` response.
fn not_found_response_exec() -> (r: Vec<u8>)
    ensures
        r@ == not_found_response(),
{
    let msg = String::from_str("Key not found");
    value_response_exec(&msg)
}

/// Which storage backend serves the store.
#[derive(Debug, Clone, Copy, PartialEq, Eq, Structural)]
pub enum EngineChoice {
    Kvs,
    Sled,
}

/// The server's pure decisions: backend selection, the engine-mismatch
/// guard, and the request dispatcher.  Binding the listener and moving bytes
/// over sockets stay with the caller.
pub struct KvsServer {}

impl KvsServer {
    /// Chooses the backend named by the engine code handed on the command
    /// line; any other code is refused.
    pub fn route_request(engine: &String) -> (r: Result<EngineChoice, KvsError>)
        ensures
            engine@ == "kvs"@ ==> r == Ok::<EngineChoice, KvsError>(EngineChoice::Kvs),
            engine@ == "sled"@ ==> r == Ok::<EngineChoice, KvsError>(EngineChoice::Sled),
            engine@ != "kvs"@ && engine@ != "sled"@ ==> r == Err::<EngineChoice, KvsError>(
                KvsError::ProtocolError,
            ),
    {
        let kvs_code = String::from_str("kvs");
        let sled_code = String::from_str("sled");
        proof {
            reveal_strlit("kvs");
            reveal_strlit("sled");
            assert("kvs"@.len() == 3 && "sled"@.len() == 4);
        }
        if *engine == kvs_code {
            Ok(EngineChoice::Kvs)
        } else if *engine == sled_code {
            Ok(EngineChoice::Sled)
        } else {
            Err(KvsError::ProtocolError)
        }
    }

    /// The engine-mismatch guard: given which backend's marker files exist
    /// on disk, refuses to start one backend over the other backend's data.
    pub fn verify_database_type(engine: &String, sled_exists: bool, kvs_exists: bool) -> (r:
        Result<(), KvsError>)
        ensures
            r is Ok <==> !(sled_exists && engine@ == "kvs"@) && !(kvs_exists && engine@
                == "sled"@),
            r is Err ==> r == Err::<(), KvsError>(KvsError::EngineMismatch),
    {
        let kvs_code = String::from_str("kvs");
        let sled_code = String::from_str("sled");
        if sled_exists && *engine == kvs_code {
            return Err(KvsError::EngineMismatch);
        }
        if kvs_exists && *engine == sled_code {
            return Err(KvsError::EngineMismatch);
        }
        Ok(())
    }

    /// Serves one request: splits the buffer into fields, performs the
    /// operation on the engine, and hands back the response bytes.  An
    /// unknown operation or a missing field fails with `ProtocolError`; a
    /// removal of an absent key answers `+Key not found` rather than
    /// failing; any other engine failure is handed to the caller, who closes
    /// the connection without a response.
    pub fn handle_request<E: KvsEngine>(engine: &mut E, buffer: &[u8]) -> (r: Result<
        Vec<u8>,
        KvsError,
    >)
        requires
            old(engine).inv(),
        ensures
            final(engine).inv(),
            match parse_request(split_fields_spec(buffer@)) {
                Some(req) => match req {
                    Req::Get { key } => *final(engine) == *old(engine) && match r {
                        Ok(resp) => if old(engine).kv_map().contains_key(key) {
                            resp@ == value_response(old(engine).kv_map()[key])
                        } else {
                            resp@ == not_found_response()
                        },
                        Err(_) => !old(engine).reliable(),
                    },
                    Req::Put { key, value } => match r {
                        Ok(resp) => resp@ == ok_response() && final(engine).kv_map() == old(
                            engine,
                        ).kv_map().insert(key, value),
                        Err(_) => !old(engine).reliable(),
                    },
                    Req::Rm { key } => match r {
                        Ok(resp) => if old(engine).kv_map().contains_key(key) {
                            resp@ == ok_response() && final(engine).kv_map() == old(
                                engine,
                            ).kv_map().remove(key)
                        } else {
                            resp@ == not_found_response() && final(engine).kv_map() == old(
                                engine,
                            ).kv_map()
                        },
                        Err(_) => !old(engine).reliable(),
                    },
                },
                None => r == Err::<Vec<u8>, KvsError>(KvsError::ProtocolError) && *final(engine)
                    == *old(engine),
            },
    {
        let fields = split_fields(buffer);
        let ghost fs = split_fields_spec(buffer@);
        let op_get: Vec<u8> = vec!['G' as u8, 'E' as u8, 'T' as u8];
        let op_set: Vec<u8> = vec!['S' as u8, 'E' as u8, 'T' as u8];
        let op_rm: Vec<u8> = vec!['R' as u8, 'M' as u8];
        proof {
            assert(op_get@ =~= get_op());
            assert(op_set@ =~= set_op());
            assert(op_rm@ =~= rm_op());
            assert(fields.deep_view()[0] == fields@[0]@);
        }
        if bytes_eq(fields[0].as_slice(), op_get.as_slice()) {
            if fields.len() < 2 {
                return Err(KvsError::ProtocolError);
            }
            proof {
                assert(fields.deep_view()[1] == fields@[1]@);
            }
            match bytes_to_string(slice_to_vec(fields[1].as_slice())) {
                None => Err(KvsError::ProtocolError),
                Some(key) => {
                    let ghost k = key@;
                    proof {
                        assert(parse_request(fs) == Some(Req::Get { key: k }));
                    }
                    match engine.get(key) {
                        Ok(Some(v)) => Ok(value_response_exec(&v)),
                        Ok(None) => Ok(not_found_response_exec()),
                        Err(e) => Err(e),
                    }
                },
            }
        } else if bytes_eq(fields[0].as_slice(), op_set.as_slice()) {
            if fields.len() < 3 {
                return Err(KvsError::ProtocolError);
            }
            proof {
                assert(fields.deep_view()[1] == fields@[1]@);
                assert(fields.deep_view()[2] == fields@[2]@);
            }
            match bytes_to_string(slice_to_vec(fields[1].as_slice())) {
                None => Err(KvsError::ProtocolError),
                Some(key) => match bytes_to_string(slice_to_vec(fields[2].as_slice())) {
                    None => Err(KvsError::ProtocolError),
                    Some(value) => {
                        let ghost k = key@;
                        let ghost v = value@;
                        proof {
                            assert(parse_request(fs) == Some(Req::Put { key: k, value: v }));
                        }
                        match engine.set(key, value) {
                            Ok(()) => Ok(ok_response_exec()),
                            Err(e) => Err(e),
                        }
                    },
                },
            }
        } else if bytes_eq(fields[0].as_slice(), op_rm.as_slice()) {
            if fields.len() < 2 {
                return Err(KvsError::ProtocolError);
            }
            proof {
                assert(fields.deep_view()[1] == fields@[1]@);
            }
            match bytes_to_string(slice_to_vec(fields[1].as_slice())) {
                None => Err(KvsError::ProtocolError),
                Some(key) => {
                    let ghost k = key@;
                    proof {
                        assert(parse_request(fs) == Some(Req::Rm { key: k }));
                    }
                    match engine.remove(key) {
                        Ok(()) => Ok(ok_response_exec()),
                        Err(e) => if e == KvsError::KeyNotFound {
                            Ok(not_found_response_exec())
                        } else {
                            Err(e)
                        },
                    }
                },
            }
        } else {
            proof {
                assert(parse_request(fs) is None);
            }
            Err(KvsError::ProtocolError)
        }
    }
}

/// What the wire protocol promises the client: a `GET` message built around
/// a newline-free key parses on the server as a read of exactly that key.
pub proof fn lemma_get_message_parses(key: Seq<char>)
    requires
        newline_free(key),
    ensures
        parse_request(split_fields_spec(encode_utf8("GET\n"@ + key + "\n"@))) == Some(
            Req::Get { key },
        ),
{
    broadcast use encode_utf8_valid_utf8, encode_utf8_decode_utf8;

    reveal_strlit("GET\n");
    reveal_strlit("\n");
    let head = "GET\n"@;
    let nl = "\n"@;
    lemma_encode_utf8_concat(head + key, nl);
    lemma_encode_utf8_concat(head, key);
    assert(is_ascii_chars(head));
    assert(is_ascii_chars(nl));
    is_ascii_chars_encode_utf8(head);
    is_ascii_chars_encode_utf8(nl);
    let ek = encode_utf8(key);
    lemma_encode_no_newline(key);
    let all = encode_utf8(head + key + nl);
    let empty_rest = Seq::<u8>::empty();
    assert(all =~= get_op() + seq![10u8] + (ek + seq![10u8] + empty_rest));
    lemma_split_field(get_op(), ek + seq![10u8] + empty_rest);
    lemma_split_field(ek, empty_rest);
    let fields = split_fields_spec(all);
    assert(fields =~~= seq![get_op(), ek, Seq::<u8>::empty()]);
    assert(fields[1] == ek);
    assert(parse_request(fields) == Some(Req::Get { key }));
}

/// A `SET` message built around a newline-free key and value parses on the
/// server as exactly that assignment.
pub proof fn lemma_set_message_parses(key: Seq<char>, value: Seq<char>)
    requires
        newline_free(key),
        newline_free(value),
    ensures
        parse_request(
            split_fields_spec(encode_utf8("SET\n"@ + key + "\n"@ + value + "\n"@)),
        ) == Some(Req::Put { key, value }),
{
    broadcast use encode_utf8_valid_utf8, encode_utf8_decode_utf8;

    reveal_strlit("SET\n");
    reveal_strlit("\n");
    let head = "SET\n"@;
    let nl = "\n"@;
    lemma_encode_utf8_concat(head + key + nl + value, nl);
    lemma_encode_utf8_concat(head + key + nl, value);
    lemma_encode_utf8_concat(head + key, nl);
    lemma_encode_utf8_concat(head, key);
    assert(is_ascii_chars(head));
    assert(is_ascii_chars(nl));
    is_ascii_chars_encode_utf8(head);
    is_ascii_chars_encode_utf8(nl);
    let ek = encode_utf8(key);
    let ev = encode_utf8(value);
    lemma_encode_no_newline(key);
    lemma_encode_no_newline(value);
    let all = encode_utf8(head + key + nl + value + nl);
    let empty_rest = Seq::<u8>::empty();
    let rest2 = ev + seq![10u8] + empty_rest;
    assert(all =~= set_op() + seq![10u8] + (ek + seq![10u8] + rest2));
    lemma_split_field(set_op(), ek + seq![10u8] + rest2);
    lemma_split_field(ek, rest2);
    lemma_split_field(ev, empty_rest);
    let fields = split_fields_spec(all);
    assert(fields =~~= seq![set_op(), ek, ev, Seq::<u8>::empty()]);
    assert(fields[1] == ek);
    assert(fields[2] == ev);
    assert(parse_request(fields) == Some(Req::Put { key, value }));
}

/// An `RM` message built around a newline-free key parses on the server as
/// a removal of exactly that key.
pub proof fn lemma_rm_message_parses(key: Seq<char>)
    requires
        newline_free(key),
    ensures
        parse_request(split_fields_spec(encode_utf8("RM\n"@ + key + "\n"@))) == Some(
            Req::Rm { key },
        ),
{
    broadcast use encode_utf8_valid_utf8, encode_utf8_decode_utf8;

    reveal_strlit("RM\n");
    reveal_strlit("\n");
    let head = "RM\n"@;
    let nl = "\n"@;
    lemma_encode_utf8_concat(head + key, nl);
    lemma_encode_utf8_concat(head, key);
    assert(is_ascii_chars(head));
    assert(is_ascii_chars(nl));
    is_ascii_chars_encode_utf8(head);
    is_ascii_chars_encode_utf8(nl);
    let ek = encode_utf8(key);
    lemma_encode_no_newline(key);
    let all = encode_utf8(head + key + nl);
    let empty_rest = Seq::<u8>::empty();
    assert(all =~= rm_op() + seq![10u8] + (ek + seq![10u8] + empty_rest));
    lemma_split_field(rm_op(), ek + seq![10u8] + empty_rest);
    lemma_split_field(ek, empty_rest);
    let fields = split_fields_spec(all);
    assert(fields =~~= seq![rm_op(), ek, Seq::<u8>::empty()]);
    assert(fields[1] == ek);
    assert(parse_request(fields) == Some(Req::Rm { key }));
}

} // verus!
