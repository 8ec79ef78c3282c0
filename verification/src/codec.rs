//! The log codec: mutation records and their byte-stream form.
//!
//! A record on disk is self-delimiting: a one-byte tag, then each string field
//! as an 8-byte little-endian byte length followed by that many bytes of
//! UTF-8.  Records sit back to back with no header or footer; a trailing
//! partial or corrupt record fails to decode and is ignored.

use vstd::prelude::*;
use vstd::bytes::*;
use vstd::utf8::*;
use vstd::slice::slice_subrange;
use vstd::slice::slice_to_vec;
use vstd::string::StrSliceExecFns;

verus! {

/// Tag byte that opens a `Put` record.
pub const PUT_TAG: u8 = 1;

/// Tag byte that opens a `Rm` record.
pub const RM_TAG: u8 = 2;

/// The mathematical model of one mutation record.
pub enum Rec {
    Put { key: Seq<char>, value: Seq<char> },
    Rm { key: Seq<char> },
}

impl Rec {
    /// The key the record speaks about.
    pub open spec fn key(self) -> Seq<char> {
        match self {
            Rec::Put { key, .. } => key,
            Rec::Rm { key } => key,
        }
    }

    /// The value a `Put` record assigns.
    pub open spec fn value(self) -> Seq<char>
        recommends
            self is Put,
    {
        match self {
            Rec::Put { value, .. } => value,
            Rec::Rm { .. } => Seq::empty(),
        }
    }
}

/// A mutation record, the only unit ever appended to the log.  `Put` assigns
/// a value to a key; `Rm` withdraws the key.
#[derive(Debug, Clone)]
pub enum Command {
    Put { key: String, value: String },
    Rm { key: String },
}

impl View for Command {
    type V = Rec;

    open spec fn view(&self) -> Rec {
        match self {
            Command::Put { key, value } => Rec::Put { key: key@, value: value@ },
            Command::Rm { key } => Rec::Rm { key: key@ },
        }
    }
}

impl DeepView for Command {
    type V = Rec;

    open spec fn deep_view(&self) -> Rec {
        self.view()
    }
}

impl Command {
    /// An equal record, field for field.
    pub fn duplicate(&self) -> (c: Command)
        ensures
            c@ == self@,
    {
        match self {
            Command::Put { key, value } => Command::Put {
                key: key.clone(),
                value: value.clone(),
            },
            Command::Rm { key } => Command::Rm { key: key.clone() },
        }
    }
}

/// A record-for-record copy of a decoded log.
pub fn duplicate_commands(cmds: &Vec<Command>) -> (r: Vec<Command>)
    ensures
        r.deep_view() == cmds.deep_view(),
{
    let mut out: Vec<Command> = Vec::new();
    let mut i: usize = 0;
    while i < cmds.len()
        invariant
            i <= cmds.len(),
            out.deep_view() =~= cmds.deep_view().take(i as int),
        decreases cmds.len() - i,
    {
        let ghost prev = out.deep_view();
        out.push(cmds[i].duplicate());
        i = i + 1;
        proof {
            assert(out.deep_view() =~= prev.push(cmds[i - 1]@));
            assert(out.deep_view() =~= cmds.deep_view().take(i as int));
        }
    }
    proof {
        assert(cmds.deep_view().take(cmds.len() as int) =~= cmds.deep_view());
    }
    out
}

/// Whether a string field's UTF-8 form fits the 8-byte length prefix.  Every
/// string held in memory satisfies this; it only matters for statements about
/// arbitrary mathematical sequences.
pub open spec fn str_bounded(s: Seq<char>) -> bool {
    encode_utf8(s).len() <= u64::MAX
}

/// Whether both fields of a record fit their length prefixes.
pub open spec fn rec_bounded(r: Rec) -> bool {
    match r {
        Rec::Put { key, value } => str_bounded(key) && str_bounded(value),
        Rec::Rm { key } => str_bounded(key),
    }
}

/// Whether every record of a log fits its encoding.
pub open spec fn recs_bounded(rs: Seq<Rec>) -> bool {
    forall|i: int| 0 <= i < rs.len() ==> rec_bounded(#[trigger] rs[i])
}

/// The byte form of one string field: length prefix, then UTF-8 bytes.
pub open spec fn spec_encode_str(s: Seq<char>) -> Seq<u8> {
    spec_u64_to_le_bytes(encode_utf8(s).len() as u64) + encode_utf8(s)
}

/// The byte form of one record.
pub open spec fn spec_encode_rec(r: Rec) -> Seq<u8> {
    match r {
        Rec::Put { key, value } => seq![PUT_TAG] + spec_encode_str(key) + spec_encode_str(value),
        Rec::Rm { key } => seq![RM_TAG] + spec_encode_str(key),
    }
}

/// The byte form of a whole log: its records' encodings, back to back.
pub open spec fn spec_encode_log(rs: Seq<Rec>) -> Seq<u8>
    decreases rs.len(),
{
    if rs.len() == 0 {
        Seq::empty()
    } else {
        spec_encode_rec(rs[0]) + spec_encode_log(rs.drop_first())
    }
}

/// Decodes one string field from the front of `bytes`: the field and the
/// number of bytes consumed, or nothing if the bytes do not hold one.
pub open spec fn spec_decode_str(bytes: Seq<u8>) -> Option<(Seq<char>, int)> {
    if bytes.len() < 8 {
        None
    } else {
        let n = spec_u64_from_le_bytes(bytes.take(8)) as int;
        if bytes.len() - 8 < n {
            None
        } else {
            let payload = bytes.subrange(8, 8 + n);
            if valid_utf8(payload) {
                Some((decode_utf8(payload), 8 + n))
            } else {
                None
            }
        }
    }
}

/// Decodes one record from the front of `bytes`: the record and the number of
/// bytes consumed, or nothing if no well-formed record starts there.
pub open spec fn spec_decode_rec(bytes: Seq<u8>) -> Option<(Rec, int)> {
    if bytes.len() < 1 {
        None
    } else if bytes[0] == PUT_TAG {
        match spec_decode_str(bytes.drop_first()) {
            Some((key, n1)) => match spec_decode_str(bytes.skip(1 + n1)) {
                Some((value, n2)) => Some((Rec::Put { key, value }, 1 + n1 + n2)),
                None => None,
            },
            None => None,
        }
    } else if bytes[0] == RM_TAG {
        match spec_decode_str(bytes.drop_first()) {
            Some((key, n1)) => Some((Rec::Rm { key }, 1 + n1)),
            None => None,
        }
    } else {
        None
    }
}

/// Decodes records from the front of `bytes` until no further record parses;
/// whatever remains, a truncated or corrupt tail, is ignored.
pub open spec fn spec_decode_log(bytes: Seq<u8>) -> Seq<Rec>
    decreases bytes.len(),
{
    match spec_decode_rec(bytes) {
        Some((r, n)) => if 0 < n <= bytes.len() {
            seq![r] + spec_decode_log(bytes.skip(n))
        } else {
            Seq::empty()
        },
        None => Seq::empty(),
    }
}

/// Decoding a string field undoes encoding it, whatever bytes follow.
pub proof fn lemma_decode_str_encode(s: Seq<char>, rest: Seq<u8>)
    requires
        str_bounded(s),
    ensures
        spec_decode_str(spec_encode_str(s) + rest) == Some((s, spec_encode_str(s).len() as int)),
        spec_encode_str(s).len() == 8 + encode_utf8(s).len(),
{
    lemma_auto_spec_u64_to_from_le_bytes();
    broadcast use encode_utf8_valid_utf8, encode_utf8_decode_utf8;

    let eb = encode_utf8(s);
    let all = spec_encode_str(s) + rest;
    assert(all.take(8) =~= spec_u64_to_le_bytes(eb.len() as u64));
    assert(spec_u64_from_le_bytes(all.take(8)) == eb.len());
    assert(all.subrange(8, 8 + eb.len() as int) =~= eb);
}

/// Decoding a record undoes encoding it, whatever bytes follow.
pub proof fn lemma_decode_rec_encode(r: Rec, rest: Seq<u8>)
    requires
        rec_bounded(r),
    ensures
        spec_decode_rec(spec_encode_rec(r) + rest) == Some((r, spec_encode_rec(r).len() as int)),
        spec_encode_rec(r).len() >= 1,
{
    let all = spec_encode_rec(r) + rest;
    match r {
        Rec::Put { key, value } => {
            let ek = spec_encode_str(key);
            let ev = spec_encode_str(value);
            assert(all[0] == PUT_TAG);
            assert(all.drop_first() =~= ek + (ev + rest));
            lemma_decode_str_encode(key, ev + rest);
            assert(all.skip(1 + ek.len() as int) =~= ev + rest);
            lemma_decode_str_encode(value, rest);
        },
        Rec::Rm { key } => {
            let ek = spec_encode_str(key);
            assert(all[0] == RM_TAG);
            assert(all.drop_first() =~= ek + rest);
            lemma_decode_str_encode(key, rest);
        },
    }
}

/// Decoding undoes encoding for a whole log: the records come back exactly,
/// followed by whatever the trailing bytes alone decode to.
pub proof fn lemma_decode_log_encode(rs: Seq<Rec>, tail: Seq<u8>)
    requires
        recs_bounded(rs),
    ensures
        spec_decode_log(spec_encode_log(rs) + tail) == rs + spec_decode_log(tail),
    decreases rs.len(),
{
    if rs.len() == 0 {
        assert(spec_encode_log(rs) + tail =~= tail);
        assert(rs + spec_decode_log(tail) =~= spec_decode_log(tail));
    } else {
        let r0 = rs[0];
        let er = spec_encode_rec(r0);
        let rest_recs = rs.drop_first();
        let all = spec_encode_log(rs) + tail;
        assert(all =~= er + (spec_encode_log(rest_recs) + tail));
        lemma_decode_rec_encode(r0, spec_encode_log(rest_recs) + tail);
        assert(all.skip(er.len() as int) =~= spec_encode_log(rest_recs) + tail);
        assert(recs_bounded(rest_recs)) by {
            assert(forall|i: int|
                0 <= i < rest_recs.len() ==> #[trigger] rest_recs[i] == rs[i + 1]);
        }
        lemma_decode_log_encode(rest_recs, tail);
        assert(seq![r0] + (rest_recs + spec_decode_log(tail)) =~= rs + spec_decode_log(tail));
    }
}

/// Decoding a log's exact encoding gives the log back, record for record.
pub proof fn lemma_codec_round_trip(rs: Seq<Rec>)
    requires
        recs_bounded(rs),
    ensures
        spec_decode_log(spec_encode_log(rs)) == rs,
{
    lemma_decode_log_encode(rs, Seq::empty());
    assert(spec_encode_log(rs) + Seq::<u8>::empty() =~= spec_encode_log(rs));
    assert(spec_decode_log(Seq::<u8>::empty()) =~= Seq::<Rec>::empty());
    assert(rs + Seq::<Rec>::empty() =~= rs);
}

/// Relies on `String::from_utf8`: it returns the string whose UTF-8 encoding
/// is exactly the given bytes, and fails exactly when the bytes are not valid
/// UTF-8.
#[verifier::external_body]
pub(crate) fn bytes_to_string(bytes: Vec<u8>) -> (r: Option<String>)
    ensures
        match r {
            Some(s) => valid_utf8(bytes@) && s@ == decode_utf8(bytes@),
            None => !valid_utf8(bytes@),
        },
{
    match String::from_utf8(bytes) {
        Ok(s) => Some(s),
        Err(_) => None,
    }
}

/// Appends one string field, length prefix then UTF-8 bytes, to `out`.
fn encode_str_into(out: &mut Vec<u8>, s: &String)
    ensures
        final(out)@ == old(out)@ + spec_encode_str(s@),
{
    let bytes = s.as_str().as_bytes_vec();
    let mut len_bytes = u64_to_le_bytes(bytes.len() as u64);
    out.append(&mut len_bytes);
    let mut payload = bytes;
    out.append(&mut payload);
    proof {
        assert(out@ =~= old(out)@ + spec_encode_str(s@));
    }
}

/// Encodes one record into its byte form.
pub fn encode_command(cmd: &Command) -> (r: Vec<u8>)
    ensures
        r@ == spec_encode_rec(cmd@),
{
    let mut out: Vec<u8> = Vec::new();
    match cmd {
        Command::Put { key, value } => {
            out.push(PUT_TAG);
            encode_str_into(&mut out, key);
            encode_str_into(&mut out, value);
        }
        Command::Rm { key } => {
            out.push(RM_TAG);
            encode_str_into(&mut out, key);
        }
    }
    proof {
        assert(out@ =~= spec_encode_rec(cmd@));
    }
    out
}

/// The encoding of a log grows record by record.
pub proof fn lemma_encode_log_snoc(rs: Seq<Rec>, r: Rec)
    ensures
        spec_encode_log(rs.push(r)) == spec_encode_log(rs) + spec_encode_rec(r),
    decreases rs.len(),
{
    if rs.len() == 0 {
        assert(rs.push(r).drop_first() =~= rs);
        assert(spec_encode_log(rs.push(r)) =~= spec_encode_log(rs) + spec_encode_rec(r));
    } else {
        assert(rs.push(r).drop_first() =~= rs.drop_first().push(r));
        lemma_encode_log_snoc(rs.drop_first(), r);
        assert(spec_encode_log(rs.push(r)) =~= spec_encode_log(rs) + spec_encode_rec(r));
    }
}

/// Encodes a whole log: each record's bytes, back to back.
pub fn encode_log(cmds: &Vec<Command>) -> (r: Vec<u8>)
    ensures
        r@ == spec_encode_log(cmds.deep_view()),
{
    let mut out: Vec<u8> = Vec::new();
    let mut i: usize = 0;
    proof {
        assert(cmds.deep_view().take(0) =~= Seq::<Rec>::empty());
    }
    while i < cmds.len()
        invariant
            i <= cmds.len(),
            out@ == spec_encode_log(cmds.deep_view().take(i as int)),
        decreases cmds.len() - i,
    {
        let mut rec_bytes = encode_command(&cmds[i]);
        proof {
            lemma_encode_log_snoc(cmds.deep_view().take(i as int), cmds[i as int]@);
            assert(cmds.deep_view().take(i + 1) =~= cmds.deep_view().take(i as int).push(
                cmds[i as int]@,
            ));
        }
        out.append(&mut rec_bytes);
        i = i + 1;
    }
    proof {
        assert(cmds.deep_view().take(cmds.len() as int) =~= cmds.deep_view());
    }
    out
}

/// Decodes the string field that starts at `pos`, handing back the field and
/// the position just past it.
fn decode_str_at(bytes: &[u8], pos: usize) -> (r: Option<(String, usize)>)
    requires
        pos <= bytes@.len(),
    ensures
        match r {
            Some(p) => {
                &&& spec_decode_str(bytes@.skip(pos as int)) == Some((p.0@, p.1 - pos))
                &&& pos < p.1 <= bytes@.len()
            },
            None => spec_decode_str(bytes@.skip(pos as int)) is None,
        },
{
    let ghost tail = bytes@.skip(pos as int);
    let total = bytes.len();
    if total - pos < 8 {
        return None;
    }
    let len_slice = slice_subrange(bytes, pos, pos + 8);
    proof {
        assert(len_slice@ =~= tail.take(8));
    }
    let n64 = u64_from_le_bytes(len_slice);
    let rem = total - pos - 8;
    if n64 > rem as u64 {
        return None;
    }
    let n = n64 as usize;
    let payload = slice_subrange(bytes, pos + 8, pos + 8 + n);
    proof {
        assert(payload@ =~= tail.subrange(8, 8 + n as int));
    }
    let owned = slice_to_vec(payload);
    match bytes_to_string(owned) {
        Some(s) => Some((s, pos + 8 + n)),
        None => None,
    }
}

/// Decodes the record that starts at `pos`, handing back the record and the
/// position just past it.
fn decode_command_at(bytes: &[u8], pos: usize) -> (r: Option<(Command, usize)>)
    requires
        pos <= bytes@.len(),
    ensures
        match r {
            Some(p) => {
                &&& spec_decode_rec(bytes@.skip(pos as int)) == Some((p.0@, p.1 - pos))
                &&& pos < p.1 <= bytes@.len()
            },
            None => spec_decode_rec(bytes@.skip(pos as int)) is None,
        },
{
    let ghost tail = bytes@.skip(pos as int);
    if pos >= bytes.len() {
        return None;
    }
    let tag = bytes[pos];
    assert(tag == tail[0]);
    if tag == PUT_TAG {
        match decode_str_at(bytes, pos + 1) {
            Some((key, p1)) => {
                proof {
                    assert(bytes@.skip(pos + 1) =~= tail.drop_first());
                    assert(bytes@.skip(p1 as int) =~= tail.skip(1 + (p1 - (pos + 1))));
                }
                match decode_str_at(bytes, p1) {
                    Some((value, p2)) => Some((Command::Put { key, value }, p2)),
                    None => None,
                }
            },
            None => {
                proof {
                    assert(bytes@.skip(pos + 1) =~= tail.drop_first());
                }
                None
            },
        }
    } else if tag == RM_TAG {
        match decode_str_at(bytes, pos + 1) {
            Some((key, p1)) => {
                proof {
                    assert(bytes@.skip(pos + 1) =~= tail.drop_first());
                }
                Some((Command::Rm { key }, p1))
            },
            None => {
                proof {
                    assert(bytes@.skip(pos + 1) =~= tail.drop_first());
                }
                None
            },
        }
    } else {
        None
    }
}

/// Decodes records from the front of `bytes` until no further record parses;
/// a truncated or corrupt tail is ignored.
pub fn decode_log(bytes: &[u8]) -> (r: Vec<Command>)
    ensures
        r.deep_view() == spec_decode_log(bytes@),
{
    let mut res: Vec<Command> = Vec::new();
    let mut pos: usize = 0;
    proof {
        assert(bytes@.skip(0) =~= bytes@);
    }
    loop
        invariant
            pos <= bytes@.len(),
            spec_decode_log(bytes@) == res.deep_view() + spec_decode_log(bytes@.skip(pos as int)),
        decreases bytes@.len() - pos,
    {
        match decode_command_at(bytes, pos) {
            Some((cmd, next)) => {
                let ghost prev = res.deep_view();
                let ghost c = cmd@;
                proof {
                    let tail = bytes@.skip(pos as int);
                    assert(tail.skip(next - pos) =~= bytes@.skip(next as int));
                }
                res.push(cmd);
                pos = next;
                proof {
                    assert(res.deep_view() =~= prev + seq![c]);
                    assert(prev + (seq![c] + spec_decode_log(bytes@.skip(pos as int))) =~= (prev
                        + seq![c]) + spec_decode_log(bytes@.skip(pos as int)));
                }
            },
            None => {
                proof {
                    assert(res.deep_view() + spec_decode_log(bytes@.skip(pos as int))
                        =~= res.deep_view());
                }
                return res;
            },
        }
    }
}

} // verus!
