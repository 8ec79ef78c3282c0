//! The alternative storage backend: the same get/set/remove contract as the
//! log-structured engine, delegating to an embedded `sled` database.
//!
//! The database itself is outside code; the verifier sees it only through
//! `sled_view`, a name for the byte-string pairs it holds, and through the
//! trusted wrappers below, whose contracts state what `sled`'s own
//! documentation promises of each call.

use vstd::prelude::*;
use vstd::utf8::*;
use vstd::string::StrSliceExecFns;
use crate::codec::bytes_to_string;
use crate::engine::KvsEngine;
use crate::error::KvsError;

verus! {

/// An open embedded `sled` database.  Opaque to the verifier: what it holds
/// is named by `sled_view` and known only through the wrappers below.
#[verifier::external_body]
pub struct SledDb {
    db: sled::Db,
}

/// The key-value pairs the database holds, as byte strings.
pub uninterp spec fn sled_view(db: SledDb) -> Map<Seq<u8>, Seq<u8>>;

/// Relies on `sled::open`: opens the database at `path`, creating the
/// storage directory if it does not exist.  What the database holds depends
/// on the disk, so nothing is promised of its contents.
#[verifier::external_body]
fn sled_open(path: &str) -> (r: Result<SledDb, KvsError>) {
    match sled::open(path) {
        Ok(db) => Ok(SledDb { db }),
        Err(_) => Err(KvsError::IoError),
    }
}

/// Relies on `sled::Tree::insert`, reached through `Db`: on success the key
/// holds the value.  On failure the device's state is unknown, so nothing is
/// promised.
#[verifier::external_body]
fn sled_insert(db: &mut SledDb, key: &[u8], value: &[u8]) -> (r: Result<(), KvsError>)
    ensures
        r is Ok ==> sled_view(*final(db)) == sled_view(*old(db)).insert(key@, value@),
{
    match db.db.insert(key, value) {
        Ok(_) => Ok(()),
        Err(_) => Err(KvsError::IoError),
    }
}

/// Relies on `sled::Tree::get`: returns the value stored for the key, or
/// nothing when the key is absent.
#[verifier::external_body]
fn sled_get(db: &SledDb, key: &[u8]) -> (r: Result<Option<Vec<u8>>, KvsError>)
    ensures
        match r {
            Ok(Some(v)) => sled_view(*db).contains_key(key@) && v@ == sled_view(*db)[key@],
            Ok(None) => !sled_view(*db).contains_key(key@),
            Err(e) => e == KvsError::IoError,
        },
{
    match db.db.get(key) {
        Ok(Some(v)) => Ok(Some(v.to_vec())),
        Ok(None) => Ok(None),
        Err(_) => Err(KvsError::IoError),
    }
}

/// Relies on `sled::Tree::remove`: deletes the key, returning the old value
/// if there was one; removing an absent key changes nothing and returns
/// nothing.
#[verifier::external_body]
fn sled_remove(db: &mut SledDb, key: &[u8]) -> (r: Result<Option<Vec<u8>>, KvsError>)
    ensures
        match r {
            Ok(Some(_)) => sled_view(*old(db)).contains_key(key@) && sled_view(*final(db))
                == sled_view(*old(db)).remove(key@),
            Ok(None) => !sled_view(*old(db)).contains_key(key@) && sled_view(*final(db))
                == sled_view(*old(db)),
            Err(e) => e == KvsError::IoError,
        },
{
    match db.db.remove(key) {
        Ok(Some(v)) => Ok(Some(v.to_vec())),
        Ok(None) => Ok(None),
        Err(_) => Err(KvsError::IoError),
    }
}

/// A byte-string mapping read as a mapping between strings: each key is
/// looked up by its UTF-8 encoding.
pub open spec fn chars_view(m: Map<Seq<u8>, Seq<u8>>) -> Map<Seq<char>, Seq<char>> {
    Map::new(
        |k: Seq<char>| m.contains_key(encode_utf8(k)),
        |k: Seq<char>| decode_utf8(m[encode_utf8(k)]),
    )
}

/// No two distinct strings share a UTF-8 encoding.
proof fn lemma_encode_utf8_injective(a: Seq<char>, b: Seq<char>)
    requires
        encode_utf8(a) == encode_utf8(b),
    ensures
        a == b,
{
    broadcast use encode_utf8_decode_utf8;

    assert(decode_utf8(encode_utf8(a)) == a);
    assert(decode_utf8(encode_utf8(b)) == b);
}

/// Inserting a pair of encoded strings into the byte mapping inserts the
/// strings themselves into its reading as a string mapping.
proof fn lemma_chars_view_insert(m: Map<Seq<u8>, Seq<u8>>, k: Seq<char>, v: Seq<char>)
    ensures
        chars_view(m.insert(encode_utf8(k), encode_utf8(v))) == chars_view(m).insert(k, v),
{
    broadcast use encode_utf8_decode_utf8;

    let m2 = m.insert(encode_utf8(k), encode_utf8(v));
    assert forall|k2: Seq<char>| #[trigger]
        chars_view(m2).contains_key(k2) <==> chars_view(m).insert(k, v).contains_key(k2) by {
        if encode_utf8(k2) == encode_utf8(k) {
            lemma_encode_utf8_injective(k2, k);
        }
    }
    assert forall|k2: Seq<char>| #[trigger]
        chars_view(m2).contains_key(k2) implies chars_view(m2)[k2] == chars_view(m).insert(
        k,
        v,
    )[k2] by {
        if encode_utf8(k2) == encode_utf8(k) {
            lemma_encode_utf8_injective(k2, k);
        }
    }
    assert(chars_view(m2) =~= chars_view(m).insert(k, v));
}

/// Removing an encoded string from the byte mapping removes the string from
/// its reading as a string mapping.
proof fn lemma_chars_view_remove(m: Map<Seq<u8>, Seq<u8>>, k: Seq<char>)
    ensures
        chars_view(m.remove(encode_utf8(k))) == chars_view(m).remove(k),
{
    let m2 = m.remove(encode_utf8(k));
    assert forall|k2: Seq<char>| #[trigger]
        chars_view(m2).contains_key(k2) <==> chars_view(m).remove(k).contains_key(k2) by {
        if encode_utf8(k2) == encode_utf8(k) {
            lemma_encode_utf8_injective(k2, k);
        }
    }
    assert forall|k2: Seq<char>| #[trigger]
        chars_view(m2).contains_key(k2) implies chars_view(m2)[k2] == chars_view(m).remove(
        k,
    )[k2] by {
        if encode_utf8(k2) == encode_utf8(k) {
            lemma_encode_utf8_injective(k2, k);
        }
    }
    assert(chars_view(m2) =~= chars_view(m).remove(k));
}

/// The storage backend that delegates to an embedded `sled` database.
pub struct SledKvsEngine {
    /// Where the database lives on disk.
    pub directory_path: String,
    /// The open database.
    pub sled_db: SledDb,
}

impl SledKvsEngine {
    /// Opens the embedded database at `name`, creating it if absent; a
    /// database that cannot be opened fails as a device error.
    pub fn open(name: &str) -> (r: Result<SledDb, KvsError>)
        ensures
            r is Err ==> r == Err::<SledDb, KvsError>(KvsError::IoError),
    {
        match sled_open(name) {
            Ok(db) => Ok(db),
            Err(_) => Err(KvsError::IoError),
        }
    }
}

impl KvsEngine for SledKvsEngine {
    open spec fn kv_map(&self) -> Map<Seq<char>, Seq<char>> {
        chars_view(sled_view(self.sled_db))
    }

    open spec fn inv(&self) -> bool {
        true
    }

    open spec fn reliable(&self) -> bool {
        false
    }

    fn set(&mut self, key: String, value: String) -> (r: Result<(), KvsError>) {
        let ghost old_bytes = sled_view(self.sled_db);
        let kb = key.as_str().as_bytes_vec();
        let vb = value.as_str().as_bytes_vec();
        match sled_insert(&mut self.sled_db, kb.as_slice(), vb.as_slice()) {
            Ok(()) => {
                proof {
                    assert(kb@ == encode_utf8(key@));
                    assert(vb@ == encode_utf8(value@));
                    lemma_chars_view_insert(old_bytes, key@, value@);
                }
                Ok(())
            },
            Err(e) => Err(e),
        }
    }

    fn get(&self, key: String) -> (r: Result<Option<String>, KvsError>) {
        let kb = key.as_str().as_bytes_vec();
        match sled_get(&self.sled_db, kb.as_slice()) {
            Ok(Some(vb)) => {
                let ghost raw = sled_view(self.sled_db)[kb@];
                match bytes_to_string(vb) {
                    Some(s) => {
                        proof {
                            assert(self.kv_map().contains_key(key@));
                            assert(self.kv_map()[key@] == decode_utf8(raw));
                        }
                        Ok(Some(s))
                    },
                    None => Err(KvsError::SerializationError),
                }
            },
            Ok(None) => {
                proof {
                    assert(!self.kv_map().contains_key(key@));
                }
                Ok(None)
            },
            Err(e) => Err(e),
        }
    }

    fn remove(&mut self, key: String) -> (r: Result<(), KvsError>) {
        let ghost old_bytes = sled_view(self.sled_db);
        let kb = key.as_str().as_bytes_vec();
        match sled_remove(&mut self.sled_db, kb.as_slice()) {
            Ok(Some(_)) => {
                proof {
                    assert(kb@ == encode_utf8(key@));
                    assert(chars_view(old_bytes).contains_key(key@));
                    lemma_chars_view_remove(old_bytes, key@);
                }
                Ok(())
            },
            Ok(None) => {
                proof {
                    assert(kb@ == encode_utf8(key@));
                    assert(!chars_view(sled_view(self.sled_db)).contains_key(key@));
                }
                Err(KvsError::KeyNotFound)
            },
            Err(e) => Err(e),
        }
    }
}

} // verus!
