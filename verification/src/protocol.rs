//! The request/response protocol and the startup guard.
//!
//! A request is one encoded command; the response is the raw bytes of the
//! result, with an empty body meaning plain success. The accept loop, the
//! sockets and the engine selection live at the unverified edge; the edge
//! hands each request's bytes in and writes the returned response out.

use vstd::prelude::*;
use vstd::string::StrSliceExecFns;
use vstd::utf8::encode_utf8;
use crate::codec::{parse_command, spec_parse_command};
use crate::command::{Command, CommandView};
use crate::engine::KvsEngine;
use crate::error::KvsError;
use crate::store::spec_lookup;

verus! {

/// The reply sent when a key is missing.
pub open spec fn not_found_reply() -> Seq<u8> {
    encode_utf8("Key not found"@)
}

/// Build the missing-key reply.
pub fn not_found_bytes() -> (r: Vec<u8>)
    ensures
        r@ == not_found_reply(),
{
    "Key not found".as_bytes_vec()
}

/// Decode one request, run it against the engine, and return the response
/// body to write back: `None` for an empty reply. A request that does not
/// decode, or an engine failure, is an error; the caller drops that
/// connection and serves the next one.
pub fn serve_request<E: KvsEngine>(store: &mut E, request: &[u8]) -> (r: Result<
    Option<Vec<u8>>,
    KvsError,
>)
    requires
        old(store).inv(),
    ensures
        final(store).inv(),
        match spec_parse_command(request@) {
            None => r == Err::<Option<Vec<u8>>, KvsError>(KvsError::Corruption)
                && final(store).kv() == old(store).kv(),
            Some(c) => match c {
                CommandView::Put { key, value } => {
                    &&& (r is Ok ==> final(store).kv() == old(store).kv().insert(key, value) && (
                    r matches Ok(o) && o is None))
                    &&& (r is Err ==> final(store).kv() == old(store).kv())
                },
                CommandView::Get { key } => {
                    &&& final(store).kv() == old(store).kv()
                    &&& (r is Ok ==> match spec_lookup(old(store).kv(), key) {
                        Some(v) => r matches Ok(Some(b)) && b@ == encode_utf8(v),
                        None => r matches Ok(Some(b)) && b@ == not_found_reply(),
                    })
                },
                CommandView::Rm { key } => {
                    &&& (!old(store).kv().dom().contains(key) ==> (r matches Ok(Some(b)) && b@
                        == not_found_reply()) && final(store).kv() == old(store).kv())
                    &&& (old(store).kv().dom().contains(key) ==> {
                        &&& (r is Ok ==> final(store).kv() == old(store).kv().remove(key) && (
                        r matches Ok(o) && o is None))
                        &&& (r is Err ==> final(store).kv() == old(store).kv())
                    })
                },
            },
        },
{
    match parse_command(request) {
        None => Err(KvsError::Corruption),
        Some(cmd) => {
            match cmd {
                Command::Put { key, value } => {
                    match store.set(key, value) {
                        Ok(()) => Ok(None),
                        Err(e) => Err(e),
                    }
                },
                Command::Get { key } => {
                    match store.get(key) {
                        Ok(None) => Ok(Some(not_found_bytes())),
                        Ok(Some(value)) => Ok(Some(value.as_str().as_bytes_vec())),
                        Err(e) => Err(e),
                    }
                },
                Command::Rm { key } => {
                    match store.remove(key) {
                        Ok(()) => Ok(None),
                        Err(KvsError::KeyNotFoundError) => Ok(Some(not_found_bytes())),
                        Err(e) => Err(e),
                    }
                },
            }
        },
    }
}

/// Which engine a data directory is asked to open with.
#[derive(Clone, Copy, Debug, PartialEq, Eq, Structural)]
pub enum EngineKind {
    Kvs,
    Sled,
}

/// The file-name prefix that marks a directory as owned by the engine.
pub open spec fn engine_tag(e: EngineKind) -> Seq<char> {
    match e {
        EngineKind::Kvs => seq!['k', 'v', 's'],
        EngineKind::Sled => seq!['s', 'l', 'e', 'd'],
    }
}

/// The engine a directory must not already belong to.
pub open spec fn other_engine(e: EngineKind) -> EngineKind {
    match e {
        EngineKind::Kvs => EngineKind::Sled,
        EngineKind::Sled => EngineKind::Kvs,
    }
}

/// Whether a file name carries an engine's tag.
pub open spec fn has_tag(name: Seq<char>, tag: Seq<char>) -> bool {
    tag.is_prefix_of(name)
}

/// Whether the file name starts with the log-structured engine's tag.
fn name_has_kvs_tag(name: &String) -> (r: bool)
    ensures
        r == has_tag(name@, engine_tag(EngineKind::Kvs)),
{
    let s = name.as_str();
    if s.unicode_len() < 3 {
        return false;
    }
    let r = s.get_char(0) == 'k' && s.get_char(1) == 'v' && s.get_char(2) == 's';
    proof {
        if r {
            assert(engine_tag(EngineKind::Kvs) =~= name@.subrange(0, 3));
        } else {
            if engine_tag(EngineKind::Kvs).is_prefix_of(name@) {
                assert(name@.subrange(0, 3)[0] == 'k');
                assert(name@.subrange(0, 3)[1] == 'v');
                assert(name@.subrange(0, 3)[2] == 's');
                assert(false);
            }
        }
    }
    r
}

/// Whether the file name starts with the alternative engine's tag.
fn name_has_sled_tag(name: &String) -> (r: bool)
    ensures
        r == has_tag(name@, engine_tag(EngineKind::Sled)),
{
    let s = name.as_str();
    if s.unicode_len() < 4 {
        return false;
    }
    let r = s.get_char(0) == 's' && s.get_char(1) == 'l' && s.get_char(2) == 'e' && s.get_char(3)
        == 'd';
    proof {
        if r {
            assert(engine_tag(EngineKind::Sled) =~= name@.subrange(0, 4));
        } else {
            if engine_tag(EngineKind::Sled).is_prefix_of(name@) {
                assert(name@.subrange(0, 4)[0] == 's');
                assert(name@.subrange(0, 4)[1] == 'l');
                assert(name@.subrange(0, 4)[2] == 'e');
                assert(name@.subrange(0, 4)[3] == 'd');
                assert(false);
            }
        }
    }
    r
}

/// Inspect a data directory's file names before opening an engine: startup
/// is allowed exactly when no file carries the other engine's tag, and is
/// refused with the wrong-engine error otherwise, touching nothing.
pub fn check_engine_dir(files: &Vec<String>, requested: EngineKind) -> (r: Result<(), KvsError>)
    ensures
        r is Ok <==> forall|i: int|
            0 <= i < files@.len() ==> !has_tag(
                (#[trigger] files@[i])@,
                engine_tag(other_engine(requested)),
            ),
        r is Err ==> r == Err::<(), KvsError>(KvsError::WrongEngineError),
{
    let mut i: usize = 0;
    while i < files.len()
        invariant
            0 <= i <= files@.len(),
            forall|j: int|
                0 <= j < i ==> !has_tag(
                    (#[trigger] files@[j])@,
                    engine_tag(other_engine(requested)),
                ),
        decreases files@.len() - i,
    {
        let f = &files[i];
        let is_other = match requested {
            EngineKind::Kvs => name_has_sled_tag(f),
            EngineKind::Sled => name_has_kvs_tag(f),
        };
        if is_other {
            return Err(KvsError::WrongEngineError);
        }
        i = i + 1;
    }
    Ok(())
}

} // verus!
