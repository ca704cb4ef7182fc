//! The server's heart: one request in, one response out.
//!
//! The server is generic over any storage engine that meets the
//! [`KvsEngine`] contract; dispatch is static. What cannot live here —
//! the listener, the sockets, the worker threads — hands each decoded
//! request to [`KvsServer::handle_request`] and writes the returned
//! response back, in wire order.

use vstd::prelude::*;
use crate::common::{get_response_of, remove_response_of, set_response_of, GetResponseView,
    RemoveResponseView, Request, RequestView, Response, SetResponseView};
use crate::error::{message_spec, KvsError};
use crate::kv::KvStore;

verus! {

/// What every storage engine offers the server.
///
/// An engine holds a mapping from keys to values, guarded by its own
/// invariant. `set` and `remove` change the mapping exactly as they say
/// or report failure; `remove` of an absent key always reports
/// `KeyNotFound`. A `set` that fails mid-way may still have taken
/// effect — its record may be durable even though a later step failed.
pub trait KvsEngine: Sized {
    /// The engine's representation invariant.
    spec fn inv(&self) -> bool;

    /// The mapping the engine holds.
    spec fn kv(&self) -> Map<Seq<char>, Seq<char>>;

    /// When a lookup is guaranteed to succeed in this state.
    spec fn get_succeeds(&self) -> bool;

    /// When `set` of this key and value is guaranteed to succeed here.
    spec fn set_succeeds(&self, k: Seq<char>, v: Seq<char>) -> bool;

    /// When `remove` of this key is guaranteed to succeed here.
    spec fn remove_succeeds(&self, k: Seq<char>) -> bool;

    /// Look a key up without changing the mapping.
    fn get(&mut self, key: String) -> (r: Result<Option<String>, KvsError>)
        requires
            old(self).inv(),
        ensures
            final(self).inv(),
            final(self).kv() == old(self).kv(),
            old(self).get_succeeds() ==> r is Ok,
            (match r {
                Ok(v) => (match v {
                    Option::Some(s) => old(self).kv().contains_key(key@)
                        && s@ == old(self).kv()[key@],
                    Option::None => !old(self).kv().contains_key(key@),
                }),
                Err(_) => true,
            }),
    ;

    /// Insert or overwrite a key.
    fn set(&mut self, key: String, value: String) -> (r: Result<(), KvsError>)
        requires
            old(self).inv(),
        ensures
            final(self).inv(),
            old(self).set_succeeds(key@, value@) ==> r is Ok,
            r is Ok ==> final(self).kv() == old(self).kv().insert(key@, value@),
            r is Err ==> final(self).kv() == old(self).kv()
                || final(self).kv() == old(self).kv().insert(key@, value@),
    ;

    /// Delete a key; an absent key is reported as `KeyNotFound`.
    fn remove(&mut self, key: String) -> (r: Result<(), KvsError>)
        requires
            old(self).inv(),
        ensures
            final(self).inv(),
            old(self).remove_succeeds(key@) ==> r is Ok,
            r is Ok ==> old(self).kv().contains_key(key@)
                && final(self).kv() == old(self).kv().remove(key@),
            r is Err ==> final(self).kv() == old(self).kv(),
            !old(self).kv().contains_key(key@) ==> r == Err::<(), KvsError>(KvsError::KeyNotFound),
    ;
}

impl KvsEngine for KvStore {
    open spec fn inv(&self) -> bool {
        self.wf()
    }

    open spec fn kv(&self) -> Map<Seq<char>, Seq<char>> {
        self@
    }

    open spec fn get_succeeds(&self) -> bool {
        true
    }

    open spec fn set_succeeds(&self, k: Seq<char>, v: Seq<char>) -> bool {
        KvStore::set_succeeds(self, k, v)
    }

    open spec fn remove_succeeds(&self, k: Seq<char>) -> bool {
        KvStore::remove_succeeds(self, k)
    }

    fn get(&mut self, key: String) -> (r: Result<Option<String>, KvsError>) {
        KvStore::get(self, key)
    }

    fn set(&mut self, key: String, value: String) -> (r: Result<(), KvsError>) {
        KvStore::set(self, key, value)
    }

    fn remove(&mut self, key: String) -> (r: Result<(), KvsError>) {
        KvStore::remove(self, key)
    }
}

/// A key-value server over a storage engine.
pub struct KvsServer<E: KvsEngine> {
    engine: E,
}

impl<E: KvsEngine> KvsServer<E> {
    /// The mapping the server's engine holds.
    pub closed spec fn kv(&self) -> Map<Seq<char>, Seq<char>> {
        self.engine.kv()
    }

    /// The server's invariant: its engine's.
    pub closed spec fn inv(&self) -> bool {
        self.engine.inv()
    }

    /// When the engine guarantees a lookup.
    pub closed spec fn get_succeeds(&self) -> bool {
        self.engine.get_succeeds()
    }

    /// When the engine guarantees this assignment.
    pub closed spec fn set_succeeds(&self, k: Seq<char>, v: Seq<char>) -> bool {
        self.engine.set_succeeds(k, v)
    }

    /// When the engine guarantees this deletion.
    pub closed spec fn remove_succeeds(&self, k: Seq<char>) -> bool {
        self.engine.remove_succeeds(k)
    }

    /// A server over the given storage engine.
    pub fn new(engine: E) -> (r: KvsServer<E>)
        ensures
            r.kv() == engine.kv(),
            r.inv() == engine.inv(),
            r.get_succeeds() == engine.get_succeeds(),
            forall|k: Seq<char>, v: Seq<char>|
                #[trigger] r.set_succeeds(k, v) == engine.set_succeeds(k, v),
            forall|k: Seq<char>| #[trigger] r.remove_succeeds(k) == engine.remove_succeeds(k),
    {
        KvsServer { engine }
    }

    /// Serve one request: invoke the engine and build the response that
    /// goes back on the wire.
    ///
    /// The response mirrors the engine's outcome: where the engine
    /// guarantees success, the success variant comes back with the
    /// looked-up value or the promised state change; a failure reply
    /// carries the failing error's own fixed message, `Key not found`
    /// in particular for a deletion of an absent key.
    pub fn handle_request(&mut self, req: Request) -> (resp: Response)
        requires
            old(self).inv(),
        ensures
            final(self).inv(),
            (match req@ {
                RequestView::Get { key } => {
                    &&& final(self).kv() == old(self).kv()
                    &&& (old(self).get_succeeds() ==> !(resp matches Response::Get(g)
                        && g@ matches GetResponseView::Failed { msg }))
                    &&& (match resp {
                        Response::Get(g) => (match g@ {
                            GetResponseView::Found { value: Option::Some(s) } =>
                                old(self).kv().contains_key(key) && s == old(self).kv()[key],
                            GetResponseView::Found { value: Option::None } =>
                                !old(self).kv().contains_key(key),
                            GetResponseView::Failed { msg } => exists|e: KvsError|
                                msg == message_spec(e),
                        }),
                        _ => false,
                    })
                },
                RequestView::Put { key, value } => {
                    &&& (old(self).set_succeeds(key, value) ==> !(resp matches Response::Put(sr)
                        && sr@ matches SetResponseView::Failed { msg }))
                    &&& (match resp {
                        Response::Put(sr) => (match sr@ {
                            SetResponseView::Done => final(self).kv() == old(self).kv().insert(
                                key,
                                value,
                            ),
                            SetResponseView::Failed { msg } => (final(self).kv() == old(self).kv()
                                || final(self).kv() == old(self).kv().insert(key, value))
                                && exists|e: KvsError| msg == message_spec(e),
                        }),
                        _ => false,
                    })
                },
                RequestView::Remove { key } => {
                    &&& (old(self).remove_succeeds(key) ==> !(resp matches Response::Remove(rr)
                        && rr@ matches RemoveResponseView::Failed { msg }))
                    &&& (match resp {
                        Response::Remove(rr) => (match rr@ {
                            RemoveResponseView::Done => old(self).kv().contains_key(key)
                                && final(self).kv() == old(self).kv().remove(key),
                            RemoveResponseView::Failed { msg } => final(self).kv()
                                == old(self).kv() && (exists|e: KvsError| msg == message_spec(e))
                                && (!old(self).kv().contains_key(key)
                                ==> msg == message_spec(KvsError::KeyNotFound)),
                        }),
                        _ => false,
                    })
                },
            }),
    {
        match req {
            Request::Get { key } => Response::Get(get_response_of(self.engine.get(key))),
            Request::Put { key, value } => Response::Put(
                set_response_of(self.engine.set(key, value)),
            ),
            Request::Remove { key } => Response::Remove(
                remove_response_of(self.engine.remove(key)),
            ),
        }
    }
}

} // verus!
