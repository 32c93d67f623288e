//! The engine contract: what any storage backend must guarantee.

use vstd::prelude::*;
use vstd::string::StringExecFns;
use crate::error::KvsError;
use crate::store::KvStore;

verus! {

/// Picks the storage engine to run: the requested one must match whatever an
/// earlier run recorded in the data directory; with nothing requested the
/// recorded one wins, and a fresh directory defaults to `kvs`.
pub fn choose_engine(recorded: Option<String>, requested: Option<String>) -> (r: Result<
    String,
    KvsError,
>)
    ensures
        match r {
            Ok(e) => match (recorded, requested) {
                (Some(rec), Some(req)) => rec@ == req@ && e@ == req@,
                (Some(rec), None) => e@ == rec@,
                (None, Some(req)) => e@ == req@,
                (None, None) => e@ == "kvs"@,
            },
            Err(err) => {
                &&& err == KvsError::Io
                &&& recorded is Some
                &&& requested is Some
                &&& recorded.arrow_Some_0()@ != requested.arrow_Some_0()@
            },
        },
{
    match (recorded, requested) {
        (Some(rec), Some(req)) => {
            if rec == req {
                Ok(req)
            } else {
                Err(KvsError::Io)
            }
        },
        (Some(rec), None) => Ok(rec),
        (None, Some(req)) => Ok(req),
        (None, None) => Ok(String::from_str("kvs")),
    }
}

/// A key/value storage engine. Its abstract value is the key-to-value map;
/// `inv` is whatever invariant the backend maintains between calls.
pub trait KvsEngine: View<V = Map<Seq<char>, Seq<char>>> + Sized {
    /// The backend's invariant.
    spec fn inv(&self) -> bool;

    /// Sets the value of `key` to `value`, overwriting any previous value.
    fn set(&mut self, key: String, value: String) -> (r: Result<(), KvsError>)
        requires
            old(self).inv(),
        ensures
            final(self).inv(),
            r is Ok ==> final(self)@ == old(self)@.insert(key@, value@),
            r is Err ==> final(self)@ == old(self)@,
    ;

    /// Gets the current value of `key`, or `None` if it is not bound.
    fn get(&self, key: String) -> (r: Result<Option<String>, KvsError>)
        requires
            self.inv(),
        ensures
            match r {
                Ok(opt) => match opt {
                    Some(v) => self@.contains_key(key@) && v@ == self@[key@],
                    None => !self@.contains_key(key@),
                },
                Err(_) => false,
            },
    ;

    /// Removes `key`; fails with `KeyNotFound` exactly when it is absent.
    fn remove(&mut self, key: String) -> (r: Result<(), KvsError>)
        requires
            old(self).inv(),
        ensures
            final(self).inv(),
            match r {
                Ok(()) => old(self)@.contains_key(key@) && final(self)@ == old(self)@.remove(
                    key@,
                ),
                Err(e) => {
                    &&& final(self)@ == old(self)@
                    &&& (e == KvsError::KeyNotFound <==> !old(self)@.contains_key(key@))
                },
            },
    ;
}

impl KvsEngine for KvStore {
    open spec fn inv(&self) -> bool {
        self.wf()
    }

    fn set(&mut self, key: String, value: String) -> (r: Result<(), KvsError>) {
        KvStore::set(self, key, value)
    }

    fn get(&self, key: String) -> (r: Result<Option<String>, KvsError>) {
        KvStore::get(self, key)
    }

    fn remove(&mut self, key: String) -> (r: Result<(), KvsError>) {
        KvStore::remove(self, key)
    }
}

} // verus!
