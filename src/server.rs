use vstd::prelude::*;
use crate::command::KvsError;

verus! {

/// The three operations a storage engine offers to the server.
pub trait KvsEngine {
    /// Bind `key` to `value`.
    fn set(&mut self, key: String, value: String) -> Result<(), KvsError>;

    /// The value bound to `key`, if any.
    fn get(&mut self, key: String) -> Result<Option<String>, KvsError>;

    /// Unbind `key`; `KeyNotFound` when it is not bound.
    fn remove(&mut self, key: String) -> Result<(), KvsError>;
}

/// A request received by the server.
pub enum Request {
    Get(String),
    Put(String, String),
    Remove(String),
}

/// The server's answer to a request.
pub enum Response {
    /// Answer to a successful `Get`.
    Value(Option<String>),
    /// Answer to a successful `Put` or `Remove`.
    Done,
    /// The operation failed, with the error's message.
    Failed(String),
}

impl KvsError {
    pub open spec fn message_view(&self) -> Seq<char> {
        match self {
            KvsError::Io(m) => m@,
            KvsError::Serde(m) => m@,
            KvsError::KeyNotFound => "Key not found"@,
            KvsError::StringError(m) => m@,
            KvsError::UnexpectedCommandType => "Unexpected command type"@,
        }
    }

    /// The text shown for this error.
    pub fn message(&self) -> (r: String)
        ensures
            r@ == self.message_view(),
    {
        match self {
            KvsError::Io(m) => m.clone(),
            KvsError::Serde(m) => m.clone(),
            KvsError::KeyNotFound => String::from_str("Key not found"),
            KvsError::StringError(m) => m.clone(),
            KvsError::UnexpectedCommandType => String::from_str("Unexpected command type"),
        }
    }
}

/// The answer to a `Get` whose engine call returned `res`.
pub fn respond_get(res: Result<Option<String>, KvsError>) -> (r: Response)
    ensures
        match res {
            Ok(v) => r == Response::Value(v),
            Err(e) => r is Failed && r->Failed_0@ == e.message_view(),
        },
{
    match res {
        Ok(v) => Response::Value(v),
        Err(e) => Response::Failed(e.message()),
    }
}

/// The answer to a `Put` or `Remove` whose engine call returned `res`.
pub fn respond_done(res: Result<(), KvsError>) -> (r: Response)
    ensures
        match res {
            Ok(_) => r is Done,
            Err(e) => r is Failed && r->Failed_0@ == e.message_view(),
        },
{
    match res {
        Ok(_) => Response::Done,
        Err(e) => Response::Failed(e.message()),
    }
}

/// Serves requests against one engine, one at a time.
pub struct KvsServer<E: KvsEngine> {
    engine: E,
}

impl<E: KvsEngine> KvsServer<E> {
    pub closed spec fn engine_view(&self) -> E {
        self.engine
    }

    /// A server over `engine`.
    pub fn new(engine: E) -> (r: Self)
        ensures
            r.engine_view() == engine,
    {
        KvsServer { engine }
    }

    /// Run `req` against the engine and answer it: a `Get` is answered with
    /// a value or a failure, a `Put` or `Remove` with `Done` or a failure.
    pub fn handle(&mut self, req: Request) -> (r: Response)
        ensures
            req is Get ==> (r is Value || r is Failed),
            !(req is Get) ==> (r is Done || r is Failed),
    {
        match req {
            Request::Get(key) => respond_get(self.engine.get(key)),
            Request::Put(key, value) => respond_done(self.engine.set(key, value)),
            Request::Remove(key) => respond_done(self.engine.remove(key)),
        }
    }
}

/// The storage engine that owns a data directory.
#[derive(Clone, Copy, PartialEq, Eq, Structural, Debug)]
pub enum EngineKind {
    Kvs,
    Sled,
}

/// Whether `a` and `b` hold the same text.
fn same_text(a: &str, b: &str) -> (r: bool)
    ensures
        r == (a@ == b@),
{
    let n = a.unicode_len();
    if n != b.unicode_len() {
        return false;
    }
    let mut i: usize = 0;
    while i < n
        invariant
            n == a@.len(),
            n == b@.len(),
            i <= n,
            forall|j: int| 0 <= j < i ==> a@[j] == b@[j],
        decreases n - i,
    {
        if a.get_char(i) != b.get_char(i) {
            return false;
        }
        i = i + 1;
    }
    proof {
        assert(a@ =~= b@);
    }
    true
}

/// The engine named by the marker text `text`: `kvs` or `sled`.
pub fn engine_of_marker(text: &str) -> (r: Option<EngineKind>)
    ensures
        r == (if text@ == "kvs"@ {
            Some(EngineKind::Kvs)
        } else if text@ == "sled"@ {
            Some(EngineKind::Sled)
        } else {
            None::<EngineKind>
        }),
{
    if same_text(text, "kvs") {
        Some(EngineKind::Kvs)
    } else if same_text(text, "sled") {
        Some(EngineKind::Sled)
    } else {
        None
    }
}

impl EngineKind {
    pub open spec fn name_view(&self) -> Seq<char> {
        match self {
            EngineKind::Kvs => "kvs"@,
            EngineKind::Sled => "sled"@,
        }
    }

    /// The marker text of this engine.
    pub fn name(&self) -> (r: String)
        ensures
            r@ == self.name_view(),
    {
        match self {
            EngineKind::Kvs => String::from_str("kvs"),
            EngineKind::Sled => String::from_str("sled"),
        }
    }
}

/// The engine to start, given the one that the directory's marker names (if
/// any) and the one requested: the requested one, unless the directory
/// belongs to the other.
pub fn select_engine(marker: Option<EngineKind>, requested: EngineKind) -> (r: Result<EngineKind, KvsError>)
    ensures
        match marker {
            Some(m) => if m == requested {
                r == Ok::<EngineKind, KvsError>(requested)
            } else {
                r is Err && r->Err_0 is StringError
            },
            None => r == Ok::<EngineKind, KvsError>(requested),
        },
{
    match marker {
        Some(m) => {
            if m == requested {
                Ok(requested)
            } else {
                Err(KvsError::StringError(String::from_str("the directory belongs to another engine")))
            }
        },
        None => Ok(requested),
    }
}

} // verus!
