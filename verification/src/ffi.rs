//! The registry behind the C interface.
//!
//! Foreign callers cannot use Rust generics, so they register and resolve
//! services by name, and service data is an opaque byte string. This module
//! holds that registry and the decisions each entry point of the C interface
//! makes: which argument is rejected with which error code and message,
//! duplicate rejection, lookups, and the JSON convenience paths. The entry
//! points themselves only turn raw pointers into the plain values used here.
//!
//! The last error message is kept per thread by the caller in a
//! [`LastError`]; every message stored there has its control characters
//! replaced by spaces, since names are caller-supplied and messages end up in
//! host application logs.

use vstd::prelude::*;
use vstd::string::StringExecFns;
use vstd::utf8::{encode_utf8, valid_utf8};
use vstd::string::StringSliceAdditionalSpecFns;

verus! {

/// Error codes of the C interface.
#[derive(Debug, Clone, Copy, PartialEq, Eq, Structural)]
pub enum DiErrorCode {
    /// Operation succeeded.
    Success,
    /// Service not found.
    NotFound,
    /// Invalid argument (null pointer, invalid UTF-8, ...).
    InvalidArgument,
    /// Service already registered.
    AlreadyRegistered,
    /// Internal error.
    InternalError,
    /// Serialization or deserialization error.
    SerializationError,
}

impl DiErrorCode {
    /// The numeric value of the code in the C interface.
    pub open spec fn spec_value(self) -> i32 {
        match self {
            DiErrorCode::Success => 0,
            DiErrorCode::NotFound => 1,
            DiErrorCode::InvalidArgument => 2,
            DiErrorCode::AlreadyRegistered => 3,
            DiErrorCode::InternalError => 4,
            DiErrorCode::SerializationError => 5,
        }
    }

    /// The numeric value of the code in the C interface.
    pub fn value(&self) -> (r: i32)
        ensures
            r == self.spec_value(),
    {
        match self {
            DiErrorCode::Success => 0,
            DiErrorCode::NotFound => 1,
            DiErrorCode::InvalidArgument => 2,
            DiErrorCode::AlreadyRegistered => 3,
            DiErrorCode::InternalError => 4,
            DiErrorCode::SerializationError => 5,
        }
    }
}

/// Whether `c` is a control character (Unicode general category Cc).
pub open spec fn is_control(c: char) -> bool {
    (c as u32) <= 0x1f || (0x7f <= (c as u32) && (c as u32) <= 0x9f)
}

/// `s` with every control character replaced by a space.
pub open spec fn sanitized(s: Seq<char>) -> Seq<char> {
    s.map_values(|c: char| if is_control(c) { ' ' } else { c })
}

/// Whether `c` is a control character (Unicode general category Cc).
pub fn is_control_char(c: char) -> (r: bool)
    ensures
        r == is_control(c),
{
    let u = c as u32;
    u <= 0x1f || (0x7f <= u && u <= 0x9f)
}

/// Appends `c` to `s`.
///
/// Calls `String::push`, which appends one character.
#[verifier::external_body]
fn push_char(s: &mut String, c: char)
    ensures
        final(s)@ == old(s)@.push(c),
{
    s.push(c);
}

/// The string slice that `bytes` encode, if they are valid UTF-8.
///
/// Calls `std::str::from_utf8`, which succeeds exactly on valid UTF-8 and then
/// returns a string slice over the same bytes.
#[verifier::external_body]
fn utf8_str(bytes: &[u8]) -> (r: Option<&str>)
    ensures
        r is Some <==> valid_utf8(bytes@),
        r matches Some(s) ==> s.spec_bytes() == bytes@,
{
    std::str::from_utf8(bytes).ok()
}

/// `msg` with every control character replaced by a space.
pub fn sanitize(msg: &str) -> (r: String)
    ensures
        r@ == sanitized(msg@),
{
    let mut out = String::new();
    let n = msg.unicode_len();
    let mut i: usize = 0;
    while i < n
        invariant
            n == msg@.len(),
            i <= n,
            out@ == sanitized(msg@.subrange(0, i as int)),
        decreases n - i,
    {
        let c = msg.get_char(i);
        if is_control_char(c) {
            push_char(&mut out, ' ');
        } else {
            push_char(&mut out, c);
        }
        proof {
            assert(sanitized(msg@.subrange(0, i + 1)) =~= sanitized(msg@.subrange(0, i as int)).push(
                if is_control(c) {
                    ' '
                } else {
                    c
                },
            ));
        }
        i = i + 1;
    }
    assert(msg@.subrange(0, n as int) =~= msg@);
    out
}

/// A sanitized message holds no control character, in particular no NUL.
pub proof fn lemma_sanitized_has_no_control(s: Seq<char>)
    ensures
        forall|i: int| 0 <= i < sanitized(s).len() ==> !is_control(#[trigger] sanitized(s)[i]),
{
}

/// The last error message of the C interface (kept per thread by the caller).
pub struct LastError {
    message: Option<String>,
}

impl LastError {
    /// The stored message.
    pub closed spec fn last(self) -> Option<Seq<char>> {
        match self.message {
            Some(m) => Some(m@),
            None => None,
        }
    }

    /// No message.
    pub fn new() -> (r: Self)
        ensures
            r.last() is None,
    {
        LastError { message: None }
    }

    /// Store `msg`, with its control characters replaced by spaces.
    pub fn set(&mut self, msg: &str)
        ensures
            final(self).last() == Some(sanitized(msg@)),
    {
        self.message = Some(sanitize(msg));
    }

    /// Forget the stored message.
    pub fn clear(&mut self)
        ensures
            final(self).last() is None,
    {
        self.message = None;
    }

    /// A copy of the stored message.
    pub fn message(&self) -> (r: Option<String>)
        ensures
            r matches Some(m) ==> self.last() == Some(m@),
            r is None <==> self.last() is None,
    {
        match &self.message {
            Some(m) => Some(m.clone()),
            None => None,
        }
    }
}

/// Store `msg` (sanitized) as the last error.
pub fn set_last_error(errors: &mut LastError, msg: &str)
    ensures
        final(errors).last() == Some(sanitized(msg@)),
{
    errors.set(msg);
}

/// The message for a name that is already registered.
pub open spec fn already_registered_message(name: Seq<char>) -> Seq<char> {
    "Service '"@ + name + "' is already registered"@
}

/// What registering `payload` under `name` makes of the services `m`, and
/// the code it answers: a taken name is refused and nothing changes.
pub open spec fn register_outcome(m: Map<Seq<char>, Seq<u8>>, name: Seq<char>, payload: Seq<u8>) -> (
    Map<Seq<char>, Seq<u8>>,
    DiErrorCode,
) {
    if m.contains_key(name) {
        (m, DiErrorCode::AlreadyRegistered)
    } else {
        (m.insert(name, payload), DiErrorCode::Success)
    }
}

/// The message for a name that is not registered.
pub open spec fn not_found_message(name: Seq<char>) -> Seq<char> {
    "Service '"@ + name + "' not found"@
}

/// `"Service '" + name + suffix`.
fn service_message(name: &str, suffix: &str) -> (r: String)
    ensures
        r@ == "Service '"@ + name@ + suffix@,
{
    let mut m = String::from_str("Service '");
    m.append(name);
    m.append(suffix);
    m
}

/// Whether `bytes` contain a zero byte (which a C string cannot hold).
pub fn contains_nul(bytes: &[u8]) -> (r: bool)
    ensures
        r == exists|i: int| 0 <= i < bytes@.len() && bytes@[i] == 0,
{
    let mut i: usize = 0;
    while i < bytes.len()
        invariant
            i <= bytes@.len(),
            forall|j: int| 0 <= j < i ==> bytes@[j] != 0,
        decreases bytes@.len() - i,
    {
        if bytes[i] == 0 {
            return true;
        }
        i = i + 1;
    }
    false
}

/// Copy of `bytes`.
fn copy_bytes(bytes: &[u8]) -> (r: Vec<u8>)
    ensures
        r@ == bytes@,
{
    let mut out: Vec<u8> = Vec::with_capacity(bytes.len());
    let mut i: usize = 0;
    while i < bytes.len()
        invariant
            i <= bytes@.len(),
            out@ == bytes@.subrange(0, i as int),
        decreases bytes@.len() - i,
    {
        out.push(bytes[i]);
        i = i + 1;
    }
    assert(out@ =~= bytes@);
    out
}

/// Record the error for a null container handle.
pub fn null_container(errors: &mut LastError) -> (r: DiErrorCode)
    ensures
        r == DiErrorCode::InvalidArgument,
        final(errors).last() == Some(sanitized("Container pointer is null"@)),
{
    errors.set("Container pointer is null");
    DiErrorCode::InvalidArgument
}

/// Record the error for missing or non-UTF-8 JSON text; `None` when the text
/// is present and valid.
pub fn reject_json_payload(errors: &mut LastError, json: Option<&[u8]>) -> (r: Option<DiErrorCode>)
    ensures
        json is None ==> r == Some(DiErrorCode::InvalidArgument) && final(errors).last() == Some(
            sanitized("JSON data is null"@),
        ),
        json matches Some(j) ==> (!valid_utf8(j@) ==> r == Some(DiErrorCode::InvalidArgument)
            && final(errors).last() == Some(sanitized("JSON data is not valid UTF-8"@))),
        json matches Some(j) ==> (valid_utf8(j@) ==> r is None && *final(errors) == *old(errors)),
{
    match json {
        None => {
            errors.set("JSON data is null");
            Some(DiErrorCode::InvalidArgument)
        },
        Some(j) => match utf8_str(j) {
            Some(_) => None,
            None => {
                errors.set("JSON data is not valid UTF-8");
                Some(DiErrorCode::InvalidArgument)
            },
        },
    }
}

/// A resolved service: its name and a copy of its data.
pub struct DiService {
    name: String,
    data: Vec<u8>,
}

impl DiService {
    /// The name the service was resolved by.
    pub closed spec fn name_view(self) -> Seq<char> {
        self.name@
    }

    /// The service data.
    pub closed spec fn data_view(self) -> Seq<u8> {
        self.data@
    }

    /// The service data.
    pub fn data(&self) -> (r: &[u8])
        ensures
            r@ == self.data_view(),
    {
        self.data.as_slice()
    }

    /// Length of the service data in bytes.
    pub fn data_len(&self) -> (r: usize)
        ensures
            r == self.data_view().len(),
    {
        self.data.len()
    }

    /// The name, unless it holds a character that a C string cannot carry
    /// (NUL).
    pub fn name(&self) -> (r: Option<String>)
        ensures
            r matches Some(n) ==> n@ == self.name_view() && !self.name_view().contains('\0'),
            r is None <==> self.name_view().contains('\0'),
    {
        let n = self.name.as_str().unicode_len();
        let mut i: usize = 0;
        while i < n
            invariant
                n == self.name@.len(),
                i <= n,
                forall|j: int| 0 <= j < i ==> self.name@[j] != '\0',
            decreases n - i,
        {
            if self.name.as_str().get_char(i) == '\0' {
                return None;
            }
            i = i + 1;
        }
        Some(self.name.clone())
    }
}

/// The result of a resolution through the C interface.
pub struct DiResult {
    /// What happened.
    pub code: DiErrorCode,
    /// The service, when `code` is `Success`.
    pub service: Option<DiService>,
}

/// Named services for foreign callers.
pub struct DiContainer {
    names: Vec<String>,
    payloads: Vec<Vec<u8>>,
}

/// The views of a sequence of strings.
pub open spec fn views_of(names: Seq<String>) -> Seq<Seq<char>> {
    names.map_values(|s: String| s@)
}

impl DiContainer {
    /// Names and payloads line up and no name occurs twice.
    pub closed spec fn wf(self) -> bool {
        &&& self.names@.len() == self.payloads@.len()
        &&& views_of(self.names@).no_duplicates()
    }

    /// The registered services: name to data.
    pub closed spec fn services(self) -> Map<Seq<char>, Seq<u8>> {
        Map::new(
            |k: Seq<char>| views_of(self.names@).contains(k),
            |k: Seq<char>| self.payloads@[views_of(self.names@).index_of(k)]@,
        )
    }

    proof fn lemma_entry_at(self, i: int)
        requires
            self.wf(),
            0 <= i < self.names@.len(),
        ensures
            self.services().contains_key(self.names@[i]@),
            self.services()[self.names@[i]@] == self.payloads@[i]@,
    {
        let v = views_of(self.names@);
        assert(v[i] == self.names@[i]@);
        assert(v.contains(v[i]));
        let j = v.index_of(v[i]);
        assert(v[j] == v[i]);
    }

    proof fn lemma_len(self)
        requires
            self.wf(),
        ensures
            self.services().len() == self.names@.len(),
    {
        let v = views_of(self.names@);
        assert(self.services().dom() =~= v.to_set());
        v.unique_seq_to_set();
    }

    /// An empty registry.
    pub fn new() -> (r: Self)
        ensures
            r.wf(),
            r.services() == Map::<Seq<char>, Seq<u8>>::empty(),
    {
        let r = DiContainer { names: Vec::new(), payloads: Vec::new() };
        assert(r.services() =~= Map::<Seq<char>, Seq<u8>>::empty());
        r
    }

    /// A child registry holding a snapshot of the services registered now;
    /// later registrations in either are not seen by the other.
    pub fn scope(&self) -> (r: Self)
        requires
            self.wf(),
        ensures
            r.wf(),
            r.services() == self.services(),
    {
        let mut names: Vec<String> = Vec::new();
        let mut payloads: Vec<Vec<u8>> = Vec::new();
        let mut i: usize = 0;
        while i < self.names.len()
            invariant
                self.wf(),
                i <= self.names@.len(),
                names@ == self.names@.subrange(0, i as int),
                payloads@.len() == i,
                forall|j: int| 0 <= j < i ==> (#[trigger] payloads@[j])@ == self.payloads@[j]@,
            decreases self.names@.len() - i,
        {
            names.push(self.names[i].clone());
            payloads.push(copy_bytes(self.payloads[i].as_slice()));
            i = i + 1;
        }
        assert(names@ =~= self.names@);
        let r = DiContainer { names, payloads };
        assert(views_of(r.names@) =~= views_of(self.names@));
        assert forall|k: Seq<char>| #[trigger] r.services().contains_key(k) implies r.services()[k]
            == self.services()[k] by {
            let j = views_of(self.names@).index_of(k);
            assert(views_of(self.names@)[j] == k);
            self.lemma_entry_at(j);
        }
        assert(r.services() =~= self.services());
        r
    }

    /// Position of the service named `name`.
    fn find(&self, name: &String) -> (r: Option<usize>)
        requires
            self.wf(),
        ensures
            r matches Some(i) ==> i < self.names@.len() && self.names@[i as int]@ == name@,
            r is None <==> !self.services().contains_key(name@),
    {
        let mut i: usize = 0;
        while i < self.names.len()
            invariant
                self.wf(),
                i <= self.names@.len(),
                forall|j: int| 0 <= j < i ==> self.names@[j]@ != name@,
            decreases self.names@.len() - i,
        {
            if self.names[i] == *name {
                assert(views_of(self.names@)[i as int] == name@);
                return Some(i);
            }
            i = i + 1;
        }
        proof {
            if self.services().contains_key(name@) {
                let j = views_of(self.names@).index_of(name@);
                assert(views_of(self.names@)[j] == self.names@[j]@);
            }
        }
        None
    }

    /// The name carried by the bytes of a C string, if there are bytes and
    /// they are valid UTF-8; otherwise the error is recorded.
    fn read_name(errors: &mut LastError, name: Option<&[u8]>) -> (r: Option<String>)
        ensures
            name is None ==> r is None && final(errors).last() == Some(sanitized("Type name is null"@)),
            name matches Some(b) ==> (r is Some <==> valid_utf8(b@)),
            name matches Some(b) && !valid_utf8(b@) ==> final(errors).last() == Some(
                sanitized("Type name is not valid UTF-8"@),
            ),
            r matches Some(s) ==> name matches Some(b) && encode_utf8(s@) == b@ && *final(errors)
                == *old(errors),
    {
        match name {
            None => {
                errors.set("Type name is null");
                None
            },
            Some(bytes) => match utf8_str(bytes) {
                Some(s) => Some(String::from_str(s)),
                None => {
                    errors.set("Type name is not valid UTF-8");
                    None
                },
            },
        }
    }

    /// Register data under a name, unless the name is taken.
    ///
    /// `name` holds the bytes of the name (`None` for a null pointer). `data`
    /// holds the `data_len` data bytes (`None` for a null pointer, accepted
    /// only with `data_len == 0`).
    pub fn register_singleton(
        &mut self,
        errors: &mut LastError,
        name: Option<&[u8]>,
        data: Option<&[u8]>,
        data_len: usize,
    ) -> (r: DiErrorCode)
        requires
            old(self).wf(),
            data matches Some(d) ==> d@.len() == data_len,
        ensures
            final(self).wf(),
            name is None ==> r == DiErrorCode::InvalidArgument && final(errors).last() == Some(
                sanitized("Type name is null"@),
            ),
            name matches Some(b) && !valid_utf8(b@) ==> r == DiErrorCode::InvalidArgument && final(errors).last() == Some(sanitized("Type name is not valid UTF-8"@)),
            name matches Some(b) && valid_utf8(b@) && data is None && data_len > 0 ==> r
                == DiErrorCode::InvalidArgument && final(errors).last() == Some(
                sanitized("Data pointer is null but length is non-zero"@),
            ),
            name matches Some(b) ==> (valid_utf8(b@) && !(data is None && data_len > 0) ==> {
                let n = vstd::utf8::decode_utf8(b@);
                let payload = match data {
                    Some(d) => d@,
                    None => Seq::<u8>::empty(),
                };
                if old(self).services().contains_key(n) {
                    &&& r == DiErrorCode::AlreadyRegistered
                    &&& final(errors).last() == Some(sanitized(already_registered_message(n)))
                    &&& final(self).services() == old(self).services()
                } else {
                    &&& r == DiErrorCode::Success
                    &&& *final(errors) == *old(errors)
                    &&& final(self).services() == old(self).services().insert(n, payload)
                }
            }),
            r != DiErrorCode::Success ==> final(self).services() == old(self).services(),
            name matches Some(b) ==> (valid_utf8(b@) && !(data is None && data_len > 0)
                ==> (final(self).services(), r) == register_outcome(
                old(self).services(),
                vstd::utf8::decode_utf8(b@),
                match data {
                    Some(d) => d@,
                    None => Seq::<u8>::empty(),
                },
            )),
    {
        let key = match Self::read_name(errors, name) {
            Some(k) => k,
            None => {
                return DiErrorCode::InvalidArgument;
            },
        };
        proof {
            vstd::utf8::encode_utf8_decode_utf8(key@);
        }
        let payload: Vec<u8> = match data {
            Some(d) => copy_bytes(d),
            None => {
                if data_len > 0 {
                    errors.set("Data pointer is null but length is non-zero");
                    return DiErrorCode::InvalidArgument;
                }
                Vec::new()
            },
        };
        match self.find(&key) {
            Some(_) => {
                let msg = service_message(key.as_str(), "' is already registered");
                errors.set(msg.as_str());
                DiErrorCode::AlreadyRegistered
            },
            None => {
                let ghost old_self = *self;
                let ghost kv = key@;
                let ghost pv = payload@;
                self.names.push(key);
                self.payloads.push(payload);
                proof {
                    let v = views_of(self.names@);
                    assert(v =~= views_of(old_self.names@).push(kv));
                    assert forall|k: Seq<char>| #[trigger]
                        self.services().contains_key(k) implies self.services()[k]
                        == old_self.services().insert(kv, pv)[k] by {
                        let j = v.index_of(k);
                        assert(v[j] == k);
                        if k == kv {
                            assert(j == old_self.names@.len());
                        } else {
                            assert(j < old_self.names@.len());
                            old_self.lemma_entry_at(j);
                        }
                    }
                    assert forall|k: Seq<char>|
                        old_self.services().insert(kv, pv).contains_key(
                            k,
                        ) implies #[trigger] self.services().contains_key(k) by {
                        if k != kv {
                            let j = views_of(old_self.names@).index_of(k);
                            assert(v[j] == k);
                        } else {
                            assert(v[old_self.names@.len() as int] == k);
                        }
                    }
                    assert(self.services() =~= old_self.services().insert(kv, pv));
                }
                DiErrorCode::Success
            },
        }
    }

    /// Register JSON text under a name. The text must be present and valid
    /// UTF-8; it is then registered as the data, as
    /// [`DiContainer::register_singleton`] does.
    pub fn register_singleton_json(
        &mut self,
        errors: &mut LastError,
        name: Option<&[u8]>,
        json: Option<&[u8]>,
    ) -> (r: DiErrorCode)
        requires
            old(self).wf(),
        ensures
            final(self).wf(),
            json is None ==> r == DiErrorCode::InvalidArgument && final(errors).last() == Some(
                sanitized("JSON data is null"@),
            ) && final(self).services() == old(self).services(),
            json matches Some(j) && !valid_utf8(j@) ==> r == DiErrorCode::InvalidArgument && final(
                errors).last() == Some(sanitized("JSON data is not valid UTF-8"@)) && final(
                self).services() == old(self).services(),
            json matches Some(j) && valid_utf8(j@) && name is None ==> r
                == DiErrorCode::InvalidArgument && final(errors).last() == Some(
                sanitized("Type name is null"@),
            ),
            json matches Some(j) ==> (valid_utf8(j@) ==> (name matches Some(b) ==> (!valid_utf8(b@)
                ==> r == DiErrorCode::InvalidArgument && final(errors).last() == Some(
                sanitized("Type name is not valid UTF-8"@),
            )))),
            json matches Some(j) ==> (valid_utf8(j@) ==> (name matches Some(b) ==> (valid_utf8(b@)
                ==> {
                let n = vstd::utf8::decode_utf8(b@);
                if old(self).services().contains_key(n) {
                    &&& r == DiErrorCode::AlreadyRegistered
                    &&& final(errors).last() == Some(sanitized(already_registered_message(n)))
                    &&& final(self).services() == old(self).services()
                } else {
                    &&& r == DiErrorCode::Success
                    &&& *final(errors) == *old(errors)
                    &&& final(self).services() == old(self).services().insert(n, j@)
                }
            }))),
            r != DiErrorCode::Success ==> final(self).services() == old(self).services(),
    {
        match reject_json_payload(errors, json) {
            Some(code) => code,
            None => {
                let j = json.unwrap();
                self.register_singleton(errors, name, Some(j), j.len())
            },
        }
    }

    /// Look up a service by name.
    pub fn resolve(&self, errors: &mut LastError, name: Option<&[u8]>) -> (r: DiResult)
        requires
            self.wf(),
        ensures
            name is None ==> r.code == DiErrorCode::InvalidArgument && r.service is None && final(
                errors).last() == Some(sanitized("Type name is null"@)),
            name matches Some(b) ==> (!valid_utf8(b@) ==> r.code == DiErrorCode::InvalidArgument
                && r.service is None && final(errors).last() == Some(
                sanitized("Type name is not valid UTF-8"@),
            )),
            name matches Some(b) ==> (valid_utf8(b@) ==> {
                let n = vstd::utf8::decode_utf8(b@);
                if self.services().contains_key(n) {
                    &&& r.code == DiErrorCode::Success
                    &&& r.service matches Some(svc) && svc.name_view() == n && svc.data_view()
                        == self.services()[n]
                    &&& *final(errors) == *old(errors)
                } else {
                    &&& r.code == DiErrorCode::NotFound
                    &&& r.service is None
                    &&& final(errors).last() == Some(sanitized(not_found_message(n)))
                }
            }),
    {
        let key = match Self::read_name(errors, name) {
            Some(k) => k,
            None => {
                return DiResult { code: DiErrorCode::InvalidArgument, service: None };
            },
        };
        proof {
            vstd::utf8::encode_utf8_decode_utf8(key@);
        }
        match self.find(&key) {
            Some(i) => {
                proof {
                    self.lemma_entry_at(i as int);
                }
                let data = copy_bytes(self.payloads[i].as_slice());
                DiResult {
                    code: DiErrorCode::Success,
                    service: Some(DiService { name: key, data }),
                }
            },
            None => {
                let msg = service_message(key.as_str(), "' not found");
                errors.set(msg.as_str());
                DiResult { code: DiErrorCode::NotFound, service: None }
            },
        }
    }

    /// Look up a service by name and return its data as text. The data must
    /// be valid UTF-8 without zero bytes (so that it fits a C string).
    pub fn resolve_json(&self, errors: &mut LastError, name: Option<&[u8]>) -> (r: Option<String>)
        requires
            self.wf(),
        ensures
            name is None ==> r is None && final(errors).last() == Some(sanitized("Type name is null"@)),
            name matches Some(b) ==> (!valid_utf8(b@) ==> r is None && final(errors).last() == Some(
                sanitized("Type name is not valid UTF-8"@),
            )),
            name matches Some(b) ==> (valid_utf8(b@) ==> {
                let n = vstd::utf8::decode_utf8(b@);
                if !self.services().contains_key(n) {
                    r is None && final(errors).last() == Some(sanitized(not_found_message(n)))
                } else {
                    let d = self.services()[n];
                    if !valid_utf8(d) {
                        r is None && final(errors).last() == Some(
                            sanitized("Service data is not valid UTF-8"@),
                        )
                    } else if d.contains(0u8) {
                        r is None && final(errors).last() == Some(
                            sanitized("JSON string contains null bytes"@),
                        )
                    } else {
                        r matches Some(text) && encode_utf8(text@) == d && *final(errors) == *old(
                            errors)
                    }
                }
            }),
    {
        let key = match Self::read_name(errors, name) {
            Some(k) => k,
            None => {
                return None;
            },
        };
        proof {
            vstd::utf8::encode_utf8_decode_utf8(key@);
        }
        match self.find(&key) {
            Some(i) => {
                proof {
                    self.lemma_entry_at(i as int);
                }
                let data = self.payloads[i].as_slice();
                match utf8_str(data) {
                    Some(text) => {
                        if contains_nul(data) {
                            errors.set("JSON string contains null bytes");
                            None
                        } else {
                            Some(String::from_str(text))
                        }
                    },
                    None => {
                        errors.set("Service data is not valid UTF-8");
                        None
                    },
                }
            },
            None => {
                let msg = service_message(key.as_str(), "' not found");
                errors.set(msg.as_str());
                None
            },
        }
    }

    /// Whether a service is registered under a name: 1 if it is, 0 if not,
    /// -1 when the name is missing or not valid UTF-8, and then the error is
    /// recorded (as [`DiContainer::resolve`] records it).
    pub fn contains(&self, errors: &mut LastError, name: Option<&[u8]>) -> (r: i32)
        requires
            self.wf(),
        ensures
            name is None ==> r == -1 && final(errors).last() == Some(sanitized("Type name is null"@)),
            name matches Some(b) ==> (!valid_utf8(b@) ==> r == -1 && final(errors).last() == Some(
                sanitized("Type name is not valid UTF-8"@),
            )),
            name matches Some(b) ==> (valid_utf8(b@) ==> *final(errors) == *old(errors) && r
                == if self.services().contains_key(vstd::utf8::decode_utf8(b@)) {
                1i32
            } else {
                0i32
            }),
    {
        let key = match Self::read_name(errors, name) {
            Some(k) => k,
            None => {
                return -1;
            },
        };
        proof {
            vstd::utf8::encode_utf8_decode_utf8(key@);
        }
        if self.find(&key).is_some() {
            1
        } else {
            0
        }
    }

    /// Number of registered services.
    pub fn service_count(&self) -> (r: i64)
        requires
            self.wf(),
        ensures
            r == self.services().len() as i64,
    {
        proof {
            self.lemma_len();
        }
        self.names.len() as i64
    }
}

/// JSON text registered through [`DiContainer::register_singleton_json`]
/// comes back unchanged from [`DiContainer::resolve_json`]: the stored bytes
/// are the UTF-8 encoding of the text, and the returned text is the one
/// whose encoding they are.
pub proof fn law_json_round_trip(text: Seq<char>, stored: Seq<u8>, returned: Seq<char>)
    requires
        stored == encode_utf8(text),
        encode_utf8(returned) == stored,
    ensures
        returned == text,
        valid_utf8(stored),
{
    vstd::utf8::encode_utf8_decode_utf8(text);
    vstd::utf8::encode_utf8_decode_utf8(returned);
    vstd::utf8::encode_utf8_valid_utf8(text);
}

/// A name given as the UTF-8 bytes of a string is registered, looked up and
/// reported under that string.
pub proof fn law_name_round_trip(name: Seq<char>, bytes: Seq<u8>)
    requires
        bytes == encode_utf8(name),
    ensures
        valid_utf8(bytes),
        vstd::utf8::decode_utf8(bytes) == name,
{
    vstd::utf8::encode_utf8_decode_utf8(name);
    vstd::utf8::encode_utf8_valid_utf8(name);
}

/// Every message the last-error slot holds is free of control characters,
/// so it can be handed out as a C string and written to logs verbatim.
pub proof fn law_last_error_printable(e: LastError, msg: Seq<char>)
    requires
        e.last() == Some(sanitized(msg)),
    ensures
        forall|i: int| 0 <= i < sanitized(msg).len() ==> !is_control(#[trigger] sanitized(msg)[i]),
        !sanitized(msg).contains('\0'),
{
    lemma_sanitized_has_no_control(msg);
    if sanitized(msg).contains('\0') {
        let i = choose|i: int| 0 <= i < sanitized(msg).len() && sanitized(msg)[i] == '\0';
        assert(is_control(sanitized(msg)[i]));
    }
}

/// Registrations of one name made one after another (as concurrent callers
/// make them, one at a time under the registry's write lock) have exactly
/// one winner: the first succeeds, every later one is refused with
/// `AlreadyRegistered`, and the name keeps the first payload.
pub proof fn law_first_registration_wins(
    maps: Seq<Map<Seq<char>, Seq<u8>>>,
    codes: Seq<DiErrorCode>,
    name: Seq<char>,
    payloads: Seq<Seq<u8>>,
)
    requires
        codes.len() >= 1,
        maps.len() == codes.len() + 1,
        payloads.len() == codes.len(),
        !maps[0].contains_key(name),
        forall|i: int|
            0 <= i < codes.len() ==> (maps[i + 1], codes[i]) == #[trigger] register_outcome(
                maps[i],
                name,
                payloads[i],
            ),
    ensures
        codes[0] == DiErrorCode::Success,
        forall|i: int| 1 <= i < codes.len() ==> #[trigger] codes[i] == DiErrorCode::AlreadyRegistered,
        forall|i: int| 1 <= i < maps.len() ==> #[trigger] maps[i] == maps[0].insert(name, payloads[0]),
    decreases codes.len(),
{
    assert(register_outcome(maps[0], name, payloads[0]) == (maps[1], codes[0]));
    if codes.len() > 1 {
        let n = codes.len() - 1;
        law_first_registration_wins(maps.drop_last(), codes.drop_last(), name, payloads.drop_last());
        assert(maps.drop_last()[n] == maps[n]);
        assert(register_outcome(maps[n], name, payloads[n]) == (maps[n + 1], codes[n]));
        assert forall|i: int| 1 <= i < codes.len() implies #[trigger] codes[i] == DiErrorCode::AlreadyRegistered by {
            if i < n {
                assert(codes.drop_last()[i] == codes[i]);
            }
        }
        assert forall|i: int| 1 <= i < maps.len() implies #[trigger] maps[i] == maps[0].insert(name, payloads[0]) by {
            if i < n + 1 {
                assert(maps.drop_last()[i] == maps[i]);
            }
        }
    }
}

} // verus!
