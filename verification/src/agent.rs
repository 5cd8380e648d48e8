//! The agent's rules: it holds the user key in memory, serves requests with it, and
//! drops it on request or when it has not been used for a while.
//!
//! The agent itself moves bytes, talks to the desktop app and reads the store. What
//! to do next, and what to answer, is decided here. A key that leaves the state is
//! handed out, so that its memory can be wiped.

use crate::clock::reading;
use crate::crypto::{key_result, SymmetricKey};
use crate::error::{message_of, Error, ErrorView, Failure};
use crate::json::{json_text, Json, JsonView};
use crate::text::{opt_view, or_empty, str_eq};
use crate::transport::json_result;
use crate::vault::{field_shown, get_field_at, last_moment, list_with_key, listing, StageView};
use vstd::prelude::*;

verus! {

/// A request to the agent.
pub struct Request {
    pub cmd: String,
    pub id: Option<String>,
    pub field: Option<String>,
}

/// The mathematical view of a [`Request`].
pub struct RequestView {
    pub cmd: Seq<char>,
    pub id: Option<Seq<char>>,
    pub field: Option<Seq<char>>,
}

impl View for Request {
    type V = RequestView;

    open spec fn view(&self) -> RequestView {
        RequestView { cmd: self.cmd@, id: opt_view(self.id), field: opt_view(self.field) }
    }
}

impl Request {
    /// A request without arguments.
    pub fn new(cmd: &str) -> (r: Self)
        ensures
            r@ == (RequestView { cmd: cmd@, id: None, field: None }),
    {
        Request { cmd: cmd.to_owned(), id: None, field: None }
    }
}

/// The agent's answer.
pub struct Response {
    pub ok: bool,
    pub data: Option<String>,
    pub error: Option<String>,
}

/// The mathematical view of a [`Response`].
pub struct ResponseView {
    pub ok: bool,
    pub data: Option<Seq<char>>,
    pub error: Option<Seq<char>>,
}

impl View for Response {
    type V = ResponseView;

    open spec fn view(&self) -> ResponseView {
        ResponseView { ok: self.ok, data: opt_view(self.data), error: opt_view(self.error) }
    }
}

/// The answer that grants a request.
pub open spec fn granted(data: Option<Seq<char>>) -> ResponseView {
    ResponseView { ok: true, data, error: None }
}

/// The answer that tells of a failure, cause by cause.
pub open spec fn refused(e: ErrorView) -> ResponseView {
    ResponseView { ok: false, data: None, error: Some(message_of(e)) }
}

impl Response {
    /// The answer that grants a request.
    pub fn ok(data: Option<String>) -> (r: Self)
        ensures
            r@ == granted(opt_view(data)),
    {
        Response { ok: true, data, error: None }
    }

    /// The answer that tells of a failure.
    pub fn err(e: &Error) -> (r: Self)
        ensures
            r@ == refused(e@),
    {
        Response { ok: false, data: None, error: Some(e.message()) }
    }

    /// The answer to a line that is no request, with what is said of it.
    pub fn bad_request(text: String) -> (r: Self)
        ensures
            r@ == refused(Failure::BadRequest(text@)),
    {
        let e: Error = Failure::BadRequest(text);
        Response::err(&e)
    }
}

/// Whether the agent goes on after a connection.
#[derive(Debug, Clone, Copy, PartialEq, Eq, Structural)]
pub enum ConnOutcome {
    Continue,
    Stop,
}

/// The 64 bytes of the user key, and when it was last used, in nanoseconds on a
/// clock that does not go back.
pub struct KeyHolder {
    key: Vec<u8>,
    last_used: u128,
}

/// The mathematical view of a [`KeyHolder`].
pub struct HolderView {
    pub key: Seq<u8>,
    pub last_used: u128,
}

impl View for KeyHolder {
    type V = HolderView;

    closed spec fn view(&self) -> HolderView {
        HolderView { key: self.key@, last_used: self.last_used }
    }
}

impl KeyHolder {
    #[verifier::type_invariant]
    spec fn holds_a_key(self) -> bool {
        self.key@.len() == 64
    }

    /// Takes up a key.
    pub fn new(key: &SymmetricKey, now: u128) -> (r: Self)
        ensures
            r@ == (HolderView { key: key@, last_used: now }),
    {
        KeyHolder { key: key.to_bytes(), last_used: now }
    }

    /// The bytes of the key.
    pub fn bytes(&self) -> (r: &[u8])
        ensures
            r@ == self@.key,
            r@.len() == 64,
    {
        proof {
            use_type_invariant(self);
        }
        self.key.as_slice()
    }

    /// Gives up the bytes of the key.
    pub fn into_bytes(self) -> (r: Vec<u8>)
        ensures
            r@ == self@.key,
            r@.len() == 64,
    {
        proof {
            use_type_invariant(&self);
        }
        self.key
    }
}

/// The view of an optional holder.
pub open spec fn opt_holder(h: Option<KeyHolder>) -> Option<HolderView> {
    match h {
        Some(k) => Some(k@),
        None => None,
    }
}

/// What a request waits for.
pub enum Pending {
    /// Nothing but the key.
    Unlock,
    /// The list of items.
    List,
    /// A field of an item.
    Get(String, String),
}

/// The mathematical view of a [`Pending`].
pub enum PendingView {
    Unlock,
    List,
    Get(Seq<char>, Seq<char>),
}

impl View for Pending {
    type V = PendingView;

    open spec fn view(&self) -> PendingView {
        match self {
            Pending::Unlock => PendingView::Unlock,
            Pending::List => PendingView::List,
            Pending::Get(id, field) => PendingView::Get(id@, field@),
        }
    }
}

/// What the agent does next.
pub enum Next {
    /// Answers.
    Reply(Response, ConnOutcome),
    /// Obtains the user key from the desktop app.
    ObtainKey(Pending),
    /// Reads the store, for an answer with this key.
    ReadVault(Pending, SymmetricKey),
}

/// The mathematical view of a [`Next`].
pub enum NextView {
    Reply(ResponseView, ConnOutcome),
    ObtainKey(PendingView),
    ReadVault(PendingView, Seq<u8>),
}

impl View for Next {
    type V = NextView;

    open spec fn view(&self) -> NextView {
        match self {
            Next::Reply(r, o) => NextView::Reply(r@, *o),
            Next::ObtainKey(p) => NextView::ObtainKey(p@),
            Next::ReadVault(p, k) => NextView::ReadVault(p@, k@),
        }
    }
}

/// An answer after which the agent goes on.
pub open spec fn answered(r: ResponseView) -> NextView {
    NextView::Reply(r, ConnOutcome::Continue)
}

/// What is done for a pending request when the key is there.
pub open spec fn with_key(p: PendingView, key: Seq<u8>) -> NextView {
    if p is Unlock {
        answered(granted(Some("unlocked"@)))
    } else {
        NextView::ReadVault(p, key)
    }
}

/// What is pending for a request that needs the key; `None` for other requests.
pub open spec fn needs_key(req: RequestView) -> Option<PendingView> {
    if req.cmd == "unlock"@ {
        Some(PendingView::Unlock)
    } else if req.cmd == "list"@ {
        Some(PendingView::List)
    } else if req.cmd == "get"@ {
        Some(
            PendingView::Get(
                or_empty(req.id),
                match req.field {
                    Some(field) => field,
                    None => "password"@,
                },
            ),
        )
    } else {
        None
    }
}

/// The state with the key marked as used, where there is one.
pub open spec fn touched(s: Option<HolderView>, now: u128) -> Option<HolderView> {
    match s {
        Some(h) => Some(HolderView { key: h.key, last_used: now }),
        None => None,
    }
}

/// The word that tells whether the agent is unlocked.
pub open spec fn status_word(s: Option<HolderView>) -> Seq<char> {
    if s is Some {
        "unlocked"@
    } else {
        "locked"@
    }
}

/// What the agent does for a request: its state after it, the next thing to do, and
/// the key that has left the state.
pub open spec fn process_step(s: Option<HolderView>, req: RequestView, now: u128) -> (
    Option<HolderView>,
    NextView,
    Option<HolderView>,
) {
    if req.cmd == "status"@ {
        (
            s,
            answered(granted(Some(status_word(s)))),
            None,
        )
    } else if req.cmd == "lock"@ {
        (None, answered(granted(Some("locked"@))), s)
    } else if req.cmd == "stop"@ {
        (s, NextView::Reply(granted(Some("stopped"@)), ConnOutcome::Stop), None)
    } else {
        match needs_key(req) {
            Some(p) => match s {
                Some(h) => (touched(s, now), with_key(p, h.key), None),
                None => (s, NextView::ObtainKey(p), None),
            },
            None => (s, answered(refused(Failure::UnknownCommand(req.cmd))), None),
        }
    }
}

/// What the agent does when the attempt to obtain the key is over.
pub open spec fn key_step(
    s: Option<HolderView>,
    p: PendingView,
    key: Result<Seq<u8>, ErrorView>,
    now: u128,
) -> (Option<HolderView>, NextView, Option<HolderView>) {
    match key {
        Ok(k) => (Some(HolderView { key: k, last_used: now }), with_key(p, k), s),
        Err(e) => (s, answered(refused(e)), None),
    }
}

/// What the agent answers with the key and the store.
pub open spec fn vault_answer(
    p: PendingView,
    key: Seq<u8>,
    data: Result<JsonView, ErrorView>,
    clock: Result<u64, ErrorView>,
) -> ResponseView {
    match data {
        Err(e) => refused(e),
        Ok(d) => match p {
            PendingView::Unlock => granted(Some("unlocked"@)),
            PendingView::List => match listing(d, key) {
                Ok(list) => granted(Some(json_text(list))),
                Err(e) => refused(e),
            },
            PendingView::Get(id, field) => match field_shown(d, key, id, field, clock) {
                Ok(value) => granted(Some(value)),
                Err(e) => refused(e),
            },
        },
    }
}

/// Whether the key has not been used for longer than the timeout, in seconds.
pub open spec fn stale(s: Option<HolderView>, now: u128, timeout: u64) -> bool {
    s matches Some(h) && now - h.last_used > timeout * 1_000_000_000
}

/// The state after stale keys were dropped, and the key that has left it.
pub open spec fn reap_step(s: Option<HolderView>, now: u128, timeout: u64) -> (
    Option<HolderView>,
    Option<HolderView>,
) {
    if stale(s, now, timeout) {
        (None, s)
    } else {
        (s, None)
    }
}

/// The agent's state: the key, while it is unlocked.
pub struct State {
    holder: Option<KeyHolder>,
}

impl View for State {
    type V = Option<HolderView>;

    closed spec fn view(&self) -> Option<HolderView> {
        opt_holder(self.holder)
    }
}

impl State {
    /// The agent starts locked.
    pub fn new() -> (r: Self)
        ensures
            r@ is None,
    {
        State { holder: None }
    }

    /// Tells whether the key is there.
    pub fn is_unlocked(&self) -> (r: bool)
        ensures
            r == (self@ is Some),
    {
        self.holder.is_some()
    }

    /// The bytes of the key, while it is there.
    pub fn key_bytes(&self) -> (r: Option<&[u8]>)
        ensures
            r is Some <==> self@ is Some,
            r matches Some(b) ==> b@ == self@->0.key && b@.len() == 64,
    {
        match &self.holder {
            Some(h) => Some(h.bytes()),
            None => None,
        }
    }

    /// Drops the key. It is handed out for wiping.
    pub fn lock_now(&mut self) -> (r: Option<KeyHolder>)
        ensures
            final(self)@ is None,
            opt_holder(r) == old(self)@,
    {
        self.holder.take()
    }

    /// The key, if it is there; it counts as used.
    pub fn ensure_key(&mut self, now: u128) -> (r: Option<SymmetricKey>)
        ensures
            final(self)@ == touched(old(self)@, now),
            match r {
                Some(k) => old(self)@ matches Some(h) && k@ == h.key,
                None => old(self)@ is None,
            },
    {
        match self.holder.take() {
            Some(h) => {
                proof {
                    use_type_invariant(&h);
                }
                let raw: Vec<u8> = h.into_bytes();
                match SymmetricKey::from_bytes(raw.as_slice()) {
                    Ok(k) => {
                        self.holder = Some(KeyHolder { key: raw, last_used: now });
                        Some(k)
                    },
                    Err(_) => None,
                }
            },
            None => None,
        }
    }

    /// Decides what to do for a request. The second part of the result is the key
    /// that has left the state.
    pub fn process(&mut self, req: &Request, now: u128) -> (r: (Next, Option<KeyHolder>))
        ensures
            (final(self)@, r.0@, opt_holder(r.1)) == process_step(old(self)@, req@, now),
    {
        let cmd: &str = req.cmd.as_str();
        if str_eq(cmd, "status") {
            let word: String = if self.is_unlocked() {
                "unlocked".to_owned()
            } else {
                "locked".to_owned()
            };
            (Next::Reply(Response::ok(Some(word)), ConnOutcome::Continue), None)
        } else if str_eq(cmd, "lock") {
            let gone: Option<KeyHolder> = self.lock_now();
            (
                Next::Reply(Response::ok(Some("locked".to_owned())), ConnOutcome::Continue),
                gone,
            )
        } else if str_eq(cmd, "stop") {
            (Next::Reply(Response::ok(Some("stopped".to_owned())), ConnOutcome::Stop), None)
        } else {
            match pending_of(req) {
                Some(p) => match self.ensure_key(now) {
                    Some(k) => (go_on(p, k), None),
                    None => (Next::ObtainKey(p), None),
                },
                None => {
                    let e: Error = Failure::UnknownCommand(req.cmd.clone());
                    (Next::Reply(Response::err(&e), ConnOutcome::Continue), None)
                },
            }
        }
    }

    /// Takes up the key that was obtained, or the failure to obtain one. The second
    /// part of the result is a key that has been replaced.
    pub fn on_key(&mut self, pending: Pending, key: Result<SymmetricKey, Error>, now: u128) -> (r: (
        Next,
        Option<KeyHolder>,
    ))
        ensures
            (final(self)@, r.0@, opt_holder(r.1)) == key_step(
                old(self)@,
                pending@,
                key_result(key),
                now,
            ),
    {
        match key {
            Ok(k) => {
                let gone: Option<KeyHolder> = self.holder.take();
                self.holder = Some(KeyHolder::new(&k, now));
                (go_on(pending, k), gone)
            },
            Err(e) => (Next::Reply(Response::err(&e), ConnOutcome::Continue), None),
        }
    }

    /// Drops the key if it has not been used for longer than the timeout. It is
    /// handed out for wiping.
    pub fn reap(&mut self, now: u128, timeout: u64) -> (r: Option<KeyHolder>)
        ensures
            (final(self)@, opt_holder(r)) == reap_step(old(self)@, now, timeout),
            stale(old(self)@, now, timeout) ==> final(self)@ is None && opt_holder(r) == old(self)@,
            !stale(old(self)@, now, timeout) ==> final(self)@ == old(self)@ && r is None,
    {
        let due: bool = match &self.holder {
            Some(h) => now > h.last_used && now - h.last_used > timeout as u128 * 1_000_000_000,
            None => false,
        };
        if due {
            self.holder.take()
        } else {
            None
        }
    }
}

/// What is pending for a request that needs the key.
fn pending_of(req: &Request) -> (r: Option<Pending>)
    ensures
        (match r {
            Some(p) => Some(p@),
            None => None,
        }) == needs_key(req@),
{
    let cmd: &str = req.cmd.as_str();
    if str_eq(cmd, "unlock") {
        Some(Pending::Unlock)
    } else if str_eq(cmd, "list") {
        Some(Pending::List)
    } else if str_eq(cmd, "get") {
        let id: String = match &req.id {
            Some(id) => id.clone(),
            None => String::new(),
        };
        assert(req.id is None ==> id@ =~= Seq::empty());
        let field: String = match &req.field {
            Some(field) => field.clone(),
            None => "password".to_owned(),
        };
        Some(Pending::Get(id, field))
    } else {
        None
    }
}

/// What is done for a pending request when the key is there.
fn go_on(pending: Pending, key: SymmetricKey) -> (r: Next)
    ensures
        r@ == with_key(pending@, key@),
{
    match pending {
        Pending::Unlock => Next::Reply(
            Response::ok(Some("unlocked".to_owned())),
            ConnOutcome::Continue,
        ),
        p => Next::ReadVault(p, key),
    }
}

/// The answer with some text, or with an error.
fn response_of(r: Result<String, Error>) -> (resp: Response)
    ensures
        resp@ == (match r {
            Ok(s) => granted(Some(s@)),
            Err(e) => refused(e@),
        }),
{
    match r {
        Ok(s) => Response::ok(Some(s)),
        Err(e) => Response::err(&e),
    }
}

/// Answers a pending request with the key, the store or the failure to read it, and
/// the time in seconds since 1970 or what stands in its place.
pub fn on_vault(
    pending: &Pending,
    key: &SymmetricKey,
    data: Result<Json, Error>,
    clock: Result<u64, Error>,
) -> (r: (Response, ConnOutcome))
    ensures
        NextView::Reply(r.0@, r.1) == answered(
            vault_answer(pending@, key@, json_result(data), reading(clock)),
        ),
{
    let response: Response = match data {
        Err(e) => Response::err(&e),
        Ok(d) => match pending {
            Pending::Unlock => Response::ok(Some("unlocked".to_owned())),
            Pending::List => response_of(list_with_key(key, &d)),
            Pending::Get(id, field) => response_of(
                get_field_at(key, &d, id.as_str(), field.as_str(), clock),
            ),
        },
    };
    (response, ConnOutcome::Continue)
}

/// How often a new agent is tried to be reached.
pub const START_TRIES: u32 = 100;

/// The pause before each try, in milliseconds.
pub const START_PAUSE: u64 = 50;

/// How long a client waits for an answer, in milliseconds: longer than an unlock can
/// take.
pub const ANSWER_MILLIS: u64 = 180_000;

/// The pause before the next try to reach a new agent, after a number of tries; none
/// when there have been enough.
pub open spec fn pause_after(tries: nat) -> Option<nat> {
    if tries < START_TRIES {
        Some(START_PAUSE as nat)
    } else {
        None
    }
}

/// The pause before the next try to reach a new agent, after a number of tries; an
/// error when there have been enough.
pub fn next_try(tries: u32) -> (r: Result<u64, Error>)
    ensures
        match pause_after(tries as nat) {
            Some(pause) => r is Ok && r->Ok_0 == pause,
            None => r is Err && r->Err_0@ == Failure::<Seq<char>>::AgentNotStarted,
        },
        tries < START_TRIES ==> r is Ok && r->Ok_0 == START_PAUSE,
        tries >= START_TRIES ==> r is Err && r->Err_0@ == Failure::<Seq<char>>::AgentNotStarted,
{
    if tries < START_TRIES {
        Ok(START_PAUSE)
    } else {
        Err(Failure::AgentNotStarted)
    }
}

/// The milliseconds spent on pauses when a new agent has been tried `n` times, as
/// far as there are so many tries.
pub open spec fn pauses(n: nat) -> nat
    decreases n,
{
    if n == 0 {
        0
    } else {
        pauses((n - 1) as nat) + if n <= START_TRIES {
            START_PAUSE as nat
        } else {
            0
        }
    }
}

/// A new agent is waited for at most five seconds.
pub proof fn lemma_start_bounded(n: nat)
    ensures
        n <= START_TRIES ==> pauses(n) == START_PAUSE * n,
        pauses(n) <= 5000,
    decreases n,
{
    if n > 0 {
        lemma_start_bounded((n - 1) as nat);
    }
}

/// A request that the agent does not know changes nothing.
pub proof fn lemma_unknown_command(s: Option<HolderView>, req: RequestView, now: u128)
    requires
        req.cmd != "status"@,
        req.cmd != "lock"@,
        req.cmd != "stop"@,
        req.cmd != "unlock"@,
        req.cmd != "list"@,
        req.cmd != "get"@,
    ensures
        process_step(s, req, now) == (
            s,
            answered(refused(Failure::UnknownCommand(req.cmd))),
            None::<HolderView>,
        ),
{
}

/// Asking for the status changes nothing and tells the truth.
pub proof fn lemma_status(s: Option<HolderView>, req: RequestView, now: u128)
    requires
        req.cmd == "status"@,
    ensures
        process_step(s, req, now) == (
            s,
            answered(granted(Some(status_word(s)))),
            None::<HolderView>,
        ),
{
}

/// After a request to lock the agent is locked, and the key it held is handed out.
pub proof fn lemma_lock(s: Option<HolderView>, req: RequestView, now: u128)
    requires
        req.cmd == "lock"@,
    ensures
        process_step(s, req, now).0 is None,
        process_step(s, req, now).2 == s,
{
    reveal_strlit("status");
    reveal_strlit("lock");
    assert("status"@.len() != "lock"@.len());
}

/// With the key obtained the agent is unlocked, and says so.
pub proof fn lemma_unlock(
    s: Option<HolderView>,
    p: PendingView,
    key: Seq<u8>,
    now: u128,
    req: RequestView,
    later: u128,
)
    requires
        req.cmd == "status"@,
    ensures
        ({
            let after = key_step(s, p, Ok(key), now).0;
            &&& after == Some(HolderView { key, last_used: now })
            &&& process_step(after, req, later).1 == answered(granted(Some("unlocked"@)))
        }),
{
}

/// A failed attempt to obtain the key leaves the agent as it was, ready for the
/// next request; the answer tells the whole chain of causes.
pub proof fn lemma_failed_unlock(s: Option<HolderView>, p: PendingView, e: ErrorView, now: u128)
    ensures
        key_step(s, p, Err(e), now) == (
            s,
            answered(
                ResponseView { ok: false, data: None, error: Some(message_of(e)) },
            ),
            None::<HolderView>,
        ),
{
}

/// No key is lost sight of: one that the state held before a request is still in
/// it afterwards or is handed out, and one that is handed out is not kept.
pub proof fn lemma_keys_accounted_for(s: Option<HolderView>, req: RequestView, now: u128)
    ensures
        ({
            let (after, _, gone) = process_step(s, req, now);
            &&& s is Some ==> (after is Some && after->0.key == s->0.key && gone is None) || (
            after is None && gone == s)
            &&& s is None ==> after is None && gone is None
        }),
{
}

/// A request served with the key counts as use: the key is not dropped before the
/// timeout has passed once more.
pub proof fn lemma_use_keeps_key(
    s: Option<HolderView>,
    req: RequestView,
    now: u128,
    later: u128,
    timeout: u64,
)
    requires
        needs_key(req) is Some,
        process_step(s, req, now).0 is Some,
        later - now <= timeout * 1_000_000_000,
    ensures
        !stale(process_step(s, req, now).0, later, timeout),
{
    reveal_strlit("status");
    reveal_strlit("lock");
    reveal_strlit("stop");
    reveal_strlit("unlock");
    reveal_strlit("list");
    reveal_strlit("get");
    assert("unlock"@[0] == 'u' && "list"@[1] == 'i' && "get"@[0] == 'g');
    assert("status"@[0] == 's' && "stop"@[0] == 's' && "lock"@[1] == 'o' && "lock"@[0] == 'l');
}

pub(crate) proof fn lemma_command_names()
    ensures
        "status"@ != "lock"@ && "status"@ != "stop"@ && "status"@ != "unlock"@,
        "status"@ != "list"@ && "status"@ != "get"@,
        "lock"@ != "stop"@ && "lock"@ != "unlock"@ && "lock"@ != "list"@ && "lock"@ != "get"@,
        "stop"@ != "unlock"@ && "stop"@ != "list"@ && "stop"@ != "get"@,
        "unlock"@ != "list"@ && "unlock"@ != "get"@ && "list"@ != "get"@,
{
    reveal_strlit("status");
    reveal_strlit("lock");
    reveal_strlit("stop");
    reveal_strlit("unlock");
    reveal_strlit("list");
    reveal_strlit("get");
    assert("status"@.len() == 6 && "unlock"@.len() == 6 && "get"@.len() == 3);
    assert("status"@[0] == 's' && "unlock"@[0] == 'u' && "stop"@[0] == 's');
    assert("stop"@.len() == 4 && "lock"@.len() == 4 && "list"@.len() == 4);
    assert("lock"@[0] == 'l' && "list"@[0] == 'l' && "lock"@[1] == 'o' && "list"@[1] == 'i');
}

/// The status is `unlocked` while a key is there and `locked` otherwise.
pub proof fn lemma_status_words(h: HolderView, req: RequestView, now: u128)
    requires
        req.cmd == "status"@,
    ensures
        process_step(Some(h), req, now) == (
            Some(h),
            NextView::Reply(
                ResponseView { ok: true, data: Some("unlocked"@), error: None },
                ConnOutcome::Continue,
            ),
            None::<HolderView>,
        ),
        process_step(None, req, now) == (
            None::<HolderView>,
            NextView::Reply(
                ResponseView { ok: true, data: Some("locked"@), error: None },
                ConnOutcome::Continue,
            ),
            None::<HolderView>,
        ),
{
}

/// A request to lock takes the key out of the state and is granted, a request to stop is
/// granted and is the only one after which the agent does not go on.
pub proof fn lemma_lock_and_stop(s: Option<HolderView>, req: RequestView, now: u128)
    ensures
        req.cmd == "lock"@ ==> process_step(s, req, now) == (
            None::<HolderView>,
            NextView::Reply(
                ResponseView { ok: true, data: Some("locked"@), error: None },
                ConnOutcome::Continue,
            ),
            s,
        ),
        req.cmd == "stop"@ ==> process_step(s, req, now) == (
            s,
            NextView::Reply(
                ResponseView { ok: true, data: Some("stopped"@), error: None },
                ConnOutcome::Stop,
            ),
            None::<HolderView>,
        ),
        process_step(s, req, now).1 matches NextView::Reply(_, outcome) ==> (outcome is Stop
            <==> req.cmd == "stop"@),
{
    lemma_command_names();
}

/// An unlocked agent serves a request with the key it holds, which counts as used: the
/// list and the fields from the store, an unlock at once.
pub proof fn lemma_served_unlocked(
    h: HolderView,
    req: RequestView,
    id: Seq<char>,
    field: Seq<char>,
    now: u128,
)
    ensures
        req.cmd == "list"@ ==> process_step(Some(h), req, now) == (
            Some(HolderView { key: h.key, last_used: now }),
            NextView::ReadVault(PendingView::List, h.key),
            None::<HolderView>,
        ),
        req.cmd == "get"@ && req.id == Some(id) && req.field == Some(field) ==> process_step(
            Some(h),
            req,
            now,
        ) == (
            Some(HolderView { key: h.key, last_used: now }),
            NextView::ReadVault(PendingView::Get(id, field), h.key),
            None::<HolderView>,
        ),
        req.cmd == "unlock"@ ==> process_step(Some(h), req, now) == (
            Some(HolderView { key: h.key, last_used: now }),
            NextView::Reply(
                ResponseView { ok: true, data: Some("unlocked"@), error: None },
                ConnOutcome::Continue,
            ),
            None::<HolderView>,
        ),
{
    lemma_command_names();
}

/// A locked agent obtains the key first, and keeps in mind what was asked for: the list
/// stays a list, and a field stays that field of that item.
pub proof fn lemma_served_locked(
    req: RequestView,
    id: Seq<char>,
    field: Seq<char>,
    now: u128,
)
    ensures
        req.cmd == "list"@ ==> process_step(None, req, now) == (
            None::<HolderView>,
            NextView::ObtainKey(PendingView::List),
            None::<HolderView>,
        ),
        req.cmd == "get"@ && req.id == Some(id) && req.field == Some(field) ==> process_step(
            None,
            req,
            now,
        ) == (
            None::<HolderView>,
            NextView::ObtainKey(PendingView::Get(id, field)),
            None::<HolderView>,
        ),
        req.cmd == "unlock"@ ==> process_step(None, req, now) == (
            None::<HolderView>,
            NextView::ObtainKey(PendingView::Unlock),
            None::<HolderView>,
        ),
{
    lemma_command_names();
}

/// A request for a field that names no field asks for the password, and one that names
/// no item for the item with the empty id.
pub proof fn lemma_get_defaults(
    s: Option<HolderView>,
    id: Option<Seq<char>>,
    field: Option<Seq<char>>,
    now: u128,
)
    ensures
        process_step(s, (RequestView { cmd: "get"@, id, field: None }), now) == process_step(
            s,
            (RequestView { cmd: "get"@, id, field: Some("password"@) }),
            now,
        ),
        process_step(s, (RequestView { cmd: "get"@, id: None, field }), now) == process_step(
            s,
            (RequestView { cmd: "get"@, id: Some(Seq::empty()), field }),
            now,
        ),
{
}

/// Being locked only delays a request: once the key is there, the agent is in the state
/// and does the very thing that it would have been in and done had it held the key.
pub proof fn lemma_locked_then_key(req: RequestView, key: Seq<u8>, before: u128, now: u128)
    requires
        req.cmd == "unlock"@ || req.cmd == "list"@ || req.cmd == "get"@,
    ensures
        process_step(None, req, now).1 matches NextView::ObtainKey(p) && {
            let held = process_step(Some(HolderView { key, last_used: before }), req, now);
            &&& key_step(None, p, Ok(key), now).0 == held.0
            &&& key_step(None, p, Ok(key), now).1 == held.1
        },
{
    lemma_command_names();
}

/// With the key obtained, what was pending is done with that key; a key that it replaces
/// is handed out.
pub proof fn lemma_key_obtained(
    s: Option<HolderView>,
    key: Seq<u8>,
    id: Seq<char>,
    field: Seq<char>,
    now: u128,
)
    ensures
        key_step(s, PendingView::List, Ok(key), now) == (
            Some(HolderView { key, last_used: now }),
            NextView::ReadVault(PendingView::List, key),
            s,
        ),
        key_step(s, PendingView::Get(id, field), Ok(key), now) == (
            Some(HolderView { key, last_used: now }),
            NextView::ReadVault(PendingView::Get(id, field), key),
            s,
        ),
        key_step(s, PendingView::Unlock, Ok(key), now) == (
            Some(HolderView { key, last_used: now }),
            NextView::Reply(
                ResponseView { ok: true, data: Some("unlocked"@), error: None },
                ConnOutcome::Continue,
            ),
            s,
        ),
{
}

/// The answers from the store: the list as its compact text, a field as it is shown, and
/// every failure with its message.
pub proof fn lemma_vault_answers(
    key: Seq<u8>,
    data: JsonView,
    id: Seq<char>,
    field: Seq<char>,
    clock: Result<u64, ErrorView>,
    p: PendingView,
    e: ErrorView,
)
    ensures
        listing(data, key) matches Ok(list) ==> vault_answer(
            PendingView::List,
            key,
            Ok::<JsonView, ErrorView>(data),
            clock,
        ) == (ResponseView { ok: true, data: Some(json_text(list)), error: None }),
        listing(data, key) matches Err(why) ==> vault_answer(
            PendingView::List,
            key,
            Ok::<JsonView, ErrorView>(data),
            clock,
        ) == (ResponseView { ok: false, data: None, error: Some(message_of(why)) }),
        field_shown(data, key, id, field, clock) matches Ok(value) ==> vault_answer(
            PendingView::Get(id, field),
            key,
            Ok::<JsonView, ErrorView>(data),
            clock,
        ) == (ResponseView { ok: true, data: Some(value), error: None }),
        field_shown(data, key, id, field, clock) matches Err(why) ==> vault_answer(
            PendingView::Get(id, field),
            key,
            Ok::<JsonView, ErrorView>(data),
            clock,
        ) == (ResponseView { ok: false, data: None, error: Some(message_of(why)) }),
        vault_answer(PendingView::Unlock, key, Ok::<JsonView, ErrorView>(data), clock) == (
        ResponseView { ok: true, data: Some("unlocked"@), error: None }),
        vault_answer(p, key, Err::<JsonView, ErrorView>(e), clock) == (ResponseView {
            ok: false,
            data: None,
            error: Some(message_of(e)),
        }),
{
}

/// A request that is not known, and a line that is no request, are refused with the
/// words that were not understood.
pub proof fn lemma_refusals(s: Option<HolderView>, req: RequestView, now: u128, text: Seq<char>)
    requires
        req.cmd != "status"@ && req.cmd != "lock"@ && req.cmd != "stop"@,
        req.cmd != "unlock"@ && req.cmd != "list"@ && req.cmd != "get"@,
    ensures
        process_step(s, req, now) == (
            s,
            NextView::Reply(
                ResponseView {
                    ok: false,
                    data: None,
                    error: Some("unknown command: "@ + req.cmd),
                },
                ConnOutcome::Continue,
            ),
            None::<HolderView>,
        ),
        refused(Failure::BadRequest(text)) == (ResponseView {
            ok: false,
            data: None,
            error: Some("bad request: "@ + text),
        }),
{
}

/// A key is dropped when more than the timeout has passed since it was last used, and not
/// before; there is nothing to drop while the agent is locked.
pub proof fn lemma_stale(key: Seq<u8>, last_used: u128, passed: u128, timeout: u64)
    requires
        last_used + passed <= u128::MAX,
    ensures
        stale(
            Some(HolderView { key, last_used }),
            (last_used + passed) as u128,
            timeout,
        ) <==> passed > timeout * 1_000_000_000,
        !stale(None, passed, timeout),
        !stale(Some(HolderView { key, last_used: (last_used + passed) as u128 }), last_used, timeout),
{
}

/// A new agent is tried a hundred times, each time after a twentieth of a second.
pub proof fn lemma_pause_after(tries: nat)
    ensures
        tries < 100 ==> pause_after(tries) == Some(50nat),
        tries >= 100 ==> pause_after(tries) is None,
        pauses(tries + 1) == pauses(tries) + match pause_after(tries) {
            Some(pause) => pause,
            None => 0,
        },
{
}

/// A key that was not used for longer than the timeout leaves the state and is handed out;
/// any other stays as it is.
pub proof fn lemma_reap(key: Seq<u8>, last_used: u128, now: u128, timeout: u64)
    ensures
        now > last_used + timeout * 1_000_000_000 ==> reap_step(
            Some(HolderView { key, last_used }),
            now,
            timeout,
        ) == (None::<HolderView>, Some(HolderView { key, last_used })),
        now <= last_used + timeout * 1_000_000_000 ==> reap_step(
            Some(HolderView { key, last_used }),
            now,
            timeout,
        ) == (Some(HolderView { key, last_used }), None::<HolderView>),
        reap_step(None, now, timeout) == (None::<HolderView>, None::<HolderView>),
{
}

/// A client waits three minutes for an answer, longer than any unlock takes.
pub proof fn lemma_client_outwaits_unlock(stage: StageView)
    ensures
        ANSWER_MILLIS == 3 * 60 * 1000,
        last_moment(stage, 0) < ANSWER_MILLIS,
{
}

} // verus!
