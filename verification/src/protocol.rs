//! The desktop app's command protocol, as far as a biometric unlock needs it.
//!
//! The handshake: over the socket `setupEncryption` is sent at once, over the
//! native-messaging proxy when `connected` has come. The desktop app answers with
//! a session key wrapped for the public key that was sent. After that, every
//! command travels as an EncString under the session key; the command carries a
//! fresh `messageId` and the `timestamp`, and the `message` that carries the
//! EncString spells it out both as one string and in parts.
//!
//! The types here decide what is to be sent and what a frame means. The caller
//! moves the frames.

use crate::clock::now_ms;
use crate::crypto::{can_seal, decrypted, enc_string, random_iv, sealable, sealed, unwrapped_key};
use crate::crypto::{EncParts, EncPartsView, KeyPair, SymmetricKey};
use crate::crypto::{pkcs8_bits, pkcs8_fault, public_key_text, text_result, KEY_PAIR_BITS};
use crate::error::{Error, ErrorView, Failure};
use crate::json::{field, json_of_bytes, json_text, lemma_with_field, lemma_with_field_writable};
use crate::json::{max_levels, opt_json, parse, round_trips, text_field, text_of, with_field, within, writable};
use crate::json::{Json, JsonView};
use crate::text::{guid, opt_view, rejoined, str_eq};
use crate::transport::TransportKind;
use vstd::prelude::*;
use vstd::utf8::encode_utf8;

verus! {

/// The command that an unencrypted frame names; empty if it names none.
pub open spec fn command_of(frame: JsonView) -> Seq<char> {
    match text_field(frame, "command"@) {
        Some(c) => c,
        None => Seq::empty(),
    }
}

/// The EncString in the `message` of a frame: the message itself where it is a
/// string; in an object its `encryptedString`, else the one made of `iv`, `data`
/// and `mac`.
pub open spec fn message_enc_string(message: Option<JsonView>) -> Option<Seq<char>> {
    match message {
        Some(JsonView::Str(s)) => Some(s),
        Some(JsonView::Object(members)) => {
            let m = JsonView::Object(members);
            match text_field(m, "encryptedString"@) {
                Some(s) => Some(s),
                None => match (
                    text_field(m, "iv"@),
                    text_field(m, "data"@),
                    text_field(m, "mac"@),
                ) {
                    (Some(iv), Some(data), Some(mac)) => Some(
                        enc_string(EncPartsView { iv, data, mac }),
                    ),
                    _ => None,
                },
            }
        },
        _ => None,
    }
}

/// The command that a frame names.
fn frame_command(frame: &Json) -> (r: &str)
    ensures
        r@ == command_of(frame@),
{
    match frame.text("command") {
        Some(c) => c,
        None => {
            proof {
                reveal_strlit("");
                assert(""@ =~= Seq::<char>::empty());
            }
            ""
        },
    }
}

/// Takes the EncString from the `message` of a reply.
pub fn encstring_from_message(message: Option<&Json>) -> (r: Option<String>)
    ensures
        opt_view(r) == message_enc_string(opt_json(message)),
{
    match message {
        Some(m) => match m {
            Json::Str(s) => Some(s.clone()),
            Json::Object(_) => {
                if let Some(s) = m.text("encryptedString") {
                    return Some(s.to_owned());
                }
                match (m.text("iv"), m.text("data"), m.text("mac")) {
                    (Some(iv), Some(data), Some(mac)) => {
                        let parts: EncParts = EncParts {
                            iv: iv.to_owned(),
                            data: data.to_owned(),
                            mac: mac.to_owned(),
                        };
                        Some(parts.to_enc_string())
                    },
                    _ => None,
                }
            },
            _ => None,
        },
        None => None,
    }
}

/// `uuid::Uuid::new_v4` as text: a random identifier in the form of a GUID.
#[verifier::external_body]
fn random_app_id() -> (r: String)
    ensures
        guid(r@),
{
    uuid::Uuid::new_v4().to_string()
}

/// The message that asks the desktop app for a session key.
pub open spec fn setup_message(
    app_id: Seq<char>,
    user_id: Seq<char>,
    public_key: Seq<char>,
    timestamp: i64,
) -> JsonView {
    let command = with_field(JsonView::Null, "command"@, JsonView::Str("setupEncryption"@));
    let keyed = with_field(command, "publicKey"@, JsonView::Str(public_key));
    let named = with_field(keyed, "userId"@, JsonView::Str(user_id));
    let counted = with_field(named, "messageId"@, JsonView::Number(Some(0)));
    let stamped = with_field(counted, "timestamp"@, JsonView::Number(Some(timestamp as i128)));
    with_field(
        with_field(JsonView::Null, "appId"@, JsonView::Str(app_id)),
        "message"@,
        stamped,
    )
}

/// A handshake that is under way.
pub struct Handshake {
    kind: TransportKind,
    app_id: String,
    user_id: String,
    pair: KeyPair,
    public_key: String,
    sent: bool,
}

/// The mathematical view of a [`Handshake`]. The pair is given by its PKCS#8
/// document.
pub struct HandshakeView {
    pub kind: TransportKind,
    pub app_id: Seq<char>,
    pub user_id: Seq<char>,
    pub pair: Seq<u8>,
    pub public_key: Seq<char>,
    pub sent: bool,
}

impl View for Handshake {
    type V = HandshakeView;

    closed spec fn view(&self) -> HandshakeView {
        HandshakeView {
            kind: self.kind,
            app_id: self.app_id@,
            user_id: self.user_id@,
            pair: self.pair@,
            public_key: self.public_key@,
            sent: self.sent,
        }
    }
}

/// The mathematical view of a [`Session`].
pub struct SessionView {
    pub app_id: Seq<char>,
    pub user_id: Seq<char>,
    pub key: Seq<u8>,
    pub next_message_id: i64,
}

/// An established channel to the desktop app.
pub struct Session {
    app_id: String,
    user_id: String,
    key: SymmetricKey,
    next_message_id: i64,
}

impl View for Session {
    type V = SessionView;

    closed spec fn view(&self) -> SessionView {
        SessionView {
            app_id: self.app_id@,
            user_id: self.user_id@,
            key: self.key@,
            next_message_id: self.next_message_id,
        }
    }
}

/// What a frame means for a handshake.
pub enum Progress {
    /// Nothing yet.
    Wait,
    /// This message is to be sent.
    Send(Json),
    /// The channel stands.
    Established(Session),
    /// There will be no channel.
    Failed(Error),
}

/// The mathematical view of a [`Progress`].
pub enum ProgressView {
    Wait,
    Send(JsonView),
    Established(SessionView),
    Failed(ErrorView),
}

impl View for Progress {
    type V = ProgressView;

    open spec fn view(&self) -> ProgressView {
        match self {
            Progress::Wait => ProgressView::Wait,
            Progress::Send(j) => ProgressView::Send(j@),
            Progress::Established(s) => ProgressView::Established(s@),
            Progress::Failed(e) => ProgressView::Failed(e@),
        }
    }
}

/// The setup message of a handshake at a time.
pub open spec fn setup_of(h: HandshakeView, timestamp: i64) -> JsonView {
    setup_message(h.app_id, h.user_id, h.public_key, timestamp)
}

/// What happens when the connection stands: over the socket the setup message
/// goes out at once.
pub open spec fn opening(h: HandshakeView, timestamp: i64) -> (HandshakeView, Option<JsonView>) {
    if h.kind == TransportKind::DirectSocket && !h.sent {
        (HandshakeView { sent: true, ..h }, Some(setup_of(h, timestamp)))
    } else {
        (h, None)
    }
}

/// The wrapped session key in a reply to the setup message: `sharedSecret`, or
/// `sharedKey` where that is missing.
pub open spec fn wrapped_key(frame: JsonView) -> Option<Seq<char>> {
    match field(frame, "sharedSecret"@) {
        Some(v) => text_of(Some(v)),
        None => text_field(frame, "sharedKey"@),
    }
}

/// What a reply to the setup message leads to.
pub open spec fn setup_reply(h: HandshakeView, frame: JsonView) -> ProgressView {
    match wrapped_key(frame) {
        None => ProgressView::Failed(Failure::MissingSharedSecret),
        Some(text) => match unwrapped_key(h.pair, text) {
            Err(e) => ProgressView::Failed(e),
            Ok(key) => ProgressView::Established(
                SessionView { app_id: h.app_id, user_id: h.user_id, key, next_message_id: 1 },
            ),
        },
    }
}

/// What a frame means for a handshake, and the handshake after it.
pub open spec fn handshake_step(h: HandshakeView, frame: JsonView, timestamp: i64) -> (
    HandshakeView,
    ProgressView,
) {
    let command = command_of(frame);
    if command == "connected"@ {
        if h.sent {
            (h, ProgressView::Wait)
        } else {
            (HandshakeView { sent: true, ..h }, ProgressView::Send(setup_of(h, timestamp)))
        }
    } else if command == "setupEncryption"@ {
        (h, setup_reply(h, frame))
    } else if command == "wrongUserId"@ {
        (h, ProgressView::Failed(Failure::WrongUserId(h.user_id)))
    } else if command == "invalidateEncryption"@ {
        (h, ProgressView::Failed(Failure::HandshakeInvalidated))
    } else if command == "disconnected"@ {
        (h, ProgressView::Failed(Failure::HandshakeDisconnected))
    } else {
        (h, ProgressView::Wait)
    }
}

/// The setup message can be written out.
proof fn lemma_setup_writable(h: HandshakeView, timestamp: i64)
    ensures
        round_trips(setup_of(h, timestamp)),
{
    let command = with_field(JsonView::Null, "command"@, JsonView::Str("setupEncryption"@));
    let keyed = with_field(command, "publicKey"@, JsonView::Str(h.public_key));
    let named = with_field(keyed, "userId"@, JsonView::Str(h.user_id));
    let counted = with_field(named, "messageId"@, JsonView::Number(Some(0)));
    let stamped = with_field(counted, "timestamp"@, JsonView::Number(Some(timestamp as i128)));
    let outer = with_field(JsonView::Null, "appId"@, JsonView::Str(h.app_id));
    lemma_with_field_writable(JsonView::Null, "command"@, JsonView::Str("setupEncryption"@), 126);
    lemma_with_field_writable(command, "publicKey"@, JsonView::Str(h.public_key), 126);
    lemma_with_field_writable(keyed, "userId"@, JsonView::Str(h.user_id), 126);
    lemma_with_field_writable(named, "messageId"@, JsonView::Number(Some(0)), 126);
    lemma_with_field_writable(counted, "timestamp"@, JsonView::Number(Some(timestamp as i128)), 126);
    lemma_with_field_writable(JsonView::Null, "appId"@, JsonView::Str(h.app_id), 127);
    lemma_with_field_writable(outer, "message"@, stamped, 127);
}

/// A handshake that has not begun, where the public key of the pair can be written down.
pub open spec fn fresh_handshake(
    kind: TransportKind,
    user_id: Seq<char>,
    app_id: Seq<char>,
    pair: Seq<u8>,
) -> Result<HandshakeView, ErrorView> {
    match public_key_text(pair) {
        Err(e) => Err(e),
        Ok(public_key) => Ok(
            HandshakeView { kind, app_id, user_id, pair, public_key, sent: false },
        ),
    }
}

/// The view of a handshake or of an error.
pub open spec fn handshake_result(r: Result<Handshake, Error>) -> Result<HandshakeView, ErrorView> {
    match r {
        Ok(h) => Ok(h@),
        Err(e) => Err(e@),
    }
}

impl Handshake {
    /// A handshake for a user with a given identifier of this client and a given
    /// key pair. Fails where the public key cannot be written down.
    pub fn with_keys(kind: TransportKind, user_id: &str, app_id: String, pair: KeyPair) -> (r:
        Result<Self, Error>)
        ensures
            handshake_result(r) == fresh_handshake(kind, user_id@, app_id@, pair@),
    {
        match pair.public_key_b64() {
            Err(e) => Err(e),
            Ok(public_key) => Ok(
                Handshake {
                    kind,
                    app_id,
                    user_id: user_id.to_owned(),
                    pair,
                    public_key,
                    sent: false,
                },
            ),
        }
    }

    /// The message to send as soon as the connection stands, if there is one.
    pub fn open(&mut self, timestamp: i64) -> (r: Option<Json>)
        ensures
            (final(self)@, (match r {
                Some(j) => Some(j@),
                None => None,
            })) == opening(old(self)@, timestamp),
            r matches Some(j) ==> round_trips(j@),
    {
        if self.kind == TransportKind::DirectSocket && !self.sent {
            let setup: Json = self.setup(timestamp);
            self.sent = true;
            Some(setup)
        } else {
            None
        }
    }

    /// The setup message.
    fn setup(&self, timestamp: i64) -> (r: Json)
        ensures
            r@ == setup_of(self@, timestamp),
            round_trips(r@),
    {
        proof {
            lemma_setup_writable(self@, timestamp);
        }
        let message: Json = Json::Null.with("command", Json::string("setupEncryption")).with(
            "publicKey",
            Json::string(self.public_key.as_str()),
        ).with("userId", Json::string(self.user_id.as_str())).with(
            "messageId",
            Json::integer(0),
        ).with("timestamp", Json::integer(timestamp));
        Json::Null.with("appId", Json::string(self.app_id.as_str())).with("message", message)
    }

    /// Takes a frame from the desktop app into account.
    pub fn on_frame(&mut self, frame: &Json, timestamp: i64) -> (r: Progress)
        ensures
            (final(self)@, r@) == handshake_step(old(self)@, frame@, timestamp),
            r matches Progress::Send(j) ==> round_trips(j@),
    {
        let command: &str = frame_command(frame);
        if str_eq(command, "connected") {
            if self.sent {
                Progress::Wait
            } else {
                let setup: Json = self.setup(timestamp);
                self.sent = true;
                Progress::Send(setup)
            }
        } else if str_eq(command, "setupEncryption") {
            self.on_setup_reply(frame)
        } else if str_eq(command, "wrongUserId") {
            Progress::Failed(Failure::WrongUserId(self.user_id.clone()))
        } else if str_eq(command, "invalidateEncryption") {
            Progress::Failed(Failure::HandshakeInvalidated)
        } else if str_eq(command, "disconnected") {
            Progress::Failed(Failure::HandshakeDisconnected)
        } else {
            Progress::Wait
        }
    }

    /// Unwraps the session key.
    fn on_setup_reply(&self, frame: &Json) -> (r: Progress)
        ensures
            r@ == setup_reply(self@, frame@),
    {
        let wrapped: Option<&str> = match frame.get("sharedSecret") {
            Some(v) => v.as_str(),
            None => frame.text("sharedKey"),
        };
        match wrapped {
            None => Progress::Failed(Failure::MissingSharedSecret),
            Some(text) => match self.pair.unwrap_transport_key(text) {
                Err(e) => Progress::Failed(e),
                Ok(key) => Progress::Established(
                    Session {
                        app_id: self.app_id.clone(),
                        user_id: self.user_id.clone(),
                        key,
                        next_message_id: 1,
                    },
                ),
            },
        }
    }
}

/// A command with its number and its time.
pub open spec fn stamped(inner: JsonView, message_id: i64, timestamp: i64) -> JsonView {
    with_field(
        with_field(inner, "messageId"@, JsonView::Number(Some(message_id as i128))),
        "timestamp"@,
        JsonView::Number(Some(timestamp as i128)),
    )
}

/// The message that carries an EncString, as a whole and in parts.
pub open spec fn carrier(parts: EncPartsView) -> JsonView {
    let kind = with_field(JsonView::Null, "encryptionType"@, JsonView::Number(Some(2)));
    let whole = with_field(kind, "encryptedString"@, JsonView::Str(enc_string(parts)));
    let data = with_field(whole, "data"@, JsonView::Str(parts.data));
    let iv = with_field(data, "iv"@, JsonView::Str(parts.iv));
    with_field(iv, "mac"@, JsonView::Str(parts.mac))
}

/// The frame that carries an EncString.
pub open spec fn envelope(app_id: Seq<char>, message_id: i64, parts: EncPartsView) -> JsonView {
    let from = with_field(JsonView::Null, "appId"@, JsonView::Str(app_id));
    let counted = with_field(from, "messageId"@, JsonView::Number(Some(message_id as i128)));
    with_field(counted, "message"@, carrier(parts))
}

/// The bytes of a command that are encrypted.
pub open spec fn command_bytes(s: SessionView, inner: JsonView, timestamp: i64) -> Seq<u8> {
    encode_utf8(json_text(stamped(inner, s.next_message_id, timestamp)))
}

/// The frame that sends a command, encrypted with a given initialisation vector.
pub open spec fn command_frame(
    s: SessionView,
    inner: JsonView,
    timestamp: i64,
    iv: Seq<u8>,
) -> JsonView {
    envelope(
        s.app_id,
        s.next_message_id,
        sealed(s.key, iv, command_bytes(s, inner, timestamp)),
    )
}

/// What a frame means for a session.
pub enum Reply {
    /// Nothing yet.
    Wait,
    /// The frame held this message.
    Message(Json),
    /// There will be no reply.
    Failed(Error),
}

/// The mathematical view of a [`Reply`].
pub enum ReplyView {
    Wait,
    Message(JsonView),
    Failed(ErrorView),
}

impl View for Reply {
    type V = ReplyView;

    open spec fn view(&self) -> ReplyView {
        match self {
            Reply::Wait => ReplyView::Wait,
            Reply::Message(j) => ReplyView::Message(j@),
            Reply::Failed(e) => ReplyView::Failed(e@),
        }
    }
}

/// What a frame means to whoever holds the session key: an EncString in it is
/// decrypted and read; without one the frame is a control frame.
pub open spec fn reply_of(key: Seq<u8>, frame: JsonView) -> ReplyView {
    match message_enc_string(field(frame, "message"@)) {
        Some(enc) => match decrypted(key, enc) {
            Err(e) => ReplyView::Failed(e),
            Ok(plain) => match json_of_bytes(plain) {
                Ok(j) => ReplyView::Message(j),
                Err(t) => ReplyView::Failed(Failure::Json(t)),
            },
        },
        None => {
            let command = command_of(frame);
            if command == "rejectedDesktopIPCFingerprint"@ {
                ReplyView::Failed(Failure::FingerprintRejected)
            } else if command == "invalidateEncryption"@ {
                ReplyView::Failed(Failure::ChannelInvalidated)
            } else if command == "disconnected"@ {
                ReplyView::Failed(Failure::Disconnected)
            } else {
                ReplyView::Wait
            }
        },
    }
}

/// Whether the EncString in a frame opens to some bytes under a key.
pub open spec fn opens_as(key: Seq<u8>, frame: JsonView, plain: Seq<u8>) -> bool {
    message_enc_string(field(frame, "message"@)) matches Some(enc) && decrypted(key, enc) == Ok::<
        Seq<u8>,
        ErrorView,
    >(plain)
}

/// The command that asks for a biometric unlock.
pub open spec fn unlock_command(user_id: Seq<char>) -> JsonView {
    with_field(
        with_field(
            JsonView::Null,
            "command"@,
            JsonView::Str("unlockWithBiometricsForUser"@),
        ),
        "userId"@,
        JsonView::Str(user_id),
    )
}

/// The user key, in base64, that the answer to an unlock command grants.
pub open spec fn granted_key(reply: JsonView) -> Result<Seq<char>, ErrorView> {
    if field(reply, "response"@) != Some(JsonView::Bool(true)) {
        Err(Failure::UnlockNotGranted)
    } else {
        let key = match field(reply, "userKeyB64"@) {
            Some(v) => text_of(Some(v)),
            None => text_field(reply, "keyB64"@),
        };
        match key {
            Some(text) => Ok(text),
            None => Err(Failure::MissingUserKey),
        }
    }
}

/// The carrying message can be written out one level down, and whoever reads it
/// finds the EncString.
proof fn lemma_carrier(parts: EncPartsView)
    ensures
        writable(carrier(parts)),
        within(carrier(parts), 126),
        message_enc_string(Some(carrier(parts))) == Some(enc_string(parts)),
{
    let kind = with_field(JsonView::Null, "encryptionType"@, JsonView::Number(Some(2)));
    let whole = with_field(kind, "encryptedString"@, JsonView::Str(enc_string(parts)));
    let data = with_field(whole, "data"@, JsonView::Str(parts.data));
    let iv = with_field(data, "iv"@, JsonView::Str(parts.iv));
    lemma_with_field_writable(JsonView::Null, "encryptionType"@, JsonView::Number(Some(2)), 126);
    lemma_with_field_writable(kind, "encryptedString"@, JsonView::Str(enc_string(parts)), 126);
    lemma_with_field_writable(whole, "data"@, JsonView::Str(parts.data), 126);
    lemma_with_field_writable(data, "iv"@, JsonView::Str(parts.iv), 126);
    lemma_with_field_writable(iv, "mac"@, JsonView::Str(parts.mac), 126);
    reveal_strlit("encryptedString");
    reveal_strlit("data");
    reveal_strlit("iv");
    reveal_strlit("mac");
    assert("encryptedString"@.len() != "data"@.len());
    assert("encryptedString"@.len() != "iv"@.len());
    assert("encryptedString"@.len() != "mac"@.len());
    lemma_with_field(
        kind,
        "encryptedString"@,
        JsonView::Str(enc_string(parts)),
        "encryptedString"@,
    );
    lemma_with_field(whole, "data"@, JsonView::Str(parts.data), "encryptedString"@);
    lemma_with_field(data, "iv"@, JsonView::Str(parts.iv), "encryptedString"@);
    lemma_with_field(iv, "mac"@, JsonView::Str(parts.mac), "encryptedString"@);
}

/// The enveloping frame can be written out, and its message is the carrier.
proof fn lemma_envelope(app_id: Seq<char>, message_id: i64, parts: EncPartsView)
    ensures
        round_trips(envelope(app_id, message_id, parts)),
        field(envelope(app_id, message_id, parts), "message"@) == Some(carrier(parts)),
{
    let from = with_field(JsonView::Null, "appId"@, JsonView::Str(app_id));
    let counted = with_field(from, "messageId"@, JsonView::Number(Some(message_id as i128)));
    lemma_carrier(parts);
    lemma_with_field_writable(JsonView::Null, "appId"@, JsonView::Str(app_id), 127);
    lemma_with_field_writable(from, "messageId"@, JsonView::Number(Some(message_id as i128)), 127);
    lemma_with_field_writable(counted, "message"@, carrier(parts), 127);
    lemma_with_field(counted, "message"@, carrier(parts), "message"@);
}

/// A stamped command can be written out.
proof fn lemma_stamped_writable(inner: JsonView, message_id: i64, timestamp: i64)
    requires
        inner is Null || writable(inner),
    ensures
        writable(stamped(inner, message_id, timestamp)),
        inner is Null || within(inner, max_levels()) ==> within(
            stamped(inner, message_id, timestamp),
            max_levels(),
        ),
{
    let counted = with_field(inner, "messageId"@, JsonView::Number(Some(message_id as i128)));
    lemma_with_field_writable(inner, "messageId"@, JsonView::Number(Some(message_id as i128)), 127);
    lemma_with_field_writable(counted, "timestamp"@, JsonView::Number(Some(timestamp as i128)), 127);
}

/// The message that carries an EncString spells it out twice: as one string, which
/// newer desktop apps read, and in its parts, which older ones do.
pub proof fn lemma_carrier_fields(parts: EncPartsView)
    ensures
        field(carrier(parts), "encryptionType"@) == Some(JsonView::Number(Some(2))),
        text_field(carrier(parts), "encryptedString"@) == Some(enc_string(parts)),
        text_field(carrier(parts), "data"@) == Some(parts.data),
        text_field(carrier(parts), "iv"@) == Some(parts.iv),
        text_field(carrier(parts), "mac"@) == Some(parts.mac),
{
    let kind = with_field(JsonView::Null, "encryptionType"@, JsonView::Number(Some(2)));
    let whole = with_field(kind, "encryptedString"@, JsonView::Str(enc_string(parts)));
    let data = with_field(whole, "data"@, JsonView::Str(parts.data));
    let iv = with_field(data, "iv"@, JsonView::Str(parts.iv));
    reveal_strlit("encryptionType");
    reveal_strlit("encryptedString");
    reveal_strlit("data");
    reveal_strlit("iv");
    reveal_strlit("mac");
    assert("encryptionType"@.len() == 14 && "encryptedString"@.len() == 15);
    assert("data"@.len() == 4 && "iv"@.len() == 2 && "mac"@.len() == 3);
    assert forall|key: Seq<char>|
        key.len() != 3 implies #[trigger] field(carrier(parts), key) == field(iv, key) by {
        lemma_with_field(iv, "mac"@, JsonView::Str(parts.mac), key);
    }
    assert forall|key: Seq<char>| key.len() != 2 implies #[trigger] field(iv, key) == field(
        data,
        key,
    ) by {
        lemma_with_field(data, "iv"@, JsonView::Str(parts.iv), key);
    }
    assert forall|key: Seq<char>| key.len() != 4 implies #[trigger] field(data, key) == field(
        whole,
        key,
    ) by {
        lemma_with_field(whole, "data"@, JsonView::Str(parts.data), key);
    }
    assert forall|key: Seq<char>| key.len() != 15 implies #[trigger] field(whole, key) == field(
        kind,
        key,
    ) by {
        lemma_with_field(kind, "encryptedString"@, JsonView::Str(enc_string(parts)), key);
    }
    lemma_with_field(JsonView::Null, "encryptionType"@, JsonView::Number(Some(2)), "iv"@);
    lemma_with_field(kind, "encryptedString"@, JsonView::Str(enc_string(parts)), "iv"@);
    lemma_with_field(whole, "data"@, JsonView::Str(parts.data), "iv"@);
    lemma_with_field(data, "iv"@, JsonView::Str(parts.iv), "iv"@);
    lemma_with_field(iv, "mac"@, JsonView::Str(parts.mac), "iv"@);
}

/// A stamped command carries its number and its time, and is otherwise the command.
pub proof fn lemma_stamped_fields(
    inner: JsonView,
    message_id: i64,
    timestamp: i64,
    key: Seq<char>,
)
    ensures
        field(stamped(inner, message_id, timestamp), "messageId"@) == Some(
            JsonView::Number(Some(message_id as i128)),
        ),
        field(stamped(inner, message_id, timestamp), "timestamp"@) == Some(
            JsonView::Number(Some(timestamp as i128)),
        ),
        key != "messageId"@ && key != "timestamp"@ && inner is Object ==> field(
            stamped(inner, message_id, timestamp),
            key,
        ) == field(inner, key),
{
    reveal_strlit("messageId");
    reveal_strlit("timestamp");
    assert("messageId"@[0] != "timestamp"@[0]);
    let counted = with_field(inner, "messageId"@, JsonView::Number(Some(message_id as i128)));
    let time = JsonView::Number(Some(timestamp as i128));
    lemma_with_field(inner, "messageId"@, JsonView::Number(Some(message_id as i128)), key);
    lemma_with_field(counted, "timestamp"@, time, key);
    lemma_with_field(counted, "timestamp"@, time, "messageId"@);
}

/// The setup message names the client and, within it, the command, the public key,
/// the user, a number and the time.
pub proof fn lemma_setup_fields(h: HandshakeView, timestamp: i64)
    ensures
        text_field(setup_of(h, timestamp), "appId"@) == Some(h.app_id),
        field(setup_of(h, timestamp), "message"@) matches Some(m) && {
            &&& text_field(m, "command"@) == Some("setupEncryption"@)
            &&& text_field(m, "publicKey"@) == Some(h.public_key)
            &&& text_field(m, "userId"@) == Some(h.user_id)
            &&& field(m, "messageId"@) == Some(JsonView::Number(Some(0)))
            &&& field(m, "timestamp"@) == Some(JsonView::Number(Some(timestamp as i128)))
        },
{
    let command = with_field(JsonView::Null, "command"@, JsonView::Str("setupEncryption"@));
    let keyed = with_field(command, "publicKey"@, JsonView::Str(h.public_key));
    let named = with_field(keyed, "userId"@, JsonView::Str(h.user_id));
    let counted = with_field(named, "messageId"@, JsonView::Number(Some(0)));
    let stamped = with_field(counted, "timestamp"@, JsonView::Number(Some(timestamp as i128)));
    let outer = with_field(JsonView::Null, "appId"@, JsonView::Str(h.app_id));
    reveal_strlit("appId");
    reveal_strlit("message");
    reveal_strlit("command");
    reveal_strlit("publicKey");
    reveal_strlit("userId");
    reveal_strlit("messageId");
    reveal_strlit("timestamp");
    assert("appId"@.len() == 5 && "message"@.len() == 7);
    assert("command"@[0] == 'c' && "publicKey"@[0] == 'p' && "userId"@[0] == 'u');
    assert("messageId"@[0] == 'm' && "timestamp"@[0] == 't');
    lemma_with_field(JsonView::Null, "appId"@, JsonView::Str(h.app_id), "appId"@);
    lemma_with_field(outer, "message"@, stamped, "appId"@);
    lemma_with_field(
        JsonView::Null,
        "command"@,
        JsonView::Str("setupEncryption"@),
        "command"@,
    );
    lemma_with_field(command, "publicKey"@, JsonView::Str(h.public_key), "command"@);
    lemma_with_field(keyed, "userId"@, JsonView::Str(h.user_id), "command"@);
    lemma_with_field(keyed, "userId"@, JsonView::Str(h.user_id), "publicKey"@);
    lemma_with_field(named, "messageId"@, JsonView::Number(Some(0)), "command"@);
    lemma_with_field(named, "messageId"@, JsonView::Number(Some(0)), "publicKey"@);
    lemma_with_field(named, "messageId"@, JsonView::Number(Some(0)), "userId"@);
    let time = JsonView::Number(Some(timestamp as i128));
    lemma_with_field(counted, "timestamp"@, time, "command"@);
    lemma_with_field(counted, "timestamp"@, time, "publicKey"@);
    lemma_with_field(counted, "timestamp"@, time, "userId"@);
    lemma_with_field(counted, "timestamp"@, time, "messageId"@);
}

/// The view of a numbered frame or of an error.
pub open spec fn sent_result(r: Result<(i64, Json), Error>) -> Result<(i64, JsonView), ErrorView> {
    match r {
        Ok((id, j)) => Ok((id, j@)),
        Err(e) => Err(e@),
    }
}

/// What sending a command comes to.
pub open spec fn sent(s: SessionView, inner: JsonView, timestamp: i64, iv: Seq<u8>) -> Result<
    (i64, JsonView),
    ErrorView,
> {
    if sealable(command_bytes(s, inner, timestamp).len()) {
        Ok((s.next_message_id, command_frame(s, inner, timestamp, iv)))
    } else {
        Err(Failure::MessageTooLarge)
    }
}

/// A session after a command was sent.
pub open spec fn advanced(s: SessionView) -> SessionView {
    SessionView { next_message_id: (s.next_message_id + 1) as i64, ..s }
}

impl Session {
    /// Starts a handshake for a user with a random identifier of this client and a
    /// fresh key pair.
    pub fn establish(kind: TransportKind, user_id: &str) -> (r: Result<Handshake, Error>)
        ensures
            r matches Ok(h) ==> {
                &&& h@.kind == kind
                &&& h@.user_id == user_id@
                &&& guid(h@.app_id)
                &&& public_key_text(h@.pair) == Ok::<Seq<char>, ErrorView>(h@.public_key)
                &&& pkcs8_fault(h@.pair) is None && pkcs8_bits(h@.pair).0 == KEY_PAIR_BITS
                &&& !h@.sent
            },
            r matches Err(e) ==> e is Rsa || e is MessageTooLarge,
    {
        let app_id: String = random_app_id();
        match KeyPair::generate() {
            Err(e) => Err(e),
            Ok(pair) => Handshake::with_keys(kind, user_id, app_id, pair),
        }
    }

    /// Stamps a command with the next number and the time, and encrypts it under
    /// a given initialisation vector. Whoever holds the session key reads the
    /// stamped command from the frame.
    pub fn seal_command(&mut self, inner: Json, timestamp: i64, iv: &[u8; 16]) -> (r: Result<
        (i64, Json),
        Error,
    >)
        requires
            inner is Null || inner is Object,
            inner is Null || writable(inner@),
            old(self)@.next_message_id < i64::MAX,
        ensures
            final(self)@ == advanced(old(self)@),
            sent_result(r) == sent(old(self)@, inner@, timestamp, iv@),
            r matches Ok((id, j)) ==> round_trips(j@) && opens_as(
                old(self)@.key,
                j@,
                encode_utf8(json_text(stamped(inner@, id, timestamp))),
            ),
            r matches Ok((id, j)) ==> (inner is Null || within(inner@, max_levels())) ==> reply_of(
                old(self)@.key,
                j@,
            ) == ReplyView::Message(stamped(inner@, id, timestamp)),
    {
        let id: i64 = self.next_message_id;
        self.next_message_id = self.next_message_id + 1;
        proof {
            lemma_stamped_writable(inner@, id, timestamp);
        }
        let command: Json = inner.with("messageId", Json::integer(id)).with(
            "timestamp",
            Json::integer(timestamp),
        );
        let text: String = command.to_text();
        let bytes: &[u8] = text.as_str().as_bytes();
        if !can_seal(bytes.len()) {
            return Err(Failure::MessageTooLarge);
        }
        let parts: EncParts = self.key.encrypt_parts_with_iv(bytes, iv);
        proof {
            lemma_envelope(self.app_id@, id, parts@);
            lemma_carrier(parts@);
        }
        let message: Json = Json::Null.with("encryptionType", Json::integer(2)).with(
            "encryptedString",
            Json::Str(parts.to_enc_string()),
        ).with("data", Json::string(parts.data.as_str())).with(
            "iv",
            Json::string(parts.iv.as_str()),
        ).with("mac", Json::string(parts.mac.as_str()));
        let frame: Json = Json::Null.with("appId", Json::string(self.app_id.as_str())).with(
            "messageId",
            Json::integer(id),
        ).with("message", message);
        Ok((id, frame))
    }

    /// Stamps and encrypts a command, at the present time and under a random
    /// initialisation vector. Returns its number and the frame to send.
    pub fn send_encrypted(&mut self, inner: Json) -> (r: Result<(i64, Json), Error>)
        requires
            inner is Null || inner is Object,
            inner is Null || writable(inner@),
            old(self)@.next_message_id < i64::MAX,
        ensures
            final(self)@ == advanced(old(self)@),
            exists|timestamp: i64, iv: Seq<u8>|
                iv.len() == 16 && sent_result(r) == #[trigger] sent(
                    old(self)@,
                    inner@,
                    timestamp,
                    iv,
                ),
            r matches Ok((id, j)) ==> round_trips(j@) && exists|timestamp: i64|
                {
                    let command = #[trigger] stamped(inner@, id, timestamp);
                    &&& opens_as(old(self)@.key, j@, encode_utf8(json_text(command)))
                    &&& inner is Null || within(inner@, max_levels()) ==> reply_of(
                        old(self)@.key,
                        j@,
                    ) == ReplyView::Message(command)
                },
    {
        let timestamp: i64 = now_ms();
        let iv: [u8; 16] = random_iv();
        let r: Result<(i64, Json), Error> = self.seal_command(inner, timestamp, &iv);
        assert(iv@.len() == 16 && sent_result(r) == sent(old(self)@, inner@, timestamp, iv@));
        r
    }

    /// Says what a frame from the desktop app means: the decrypted message in it,
    /// or a control frame.
    pub fn read_encrypted(&self, frame: &Json) -> (r: Reply)
        ensures
            r@ == reply_of(self@.key, frame@),
    {
        if let Some(enc) = encstring_from_message(frame.get("message")) {
            return match self.key.decrypt(enc.as_str()) {
                Err(e) => Reply::Failed(e),
                Ok(plain) => match parse(plain.as_slice()) {
                    Ok(j) => Reply::Message(j),
                    Err(t) => Reply::Failed(Failure::Json(t)),
                },
            };
        }
        let command: &str = frame_command(frame);
        if str_eq(command, "rejectedDesktopIPCFingerprint") {
            Reply::Failed(Failure::FingerprintRejected)
        } else if str_eq(command, "invalidateEncryption") {
            Reply::Failed(Failure::ChannelInvalidated)
        } else if str_eq(command, "disconnected") {
            Reply::Failed(Failure::Disconnected)
        } else {
            Reply::Wait
        }
    }

    /// The command that asks for a biometric unlock.
    fn unlock_request(&self) -> (r: Json)
        ensures
            r@ == unlock_command(self@.user_id),
            round_trips(r@),
    {
        proof {
            let command = with_field(
                JsonView::Null,
                "command"@,
                JsonView::Str("unlockWithBiometricsForUser"@),
            );
            lemma_with_field_writable(
                JsonView::Null,
                "command"@,
                JsonView::Str("unlockWithBiometricsForUser"@),
                127,
            );
            lemma_with_field_writable(command, "userId"@, JsonView::Str(self.user_id@), 127);
        }
        Json::Null.with("command", Json::string("unlockWithBiometricsForUser")).with(
            "userId",
            Json::string(self.user_id.as_str()),
        )
    }

    /// Asks for a biometric unlock. Returns the number of the command and the frame
    /// to send.
    pub fn biometric_unlock(&mut self) -> (r: Result<(i64, Json), Error>)
        requires
            old(self)@.next_message_id < i64::MAX,
        ensures
            final(self)@ == advanced(old(self)@),
            exists|timestamp: i64, iv: Seq<u8>|
                iv.len() == 16 && sent_result(r) == #[trigger] sent(
                    old(self)@,
                    unlock_command(old(self)@.user_id),
                    timestamp,
                    iv,
                ),
            r matches Ok((id, j)) ==> round_trips(j@) && exists|timestamp: i64|
                reply_of(old(self)@.key, j@) == ReplyView::Message(
                    #[trigger] stamped(unlock_command(old(self)@.user_id), id, timestamp),
                ),
    {
        let inner: Json = self.unlock_request();
        self.send_encrypted(inner)
    }

    /// The same at a given time and under a given initialisation vector.
    pub fn biometric_unlock_with(&mut self, timestamp: i64, iv: &[u8; 16]) -> (r: Result<
        (i64, Json),
        Error,
    >)
        requires
            old(self)@.next_message_id < i64::MAX,
        ensures
            final(self)@ == advanced(old(self)@),
            sent_result(r) == sent(
                old(self)@,
                unlock_command(old(self)@.user_id),
                timestamp,
                iv@,
            ),
            r matches Ok((id, j)) ==> round_trips(j@) && reply_of(old(self)@.key, j@)
                == ReplyView::Message(
                stamped(unlock_command(old(self)@.user_id), id, timestamp),
            ),
    {
        let inner: Json = self.unlock_request();
        self.seal_command(inner, timestamp, iv)
    }
}

/// Takes the user key, in base64, from the answer to an unlock command.
pub fn unlock_reply(reply: &Json) -> (r: Result<String, Error>)
    ensures
        text_result(r) == granted_key(reply@),
{
    let granted: bool = match reply.get("response") {
        Some(v) => match v.as_bool() {
            Some(b) => b,
            None => false,
        },
        None => false,
    };
    if !granted {
        return Err(Failure::UnlockNotGranted);
    }
    let key: Option<&str> = match reply.get("userKeyB64") {
        Some(v) => v.as_str(),
        None => reply.text("keyB64"),
    };
    match key {
        Some(text) => Ok(text.to_owned()),
        None => Err(Failure::MissingUserKey),
    }
}

/// A handshake after a sequence of frames, each with its time, and how often the
/// setup message went out.
pub open spec fn after_frames(h: HandshakeView, frames: Seq<(JsonView, i64)>) -> (
    HandshakeView,
    nat,
)
    decreases frames.len(),
{
    if frames.len() == 0 {
        (h, 0)
    } else {
        let (before, count) = after_frames(h, frames.drop_last());
        let (after, progress) = handshake_step(before, frames.last().0, frames.last().1);
        (after, if progress is Send {
            count + 1
        } else {
            count
        })
    }
}

/// The setup message goes out at most once, whatever frames come: over the socket
/// when the connection opens and never after that, over the proxy at the first
/// `connected`.
pub proof fn lemma_setup_sent_once(h: HandshakeView, timestamp: i64, frames: Seq<(JsonView, i64)>)
    requires
        !h.sent,
    ensures
        ({
            let (opened, first) = opening(h, timestamp);
            let (after, count) = after_frames(opened, frames);
            &&& (if first is Some {
                1nat
            } else {
                0nat
            }) + count <= 1
            &&& after.sent == (first is Some || count == 1)
            &&& (first is Some <==> h.kind == TransportKind::DirectSocket)
        }),
{
    let (opened, first) = opening(h, timestamp);
    lemma_sends(opened, frames);
}

proof fn lemma_sends(h: HandshakeView, frames: Seq<(JsonView, i64)>)
    ensures
        h.sent ==> after_frames(h, frames).1 == 0 && after_frames(h, frames).0.sent,
        !h.sent ==> after_frames(h, frames).1 <= 1 && after_frames(h, frames).0.sent == (
        after_frames(h, frames).1 == 1),
    decreases frames.len(),
{
    if frames.len() > 0 {
        lemma_sends(h, frames.drop_last());
    }
}

/// No frame changes whom a handshake is for, nor its keys.
pub proof fn lemma_handshake_keeps_identity(h: HandshakeView, frame: JsonView, timestamp: i64)
    ensures
        handshake_step(h, frame, timestamp).0 == (HandshakeView {
            sent: handshake_step(h, frame, timestamp).0.sent,
            ..h
        }),
        handshake_step(h, frame, timestamp).1 matches ProgressView::Established(s) ==> s.app_id
            == h.app_id && s.user_id == h.user_id && s.next_message_id == 1,
{
}

/// A session after `n` commands.
pub open spec fn after_commands(s: SessionView, n: nat) -> SessionView
    decreases n,
{
    if n == 0 {
        s
    } else {
        advanced(after_commands(s, (n - 1) as nat))
    }
}

/// Every command of a session gets a number of its own: numbers ascend from that
/// of the first.
pub proof fn lemma_message_ids_ascend(s: SessionView, n: nat)
    requires
        s.next_message_id + n <= i64::MAX,
    ensures
        after_commands(s, n) == (SessionView {
            next_message_id: (s.next_message_id + n) as i64,
            ..s
        }),
    decreases n,
{
    if n > 0 {
        lemma_message_ids_ascend(s, (n - 1) as nat);
    }
}

/// The `n`-th command of a fresh session has the number `n`: the frame that carries
/// it names the client and the number, and what is encrypted in it is the command
/// with that number and its time. Commands that could not be sent count as well.
pub proof fn lemma_nth_command(
    s: SessionView,
    n: nat,
    inner: JsonView,
    timestamp: i64,
    iv: Seq<u8>,
)
    requires
        s.next_message_id == 1,
        1 <= n < i64::MAX,
        sealable(command_bytes(after_commands(s, (n - 1) as nat), inner, timestamp).len()),
    ensures
        ({
            let before = after_commands(s, (n - 1) as nat);
            let frame = command_frame(before, inner, timestamp, iv);
            let plain = encode_utf8(json_text(stamped(inner, n as i64, timestamp)));
            &&& sent(before, inner, timestamp, iv) == Ok::<(i64, JsonView), ErrorView>(
                (n as i64, frame),
            )
            &&& text_field(frame, "appId"@) == Some(s.app_id)
            &&& field(frame, "messageId"@) == Some(JsonView::Number(Some(n as i128)))
            &&& field(frame, "message"@) == Some(carrier(sealed(s.key, iv, plain)))
        }),
{
    lemma_message_ids_ascend(s, (n - 1) as nat);
    let before = after_commands(s, (n - 1) as nat);
    let parts = sealed(s.key, iv, command_bytes(before, inner, timestamp));
    let id = JsonView::Number(Some(n as i128));
    let from = with_field(JsonView::Null, "appId"@, JsonView::Str(s.app_id));
    let counted = with_field(from, "messageId"@, id);
    reveal_strlit("appId");
    reveal_strlit("messageId");
    reveal_strlit("message");
    assert("appId"@.len() == 5 && "messageId"@.len() == 9 && "message"@.len() == 7);
    lemma_with_field(JsonView::Null, "appId"@, JsonView::Str(s.app_id), "appId"@);
    lemma_with_field(from, "messageId"@, id, "appId"@);
    lemma_with_field(counted, "message"@, carrier(parts), "appId"@);
    lemma_with_field(counted, "message"@, carrier(parts), "messageId"@);
}

/// Where a message holds its EncString: a string is one; an object may spell it out
/// as `encryptedString`, and only where it does not, its `iv`, `data` and `mac` make it
/// up. Nothing else holds one.
pub proof fn lemma_message_forms(
    m: JsonView,
    s: Seq<char>,
    iv: Seq<char>,
    data: Seq<char>,
    mac: Seq<char>,
)
    ensures
        message_enc_string(Some(JsonView::Str(s))) == Some(s),
        field(m, "encryptedString"@) == Some(JsonView::Str(s)) ==> message_enc_string(Some(m))
            == Some(s),
        !(field(m, "encryptedString"@) matches Some(JsonView::Str(_))) && field(m, "iv"@) == Some(
            JsonView::Str(iv),
        ) && field(m, "data"@) == Some(JsonView::Str(data)) && field(m, "mac"@) == Some(
            JsonView::Str(mac),
        ) ==> message_enc_string(Some(m)) == Some("2."@ + rejoined(seq![iv, data, mac], '|')),
        m is Object && !(field(m, "encryptedString"@) matches Some(JsonView::Str(_))) && (!(field(
            m,
            "iv"@,
        ) matches Some(JsonView::Str(_))) || !(field(m, "data"@) matches Some(JsonView::Str(_)))
            || !(field(m, "mac"@) matches Some(JsonView::Str(_)))) ==> message_enc_string(Some(m))
            is None,
        !(m is Object) && !(m is Str) ==> message_enc_string(Some(m)) is None,
        message_enc_string(None) is None,
{
    let parts = seq![iv, data, mac];
    reveal_strlit("|");
    assert("|"@ =~= seq!['|']);
    let two = parts.drop_last();
    assert(rejoined(two.drop_last(), '|') == iv);
    assert(rejoined(two, '|') == iv + seq!['|'] + data);
    assert(rejoined(parts, '|') == iv + seq!['|'] + data + seq!['|'] + mac);
    assert(enc_string(EncPartsView { iv, data, mac }) =~= "2."@ + rejoined(parts, '|'));
}

/// Over the proxy the setup message goes out when `connected` comes and has not come
/// before; a handshake that has sent it waits.
pub proof fn lemma_connected(h: HandshakeView, frame: JsonView, timestamp: i64)
    requires
        field(frame, "command"@) == Some(JsonView::Str("connected"@)),
    ensures
        !h.sent ==> handshake_step(h, frame, timestamp) == (
            HandshakeView {
                kind: h.kind,
                app_id: h.app_id,
                user_id: h.user_id,
                pair: h.pair,
                public_key: h.public_key,
                sent: true,
            },
            ProgressView::Send(setup_of(h, timestamp)),
        ),
        h.sent ==> handshake_step(h, frame, timestamp) == (h, ProgressView::Wait),
{
}

/// Over the socket the setup message goes out when the connection opens, over the proxy
/// not before `connected`.
pub proof fn lemma_opening(h: HandshakeView, timestamp: i64)
    ensures
        h.kind is DirectSocket && !h.sent ==> opening(h, timestamp).1 == Some(
            setup_of(h, timestamp),
        ) && opening(h, timestamp).0.sent,
        h.kind is NativeMessaging || h.sent ==> opening(h, timestamp) == (h, None::<JsonView>),
{
}

proof fn lemma_handshake_commands()
    ensures
        "connected"@ != "setupEncryption"@,
        "connected"@ != "wrongUserId"@,
        "connected"@ != "invalidateEncryption"@,
        "connected"@ != "disconnected"@,
        "setupEncryption"@ != "wrongUserId"@,
        "setupEncryption"@ != "invalidateEncryption"@,
        "setupEncryption"@ != "disconnected"@,
        "wrongUserId"@ != "invalidateEncryption"@,
        "wrongUserId"@ != "disconnected"@,
        "invalidateEncryption"@ != "disconnected"@,
        "rejectedDesktopIPCFingerprint"@ != "invalidateEncryption"@,
        "rejectedDesktopIPCFingerprint"@ != "disconnected"@,
        "connected"@.len() > 0 && "setupEncryption"@.len() > 0 && "wrongUserId"@.len() > 0,
        "invalidateEncryption"@.len() > 0 && "disconnected"@.len() > 0,
        "rejectedDesktopIPCFingerprint"@.len() > 0,
{
    reveal_strlit("connected");
    reveal_strlit("setupEncryption");
    reveal_strlit("wrongUserId");
    reveal_strlit("invalidateEncryption");
    reveal_strlit("disconnected");
    reveal_strlit("rejectedDesktopIPCFingerprint");
    assert("connected"@.len() == 9);
    assert("setupEncryption"@.len() == 15);
    assert("wrongUserId"@.len() == 11);
    assert("invalidateEncryption"@.len() == 20);
    assert("disconnected"@.len() == 12);
    assert("rejectedDesktopIPCFingerprint"@.len() == 29);
}

/// The reply to the setup message brings the session key, wrapped for the public key
/// that was sent: under `sharedSecret`, or under `sharedKey` where there is no
/// `sharedSecret`. With 64 bytes in it the channel stands, for the same client and user,
/// and its first command has the number 1.
pub proof fn lemma_setup_reply(
    h: HandshakeView,
    frame: JsonView,
    timestamp: i64,
    wrapped: Seq<char>,
    key: Seq<u8>,
)
    requires
        field(frame, "command"@) == Some(JsonView::Str("setupEncryption"@)),
        field(frame, "sharedSecret"@) == Some(JsonView::Str(wrapped)) || field(
            frame,
            "sharedSecret"@,
        ) is None && field(frame, "sharedKey"@) == Some(JsonView::Str(wrapped)),
    ensures
        handshake_step(h, frame, timestamp).0 == h,
        unwrapped_key(h.pair, wrapped) == Ok::<Seq<u8>, ErrorView>(key) ==> handshake_step(
            h,
            frame,
            timestamp,
        ).1 == ProgressView::Established(
            SessionView { app_id: h.app_id, user_id: h.user_id, key, next_message_id: 1 },
        ),
        unwrapped_key(h.pair, wrapped) matches Err(e) ==> handshake_step(h, frame, timestamp).1
            == ProgressView::Failed(e),
{
    lemma_handshake_commands();
}

/// A reply to the setup message without the wrapped key, or with something there that
/// is no text, ends the handshake.
pub proof fn lemma_setup_reply_without_key(h: HandshakeView, frame: JsonView, timestamp: i64)
    requires
        field(frame, "command"@) == Some(JsonView::Str("setupEncryption"@)),
        !(field(frame, "sharedSecret"@) matches Some(JsonView::Str(_))),
        field(frame, "sharedSecret"@) is Some || !(field(frame, "sharedKey"@) matches Some(
            JsonView::Str(_),
        )),
    ensures
        handshake_step(h, frame, timestamp) == (h, ProgressView::Failed(
            Failure::MissingSharedSecret,
        )),
{
    lemma_handshake_commands();
}

/// What ends a handshake, and that other frames are waited through.
pub proof fn lemma_handshake_frames(h: HandshakeView, frame: JsonView, timestamp: i64)
    ensures
        field(frame, "command"@) == Some(JsonView::Str("wrongUserId"@)) ==> handshake_step(
            h,
            frame,
            timestamp,
        ) == (h, ProgressView::Failed(Failure::WrongUserId(h.user_id))),
        field(frame, "command"@) == Some(JsonView::Str("invalidateEncryption"@)) ==> handshake_step(
            h,
            frame,
            timestamp,
        ) == (h, ProgressView::Failed(Failure::HandshakeInvalidated)),
        field(frame, "command"@) == Some(JsonView::Str("disconnected"@)) ==> handshake_step(
            h,
            frame,
            timestamp,
        ) == (h, ProgressView::Failed(Failure::HandshakeDisconnected)),
        (field(frame, "command"@) matches Some(JsonView::Str(c)) ==> c != "connected"@ && c
            != "setupEncryption"@ && c != "wrongUserId"@ && c != "invalidateEncryption"@ && c
            != "disconnected"@) ==> handshake_step(h, frame, timestamp) == (h, ProgressView::Wait),
{
    lemma_handshake_commands();
}

/// A frame with an EncString holds the document that its decrypted bytes are read as,
/// whatever command stands beside it; else the failure says why there is none.
pub proof fn lemma_encrypted_reply(key: Seq<u8>, frame: JsonView, m: JsonView, enc: Seq<char>)
    requires
        field(frame, "message"@) == Some(m),
        message_enc_string(Some(m)) == Some(enc),
    ensures
        decrypted(key, enc) matches Err(e) ==> reply_of(key, frame) == ReplyView::Failed(e),
        decrypted(key, enc) matches Ok(plain) ==> reply_of(key, frame) == (match json_of_bytes(
            plain,
        ) {
            Ok(j) => ReplyView::Message(j),
            Err(t) => ReplyView::Failed(Failure::Json(t)),
        }),
{
}

/// A frame without an EncString is a control frame: three commands end the wait, all
/// others are waited through.
pub proof fn lemma_control_frames(key: Seq<u8>, frame: JsonView)
    requires
        message_enc_string(field(frame, "message"@)) is None,
    ensures
        field(frame, "command"@) == Some(JsonView::Str("rejectedDesktopIPCFingerprint"@))
            ==> reply_of(key, frame) == ReplyView::Failed(Failure::FingerprintRejected),
        field(frame, "command"@) == Some(JsonView::Str("invalidateEncryption"@)) ==> reply_of(
            key,
            frame,
        ) == ReplyView::Failed(Failure::ChannelInvalidated),
        field(frame, "command"@) == Some(JsonView::Str("disconnected"@)) ==> reply_of(key, frame)
            == ReplyView::Failed(Failure::Disconnected),
        (field(frame, "command"@) matches Some(JsonView::Str(c)) ==> c
            != "rejectedDesktopIPCFingerprint"@ && c != "invalidateEncryption"@ && c
            != "disconnected"@) ==> reply_of(key, frame) == ReplyView::Wait,
{
    lemma_handshake_commands();
}

/// The unlock command names itself and the user, and nothing else.
pub proof fn lemma_unlock_command_fields(user_id: Seq<char>, key: Seq<char>)
    ensures
        text_field(unlock_command(user_id), "command"@) == Some("unlockWithBiometricsForUser"@),
        text_field(unlock_command(user_id), "userId"@) == Some(user_id),
        key != "command"@ && key != "userId"@ ==> field(unlock_command(user_id), key) is None,
{
    let name = JsonView::Str("unlockWithBiometricsForUser"@);
    let command = with_field(JsonView::Null, "command"@, name);
    reveal_strlit("command");
    reveal_strlit("userId");
    assert("command"@.len() != "userId"@.len());
    lemma_with_field(JsonView::Null, "command"@, name, key);
    lemma_with_field(command, "userId"@, JsonView::Str(user_id), key);
    lemma_with_field(command, "userId"@, JsonView::Str(user_id), "command"@);
}

/// An unlock is granted if and only if the answer says `true` under `response`; the key
/// is then the text under `userKeyB64`, or under `keyB64` where there is no
/// `userKeyB64`.
pub proof fn lemma_granted_key(reply: JsonView, text: Seq<char>)
    ensures
        field(reply, "response"@) != Some(JsonView::Bool(true)) ==> granted_key(reply) == Err::<
            Seq<char>,
            ErrorView,
        >(Failure::UnlockNotGranted),
        field(reply, "response"@) == Some(JsonView::Bool(true)) && (field(reply, "userKeyB64"@)
            == Some(JsonView::Str(text)) || field(reply, "userKeyB64"@) is None && field(
            reply,
            "keyB64"@,
        ) == Some(JsonView::Str(text))) ==> granted_key(reply) == Ok::<Seq<char>, ErrorView>(text),
        field(reply, "response"@) == Some(JsonView::Bool(true)) && !(field(
            reply,
            "userKeyB64"@,
        ) matches Some(JsonView::Str(_))) && (field(reply, "userKeyB64"@) is Some || !(field(
            reply,
            "keyB64"@,
        ) matches Some(JsonView::Str(_)))) ==> granted_key(reply) == Err::<Seq<char>, ErrorView>(
            Failure::MissingUserKey,
        ),
{
}

/// Sending counts the command and changes nothing else of the session; it succeeds
/// unless the command is too long to encrypt.
pub proof fn lemma_sending(s: SessionView, inner: JsonView, timestamp: i64, iv: Seq<u8>)
    requires
        s.next_message_id < i64::MAX,
    ensures
        advanced(s) == (SessionView {
            app_id: s.app_id,
            user_id: s.user_id,
            key: s.key,
            next_message_id: (s.next_message_id + 1) as i64,
        }),
        ({
            let plain = encode_utf8(json_text(stamped(inner, s.next_message_id, timestamp)));
            &&& sealable(plain.len()) ==> sent(s, inner, timestamp, iv) == Ok::<
                (i64, JsonView),
                ErrorView,
            >(
                (
                    s.next_message_id,
                    envelope(s.app_id, s.next_message_id, sealed(s.key, iv, plain)),
                ),
            )
            &&& !sealable(plain.len()) ==> sent(s, inner, timestamp, iv) == Err::<
                (i64, JsonView),
                ErrorView,
            >(Failure::MessageTooLarge)
        }),
{
}

/// The messages hold nothing but what they are said to hold: the setup message, the frame
/// of a command and the message in it have no other fields.
pub proof fn lemma_no_other_fields(
    h: HandshakeView,
    timestamp: i64,
    app_id: Seq<char>,
    message_id: i64,
    parts: EncPartsView,
    key: Seq<char>,
)
    ensures
        key != "appId"@ && key != "message"@ ==> field(setup_of(h, timestamp), key) is None,
        key != "command"@ && key != "publicKey"@ && key != "userId"@ && key != "messageId"@ && key
            != "timestamp"@ ==> (field(setup_of(h, timestamp), "message"@) matches Some(m) ==> field(
            m,
            key,
        ) is None),
        key != "appId"@ && key != "messageId"@ && key != "message"@ ==> field(
            envelope(app_id, message_id, parts),
            key,
        ) is None,
        key != "encryptionType"@ && key != "encryptedString"@ && key != "data"@ && key != "iv"@ && key
            != "mac"@ ==> field(carrier(parts), key) is None,
{
    let command = with_field(JsonView::Null, "command"@, JsonView::Str("setupEncryption"@));
    let keyed = with_field(command, "publicKey"@, JsonView::Str(h.public_key));
    let named = with_field(keyed, "userId"@, JsonView::Str(h.user_id));
    let counted = with_field(named, "messageId"@, JsonView::Number(Some(0)));
    let time = JsonView::Number(Some(timestamp as i128));
    let stamped = with_field(counted, "timestamp"@, time);
    let outer = with_field(JsonView::Null, "appId"@, JsonView::Str(h.app_id));
    lemma_with_field(JsonView::Null, "command"@, JsonView::Str("setupEncryption"@), key);
    lemma_with_field(command, "publicKey"@, JsonView::Str(h.public_key), key);
    lemma_with_field(keyed, "userId"@, JsonView::Str(h.user_id), key);
    lemma_with_field(named, "messageId"@, JsonView::Number(Some(0)), key);
    lemma_with_field(counted, "timestamp"@, time, key);
    lemma_with_field(JsonView::Null, "appId"@, JsonView::Str(h.app_id), key);
    lemma_with_field(outer, "message"@, stamped, key);
    let from = with_field(JsonView::Null, "appId"@, JsonView::Str(app_id));
    let numbered = with_field(from, "messageId"@, JsonView::Number(Some(message_id as i128)));
    lemma_with_field(JsonView::Null, "appId"@, JsonView::Str(app_id), key);
    lemma_with_field(from, "messageId"@, JsonView::Number(Some(message_id as i128)), key);
    lemma_with_field(numbered, "message"@, carrier(parts), key);
    let kind = with_field(JsonView::Null, "encryptionType"@, JsonView::Number(Some(2)));
    let whole = with_field(kind, "encryptedString"@, JsonView::Str(enc_string(parts)));
    let data = with_field(whole, "data"@, JsonView::Str(parts.data));
    let iv = with_field(data, "iv"@, JsonView::Str(parts.iv));
    lemma_with_field(JsonView::Null, "encryptionType"@, JsonView::Number(Some(2)), key);
    lemma_with_field(kind, "encryptedString"@, JsonView::Str(enc_string(parts)), key);
    lemma_with_field(whole, "data"@, JsonView::Str(parts.data), key);
    lemma_with_field(data, "iv"@, JsonView::Str(parts.iv), key);
    lemma_with_field(iv, "mac"@, JsonView::Str(parts.mac), key);
}

/// A fresh handshake is for the client and the user that were given, offers the public key
/// of the pair, and has sent nothing: the setup message that goes out first names all
/// three.
pub proof fn lemma_fresh_handshake(
    kind: TransportKind,
    user_id: Seq<char>,
    app_id: Seq<char>,
    pair: Seq<u8>,
    public_key: Seq<char>,
    timestamp: i64,
)
    requires
        public_key_text(pair) == Ok::<Seq<char>, ErrorView>(public_key),
    ensures
        fresh_handshake(kind, user_id, app_id, pair) matches Ok(h) && {
            &&& h.kind == kind && h.pair == pair && !h.sent
            &&& text_field(setup_of(h, timestamp), "appId"@) == Some(app_id)
            &&& field(setup_of(h, timestamp), "message"@) matches Some(m) && {
                &&& text_field(m, "publicKey"@) == Some(public_key)
                &&& text_field(m, "userId"@) == Some(user_id)
            }
        },
{
    let h = fresh_handshake(kind, user_id, app_id, pair)->Ok_0;
    lemma_setup_fields(h, timestamp);
}

/// Without a public key there is no handshake, for the same reason.
pub proof fn lemma_no_handshake(
    kind: TransportKind,
    user_id: Seq<char>,
    app_id: Seq<char>,
    pair: Seq<u8>,
)
    ensures
        public_key_text(pair) matches Err(e) ==> fresh_handshake(kind, user_id, app_id, pair)
            == Err::<HandshakeView, ErrorView>(e),
{
}

} // verus!
