//! What can go wrong, and how it is told to the user.

use crate::text::{decimal, decimal_string};
use vstd::prelude::*;

verus! {

/// A failure. `T` is the type of the texts in it: `String` in an [`Error`],
/// a sequence of characters in the mathematical view of one.
pub enum Failure<T> {
    /// A symmetric key that is not 64 bytes long.
    KeyLength(usize),
    /// Text that is not base64, with the decoder's account of it.
    Base64(T),
    /// An EncString of another type, with its first characters.
    EncStringType(T),
    /// An EncString without a ciphertext part.
    MissingCiphertext,
    /// An EncString without a MAC part.
    MissingMac,
    /// An EncString whose MAC is not the one of its contents.
    MacMismatch,
    /// An initialisation vector that is not 16 bytes long.
    IvLength(usize),
    /// A ciphertext that does not decrypt, with the cipher's account of it.
    Cipher(T),
    /// A decrypted value that is not text.
    NotUtf8(T),
    /// An account key that is not an RSA private key.
    AccountKey(T),
    /// A wrapped key that is not a type-4 EncString.
    NotType4,
    /// A type-4 EncString that does not decrypt.
    Unwrap(T),
    /// A failure of the handshake's RSA key pair.
    Rsa(T),
    /// A message that no frame can carry.
    MessageTooLarge,
    /// A frame header with a length that is zero or too large.
    FrameLength(usize),
    /// The same of a frame from the native-messaging proxy.
    NativeFrameLength(usize),
    /// There is nowhere to look for the desktop app's socket.
    NoSocketCandidates,
    /// The native-messaging proxy was not found.
    NoProxy,
    /// No agent is there to answer.
    AgentNotRunning,
    /// The agent did not come up.
    AgentNotStarted,
    /// Bytes that are not JSON, with the parser's account of them.
    Json(T),
    /// A handshake reply without the wrapped transport key.
    MissingSharedSecret,
    /// The desktop app does not know the user.
    WrongUserId(T),
    /// The desktop app dropped the channel during the handshake.
    HandshakeInvalidated,
    /// The desktop app went away during the handshake.
    HandshakeDisconnected,
    /// The user refused this client in the desktop app.
    FingerprintRejected,
    /// The desktop app dropped the established channel.
    ChannelInvalidated,
    /// The desktop app went away.
    Disconnected,
    /// The desktop app did not grant the unlock.
    UnlockNotGranted,
    /// An unlock reply without the user key.
    MissingUserKey,
    /// A one-time password algorithm other than SHA-1.
    TotpAlgorithm(T),
    /// A one-time password secret that is not base32.
    TotpSecret,
    /// An `otpauth` URI without a secret.
    TotpMissingSecret,
    /// One-time password parameters for which no code can be computed.
    TotpParameters,
    /// A clock that shows a time before 1970.
    Clock(T),
    /// A vault store without items.
    NoItems,
    /// No item has the id.
    ItemNotFound(T),
    /// The key of the item's organization is not available.
    MissingOrganizationKey,
    /// A field that no item has.
    UnknownField(T),
    /// The item has nothing in the field.
    NoField(T),
    /// The desktop app's vault store was not found.
    NoVault,
    /// The desktop app's active account was not found.
    NoUserId,
    /// A request that the agent does not know.
    UnknownCommand(T),
    /// A request line that is not a request.
    BadRequest(T),
    /// No reply came in time.
    TimedOut,
    /// No connection came about within a number of seconds.
    ConnectTimedOut(usize),
    /// The peer closed the connection.
    Closed,
    /// A failure outside the library, in its own words.
    Other(T),
    /// A failure in the course of something larger.
    Context(T, Box<Failure<T>>),
}

/// A failure as the library returns it.
pub type Error = Failure<String>;

/// The mathematical view of an [`Error`].
pub type ErrorView = Failure<Seq<char>>;

/// An error with its texts as character sequences.
pub open spec fn error_view(e: Error) -> ErrorView
    decreases e,
{
    match e {
        Failure::KeyLength(n) => Failure::KeyLength(n),
        Failure::Base64(t) => Failure::Base64(t@),
        Failure::EncStringType(t) => Failure::EncStringType(t@),
        Failure::MissingCiphertext => Failure::MissingCiphertext,
        Failure::MissingMac => Failure::MissingMac,
        Failure::MacMismatch => Failure::MacMismatch,
        Failure::IvLength(n) => Failure::IvLength(n),
        Failure::Cipher(t) => Failure::Cipher(t@),
        Failure::NotUtf8(t) => Failure::NotUtf8(t@),
        Failure::AccountKey(t) => Failure::AccountKey(t@),
        Failure::NotType4 => Failure::NotType4,
        Failure::Unwrap(t) => Failure::Unwrap(t@),
        Failure::Rsa(t) => Failure::Rsa(t@),
        Failure::MessageTooLarge => Failure::MessageTooLarge,
        Failure::FrameLength(n) => Failure::FrameLength(n),
        Failure::NativeFrameLength(n) => Failure::NativeFrameLength(n),
        Failure::NoSocketCandidates => Failure::NoSocketCandidates,
        Failure::NoProxy => Failure::NoProxy,
        Failure::AgentNotRunning => Failure::AgentNotRunning,
        Failure::AgentNotStarted => Failure::AgentNotStarted,
        Failure::Json(t) => Failure::Json(t@),
        Failure::MissingSharedSecret => Failure::MissingSharedSecret,
        Failure::WrongUserId(t) => Failure::WrongUserId(t@),
        Failure::HandshakeInvalidated => Failure::HandshakeInvalidated,
        Failure::HandshakeDisconnected => Failure::HandshakeDisconnected,
        Failure::FingerprintRejected => Failure::FingerprintRejected,
        Failure::ChannelInvalidated => Failure::ChannelInvalidated,
        Failure::Disconnected => Failure::Disconnected,
        Failure::UnlockNotGranted => Failure::UnlockNotGranted,
        Failure::MissingUserKey => Failure::MissingUserKey,
        Failure::TotpAlgorithm(t) => Failure::TotpAlgorithm(t@),
        Failure::TotpSecret => Failure::TotpSecret,
        Failure::TotpMissingSecret => Failure::TotpMissingSecret,
        Failure::TotpParameters => Failure::TotpParameters,
        Failure::Clock(t) => Failure::Clock(t@),
        Failure::NoItems => Failure::NoItems,
        Failure::ItemNotFound(t) => Failure::ItemNotFound(t@),
        Failure::MissingOrganizationKey => Failure::MissingOrganizationKey,
        Failure::UnknownField(t) => Failure::UnknownField(t@),
        Failure::NoField(t) => Failure::NoField(t@),
        Failure::NoVault => Failure::NoVault,
        Failure::NoUserId => Failure::NoUserId,
        Failure::UnknownCommand(t) => Failure::UnknownCommand(t@),
        Failure::BadRequest(t) => Failure::BadRequest(t@),
        Failure::TimedOut => Failure::TimedOut,
        Failure::ConnectTimedOut(n) => Failure::ConnectTimedOut(n),
        Failure::Closed => Failure::Closed,
        Failure::Other(t) => Failure::Other(t@),
        Failure::Context(t, inner) => Failure::Context(t@, Box::new(error_view(*inner))),
    }
}

impl View for Failure<String> {
    type V = ErrorView;

    open spec fn view(&self) -> ErrorView {
        error_view(*self)
    }
}

/// What a failure tells the user; the outer circumstance before the cause.
pub open spec fn message_of(e: ErrorView) -> Seq<char>
    decreases e,
{
    match e {
        Failure::KeyLength(n) => "expected a 64-byte symmetric key, got "@ + decimal(n as nat) + " bytes"@,
        Failure::Base64(t) => t,
        Failure::EncStringType(t) => "unsupported EncString type (expected '2.'): "@ + t + "…"@,
        Failure::MissingCiphertext => "missing ciphertext"@,
        Failure::MissingMac => "missing mac"@,
        Failure::MacMismatch => "EncString MAC verification failed"@,
        Failure::IvLength(n) => "bad iv length "@ + decimal(n as nat),
        Failure::Cipher(t) => "AES-CBC decrypt failed: "@ + t,
        Failure::NotUtf8(t) => "decrypted value was not valid UTF-8: "@ + t,
        Failure::AccountKey(t) => "parsing account RSA private key: "@ + t,
        Failure::NotType4 => "expected a type-4 (RSA) EncString"@,
        Failure::Unwrap(t) => "RSA-OAEP decrypt failed: "@ + t,
        Failure::Rsa(t) => t,
        Failure::MessageTooLarge => "message too large: out of range integral type conversion attempted"@,
        Failure::FrameLength(n) => "implausible frame length: "@ + decimal(n as nat),
        Failure::NativeFrameLength(n) => "implausible native-messaging frame length: "@ + decimal(n as nat),
        Failure::NoSocketCandidates => "no IPC socket candidates available"@,
        Failure::NoProxy => "could not find the Bitwarden desktop_proxy binary — is the desktop app installed?"@,
        Failure::AgentNotRunning => "agent is not running"@,
        Failure::AgentNotStarted => "agent did not start within 5s"@,
        Failure::Json(t) => t,
        Failure::MissingSharedSecret => "setupEncryption reply missing sharedSecret"@,
        Failure::WrongUserId(t) => "the desktop app is not logged into userId "@ + t + " (try setting BW_WEZ_USER_ID)"@,
        Failure::HandshakeInvalidated => "desktop invalidated the secure channel — retry"@,
        Failure::HandshakeDisconnected => "desktop disconnected during handshake — make sure the desktop vault is unlocked"@,
        Failure::FingerprintRejected => "fingerprint approval was rejected in the desktop app"@,
        Failure::ChannelInvalidated => "desktop invalidated the secure channel"@,
        Failure::Disconnected => "desktop disconnected"@,
        Failure::UnlockNotGranted => "biometric unlock not granted — enable 'Unlock with Touch ID' in the desktop app and ensure its vault is unlocked"@,
        Failure::MissingUserKey => "unlock reply missing userKeyB64"@,
        Failure::TotpAlgorithm(t) => "unsupported TOTP algorithm: "@ + t + " (v1 supports SHA1)"@,
        Failure::TotpSecret => "invalid base32 TOTP secret"@,
        Failure::TotpMissingSecret => "otpauth URI missing secret"@,
        Failure::TotpParameters => "unusable TOTP digits or period"@,
        Failure::Clock(t) => t,
        Failure::NoItems => "no items found in the vault — open the Bitwarden desktop app and let it sync"@,
        Failure::ItemNotFound(t) => "item "@ + t + " not found"@,
        Failure::MissingOrganizationKey => "missing organization key for this item"@,
        Failure::UnknownField(t) => "unknown field: "@ + t,
        Failure::NoField(t) => "item has no "@ + t,
        Failure::NoVault => "could not find the Bitwarden desktop app's vault on disk — is the desktop app installed and signed in? (or set BW_WEZ_VAULT_DATA)"@,
        Failure::NoUserId => "could not determine the desktop app's userId — set BW_WEZ_USER_ID to your account GUID"@,
        Failure::UnknownCommand(t) => "unknown command: "@ + t,
        Failure::BadRequest(t) => "bad request: "@ + t,
        Failure::TimedOut => "timed out waiting for a reply"@,
        Failure::ConnectTimedOut(n) => "connection to IPC socket timed out after "@ + decimal(n as nat) + "s"@,
        Failure::Closed => "connection closed"@,
        Failure::Other(t) => t,
        Failure::Context(t, inner) => t + ": "@ + message_of(*inner),
    }
}

/// What a failure says first: the outermost circumstance without its cause.
pub open spec fn headline_of(e: ErrorView) -> Seq<char> {
    match e {
        Failure::Context(t, _) => t,
        Failure::NotUtf8(_) => "decrypted value was not valid UTF-8"@,
        Failure::MessageTooLarge => "message too large"@,
        _ => message_of(e),
    }
}

/// `before`, then `t`, then `after`.
fn sentence(before: &str, t: &str, after: &str) -> (r: String)
    ensures
        r@ == before@ + t@ + after@,
{
    let mut out: String = before.to_owned();
    out.append(t);
    out.append(after);
    out
}

impl Failure<String> {
    /// The message of the error.
    pub fn message(&self) -> (r: String)
        ensures
            r@ == message_of(self@),
        decreases self,
    {
        proof {
            reveal_strlit("");
        }
        let r: String = match self {
            Failure::KeyLength(n) => sentence("expected a 64-byte symmetric key, got ", decimal_string(*n as u64).as_str(), " bytes"),
            Failure::Base64(t) => t.clone(),
            Failure::EncStringType(t) => sentence("unsupported EncString type (expected '2.'): ", t.as_str(), "…"),
            Failure::MissingCiphertext => "missing ciphertext".to_owned(),
            Failure::MissingMac => "missing mac".to_owned(),
            Failure::MacMismatch => "EncString MAC verification failed".to_owned(),
            Failure::IvLength(n) => sentence("bad iv length ", decimal_string(*n as u64).as_str(), ""),
            Failure::Cipher(t) => sentence("AES-CBC decrypt failed: ", t.as_str(), ""),
            Failure::NotUtf8(t) => sentence("decrypted value was not valid UTF-8: ", t.as_str(), ""),
            Failure::AccountKey(t) => sentence("parsing account RSA private key: ", t.as_str(), ""),
            Failure::NotType4 => "expected a type-4 (RSA) EncString".to_owned(),
            Failure::Unwrap(t) => sentence("RSA-OAEP decrypt failed: ", t.as_str(), ""),
            Failure::Rsa(t) => t.clone(),
            Failure::MessageTooLarge => "message too large: out of range integral type conversion attempted".to_owned(),
            Failure::FrameLength(n) => sentence("implausible frame length: ", decimal_string(*n as u64).as_str(), ""),
            Failure::NativeFrameLength(n) => sentence("implausible native-messaging frame length: ", decimal_string(*n as u64).as_str(), ""),
            Failure::NoSocketCandidates => "no IPC socket candidates available".to_owned(),
            Failure::NoProxy => "could not find the Bitwarden desktop_proxy binary — is the desktop app installed?".to_owned(),
            Failure::AgentNotRunning => "agent is not running".to_owned(),
            Failure::AgentNotStarted => "agent did not start within 5s".to_owned(),
            Failure::Json(t) => t.clone(),
            Failure::MissingSharedSecret => "setupEncryption reply missing sharedSecret".to_owned(),
            Failure::WrongUserId(t) => sentence("the desktop app is not logged into userId ", t.as_str(), " (try setting BW_WEZ_USER_ID)"),
            Failure::HandshakeInvalidated => "desktop invalidated the secure channel — retry".to_owned(),
            Failure::HandshakeDisconnected => "desktop disconnected during handshake — make sure the desktop vault is unlocked".to_owned(),
            Failure::FingerprintRejected => "fingerprint approval was rejected in the desktop app".to_owned(),
            Failure::ChannelInvalidated => "desktop invalidated the secure channel".to_owned(),
            Failure::Disconnected => "desktop disconnected".to_owned(),
            Failure::UnlockNotGranted => "biometric unlock not granted — enable 'Unlock with Touch ID' in the desktop app and ensure its vault is unlocked".to_owned(),
            Failure::MissingUserKey => "unlock reply missing userKeyB64".to_owned(),
            Failure::TotpAlgorithm(t) => sentence("unsupported TOTP algorithm: ", t.as_str(), " (v1 supports SHA1)"),
            Failure::TotpSecret => "invalid base32 TOTP secret".to_owned(),
            Failure::TotpMissingSecret => "otpauth URI missing secret".to_owned(),
            Failure::TotpParameters => "unusable TOTP digits or period".to_owned(),
            Failure::Clock(t) => t.clone(),
            Failure::NoItems => "no items found in the vault — open the Bitwarden desktop app and let it sync".to_owned(),
            Failure::ItemNotFound(t) => sentence("item ", t.as_str(), " not found"),
            Failure::MissingOrganizationKey => "missing organization key for this item".to_owned(),
            Failure::UnknownField(t) => sentence("unknown field: ", t.as_str(), ""),
            Failure::NoField(t) => sentence("item has no ", t.as_str(), ""),
            Failure::NoVault => "could not find the Bitwarden desktop app's vault on disk — is the desktop app installed and signed in? (or set BW_WEZ_VAULT_DATA)".to_owned(),
            Failure::NoUserId => "could not determine the desktop app's userId — set BW_WEZ_USER_ID to your account GUID".to_owned(),
            Failure::UnknownCommand(t) => sentence("unknown command: ", t.as_str(), ""),
            Failure::BadRequest(t) => sentence("bad request: ", t.as_str(), ""),
            Failure::TimedOut => "timed out waiting for a reply".to_owned(),
            Failure::ConnectTimedOut(n) => sentence("connection to IPC socket timed out after ", decimal_string(*n as u64).as_str(), "s"),
            Failure::Closed => "connection closed".to_owned(),
            Failure::Other(t) => t.clone(),
            Failure::Context(t, inner) => {
                let cause: String = inner.message();
                sentence(t.as_str(), ": ", cause.as_str())
            },
        };
        assert(r@ =~= message_of(self@));
        r
    }

    /// The outermost message of the error.
    pub fn headline(&self) -> (r: String)
        ensures
            r@ == headline_of(self@),
    {
        match self {
            Failure::Context(t, _) => t.clone(),
            Failure::NotUtf8(_) => "decrypted value was not valid UTF-8".to_owned(),
            Failure::MessageTooLarge => "message too large".to_owned(),
            _ => self.message(),
        }
    }
}

/// Whether a text holds another one as a part.
pub open spec fn holds_text(whole: Seq<char>, part: Seq<char>) -> bool {
    exists|before: Seq<char>, after: Seq<char>|
        #![trigger (before + part + after)]
        whole == before + part + after
}

proof fn lemma_holds_text(before: Seq<char>, part: Seq<char>, after: Seq<char>)
    ensures
        holds_text(before + part + after, part),
        holds_text(before + part, part),
        holds_text(part + after, part),
        holds_text(part, part),
{
    let nothing = Seq::<char>::empty();
    assert(before + part =~= before + part + nothing);
    assert(part + after =~= nothing + part + after);
    assert(part =~= nothing + part + nothing);
}

/// A message tells what the failure is about: the text or the number that came with
/// it stands in the message as it is.
pub proof fn lemma_message_tells_detail(t: Seq<char>, n: usize)
    ensures
        holds_text(message_of(Failure::KeyLength(n)), decimal(n as nat)),
        holds_text(message_of(Failure::IvLength(n)), decimal(n as nat)),
        holds_text(message_of(Failure::FrameLength(n)), decimal(n as nat)),
        holds_text(message_of(Failure::NativeFrameLength(n)), decimal(n as nat)),
        holds_text(message_of(Failure::ConnectTimedOut(n)), decimal(n as nat)),
        message_of(Failure::Base64(t)) == t,
        message_of(Failure::Rsa(t)) == t,
        message_of(Failure::Json(t)) == t,
        message_of(Failure::Clock(t)) == t,
        message_of(Failure::Other(t)) == t,
        holds_text(message_of(Failure::EncStringType(t)), t),
        holds_text(message_of(Failure::Cipher(t)), t),
        holds_text(message_of(Failure::NotUtf8(t)), t),
        holds_text(message_of(Failure::AccountKey(t)), t),
        holds_text(message_of(Failure::Unwrap(t)), t),
        holds_text(message_of(Failure::WrongUserId(t)), t),
        holds_text(message_of(Failure::TotpAlgorithm(t)), t),
        holds_text(message_of(Failure::ItemNotFound(t)), t),
        holds_text(message_of(Failure::UnknownField(t)), t),
        holds_text(message_of(Failure::NoField(t)), t),
        holds_text(message_of(Failure::UnknownCommand(t)), t),
        holds_text(message_of(Failure::BadRequest(t)), t),
{
    let d = decimal(n as nat);
    lemma_holds_text("expected a 64-byte symmetric key, got "@, d, " bytes"@);
    lemma_holds_text("bad iv length "@, d, Seq::empty());
    lemma_holds_text("implausible frame length: "@, d, Seq::empty());
    lemma_holds_text("implausible native-messaging frame length: "@, d, Seq::empty());
    lemma_holds_text("connection to IPC socket timed out after "@, d, "s"@);
    lemma_holds_text("unsupported EncString type (expected '2.'): "@, t, "…"@);
    lemma_holds_text("AES-CBC decrypt failed: "@, t, Seq::empty());
    lemma_holds_text("decrypted value was not valid UTF-8: "@, t, Seq::empty());
    lemma_holds_text("parsing account RSA private key: "@, t, Seq::empty());
    lemma_holds_text("RSA-OAEP decrypt failed: "@, t, Seq::empty());
    lemma_holds_text("the desktop app is not logged into userId "@, t, " (try setting BW_WEZ_USER_ID)"@);
    lemma_holds_text("unsupported TOTP algorithm: "@, t, " (v1 supports SHA1)"@);
    lemma_holds_text("item "@, t, " not found"@);
    lemma_holds_text("unknown field: "@, t, Seq::empty());
    lemma_holds_text("item has no "@, t, Seq::empty());
    lemma_holds_text("unknown command: "@, t, Seq::empty());
    lemma_holds_text("bad request: "@, t, Seq::empty());
}

/// A failure in the course of something larger tells the circumstance, then its cause
/// in full; its headline is the circumstance alone.
pub proof fn lemma_context_message(t: Seq<char>, cause: ErrorView)
    ensures
        message_of(Failure::Context(t, Box::new(cause))) == t + ": "@ + message_of(cause),
        headline_of(Failure::Context(t, Box::new(cause))) == t,
{
}

/// The headline is how the message begins; where it is not all of the message, a colon
/// follows it.
pub proof fn lemma_headline_begins_message(e: ErrorView)
    ensures
        message_of(e) == headline_of(e) || exists|rest: Seq<char>|
            message_of(e) == #[trigger] (headline_of(e) + ": "@ + rest),
        !(e is Context || e is NotUtf8 || e is MessageTooLarge) ==> headline_of(e) == message_of(e),
{
    reveal_strlit(": ");
    match e {
        Failure::Context(t, inner) => {
            assert(message_of(e) == headline_of(e) + ": "@ + message_of(*inner));
        },
        Failure::NotUtf8(t) => {
            reveal_strlit("decrypted value was not valid UTF-8: ");
            reveal_strlit("decrypted value was not valid UTF-8");
            assert(message_of(e) =~= headline_of(e) + ": "@ + t);
        },
        Failure::MessageTooLarge => {
            reveal_strlit("message too large: out of range integral type conversion attempted");
            reveal_strlit("message too large");
            reveal_strlit("out of range integral type conversion attempted");
            assert(message_of(e) =~= headline_of(e) + ": "@
                + "out of range integral type conversion attempted"@);
        },
        _ => {},
    }
}

/// A failure that a setting can mend names the setting, and one that a missing program
/// causes names the program.
pub proof fn lemma_message_names_remedy(t: Seq<char>)
    ensures
        message_of(Failure::NoVault)
            == "could not find the Bitwarden desktop app's vault on disk — is the desktop app installed and signed in? "@
            + "(or set "@ + "BW_WEZ_VAULT_DATA"@ + ")"@,
        message_of(Failure::NoProxy) == "could not find the Bitwarden "@ + "desktop_proxy"@
            + " binary — is the desktop app installed?"@,
        message_of(Failure::NoUserId)
            == "could not determine the desktop app's userId — set "@ + "BW_WEZ_USER_ID"@
            + " to your account GUID"@,
        message_of(Failure::WrongUserId(t)) == "the desktop app is not logged into userId "@ + t
            + " (try setting "@ + "BW_WEZ_USER_ID"@ + ")"@,
{
    reveal_strlit("could not find the Bitwarden desktop app's vault on disk — is the desktop app installed and signed in? (or set BW_WEZ_VAULT_DATA)");
    reveal_strlit("could not find the Bitwarden desktop app's vault on disk — is the desktop app installed and signed in? ");
    reveal_strlit("(or set ");
    reveal_strlit("BW_WEZ_VAULT_DATA");
    reveal_strlit(")");
    reveal_strlit("could not find the Bitwarden desktop_proxy binary — is the desktop app installed?");
    reveal_strlit("could not find the Bitwarden ");
    reveal_strlit("desktop_proxy");
    reveal_strlit(" binary — is the desktop app installed?");
    reveal_strlit("could not determine the desktop app's userId — set BW_WEZ_USER_ID to your account GUID");
    reveal_strlit("could not determine the desktop app's userId — set ");
    reveal_strlit("BW_WEZ_USER_ID");
    reveal_strlit(" to your account GUID");
    reveal_strlit(" (try setting BW_WEZ_USER_ID)");
    reveal_strlit(" (try setting ");
    assert(" (try setting BW_WEZ_USER_ID)"@ =~= " (try setting "@ + "BW_WEZ_USER_ID"@ + ")"@);
    assert(message_of(Failure::WrongUserId(t)) =~= "the desktop app is not logged into userId "@ + t
        + " (try setting "@ + "BW_WEZ_USER_ID"@ + ")"@);
}

} // verus!
