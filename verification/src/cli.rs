//! The command line: which request a command becomes, and what its outcome prints.

use crate::agent::{answered, process_step, refused, vault_answer, HolderView, NextView, PendingView};
use crate::agent::{Request, RequestView, Response, ResponseView};
use crate::error::{headline_of, message_of, Error, ErrorView, Failure};
use crate::json::{field, json_text, opt_field, JsonView};
use crate::text::{opt_view, or_empty, text_or_empty};
use crate::vault::{encrypted_field, field_shown, first_address, listing};
use vstd::prelude::*;

verus! {

/// A field of an item that can be asked for.
#[derive(Debug, Clone, Copy, PartialEq, Eq, Structural)]
pub enum Field {
    Password,
    Username,
    Totp,
    Uri,
    Notes,
}

/// The name of a field.
pub open spec fn field_name(f: Field) -> Seq<char> {
    match f {
        Field::Password => "password"@,
        Field::Username => "username"@,
        Field::Totp => "totp"@,
        Field::Uri => "uri"@,
        Field::Notes => "notes"@,
    }
}

impl Field {
    /// The name of the field.
    pub fn as_str(self) -> (r: &'static str)
        ensures
            r@ == field_name(self),
    {
        match self {
            Field::Password => "password",
            Field::Username => "username",
            Field::Totp => "totp",
            Field::Uri => "uri",
            Field::Notes => "notes",
        }
    }
}

/// A command that the agent serves.
pub enum Command {
    /// Reports whether the vault is unlocked.
    Status,
    /// Lists the login items.
    List,
    /// Gets a field of an item.
    Get(String, Field),
    /// Forces a biometric unlock.
    Unlock,
    /// Drops the key.
    Lock,
    /// Ends the agent.
    Stop,
}

/// The request that a command becomes.
pub open spec fn request_view(c: Command) -> RequestView {
    match c {
        Command::Status => RequestView { cmd: "status"@, id: None, field: None },
        Command::List => RequestView { cmd: "list"@, id: None, field: None },
        Command::Get(id, f) => RequestView {
            cmd: "get"@,
            id: Some(id@),
            field: Some(field_name(f)),
        },
        Command::Unlock => RequestView { cmd: "unlock"@, id: None, field: None },
        Command::Lock => RequestView { cmd: "lock"@, id: None, field: None },
        Command::Stop => RequestView { cmd: "stop"@, id: None, field: None },
    }
}

/// Whether an agent is started for a command if none is running.
pub open spec fn starts_agent(c: Command) -> bool {
    !(c is Lock || c is Stop)
}

impl Command {
    /// The request that the command becomes.
    pub fn request(&self) -> (r: Request)
        ensures
            r@ == request_view(*self),
    {
        match self {
            Command::Status => Request::new("status"),
            Command::List => Request::new("list"),
            Command::Get(id, f) => {
                let mut r: Request = Request::new("get");
                r.id = Some(id.clone());
                r.field = Some(f.as_str().to_owned());
                r
            },
            Command::Unlock => Request::new("unlock"),
            Command::Lock => Request::new("lock"),
            Command::Stop => Request::new("stop"),
        }
    }

    /// Whether an agent is started for the command if none is running: not in order
    /// to lock or stop it.
    pub fn spawns_agent(&self) -> (r: bool)
        ensures
            r == starts_agent(*self),
    {
        match self {
            Command::Lock => false,
            Command::Stop => false,
            _ => true,
        }
    }
}

/// What an answer of the agent says: the data, or the error.
pub open spec fn said(r: ResponseView) -> Result<Seq<char>, ErrorView> {
    if r.ok {
        Ok(or_empty(r.data))
    } else {
        Err(Failure::Other(or_empty(r.error)))
    }
}

/// What a command learns, from the agent's answer or the failure to get one.
pub open spec fn learnt(outcome: Result<Response, Error>) -> Result<Seq<char>, ErrorView> {
    match outcome {
        Ok(r) => said(r@),
        Err(e) => Err(e@),
    }
}

/// A status report.
pub struct StatusOut {
    pub status: String,
    pub message: Option<String>,
}

/// The mathematical view of a [`StatusOut`].
pub struct StatusOutView {
    pub status: Seq<char>,
    pub message: Option<Seq<char>>,
}

impl View for StatusOut {
    type V = StatusOutView;

    open spec fn view(&self) -> StatusOutView {
        StatusOutView { status: self.status@, message: opt_view(self.message) }
    }
}

/// What a command prints, and where.
pub enum Output {
    /// A status report on standard output; the command succeeds.
    Status(StatusOut),
    /// A line on standard output; the command succeeds.
    Line(String),
    /// A line on standard error; the command fails.
    Complaint(String),
}

/// The mathematical view of an [`Output`].
pub enum OutputView {
    Status(StatusOutView),
    Line(Seq<char>),
    Complaint(Seq<char>),
}

impl View for Output {
    type V = OutputView;

    open spec fn view(&self) -> OutputView {
        match self {
            Output::Status(s) => OutputView::Status(s@),
            Output::Line(t) => OutputView::Line(t@),
            Output::Complaint(t) => OutputView::Complaint(t@),
        }
    }
}

/// What a command prints, of an error the outermost message: a status is reported even where it is an error, a list
/// or a value is printed as it is, and the other commands report what became of the
/// key or of the agent.
pub open spec fn printed(c: Command, got: Result<Seq<char>, ErrorView>) -> OutputView {
    match (c, got) {
        (Command::Status, Ok(s)) => OutputView::Status(
            StatusOutView { status: s, message: None },
        ),
        (Command::Status, Err(e)) => OutputView::Status(
            StatusOutView { status: "error"@, message: Some(headline_of(e)) },
        ),
        (_, Err(e)) => OutputView::Complaint(headline_of(e)),
        (Command::List, Ok(s)) => OutputView::Line(s),
        (Command::Get(_, _), Ok(s)) => OutputView::Line(s),
        (Command::Unlock, Ok(_)) => OutputView::Status(
            StatusOutView { status: "unlocked"@, message: None },
        ),
        (Command::Lock, Ok(_)) => OutputView::Status(
            StatusOutView { status: "locked"@, message: None },
        ),
        (Command::Stop, Ok(_)) => OutputView::Status(
            StatusOutView { status: "stopped"@, message: None },
        ),
    }
}

/// A report that says one word.
fn report(word: &str) -> (r: Output)
    ensures
        r@ == OutputView::Status(StatusOutView { status: word@, message: None }),
{
    Output::Status(StatusOut { status: word.to_owned(), message: None })
}

/// The exit code that goes with an output.
pub open spec fn exit_of(o: OutputView) -> int {
    if o is Complaint {
        1
    } else {
        0
    }
}

impl Output {
    /// The exit code of the command.
    pub fn exit_code(&self) -> (r: i32)
        ensures
            r == exit_of(self@),
    {
        match self {
            Output::Complaint(_) => 1,
            _ => 0,
        }
    }
}

/// Says what a command prints.
pub fn render(command: &Command, outcome: Result<Response, Error>) -> (r: Output)
    ensures
        r@ == printed(*command, learnt(outcome)),
{
    let got: Result<String, Error> = match outcome {
        Ok(resp) => if resp.ok {
            Ok(text_or_empty(resp.data))
        } else {
            Err(Failure::Other(text_or_empty(resp.error)))
        },
        Err(e) => Err(e),
    };
    match got {
        Ok(s) => match command {
            Command::Status => Output::Status(StatusOut { status: s, message: None }),
            Command::List => Output::Line(s),
            Command::Get(_, _) => Output::Line(s),
            Command::Unlock => report("unlocked"),
            Command::Lock => report("locked"),
            Command::Stop => report("stopped"),
        },
        Err(e) => match command {
            Command::Status => Output::Status(
                StatusOut { status: "error".to_owned(), message: Some(e.headline()) },
            ),
            _ => Output::Complaint(e.headline()),
        },
    }
}

/// Every field that can be asked for is one that items have.
pub proof fn lemma_fields_known(f: Field, c: JsonView)
    ensures
        encrypted_field(c, field_name(f)) is Ok,
{
}

/// Every command becomes a request that the agent knows.
pub proof fn lemma_commands_known(c: Command, s: Option<HolderView>, now: u128)
    ensures
        process_step(s, request_view(c), now).1 != answered(
            refused(Failure::UnknownCommand(request_view(c).cmd)),
        ),
{
}

/// A command reaches the agent as what it is: a list is served as a list, a field as that
/// field of that item, whether the key is there or has to be obtained first.
pub proof fn lemma_commands_served(id: String, f: Field, h: HolderView, now: u128)
    ensures
        process_step(None, request_view(Command::List), now).1 == NextView::ObtainKey(
            PendingView::List,
        ),
        process_step(Some(h), request_view(Command::List), now).1 == NextView::ReadVault(
            PendingView::List,
            h.key,
        ),
        process_step(None, request_view(Command::Unlock), now).1 == NextView::ObtainKey(
            PendingView::Unlock,
        ),
        process_step(None, request_view(Command::Get(id, f)), now).1 == NextView::ObtainKey(
            PendingView::Get(id@, field_name(f)),
        ),
        process_step(Some(h), request_view(Command::Get(id, f)), now).1 == NextView::ReadVault(
            PendingView::Get(id@, field_name(f)),
            h.key,
        ),
        process_step(Some(h), request_view(Command::Lock), now).0 is None,
{
    let req = request_view(Command::Get(id, f));
    crate::agent::lemma_served_locked(req, id@, field_name(f), now);
    crate::agent::lemma_served_unlocked(h, req, id@, field_name(f), now);
    crate::agent::lemma_served_locked(request_view(Command::List), id@, field_name(f), now);
    crate::agent::lemma_served_unlocked(h, request_view(Command::List), id@, field_name(f), now);
    crate::agent::lemma_served_locked(request_view(Command::Unlock), id@, field_name(f), now);
    crate::agent::lemma_lock_and_stop(Some(h), request_view(Command::Lock), now);
}

/// What an answer says: the data as it is if the request was granted, else the error as
/// it is.
pub proof fn lemma_said(t: Seq<char>)
    ensures
        said((ResponseView { ok: true, data: Some(t), error: None })) == Ok::<Seq<char>, ErrorView>(t),
        said((ResponseView { ok: false, data: None, error: Some(t) })) == Err::<
            Seq<char>,
            ErrorView,
        >(Failure::Other(t)),
        said((ResponseView { ok: true, data: None, error: Some(t) })) == Ok::<Seq<char>, ErrorView>(
            Seq::empty(),
        ),
        said((ResponseView { ok: false, data: Some(t), error: None })) == Err::<
            Seq<char>,
            ErrorView,
        >(Failure::Other(Seq::empty())),
{
}

/// A list or a value is printed as it came, a status as the word that came; the other
/// commands print a word of their own. A failure is a complaint of the outermost message,
/// but a status that failed is still a report.
pub proof fn lemma_printed(id: String, f: Field, t: Seq<char>, e: ErrorView)
    ensures
        printed(Command::List, Ok(t)) == OutputView::Line(t),
        printed(Command::Get(id, f), Ok(t)) == OutputView::Line(t),
        printed(Command::Status, Ok(t)) == OutputView::Status(
            StatusOutView { status: t, message: None },
        ),
        printed(Command::Unlock, Ok(t)) == OutputView::Status(
            StatusOutView { status: "unlocked"@, message: None },
        ),
        printed(Command::Lock, Ok(t)) == OutputView::Status(
            StatusOutView { status: "locked"@, message: None },
        ),
        printed(Command::Stop, Ok(t)) == OutputView::Status(
            StatusOutView { status: "stopped"@, message: None },
        ),
        printed(Command::Status, Err(e)) == OutputView::Status(
            StatusOutView { status: "error"@, message: Some(headline_of(e)) },
        ),
        printed(Command::List, Err(e)) == OutputView::Complaint(headline_of(e)),
        printed(Command::Get(id, f), Err(e)) == OutputView::Complaint(headline_of(e)),
        printed(Command::Unlock, Err(e)) == OutputView::Complaint(headline_of(e)),
        printed(Command::Lock, Err(e)) == OutputView::Complaint(headline_of(e)),
        printed(Command::Stop, Err(e)) == OutputView::Complaint(headline_of(e)),
{
}

/// From the store to the terminal: a field is printed as it is shown and the list as its
/// compact text; why there is none is told in full.
pub proof fn lemma_store_to_terminal(
    id: String,
    f: Field,
    key: Seq<u8>,
    data: JsonView,
    clock: Result<u64, ErrorView>,
)
    ensures
        ({
            let answer = vault_answer(PendingView::Get(id@, field_name(f)), key, Ok(data), clock);
            printed(Command::Get(id, f), said(answer)) == match field_shown(
                data,
                key,
                id@,
                field_name(f),
                clock,
            ) {
                Ok(value) => OutputView::Line(value),
                Err(e) => OutputView::Complaint(message_of(e)),
            }
        }),
        ({
            let answer = vault_answer(PendingView::List, key, Ok(data), clock);
            printed(Command::List, said(answer)) == match listing(data, key) {
                Ok(list) => OutputView::Line(json_text(list)),
                Err(e) => OutputView::Complaint(message_of(e)),
            }
        }),
{
}

/// Each field that can be asked for is held where its name says: the password, the user
/// name and the one-time password in the login, the notes in the item itself, the address
/// at the first of the login's.
pub proof fn lemma_fields_meant(c: JsonView)
    ensures
        encrypted_field(c, field_name(Field::Password)) == Ok::<Option<JsonView>, ErrorView>(
            opt_field(field(c, "login"@), "password"@),
        ),
        encrypted_field(c, field_name(Field::Username)) == Ok::<Option<JsonView>, ErrorView>(
            opt_field(field(c, "login"@), "username"@),
        ),
        encrypted_field(c, field_name(Field::Totp)) == Ok::<Option<JsonView>, ErrorView>(
            opt_field(field(c, "login"@), "totp"@),
        ),
        encrypted_field(c, field_name(Field::Notes)) == Ok::<Option<JsonView>, ErrorView>(
            field(c, "notes"@),
        ),
        encrypted_field(c, field_name(Field::Uri)) == Ok::<Option<JsonView>, ErrorView>(
            first_address(field(c, "login"@)),
        ),
{
    crate::vault::lemma_field_names();
}

/// An agent is started for every command but those that would end it or drop its key.
pub proof fn lemma_starts_agent(c: Command)
    ensures
        starts_agent(c) <==> request_view(c).cmd != "lock"@ && request_view(c).cmd != "stop"@,
{
    crate::agent::lemma_command_names();
}

/// A command fails, with the code 1, if and only if there was an error and it was not
/// about to report the status.
pub proof fn lemma_exit_code(c: Command, got: Result<Seq<char>, ErrorView>)
    ensures
        exit_of(printed(c, got)) == 1 <==> got is Err && !(c is Status),
        exit_of(printed(c, got)) == 0 <==> got is Ok || c is Status,
{
}

/// What a command learns is what the agent's answer says, or why there is none.
pub proof fn lemma_learnt(r: Response, e: Error)
    ensures
        learnt(Ok(r)) == said(
            ResponseView { ok: r.ok, data: opt_view(r.data), error: opt_view(r.error) },
        ),
        learnt(Err(e)) == Err::<Seq<char>, ErrorView>(e@),
{
}

} // verus!
