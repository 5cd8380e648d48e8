//! The data plane: items of the desktop app's own vault store, decrypted with the
//! user key, and the unlock that obtains that key.
//!
//! The store is a JSON object whose keys end in the name of an area. Items are
//! personal, under the user key, or belong to an organization, under a key that
//! the account's RSA key unwraps; an item may have a key of its own below that.

use crate::clock::{now_ms, now_secs, possible, reading};
use crate::codec::b64_text;
use crate::crypto::{decrypted, decrypted_text, decrypted_type4, key_of, key_of_b64};
use crate::crypto::{key_result, lemma_decrypted_text, lemma_key_b64_round_trip, pkcs8_bits};
use crate::crypto::{pkcs8_fault, public_key_text};
use crate::crypto::{random_iv, text_result, PrivateKey, SymmetricKey, KEY_PAIR_BITS};
use crate::error::{Error, ErrorView, Failure};
use crate::json::{field, json_of_bytes, json_text, json_views, lemma_json_view};
use crate::json::{lemma_with_field, lemma_with_field_writable, member_views, members_of};
use crate::json::{opt_field, opt_json, opt_str, parse, reads_as, round_trips, text_field};
use crate::json::{text_of, with_field, within, writable};
use crate::json::{Json, JsonView};
use crate::protocol::{advanced, granted_key, handshake_step, message_enc_string, opening, reply_of};
use crate::protocol::{sent, unlock_command, unlock_reply, Handshake, HandshakeView, Progress};
use crate::protocol::{ProgressView, Reply, ReplyView, Session, SessionView};
use crate::text::{ends_with, guid, is_guid, opt_view, or_empty, str_eq, text_or_empty};
use crate::totp;
use crate::transport::{in_context, json_result, TransportKind};
use vstd::prelude::*;
use vstd::utf8::{decode_utf8, decode_utf8_encode_utf8, encode_utf8, valid_utf8};

verus! {

/// The value of the first member whose key ends in `suffix`.
pub open spec fn area(members: Seq<(Seq<char>, JsonView)>, suffix: Seq<char>) -> Option<JsonView>
    decreases members.len(),
{
    if members.len() == 0 {
        None
    } else if suffix.is_suffix_of(members[0].0) {
        Some(members[0].1)
    } else {
        area(members.skip(1), suffix)
    }
}

/// The area of a store with a given name.
pub open spec fn store_area(data: JsonView, suffix: Seq<char>) -> Option<JsonView> {
    area(members_of(data), suffix)
}

/// Finds an area of the store by the end of its key.
fn find_suffix<'a>(data: &'a Json, suffix: &str) -> (r: Option<&'a Json>)
    ensures
        opt_json(r) == store_area(data@, suffix@),
{
    proof {
        lemma_json_view(*data);
    }
    match data {
        Json::Object(members) => {
            let ghost all = member_views(members@);
            let mut i: usize = 0;
            assert(all.skip(0) =~= all);
            while i < members.len()
                invariant
                    i <= members@.len(),
                    all == member_views(members@),
                    data@ == JsonView::Object(all),
                    area(all, suffix@) == area(all.skip(i as int), suffix@),
                decreases members@.len() - i,
            {
                assert(all.skip(i as int)[0] == all[i as int]);
                if ends_with(members[i].0.as_str(), suffix) {
                    return Some(&members[i].1);
                }
                assert(all.skip(i as int).skip(1) =~= all.skip(i + 1));
                i += 1;
            }
            None
        },
        _ => None,
    }
}

/// The value under `key` of an optional document.
fn opt_get<'a>(j: Option<&'a Json>, key: &str) -> (r: Option<&'a Json>)
    ensures
        opt_json(r) == opt_field(opt_json(j), key@),
{
    match j {
        Some(v) => v.get(key),
        None => None,
    }
}

/// The text of an optional document.
fn opt_text<'a>(j: Option<&'a Json>) -> (r: Option<&'a str>)
    ensures
        opt_str(r) == text_of(opt_json(j)),
{
    match j {
        Some(v) => v.as_str(),
        None => None,
    }
}

/// Whether an item is a login.
pub open spec fn login(c: JsonView) -> bool {
    field(c, "type"@) == Some(JsonView::Number(Some(1)))
}

/// Tells whether an item is a login.
fn is_login(c: &Json) -> (r: bool)
    ensures
        r == login(c@),
{
    match c.get("type") {
        Some(t) => match t.as_i64() {
            Some(n) => n == 1,
            None => false,
        },
        None => false,
    }
}

/// What is kept last under a key.
pub open spec fn lookup<V>(pairs: Seq<(Seq<char>, V)>, key: Seq<char>) -> Option<V>
    decreases pairs.len(),
{
    if pairs.len() == 0 {
        None
    } else if pairs.last().0 == key {
        Some(pairs.last().1)
    } else {
        lookup(pairs.drop_last(), key)
    }
}

/// The text in an encrypted field, where there is one and it can be decrypted.
pub open spec fn text_in(key: Seq<u8>, v: Option<JsonView>) -> Option<Seq<char>> {
    match text_of(v) {
        Some(enc) => match decrypted_text(key, enc) {
            Ok(s) => Some(s),
            Err(_) => None,
        },
        None => None,
    }
}

/// Decrypts a field, where it is there and can be decrypted.
fn dec_opt(key: &SymmetricKey, v: Option<&Json>) -> (r: Option<String>)
    ensures
        opt_view(r) == text_in(key@, opt_json(v)),
{
    match opt_text(v) {
        Some(enc) => match key.decrypt_str(enc) {
            Ok(s) => Some(s),
            Err(_) => None,
        },
        None => None,
    }
}

/// The address of a login: the first of its URIs.
pub open spec fn first_address(login: Option<JsonView>) -> Option<JsonView> {
    match opt_field(login, "uris"@) {
        Some(JsonView::Array(items)) => if items.len() > 0 {
            field(items[0], "uri"@)
        } else {
            None
        },
        _ => None,
    }
}

/// Finds the address of a login.
fn first_uri<'a>(login: Option<&'a Json>) -> (r: Option<&'a Json>)
    ensures
        opt_json(r) == first_address(opt_json(login)),
{
    match opt_get(login, "uris") {
        Some(uris) => {
            proof {
                lemma_json_view(*uris);
            }
            match uris {
                Json::Array(items) => {
                    if items.len() > 0 {
                        assert(json_views(items@)[0] == items@[0]@);
                        items[0].get("uri")
                    } else {
                        None
                    }
                },
                _ => None,
            }
        },
        None => None,
    }
}

/// The names of the folders that can be decrypted, each with the folder's id.
pub open spec fn names_in(members: Seq<(Seq<char>, JsonView)>, key: Seq<u8>) -> Seq<
    (Seq<char>, Seq<char>),
>
    decreases members.len(),
{
    if members.len() == 0 {
        Seq::empty()
    } else {
        let before = names_in(members.drop_last(), key);
        match text_in(key, field(members.last().1, "name"@)) {
            Some(name) => before.push((members.last().0, name)),
            None => before,
        }
    }
}

/// The members of an area, none where the store has no such object.
pub open spec fn area_members(data: JsonView, suffix: Seq<char>) -> Seq<(Seq<char>, JsonView)> {
    match store_area(data, suffix) {
        Some(v) => members_of(v),
        None => Seq::empty(),
    }
}

/// The folders of a store.
pub open spec fn folders_of(data: JsonView, key: Seq<u8>) -> Seq<(Seq<char>, Seq<char>)> {
    names_in(area_members(data, "_folder_folders"@), key)
}

/// The views of named texts.
pub open spec fn named_texts(list: Seq<(String, String)>) -> Seq<(Seq<char>, Seq<char>)> {
    Seq::new(list.len(), |i: int| (list[i].0@, list[i].1@))
}

/// The members of an object, for going through them.
fn members<'a>(j: Option<&'a Json>) -> (r: Option<&'a Vec<(String, Json)>>)
    ensures
        match r {
            Some(list) => opt_json(j) == Some(JsonView::Object(member_views(list@))),
            None => opt_json(j) is None || !(opt_json(j)->0 is Object),
        },
{
    match j {
        Some(v) => {
            proof {
                lemma_json_view(*v);
            }
            match v {
                Json::Object(list) => Some(list),
                _ => None,
            }
        },
        None => None,
    }
}

/// Collects the names of the folders.
fn folder_map(data: &Json, uk: &SymmetricKey) -> (r: Vec<(String, String)>)
    ensures
        named_texts(r@) == folders_of(data@, uk@),
{
    let mut out: Vec<(String, String)> = Vec::new();
    if let Some(list) = members(find_suffix(data, "_folder_folders")) {
        let ghost all = member_views(list@);
        let mut i: usize = 0;
        assert(all.take(0) =~= Seq::empty());
        assert(named_texts(out@) =~= Seq::empty());
        while i < list.len()
            invariant
                i <= list@.len(),
                all == member_views(list@),
                named_texts(out@) == names_in(all.take(i as int), uk@),
            decreases list@.len() - i,
        {
            assert(all.take(i + 1).drop_last() =~= all.take(i as int));
            assert(all.take(i + 1).last() == all[i as int]);
            let ghost before = out@;
            if let Some(name) = dec_opt(uk, list[i].1.get("name")) {
                out.push((list[i].0.clone(), name));
                assert(named_texts(out@) =~= named_texts(before).push((list@[i as int].0@, name@)));
            }
            i += 1;
        }
        assert(all.take(i as int) =~= all);
    } else {
        assert(named_texts(out@) =~= Seq::empty());
    }
    out
}

/// Finds a name by its id.
fn find_text(list: &Vec<(String, String)>, key: &str) -> (r: Option<String>)
    ensures
        opt_view(r) == lookup(named_texts(list@), key@),
{
    let ghost all = named_texts(list@);
    let mut i: usize = list.len();
    assert(all.take(i as int) =~= all);
    while i > 0
        invariant
            i <= list@.len(),
            all == named_texts(list@),
            lookup(all, key@) == lookup(all.take(i as int), key@),
        decreases i,
    {
        assert(all.take(i as int).last() == all[i - 1]);
        assert(all.take(i as int).drop_last() =~= all.take(i - 1));
        if str_eq(list[i - 1].0.as_str(), key) {
            return Some(list[i - 1].1.clone());
        }
        i -= 1;
    }
    None
}

/// The EncString of the account's private key: nested below the cryptographic
/// state, or else flat.
pub open spec fn account_enc_string(data: JsonView) -> Option<Seq<char>> {
    let state = store_area(data, "_crypto_accountCryptographicState"@);
    match text_of(opt_field(opt_field(state, "V1"@), "private_key"@)) {
        Some(enc) => Some(enc),
        None => text_of(store_area(data, "_crypto_privateKey"@)),
    }
}

/// The account's private key, as its PKCS#8 document.
pub open spec fn account_key(data: JsonView, key: Seq<u8>) -> Option<Seq<u8>> {
    match account_enc_string(data) {
        None => None,
        Some(enc) => match decrypted(key, enc) {
            Err(_) => None,
            Ok(der) => if pkcs8_fault(der) is None {
                Some(der)
            } else {
                None
            },
        },
    }
}

/// Decrypts the account's private key.
fn account_private_key(data: &Json, uk: &SymmetricKey) -> (r: Option<PrivateKey>)
    ensures
        match r {
            Some(pk) => account_key(data@, uk@) == Some(pk@),
            None => account_key(data@, uk@) is None,
        },
{
    let state: Option<&Json> = find_suffix(data, "_crypto_accountCryptographicState");
    let nested: Option<&str> = opt_text(opt_get(opt_get(state, "V1"), "private_key"));
    let enc: &str = match nested {
        Some(enc) => enc,
        None => match opt_text(find_suffix(data, "_crypto_privateKey")) {
            Some(enc) => enc,
            None => return None,
        },
    };
    match uk.decrypt(enc) {
        Err(_) => None,
        Ok(der) => match PrivateKey::from_pkcs8_der(der.as_slice()) {
            Ok(pk) => Some(pk),
            Err(_) => None,
        },
    }
}

/// The organization key in an entry, where it can be unwrapped.
pub open spec fn organization_key(entry: JsonView, der: Seq<u8>) -> Option<Seq<u8>> {
    match text_field(entry, "key"@) {
        None => None,
        Some(enc) => match decrypted_type4(der, enc) {
            Err(_) => None,
            Ok(raw) => if raw.len() == 64 {
                Some(raw)
            } else {
                None
            },
        },
    }
}

/// The organization keys that can be unwrapped, each with the organization's id.
pub open spec fn keys_in(members: Seq<(Seq<char>, JsonView)>, der: Seq<u8>) -> Seq<
    (Seq<char>, Seq<u8>),
>
    decreases members.len(),
{
    if members.len() == 0 {
        Seq::empty()
    } else {
        let before = keys_in(members.drop_last(), der);
        match organization_key(members.last().1, der) {
            Some(key) => before.push((members.last().0, key)),
            None => before,
        }
    }
}

/// The organization keys of a store.
pub open spec fn organizations_of(data: JsonView, key: Seq<u8>) -> Seq<(Seq<char>, Seq<u8>)> {
    match account_key(data, key) {
        None => Seq::empty(),
        Some(der) => keys_in(area_members(data, "_crypto_organizationKeys"@), der),
    }
}

/// The views of named keys.
pub open spec fn named_keys(list: Seq<(String, SymmetricKey)>) -> Seq<(Seq<char>, Seq<u8>)> {
    Seq::new(list.len(), |i: int| (list[i].0@, list[i].1@))
}

/// Unwraps the key in an entry.
fn unwrap_entry(pk: &PrivateKey, entry: &Json) -> (r: Option<SymmetricKey>)
    ensures
        match r {
            Some(k) => organization_key(entry@, pk@) == Some(k@),
            None => organization_key(entry@, pk@) is None,
        },
{
    match entry.text("key") {
        None => None,
        Some(enc) => match pk.decrypt_type4(enc) {
            Err(_) => None,
            Ok(raw) => match SymmetricKey::from_bytes(raw.as_slice()) {
                Ok(k) => Some(k),
                Err(_) => None,
            },
        },
    }
}

/// Unwraps the organization keys.
fn org_keys(data: &Json, uk: &SymmetricKey) -> (r: Vec<(String, SymmetricKey)>)
    ensures
        named_keys(r@) == organizations_of(data@, uk@),
{
    let mut out: Vec<(String, SymmetricKey)> = Vec::new();
    assert(named_keys(out@) =~= Seq::empty());
    let pk: PrivateKey = match account_private_key(data, uk) {
        Some(pk) => pk,
        None => return out,
    };
    if let Some(list) = members(find_suffix(data, "_crypto_organizationKeys")) {
        let ghost all = member_views(list@);
        let mut i: usize = 0;
        assert(all.take(0) =~= Seq::empty());
        while i < list.len()
            invariant
                i <= list@.len(),
                all == member_views(list@),
                named_keys(out@) == keys_in(all.take(i as int), pk@),
            decreases list@.len() - i,
        {
            assert(all.take(i + 1).drop_last() =~= all.take(i as int));
            assert(all.take(i + 1).last() == all[i as int]);
            let ghost before = out@;
            if let Some(key) = unwrap_entry(&pk, &list[i].1) {
                out.push((list[i].0.clone(), key));
                assert(named_keys(out@) =~= named_keys(before).push((list@[i as int].0@, key@)));
            }
            i += 1;
        }
        assert(all.take(i as int) =~= all);
    }
    out
}

/// Finds a key by its name.
fn find_key<'a>(list: &'a Vec<(String, SymmetricKey)>, key: &str) -> (r: Option<&'a SymmetricKey>)
    ensures
        match r {
            Some(k) => lookup(named_keys(list@), key@) == Some(k@),
            None => lookup(named_keys(list@), key@) is None,
        },
{
    let ghost all = named_keys(list@);
    let mut i: usize = list.len();
    assert(all.take(i as int) =~= all);
    while i > 0
        invariant
            i <= list@.len(),
            all == named_keys(list@),
            lookup(all, key@) == lookup(all.take(i as int), key@),
        decreases i,
    {
        assert(all.take(i as int).last() == all[i - 1]);
        assert(all.take(i as int).drop_last() =~= all.take(i - 1));
        if str_eq(list[i - 1].0.as_str(), key) {
            return Some(&list[i - 1].1);
        }
        i -= 1;
    }
    None
}

/// The key that an item is below: that of its organization, where it belongs to
/// one and the key is there, else the user key.
pub open spec fn item_base(c: JsonView, key: Seq<u8>, orgs: Seq<(Seq<char>, Seq<u8>)>) -> Option<
    Seq<u8>,
> {
    match text_field(c, "organizationId"@) {
        Some(org) => lookup(orgs, org),
        None => Some(key),
    }
}

/// Finds the key that an item is below.
fn base_key<'a>(
    c: &Json,
    uk: &'a SymmetricKey,
    orgs: &'a Vec<(String, SymmetricKey)>,
) -> (r: Option<&'a SymmetricKey>)
    ensures
        match r {
            Some(k) => item_base(c@, uk@, named_keys(orgs@)) == Some(k@),
            None => item_base(c@, uk@, named_keys(orgs@)) is None,
        },
{
    match c.text("organizationId") {
        Some(org) => find_key(orgs, org),
        None => Some(uk),
    }
}

/// The key that decrypts the fields of an item: its own, where it has one, else the
/// one it is below.
pub open spec fn own_key(base: Seq<u8>, c: JsonView) -> Result<Seq<u8>, ErrorView> {
    match text_field(c, "key"@) {
        Some(enc) => match decrypted(base, enc) {
            Ok(raw) => key_of(raw),
            Err(e) => Err(Failure::Context("decrypting item key"@, Box::new(e))),
        },
        None => Ok(base),
    }
}

/// Finds the key that decrypts the fields of an item.
fn item_key(base: &SymmetricKey, c: &Json) -> (r: Result<SymmetricKey, Error>)
    ensures
        key_result(r) == own_key(base@, c@),
{
    match c.text("key") {
        Some(enc) => match base.decrypt(enc) {
            Ok(raw) => SymmetricKey::from_bytes(raw.as_slice()),
            Err(e) => Err(in_context("decrypting item key", e)),
        },
        None => Ok(base.clone()),
    }
}

/// A line of the list of items.
pub open spec fn line(
    id: Seq<char>,
    name: Seq<char>,
    username: Seq<char>,
    folder: Seq<char>,
    uri: Seq<char>,
) -> JsonView {
    let one = with_field(JsonView::Null, "id"@, JsonView::Str(id));
    let two = with_field(one, "name"@, JsonView::Str(name));
    let three = with_field(two, "username"@, JsonView::Str(username));
    let four = with_field(three, "folder"@, JsonView::Str(folder));
    with_field(four, "uri"@, JsonView::Str(uri))
}

/// The name of an item's folder.
pub open spec fn folder_of(c: JsonView, folders: Seq<(Seq<char>, Seq<char>)>) -> Option<Seq<char>> {
    match text_field(c, "folderId"@) {
        Some(id) => lookup(folders, id),
        None => None,
    }
}

/// The line for an item: none for what is no login, has no id, or has no key that
/// can be found. A field that cannot be decrypted is left empty.
pub open spec fn line_of(
    c: JsonView,
    key: Seq<u8>,
    orgs: Seq<(Seq<char>, Seq<u8>)>,
    folders: Seq<(Seq<char>, Seq<char>)>,
) -> Option<JsonView> {
    match (login(c), text_field(c, "id"@), item_base(c, key, orgs)) {
        (true, Some(id), Some(base)) => match own_key(base, c) {
            Err(_) => None,
            Ok(own) => {
                let details = field(c, "login"@);
                Some(
                    line(
                        id,
                        or_empty(text_in(own, field(c, "name"@))),
                        or_empty(text_in(own, opt_field(details, "username"@))),
                        or_empty(folder_of(c, folders)),
                        or_empty(text_in(own, first_address(details))),
                    ),
                )
            },
        },
        _ => None,
    }
}

/// The lines for items, in their order.
pub open spec fn lines(
    items: Seq<(Seq<char>, JsonView)>,
    key: Seq<u8>,
    orgs: Seq<(Seq<char>, Seq<u8>)>,
    folders: Seq<(Seq<char>, Seq<char>)>,
) -> Seq<JsonView>
    decreases items.len(),
{
    if items.len() == 0 {
        Seq::empty()
    } else {
        let before = lines(items.drop_last(), key, orgs, folders);
        match line_of(items.last().1, key, orgs, folders) {
            Some(l) => before.push(l),
            None => before,
        }
    }
}

/// The list of the login items of a store.
pub open spec fn listing(data: JsonView, key: Seq<u8>) -> Result<JsonView, ErrorView> {
    match store_area(data, "_ciphers_ciphers"@) {
        None => Err(Failure::NoItems),
        Some(items) => Ok(
            JsonView::Array(
                lines(
                    members_of(items),
                    key,
                    organizations_of(data, key),
                    folders_of(data, key),
                ),
            ),
        ),
    }
}

/// A line can be written out.
proof fn lemma_line_writable(
    id: Seq<char>,
    name: Seq<char>,
    username: Seq<char>,
    folder: Seq<char>,
    uri: Seq<char>,
)
    ensures
        writable(line(id, name, username, folder, uri)),
        within(line(id, name, username, folder, uri), 126),
{
    let one = with_field(JsonView::Null, "id"@, JsonView::Str(id));
    let two = with_field(one, "name"@, JsonView::Str(name));
    let three = with_field(two, "username"@, JsonView::Str(username));
    let four = with_field(three, "folder"@, JsonView::Str(folder));
    lemma_with_field_writable(JsonView::Null, "id"@, JsonView::Str(id), 126);
    lemma_with_field_writable(one, "name"@, JsonView::Str(name), 126);
    lemma_with_field_writable(two, "username"@, JsonView::Str(username), 126);
    lemma_with_field_writable(three, "folder"@, JsonView::Str(folder), 126);
    lemma_with_field_writable(four, "uri"@, JsonView::Str(uri), 126);
}

/// Every line is the line of one of the items, and can be written out.
proof fn lemma_lines(
    items: Seq<(Seq<char>, JsonView)>,
    key: Seq<u8>,
    orgs: Seq<(Seq<char>, Seq<u8>)>,
    folders: Seq<(Seq<char>, Seq<char>)>,
)
    ensures
        forall|i: int|
            0 <= i < lines(items, key, orgs, folders).len() ==> {
                &&& writable(#[trigger] lines(items, key, orgs, folders)[i])
                &&& within(lines(items, key, orgs, folders)[i], 126)
                &&& exists|k: int|
                    0 <= k < items.len() && line_of((#[trigger] items[k]).1, key, orgs, folders)
                        == Some(lines(items, key, orgs, folders)[i])
            },
    decreases items.len(),
{
    if items.len() > 0 {
        let front = items.drop_last();
        let before = lines(front, key, orgs, folders);
        let all = lines(items, key, orgs, folders);
        lemma_lines(front, key, orgs, folders);
        assert forall|i: int| 0 <= i < all.len() implies {
            &&& writable(#[trigger] all[i])
            &&& within(all[i], 126)
            &&& exists|k: int|
                0 <= k < items.len() && line_of((#[trigger] items[k]).1, key, orgs, folders)
                    == Some(all[i])
        } by {
            if i < before.len() {
                assert(all[i] == before[i]);
                let k = choose|k: int|
                    0 <= k < front.len() && line_of((#[trigger] front[k]).1, key, orgs, folders)
                        == Some(before[i]);
                assert(items[k] == front[k]);
            } else {
                let c = items.last().1;
                assert(items[items.len() - 1] == items.last());
                assert(line_of(c, key, orgs, folders) == Some(all[i]));
                let own = own_key(item_base(c, key, orgs)->0, c)->Ok_0;
                let details = field(c, "login"@);
                lemma_line_writable(
                    text_field(c, "id"@)->0,
                    or_empty(text_in(own, field(c, "name"@))),
                    or_empty(text_in(own, opt_field(details, "username"@))),
                    or_empty(folder_of(c, folders)),
                    or_empty(text_in(own, first_address(details))),
                );
            }
        }
    }
}

/// Makes the line for an item.
fn item_line(
    c: &Json,
    uk: &SymmetricKey,
    orgs: &Vec<(String, SymmetricKey)>,
    folders: &Vec<(String, String)>,
) -> (r: Option<Json>)
    ensures
        (match r {
            Some(j) => Some(j@),
            None => None,
        }) == line_of(c@, uk@, named_keys(orgs@), named_texts(folders@)),
{
    if !is_login(c) {
        return None;
    }
    let id: &str = match c.text("id") {
        Some(id) => id,
        None => return None,
    };
    let base: &SymmetricKey = match base_key(c, uk, orgs) {
        Some(base) => base,
        None => return None,
    };
    let own: SymmetricKey = match item_key(base, c) {
        Ok(own) => own,
        Err(_) => return None,
    };
    let details: Option<&Json> = c.get("login");
    let name: String = text_or_empty(dec_opt(&own, c.get("name")));
    let username: String = text_or_empty(dec_opt(&own, opt_get(details, "username")));
    let folder: String = text_or_empty(
        match c.text("folderId") {
            Some(fid) => find_text(folders, fid),
            None => None,
        },
    );
    let uri: String = text_or_empty(dec_opt(&own, first_uri(details)));
    Some(
        Json::Null.with("id", Json::string(id)).with("name", Json::Str(name)).with(
            "username",
            Json::Str(username),
        ).with("folder", Json::Str(folder)).with("uri", Json::Str(uri)),
    )
}

/// Lists the login items of a store.
pub fn list_items(uk: &SymmetricKey, data: &Json) -> (r: Result<Json, Error>)
    ensures
        json_result(r) == listing(data@, uk@),
        r matches Ok(j) ==> round_trips(j@),
{
    let items: &Json = match find_suffix(data, "_ciphers_ciphers") {
        Some(items) => items,
        None => return Err(Failure::NoItems),
    };
    let folders: Vec<(String, String)> = folder_map(data, uk);
    let orgs: Vec<(String, SymmetricKey)> = org_keys(data, uk);
    let ghost f = named_texts(folders@);
    let ghost o = named_keys(orgs@);
    let mut out: Vec<Json> = Vec::new();
    assert(json_views(out@) =~= Seq::empty());
    if let Some(list) = members(Some(items)) {
        let ghost all = member_views(list@);
        let mut i: usize = 0;
        assert(all.take(0) =~= Seq::empty());
        while i < list.len()
            invariant
                i <= list@.len(),
                all == member_views(list@),
                f == named_texts(folders@),
                o == named_keys(orgs@),
                json_views(out@) == lines(all.take(i as int), uk@, o, f),
            decreases list@.len() - i,
        {
            assert(all.take(i + 1).drop_last() =~= all.take(i as int));
            assert(all.take(i + 1).last() == all[i as int]);
            let ghost before = out@;
            if let Some(l) = item_line(&list[i].1, uk, &orgs, &folders) {
                out.push(l);
                assert(json_views(out@) =~= json_views(before).push(l@));
            }
            i += 1;
        }
        assert(all.take(i as int) =~= all);
    }
    let r: Json = Json::Array(out);
    proof {
        lemma_json_view(r);
        lemma_lines(members_of(items@), uk@, o, f);
        assert forall|k: int| 0 <= k < json_views(out@).len() implies writable(
            #[trigger] json_views(out@)[k],
        ) && within(json_views(out@)[k], 126) by {
            assert(writable(lines(members_of(items@), uk@, o, f)[k]));
        }
    }
    Ok(r)
}

/// The list of the login items of a store, as compact JSON.
pub fn list_with_key(uk: &SymmetricKey, data: &Json) -> (r: Result<String, Error>)
    ensures
        match listing(data@, uk@) {
            Ok(j) => r is Ok && r->Ok_0@ == json_text(j) && reads_as(r->Ok_0@, j),
            Err(e) => r is Err && r->Err_0@ == e,
        },
{
    match list_items(uk, data) {
        Ok(j) => Ok(j.to_text()),
        Err(e) => Err(e),
    }
}

/// The first member whose value has a given id.
pub open spec fn item_with_id(items: Seq<(Seq<char>, JsonView)>, id: Seq<char>) -> Option<JsonView>
    decreases items.len(),
{
    if items.len() == 0 {
        None
    } else if text_field(items[0].1, "id"@) == Some(id) {
        Some(items[0].1)
    } else {
        item_with_id(items.skip(1), id)
    }
}

/// Finds an item by its id.
fn find_item<'a>(items: &'a Json, id: &str) -> (r: Option<&'a Json>)
    ensures
        opt_json(r) == item_with_id(members_of(items@), id@),
{
    if let Some(list) = members(Some(items)) {
        let ghost all = member_views(list@);
        let mut i: usize = 0;
        assert(all.skip(0) =~= all);
        while i < list.len()
            invariant
                i <= list@.len(),
                all == member_views(list@),
                items@ == JsonView::Object(all),
                item_with_id(all, id@) == item_with_id(all.skip(i as int), id@),
            decreases list@.len() - i,
        {
            assert(all.skip(i as int)[0] == all[i as int]);
            let found: bool = match list[i].1.text("id") {
                Some(have) => str_eq(have, id),
                None => false,
            };
            if found {
                return Some(&list[i].1);
            }
            assert(all.skip(i as int).skip(1) =~= all.skip(i + 1));
            i += 1;
        }
        assert(all.skip(i as int) =~= Seq::empty());
    }
    None
}

/// The encrypted field of an item; an error for a name that no field has.
pub open spec fn encrypted_field(c: JsonView, name: Seq<char>) -> Result<
    Option<JsonView>,
    ErrorView,
> {
    let details = field(c, "login"@);
    if name == "password"@ {
        Ok(opt_field(details, "password"@))
    } else if name == "username"@ {
        Ok(opt_field(details, "username"@))
    } else if name == "uri"@ {
        Ok(first_address(details))
    } else if name == "notes"@ {
        Ok(field(c, "notes"@))
    } else if name == "totp"@ {
        Ok(opt_field(details, "totp"@))
    } else {
        Err(Failure::UnknownField(name))
    }
}

/// A field of an item, decrypted with the item's key.
pub open spec fn field_in(c: JsonView, own: Seq<u8>, name: Seq<char>) -> Result<
    Seq<char>,
    ErrorView,
> {
    match encrypted_field(c, name) {
        Err(e) => Err(e),
        Ok(v) => match text_of(v) {
            None => Err(Failure::NoField(name)),
            Some(enc) => decrypted_text(own, enc),
        },
    }
}

/// A field of an item of a store, decrypted.
pub open spec fn field_text(
    data: JsonView,
    key: Seq<u8>,
    id: Seq<char>,
    name: Seq<char>,
) -> Result<Seq<char>, ErrorView> {
    match store_area(data, "_ciphers_ciphers"@) {
        None => Err(Failure::NoItems),
        Some(items) => match item_with_id(members_of(items), id) {
            None => Err(Failure::ItemNotFound(id)),
            Some(c) => match item_base(c, key, organizations_of(data, key)) {
                None => Err(Failure::MissingOrganizationKey),
                Some(base) => match own_key(base, c) {
                    Err(e) => Err(e),
                    Ok(own) => field_in(c, own, name),
                },
            },
        },
    }
}

/// Finds the encrypted field of an item.
fn select_field<'a>(c: &'a Json, name: &str) -> (r: Result<Option<&'a Json>, Error>)
    ensures
        (match r {
            Ok(v) => Ok(opt_json(v)),
            Err(e) => Err(e@),
        }) == encrypted_field(c@, name@),
{
    let details: Option<&Json> = c.get("login");
    if str_eq(name, "password") {
        Ok(opt_get(details, "password"))
    } else if str_eq(name, "username") {
        Ok(opt_get(details, "username"))
    } else if str_eq(name, "uri") {
        Ok(first_uri(details))
    } else if str_eq(name, "notes") {
        Ok(c.get("notes"))
    } else if str_eq(name, "totp") {
        Ok(opt_get(details, "totp"))
    } else {
        Err(Failure::UnknownField(name.to_owned()))
    }
}

/// Decrypts a field of an item as it is stored.
pub fn stored_field(uk: &SymmetricKey, data: &Json, id: &str, name: &str) -> (r: Result<
    String,
    Error,
>)
    ensures
        text_result(r) == field_text(data@, uk@, id@, name@),
{
    let items: &Json = match find_suffix(data, "_ciphers_ciphers") {
        Some(items) => items,
        None => return Err(Failure::NoItems),
    };
    let c: &Json = match find_item(items, id) {
        Some(c) => c,
        None => return Err(Failure::ItemNotFound(id.to_owned())),
    };
    let orgs: Vec<(String, SymmetricKey)> = org_keys(data, uk);
    let base: &SymmetricKey = match base_key(c, uk, &orgs) {
        Some(base) => base,
        None => return Err(Failure::MissingOrganizationKey),
    };
    let own: SymmetricKey = match item_key(base, c) {
        Ok(own) => own,
        Err(e) => return Err(e),
    };
    match select_field(c, name) {
        Err(e) => Err(e),
        Ok(v) => match opt_text(v) {
            None => Err(Failure::NoField(name.to_owned())),
            Some(enc) => own.decrypt_str(enc),
        },
    }
}

/// What a field of an item is shown as at a time: a one-time password by its code,
/// anything else as it is. A one-time password for which no code can be computed is
/// an error.
pub open spec fn field_shown(
    data: JsonView,
    key: Seq<u8>,
    id: Seq<char>,
    name: Seq<char>,
    clock: Result<u64, ErrorView>,
) -> Result<Seq<char>, ErrorView> {
    match field_text(data, key, id, name) {
        Err(e) => Err(e),
        Ok(value) => if name == "totp"@ {
            if totp::usable(value) {
                totp::code_at(value, clock)
            } else {
                Err(Failure::TotpParameters)
            }
        } else {
            Ok(value)
        },
    }
}

/// A field of an item at a time given in seconds since 1970, or by what stands in
/// its place.
pub fn get_field_at(
    uk: &SymmetricKey,
    data: &Json,
    id: &str,
    field: &str,
    clock: Result<u64, Error>,
) -> (r: Result<String, Error>)
    ensures
        text_result(r) == field_shown(data@, uk@, id@, field@, reading(clock)),
{
    match stored_field(uk, data, id, field) {
        Err(e) => Err(e),
        Ok(value) => if str_eq(field, "totp") {
            if totp::is_usable(value.as_str()) {
                totp::generate_at(value.as_str(), clock)
            } else {
                Err(Failure::TotpParameters)
            }
        } else {
            Ok(value)
        },
    }
}

/// A field of an item, now.
pub fn get_field_with_key(uk: &SymmetricKey, data: &Json, id: &str, field: &str) -> (r: Result<
    String,
    Error,
>)
    ensures
        exists|clock: Result<u64, ErrorView>|
            possible(clock) && text_result(r) == #[trigger] field_shown(
                data@,
                uk@,
                id@,
                field@,
                clock,
            ),
        field@ != "totp"@ ==> text_result(r) == field_text(data@, uk@, id@, field@),
{
    let clock: Result<u64, Error> = now_secs();
    let ghost seen = reading(clock);
    let r: Result<String, Error> = get_field_at(uk, data, id, field, clock);
    assert(possible(seen) && text_result(r) == field_shown(data@, uk@, id@, field@, seen));
    r
}

/// Every line of a list is the line of an item of the store: nothing is listed
/// that is no login, and every id in the list is the id of an item.
pub proof fn lemma_listing_from_items(data: JsonView, key: Seq<u8>, i: int)
    requires
        listing(data, key) is Ok,
        0 <= i < listing(data, key)->Ok_0->Array_0.len(),
    ensures
        exists|k: int|
            0 <= k < area_members(data, "_ciphers_ciphers"@).len() && {
                let c = (#[trigger] area_members(data, "_ciphers_ciphers"@)[k]).1;
                &&& login(c)
                &&& line_of(c, key, organizations_of(data, key), folders_of(data, key)) == Some(
                    listing(data, key)->Ok_0->Array_0[i],
                )
            },
{
    let items = area_members(data, "_ciphers_ciphers"@);
    let orgs = organizations_of(data, key);
    let folders = folders_of(data, key);
    lemma_lines(items, key, orgs, folders);
    let all = lines(items, key, orgs, folders);
    assert(writable(all[i]));
    let k = choose|k: int|
        0 <= k < items.len() && line_of((#[trigger] items[k]).1, key, orgs, folders) == Some(all[i]);
    assert(login(items[k].1));
}

/// Every item that can be listed is listed.
pub proof fn lemma_listing_complete(data: JsonView, key: Seq<u8>, k: int)
    requires
        listing(data, key) is Ok,
        0 <= k < area_members(data, "_ciphers_ciphers"@).len(),
    ensures
        line_of(
            area_members(data, "_ciphers_ciphers"@)[k].1,
            key,
            organizations_of(data, key),
            folders_of(data, key),
        ) matches Some(l) ==> listing(data, key)->Ok_0->Array_0.contains(l),
{
    lemma_lines_complete(
        area_members(data, "_ciphers_ciphers"@),
        key,
        organizations_of(data, key),
        folders_of(data, key),
        k,
    );
}

proof fn lemma_lines_complete(
    items: Seq<(Seq<char>, JsonView)>,
    key: Seq<u8>,
    orgs: Seq<(Seq<char>, Seq<u8>)>,
    folders: Seq<(Seq<char>, Seq<char>)>,
    k: int,
)
    requires
        0 <= k < items.len(),
    ensures
        line_of(items[k].1, key, orgs, folders) matches Some(l) ==> lines(
            items,
            key,
            orgs,
            folders,
        ).contains(l),
    decreases items.len(),
{
    if line_of(items[k].1, key, orgs, folders) is Some {
        let l = line_of(items[k].1, key, orgs, folders)->0;
        let all = lines(items, key, orgs, folders);
        let before = lines(items.drop_last(), key, orgs, folders);
        if k == items.len() - 1 {
            assert(all.last() == l);
        } else {
            lemma_lines_complete(items.drop_last(), key, orgs, folders, k);
            let i = before.index_of(l);
            assert(all[i] == l);
        }
    }
}

/// A line of the list tells id, name, user name, folder and address.
pub proof fn lemma_line_fields(
    id: Seq<char>,
    name: Seq<char>,
    username: Seq<char>,
    folder: Seq<char>,
    uri: Seq<char>,
)
    ensures
        text_field(line(id, name, username, folder, uri), "id"@) == Some(id),
        text_field(line(id, name, username, folder, uri), "name"@) == Some(name),
        text_field(line(id, name, username, folder, uri), "username"@) == Some(username),
        text_field(line(id, name, username, folder, uri), "folder"@) == Some(folder),
        text_field(line(id, name, username, folder, uri), "uri"@) == Some(uri),
{
    let one = with_field(JsonView::Null, "id"@, JsonView::Str(id));
    let two = with_field(one, "name"@, JsonView::Str(name));
    let three = with_field(two, "username"@, JsonView::Str(username));
    let four = with_field(three, "folder"@, JsonView::Str(folder));
    reveal_strlit("id");
    reveal_strlit("name");
    reveal_strlit("username");
    reveal_strlit("folder");
    reveal_strlit("uri");
    assert("id"@.len() == 2 && "name"@.len() == 4 && "username"@.len() == 8);
    assert("folder"@.len() == 6 && "uri"@.len() == 3);
    lemma_with_field(JsonView::Null, "id"@, JsonView::Str(id), "id"@);
    lemma_with_field(one, "name"@, JsonView::Str(name), "id"@);
    lemma_with_field(two, "username"@, JsonView::Str(username), "id"@);
    lemma_with_field(two, "username"@, JsonView::Str(username), "name"@);
    lemma_with_field(three, "folder"@, JsonView::Str(folder), "id"@);
    lemma_with_field(three, "folder"@, JsonView::Str(folder), "name"@);
    lemma_with_field(three, "folder"@, JsonView::Str(folder), "username"@);
    lemma_with_field(four, "uri"@, JsonView::Str(uri), "id"@);
    lemma_with_field(four, "uri"@, JsonView::Str(uri), "name"@);
    lemma_with_field(four, "uri"@, JsonView::Str(uri), "username"@);
    lemma_with_field(four, "uri"@, JsonView::Str(uri), "folder"@);
}

/// An item that is listed, and that its id leads to, can be read: what a field of it
/// gives depends on the field alone.
pub proof fn lemma_listed_item_readable(
    data: JsonView,
    key: Seq<u8>,
    id: Seq<char>,
    c: JsonView,
    name: Seq<char>,
)
    requires
        store_area(data, "_ciphers_ciphers"@) is Some,
        item_with_id(area_members(data, "_ciphers_ciphers"@), id) == Some(c),
        line_of(c, key, organizations_of(data, key), folders_of(data, key)) is Some,
    ensures
        ({
            let base = item_base(c, key, organizations_of(data, key))->0;
            field_text(data, key, id, name) == field_in(c, own_key(base, c)->Ok_0, name)
        }),
{
}

/// An item of an organization whose key is not available is left out of the list,
/// and its fields cannot be read.
pub proof fn lemma_item_without_organization_key(
    data: JsonView,
    key: Seq<u8>,
    c: JsonView,
    id: Seq<char>,
    name: Seq<char>,
    org: Seq<char>,
)
    requires
        text_field(c, "organizationId"@) == Some(org),
        lookup(organizations_of(data, key), org) is None,
    ensures
        line_of(c, key, organizations_of(data, key), folders_of(data, key)) is None,
        store_area(data, "_ciphers_ciphers"@) matches Some(items) && item_with_id(
            members_of(items),
            id,
        ) == Some(c) ==> field_text(data, key, id, name) == Err::<Seq<char>, ErrorView>(
            Failure::MissingOrganizationKey,
        ),
{
}

/// The first key of a list of members that has the form of a GUID.
pub open spec fn first_guid_key(members: Seq<(Seq<char>, JsonView)>) -> Option<Seq<char>>
    decreases members.len(),
{
    if members.len() == 0 {
        None
    } else if guid(members[0].0) {
        Some(members[0].0)
    } else {
        first_guid_key(members.skip(1))
    }
}

/// A text under a key, if it has the form of a GUID.
pub open spec fn guid_field(v: JsonView, key: Seq<char>) -> Option<Seq<char>> {
    match text_field(v, key) {
        Some(id) => if guid(id) {
            Some(id)
        } else {
            None
        },
        None => None,
    }
}

/// The account that a store names: as the active one, under its newer or its older
/// key, or else by a key of its own.
pub open spec fn account_in(v: JsonView) -> Option<Seq<char>> {
    match guid_field(v, "global_account_activeAccountId"@) {
        Some(id) => Some(id),
        None => match guid_field(v, "activeUserId"@) {
            Some(id) => Some(id),
            None => first_guid_key(members_of(v)),
        },
    }
}

/// The account that the text of a store names. A store that cannot be read names
/// none.
pub open spec fn account_of_store(text: Option<Seq<char>>) -> Option<Seq<char>> {
    match text {
        None => None,
        Some(t) => match json_of_bytes(encode_utf8(t)) {
            Ok(v) => account_in(v),
            Err(_) => None,
        },
    }
}

/// The account that the first of several stores names that names one.
pub open spec fn account_of_stores(stores: Seq<Option<Seq<char>>>) -> Option<Seq<char>>
    decreases stores.len(),
{
    if stores.len() == 0 {
        None
    } else {
        match account_of_store(stores[0]) {
            Some(id) => Some(id),
            None => account_of_stores(stores.skip(1)),
        }
    }
}

/// The account to unlock: what a setting that is not empty says, else what the
/// stores name.
pub open spec fn user_id_from(
    chosen: Option<Seq<char>>,
    stores: Seq<Option<Seq<char>>>,
) -> Result<Seq<char>, ErrorView> {
    match chosen {
        Some(id) if id.len() > 0 => Ok(id),
        _ => match account_of_stores(stores) {
            Some(id) => Ok(id),
            None => Err(Failure::NoUserId),
        },
    }
}

/// The text under `key`, if it has the form of a GUID.
fn guid_text<'a>(v: &'a Json, key: &str) -> (r: Option<&'a str>)
    ensures
        opt_str(r) == guid_field(v@, key@),
{
    match v.text(key) {
        Some(id) => if is_guid(id) {
            Some(id)
        } else {
            None
        },
        None => None,
    }
}

/// Finds the account that a store names.
pub fn find_account(v: &Json) -> (r: Option<String>)
    ensures
        opt_view(r) == account_in(v@),
{
    if let Some(id) = guid_text(v, "global_account_activeAccountId") {
        return Some(id.to_owned());
    }
    if let Some(id) = guid_text(v, "activeUserId") {
        return Some(id.to_owned());
    }
    if let Some(list) = members(Some(v)) {
        let ghost all = member_views(list@);
        let mut i: usize = 0;
        assert(all.skip(0) =~= all);
        while i < list.len()
            invariant
                i <= list@.len(),
                all == member_views(list@),
                account_in(v@) == first_guid_key(all.skip(i as int)),
            decreases list@.len() - i,
        {
            assert(all.skip(i as int)[0] == all[i as int]);
            if is_guid(list[i].0.as_str()) {
                return Some(list[i].0.clone());
            }
            assert(all.skip(i as int).skip(1) =~= all.skip(i + 1));
            i += 1;
        }
        assert(all.skip(i as int) =~= Seq::empty());
    }
    None
}

/// The views of optional texts.
pub open spec fn opt_views(list: Seq<Option<String>>) -> Seq<Option<Seq<char>>> {
    Seq::new(list.len(), |i: int| opt_view(list[i]))
}

/// Says which account to unlock, from a setting and from the texts of the desktop
/// app's stores, where they could be read.
pub fn desktop_user_id(chosen: Option<&str>, stores: &Vec<Option<String>>) -> (r: Result<
    String,
    Error,
>)
    ensures
        text_result(r) == user_id_from(opt_str(chosen), opt_views(stores@)),
{
    if let Some(id) = chosen {
        if !id.is_empty() {
            return Ok(id.to_owned());
        }
    }
    let ghost all = opt_views(stores@);
    let mut i: usize = 0;
    assert(all.skip(0) =~= all);
    while i < stores.len()
        invariant
            i <= stores@.len(),
            all == opt_views(stores@),
            opt_str(chosen) is None || opt_str(chosen)->0.len() == 0,
            account_of_stores(all) == account_of_stores(all.skip(i as int)),
        decreases stores@.len() - i,
    {
        assert(all.skip(i as int)[0] == opt_view(stores@[i as int]));
        if let Some(text) = &stores[i] {
            if let Ok(v) = parse(text.as_str().as_bytes()) {
                if let Some(id) = find_account(&v) {
                    return Ok(id);
                }
            }
        }
        assert(all.skip(i as int).skip(1) =~= all.skip(i + 1));
        i += 1;
    }
    assert(all.skip(i as int) =~= Seq::empty());
    Err(Failure::NoUserId)
}

proof fn lemma_first_guid_key(members: Seq<(Seq<char>, JsonView)>)
    ensures
        first_guid_key(members) matches Some(id) ==> guid(id),
    decreases members.len(),
{
    if members.len() > 0 {
        lemma_first_guid_key(members.skip(1));
    }
}

/// An account that comes from a store has the form of a GUID; only a setting can
/// name another.
pub proof fn lemma_store_account_is_guid(stores: Seq<Option<Seq<char>>>)
    ensures
        user_id_from(None, stores) matches Ok(id) ==> guid(id),
    decreases stores.len(),
{
    if stores.len() > 0 {
        lemma_store_account_is_guid(stores.skip(1));
        if let Some(t) = stores[0] {
            if let Ok(v) = json_of_bytes(encode_utf8(t)) {
                lemma_first_guid_key(members_of(v));
            }
        }
    }
}

/// An account found in some stores stays the account when more stores follow.
pub proof fn lemma_more_stores(stores: Seq<Option<Seq<char>>>, more: Seq<Option<Seq<char>>>)
    requires
        user_id_from(None, stores) is Ok,
    ensures
        user_id_from(None, stores + more) == user_id_from(None, stores),
    decreases stores.len(),
{
    if stores.len() > 0 {
        assert((stores + more)[0] == stores[0]);
        assert((stores + more).skip(1) =~= stores.skip(1) + more);
        if account_of_store(stores[0]) is None {
            lemma_more_stores(stores.skip(1), more);
        }
    }
}

/// How far an unlock has come.
pub enum Stage {
    /// The channel is being set up.
    Handshake(Handshake),
    /// The unlock was asked for.
    Unlock(Session),
}

/// The mathematical view of a [`Stage`].
pub enum StageView {
    Handshake(HandshakeView),
    Unlock(SessionView),
}

impl View for Stage {
    type V = StageView;

    open spec fn view(&self) -> StageView {
        match self {
            Stage::Handshake(h) => StageView::Handshake(h@),
            Stage::Unlock(s) => StageView::Unlock(s@),
        }
    }
}

/// What an unlock comes to after a frame.
pub enum Step {
    /// The next frame is to be awaited.
    Wait(Stage),
    /// This message is to be sent, and the next frame awaited.
    Send(Stage, Json),
    /// The user key is there.
    Done(SymmetricKey),
    /// There will be no user key.
    Failed(Error),
}

/// The mathematical view of a [`Step`].
pub enum StepView {
    Wait(StageView),
    Send(StageView, JsonView),
    Done(Seq<u8>),
    Failed(ErrorView),
}

impl View for Step {
    type V = StepView;

    open spec fn view(&self) -> StepView {
        match self {
            Step::Wait(s) => StepView::Wait(s@),
            Step::Send(s, j) => StepView::Send(s@, j@),
            Step::Done(k) => StepView::Done(k@),
            Step::Failed(e) => StepView::Failed(e@),
        }
    }
}

/// A failure, with the circumstance.
pub open spec fn failed(circumstance: Seq<char>, e: ErrorView) -> StepView {
    StepView::Failed(Failure::Context(circumstance, Box::new(e)))
}

/// What comes after the handshake: the unlock is asked for.
pub open spec fn ask_unlock(s: SessionView, timestamp: i64, iv: Seq<u8>) -> StepView {
    match sent(s, unlock_command(s.user_id), timestamp, iv) {
        Ok((_, frame)) => StepView::Send(StageView::Unlock(advanced(s)), frame),
        Err(e) => failed("biometric unlock"@, e),
    }
}

/// What an answer to the unlock command comes to.
pub open spec fn take_key(reply: JsonView) -> StepView {
    match granted_key(reply) {
        Err(e) => failed("biometric unlock"@, e),
        Ok(text) => match key_of_b64(text) {
            Err(e) => failed("decoding the unlocked user key"@, e),
            Ok(key) => StepView::Done(key),
        },
    }
}

/// What an unlock comes to after a frame, or after the failure to read one.
pub open spec fn unlock_step(
    stage: StageView,
    event: Result<JsonView, ErrorView>,
    timestamp: i64,
    iv: Seq<u8>,
) -> StepView {
    match (stage, event) {
        (StageView::Handshake(_), Err(e)) => failed(
            "connecting to the Bitwarden desktop app"@,
            Failure::Context("reading handshake frame"@, Box::new(e)),
        ),
        (StageView::Handshake(h), Ok(frame)) => {
            let (after, progress) = handshake_step(h, frame, timestamp);
            match progress {
                ProgressView::Wait => StepView::Wait(StageView::Handshake(after)),
                ProgressView::Send(j) => StepView::Send(StageView::Handshake(after), j),
                ProgressView::Failed(e) => failed("connecting to the Bitwarden desktop app"@, e),
                ProgressView::Established(s) => ask_unlock(s, timestamp, iv),
            }
        },
        (StageView::Unlock(_), Err(e)) => failed("biometric unlock"@, e),
        (StageView::Unlock(s), Ok(frame)) => match reply_of(s.key, frame) {
            ReplyView::Wait => StepView::Wait(stage),
            ReplyView::Failed(e) => failed("biometric unlock"@, e),
            ReplyView::Message(reply) => take_key(reply),
        },
    }
}

/// Starts an unlock over a connection of some kind. The message, if there is one,
/// is to be sent at once.
pub fn begin_unlock(kind: TransportKind, user_id: &str, timestamp: i64) -> (r: Result<
    (Stage, Option<Json>),
    Error,
>)
    ensures
        r matches Ok((stage, message)) ==> exists|h: HandshakeView|
            {
                &&& h.kind == kind && h.user_id == user_id@ && guid(h.app_id) && !h.sent
                &&& public_key_text(h.pair) == Ok::<Seq<char>, ErrorView>(h.public_key)
                &&& pkcs8_fault(h.pair) is None && pkcs8_bits(h.pair).0 == KEY_PAIR_BITS
                &&& stage@ == StageView::Handshake((#[trigger] opening(h, timestamp)).0)
                &&& (match message {
                    Some(j) => Some(j@),
                    None => None,
                }) == opening(h, timestamp).1
            },
        r matches Ok((stage, Some(j))) ==> round_trips(j@),
        r matches Err(e) ==> e@ matches Failure::Context(t, inner) && t
            == "connecting to the Bitwarden desktop app"@ && (*inner is Rsa
            || *inner is MessageTooLarge),
{
    match Session::establish(kind, user_id) {
        Err(e) => Err(in_context("connecting to the Bitwarden desktop app", e)),
        Ok(handshake) => {
            let mut handshake: Handshake = handshake;
            let ghost h = handshake@;
            let message: Option<Json> = handshake.open(timestamp);
            assert(opening(h, timestamp).0 == handshake@);
            Ok((Stage::Handshake(handshake), message))
        },
    }
}

/// Takes an event of an unlock into account: a frame from the desktop app, or the
/// failure to read one. At the end stands the user key.
pub fn obtain_user_key(
    stage: Stage,
    event: Result<Json, Error>,
    timestamp: i64,
    iv: &[u8; 16],
) -> (r: Step)
    ensures
        r@ == unlock_step(stage@, json_result(event), timestamp, iv@),
        r matches Step::Send(_, j) ==> round_trips(j@),
{
    match stage {
        Stage::Handshake(handshake) => match event {
            Err(e) => Step::Failed(
                in_context(
                    "connecting to the Bitwarden desktop app",
                    in_context("reading handshake frame", e),
                ),
            ),
            Ok(frame) => {
                let mut handshake: Handshake = handshake;
                match handshake.on_frame(&frame, timestamp) {
                    Progress::Wait => Step::Wait(Stage::Handshake(handshake)),
                    Progress::Send(j) => Step::Send(Stage::Handshake(handshake), j),
                    Progress::Failed(e) => Step::Failed(
                        in_context("connecting to the Bitwarden desktop app", e),
                    ),
                    Progress::Established(session) => {
                        let mut session: Session = session;
                        match session.biometric_unlock_with(timestamp, iv) {
                            Ok((_, j)) => Step::Send(Stage::Unlock(session), j),
                            Err(e) => Step::Failed(in_context("biometric unlock", e)),
                        }
                    },
                }
            },
        },
        Stage::Unlock(session) => match event {
            Err(e) => Step::Failed(in_context("biometric unlock", e)),
            Ok(frame) => match session.read_encrypted(&frame) {
                Reply::Wait => Step::Wait(Stage::Unlock(session)),
                Reply::Failed(e) => Step::Failed(in_context("biometric unlock", e)),
                Reply::Message(reply) => user_key_in(&reply),
            },
        },
    }
}

/// Takes the user key from the answer to the unlock command.
fn user_key_in(reply: &Json) -> (r: Step)
    ensures
        r@ == take_key(reply@),
        !(r is Send),
{
    match unlock_reply(reply) {
        Err(e) => Step::Failed(in_context("biometric unlock", e)),
        Ok(token) => match SymmetricKey::from_b64(token.as_str()) {
            Ok(key) => Step::Done(key),
            Err(e) => Step::Failed(in_context("decoding the unlocked user key", e)),
        },
    }
}

/// How long the handshake may take, in milliseconds.
pub const HANDSHAKE_MILLIS: u64 = 15_000;

/// How long the user may take to approve the unlock, in milliseconds.
pub const UNLOCK_MILLIS: u64 = 120_000;

/// How long a stage may take.
pub open spec fn stage_limit(stage: StageView) -> nat {
    match stage {
        StageView::Handshake(_) => HANDSHAKE_MILLIS as nat,
        StageView::Unlock(_) => UNLOCK_MILLIS as nat,
    }
}

/// What is left of the time for a stage that began at one time when it is another;
/// `None` when the time is over.
pub open spec fn time_left(stage: StageView, began: u64, now: u64) -> Option<nat> {
    let passed = if now > began {
        now - began
    } else {
        0
    };
    if passed < stage_limit(stage) {
        Some((stage_limit(stage) - passed) as nat)
    } else {
        None
    }
}

/// Says how long the next frame may be awaited, in milliseconds; an error when the
/// time is over.
pub fn wait_time(stage: &Stage, began: u64, now: u64) -> (r: Result<u64, Error>)
    ensures
        match time_left(stage@, began, now) {
            Some(t) => r is Ok && r->Ok_0 == t,
            None => r is Err && r->Err_0@ == Failure::<Seq<char>>::TimedOut,
        },
{
    let limit: u64 = match stage {
        Stage::Handshake(_) => HANDSHAKE_MILLIS,
        Stage::Unlock(_) => UNLOCK_MILLIS,
    };
    let passed: u64 = if now > began {
        now - began
    } else {
        0
    };
    if passed < limit {
        Ok(limit - passed)
    } else {
        Err(Failure::TimedOut)
    }
}

/// When the stage after a step began: now, if the unlock has just been asked for.
pub open spec fn began_after(step: StepView, began: u64, now: u64) -> u64 {
    if step matches StepView::Send(StageView::Unlock(_), _) {
        now
    } else {
        began
    }
}

/// Takes an event of an unlock into account, at the present time and with a random
/// initialisation vector, and says when the stage after it began.
pub fn proceed(stage: Stage, began: u64, event: Result<Json, Error>, now: u64) -> (r: (Step, u64))
    ensures
        exists|timestamp: i64, iv: Seq<u8>|
            iv.len() == 16 && r.0@ == #[trigger] unlock_step(
                stage@,
                json_result(event),
                timestamp,
                iv,
            ),
        r.1 == began_after(r.0@, began, now),
        r.0 matches Step::Send(_, j) ==> round_trips(j@),
{
    let timestamp: i64 = now_ms();
    let iv: [u8; 16] = random_iv();
    let step: Step = obtain_user_key(stage, event, timestamp, &iv);
    assert(iv@.len() == 16 && step@ == unlock_step(stage@, json_result(event), timestamp, iv@));
    let since: u64 = match &step {
        Step::Send(Stage::Unlock(_), _) => now,
        _ => began,
    };
    (step, since)
}

/// The time after which an unlock that has come to a stage is over in any case.
pub open spec fn last_moment(stage: StageView, began: u64) -> nat {
    match stage {
        StageView::Handshake(_) => began as nat + HANDSHAKE_MILLIS as nat + UNLOCK_MILLIS as nat,
        StageView::Unlock(_) => began as nat + UNLOCK_MILLIS as nat,
    }
}

/// No unlock waits without bound: no frame is awaited for longer than its stage may
/// take, when the time is over the unlock fails, and no step puts off the moment
/// after which it is over in any case.
pub proof fn lemma_unlock_bounded(
    stage: StageView,
    began: u64,
    event: Result<JsonView, ErrorView>,
    timestamp: i64,
    iv: Seq<u8>,
    now: u64,
)
    requires
        began <= now,
    ensures
        time_left(stage, began, now) matches Some(t) ==> 0 < t && now + t <= last_moment(
            stage,
            began,
        ),
        now >= last_moment(stage, began) ==> time_left(stage, began, now) is None,
        unlock_step(
            stage,
            Err::<JsonView, ErrorView>(Failure::TimedOut),
            timestamp,
            iv,
        ) is Failed,
        time_left(stage, began, now) is Some ==> match unlock_step(stage, event, timestamp, iv) {
            StepView::Wait(next) => last_moment(
                next,
                began_after(unlock_step(stage, event, timestamp, iv), began, now),
            ) <= last_moment(stage, began),
            StepView::Send(next, _) => last_moment(
                next,
                began_after(unlock_step(stage, event, timestamp, iv), began, now),
            ) <= last_moment(stage, began),
            _ => true,
        },
{
}

/// A user key that the desktop app grants, encrypted under the session key, comes
/// out of the unlock as it is: whatever frame carries an EncString that decrypts to
/// a granting reply with the base64 text of 64 bytes ends the unlock with those
/// bytes.
pub proof fn lemma_user_key_survives(
    s: SessionView,
    frame: JsonView,
    enc: Seq<char>,
    plain: Seq<u8>,
    reply: JsonView,
    key: Seq<u8>,
    timestamp: i64,
    iv: Seq<u8>,
)
    requires
        message_enc_string(field(frame, "message"@)) == Some(enc),
        decrypted(s.key, enc) == Ok::<Seq<u8>, ErrorView>(plain),
        json_of_bytes(plain) == Ok::<JsonView, Seq<char>>(reply),
        field(reply, "response"@) == Some(JsonView::Bool(true)),
        field(reply, "userKeyB64"@) == Some(JsonView::Str(b64_text(key))),
        key.len() == 64,
    ensures
        unlock_step(
            StageView::Unlock(s),
            Ok::<JsonView, ErrorView>(frame),
            timestamp,
            iv,
        ) == StepView::Done(key),
{
    lemma_key_b64_round_trip(key);
}

/// An unlock that fails never hands out a key, and one that is not granted fails:
/// without `response: true` in the decrypted reply there is no user key.
pub proof fn lemma_refused_unlock(
    s: SessionView,
    frame: JsonView,
    reply: JsonView,
    timestamp: i64,
    iv: Seq<u8>,
)
    requires
        reply_of(s.key, frame) == ReplyView::Message(reply),
        field(reply, "response"@) != Some(JsonView::Bool(true)),
    ensures
        unlock_step(
            StageView::Unlock(s),
            Ok::<JsonView, ErrorView>(frame),
            timestamp,
            iv,
        ) == failed("biometric unlock"@, Failure::UnlockNotGranted),
{
}

/// Whether a value under a key shows as a text: the characters that it decrypts to, all
/// of them and as they are, and nothing where it is no string, cannot be decrypted or
/// is no UTF-8.
pub open spec fn shows(own: Seq<u8>, v: Option<JsonView>, t: Seq<char>) -> bool {
    match v {
        Some(JsonView::Str(enc)) => match decrypted(own, enc) {
            Ok(plain) => if valid_utf8(plain) {
                plain == encode_utf8(t)
            } else {
                t.len() == 0
            },
            Err(_) => t.len() == 0,
        },
        _ => t.len() == 0,
    }
}

proof fn lemma_shows(own: Seq<u8>, v: Option<JsonView>, t: Seq<char>)
    ensures
        shows(own, v, t) <==> or_empty(text_in(own, v)) == t,
{
    let nothing = Seq::<char>::empty();
    assert(t.len() == 0 <==> t =~= nothing);
    if let Some(JsonView::Str(enc)) = v {
        lemma_decrypted_text(own, enc, t);
        if let Ok(plain) = decrypted(own, enc) {
            if valid_utf8(plain) {
                decode_utf8_encode_utf8(plain);
                lemma_decrypted_text(own, enc, decode_utf8(plain));
            }
        }
    }
}

/// Whether a key is the one that an item is below: the user's, or that of the
/// organization that the item names.
pub open spec fn below(
    c: JsonView,
    key: Seq<u8>,
    orgs: Seq<(Seq<char>, Seq<u8>)>,
    base: Seq<u8>,
) -> bool {
    match field(c, "organizationId"@) {
        Some(JsonView::Str(org)) => lookup(orgs, org) == Some(base),
        _ => base == key,
    }
}

/// Whether a key is the item's own: the 64 bytes that the text under `key` decrypts to
/// with the key it is below, or else that key itself.
pub open spec fn opens_fields(c: JsonView, base: Seq<u8>, own: Seq<u8>) -> bool {
    match field(c, "key"@) {
        Some(JsonView::Str(enc)) => decrypted(base, enc) == Ok::<Seq<u8>, ErrorView>(own)
            && own.len() == 64,
        _ => own == base,
    }
}

/// The key of an item's fields: its own where it has one; one that cannot be decrypted
/// or that is not of 64 bytes is an error.
pub proof fn lemma_own_key(c: JsonView, base: Seq<u8>, own: Seq<u8>, enc: Seq<char>)
    ensures
        opens_fields(c, base, own) <==> own_key(base, c) == Ok::<Seq<u8>, ErrorView>(own),
        field(c, "key"@) == Some(JsonView::Str(enc)) ==> (decrypted(base, enc) matches Err(e)
            ==> own_key(base, c) == Err::<Seq<u8>, ErrorView>(
            Failure::Context("decrypting item key"@, Box::new(e)),
        )),
        field(c, "key"@) == Some(JsonView::Str(enc)) ==> (decrypted(base, enc) matches Ok(raw)
            ==> raw.len() != 64 ==> own_key(base, c) == Err::<Seq<u8>, ErrorView>(
            Failure::KeyLength(raw.len() as usize),
        )),
{
}

/// The key that an item is below is the user's unless the item names an organization.
pub proof fn lemma_base_key(
    c: JsonView,
    key: Seq<u8>,
    orgs: Seq<(Seq<char>, Seq<u8>)>,
    base: Seq<u8>,
)
    ensures
        below(c, key, orgs, base) <==> item_base(c, key, orgs) == Some(base),
{
}

/// Whether a value is the address of an item: that under `uri` of the first of the
/// login's `uris`.
pub open spec fn address_of(c: JsonView, v: Option<JsonView>) -> bool {
    match opt_field(field(c, "login"@), "uris"@) {
        Some(JsonView::Array(items)) => if items.len() > 0 {
            v == field(items[0], "uri"@)
        } else {
            v is None
        },
        _ => v is None,
    }
}

/// What the list tells of a login: its id, and name, user name and address as they
/// decrypt with the item's own key, and the name of its folder.
pub proof fn lemma_line_tells(
    c: JsonView,
    key: Seq<u8>,
    orgs: Seq<(Seq<char>, Seq<u8>)>,
    folders: Seq<(Seq<char>, Seq<char>)>,
    base: Seq<u8>,
    own: Seq<u8>,
    id: Seq<char>,
    name: Seq<char>,
    username: Seq<char>,
    uri: Seq<char>,
    address: Option<JsonView>,
)
    requires
        field(c, "type"@) == Some(JsonView::Number(Some(1))),
        field(c, "id"@) == Some(JsonView::Str(id)),
        below(c, key, orgs, base),
        opens_fields(c, base, own),
        shows(own, field(c, "name"@), name),
        shows(own, opt_field(field(c, "login"@), "username"@), username),
        address_of(c, address),
        shows(own, address, uri),
    ensures
        line_of(c, key, orgs, folders) matches Some(l) && {
            &&& text_field(l, "id"@) == Some(id)
            &&& text_field(l, "name"@) == Some(name)
            &&& text_field(l, "username"@) == Some(username)
            &&& text_field(l, "uri"@) == Some(uri)
            &&& text_field(l, "folder"@) == Some(
                match field(c, "folderId"@) {
                    Some(JsonView::Str(fid)) => match lookup(folders, fid) {
                        Some(t) => t,
                        None => Seq::empty(),
                    },
                    _ => Seq::empty(),
                },
            )
        },
{
    let details = field(c, "login"@);
    lemma_shows(own, field(c, "name"@), name);
    lemma_shows(own, opt_field(details, "username"@), username);
    lemma_shows(own, address, uri);
    assert(first_address(details) == address);
    lemma_line_fields(id, name, username, or_empty(folder_of(c, folders)), uri);
}

/// What is not listed: an item of another type, without an id, or whose key cannot be
/// had.
pub proof fn lemma_not_listed(
    c: JsonView,
    key: Seq<u8>,
    orgs: Seq<(Seq<char>, Seq<u8>)>,
    folders: Seq<(Seq<char>, Seq<char>)>,
)
    ensures
        field(c, "type"@) != Some(JsonView::Number(Some(1))) ==> line_of(c, key, orgs, folders) is None,
        !(field(c, "id"@) matches Some(JsonView::Str(_))) ==> line_of(c, key, orgs, folders) is None,
        (forall|base: Seq<u8>, own: Seq<u8>|
            #![trigger below(c, key, orgs, base), opens_fields(c, base, own)]
            !(below(c, key, orgs, base) && opens_fields(c, base, own))) ==> line_of(
            c,
            key,
            orgs,
            folders,
        ) is None,
{
    if let Some(base) = item_base(c, key, orgs) {
        if let Ok(own) = own_key(base, c) {
            assert(below(c, key, orgs, base) && opens_fields(c, base, own));
        }
    }
}

/// Whether a value is what an item holds for a field of a name.
pub open spec fn held_for(c: JsonView, name: Seq<char>, v: Option<JsonView>) -> bool {
    ||| name == "password"@ && v == opt_field(field(c, "login"@), "password"@)
    ||| name == "username"@ && v == opt_field(field(c, "login"@), "username"@)
    ||| name == "totp"@ && v == opt_field(field(c, "login"@), "totp"@)
    ||| name == "uri"@ && address_of(c, v)
    ||| name == "notes"@ && v == field(c, "notes"@)
}

pub(crate) proof fn lemma_field_names()
    ensures
        "password"@ != "username"@,
        "password"@ != "uri"@,
        "password"@ != "notes"@,
        "password"@ != "totp"@,
        "username"@ != "uri"@,
        "username"@ != "notes"@,
        "username"@ != "totp"@,
        "uri"@ != "notes"@,
        "uri"@ != "totp"@,
        "notes"@ != "totp"@,
{
    reveal_strlit("password");
    reveal_strlit("username");
    reveal_strlit("uri");
    reveal_strlit("notes");
    reveal_strlit("totp");
    assert("password"@[0] == 'p' && "username"@[0] == 'u' && "username"@.len() == 8);
    assert("uri"@[0] == 'u' && "uri"@.len() == 3 && "notes"@[0] == 'n' && "totp"@[0] == 't');
}

/// Reading a field gives the characters that it decrypts to with the item's own key,
/// all of them and as they are; a field that is no string is missing, and one that
/// does not decrypt gives the reason.
pub proof fn lemma_field_read(
    data: JsonView,
    key: Seq<u8>,
    items: JsonView,
    id: Seq<char>,
    c: JsonView,
    base: Seq<u8>,
    own: Seq<u8>,
    name: Seq<char>,
    v: Option<JsonView>,
    content: Seq<char>,
)
    requires
        store_area(data, "_ciphers_ciphers"@) == Some(items),
        item_with_id(members_of(items), id) == Some(c),
        below(c, key, organizations_of(data, key), base),
        opens_fields(c, base, own),
        held_for(c, name, v),
    ensures
        !(v matches Some(JsonView::Str(_))) ==> field_text(data, key, id, name) == Err::<
            Seq<char>,
            ErrorView,
        >(Failure::NoField(name)),
        v matches Some(JsonView::Str(enc)) ==> (decrypted(own, enc) == Ok::<Seq<u8>, ErrorView>(
            encode_utf8(content),
        ) <==> field_text(data, key, id, name) == Ok::<Seq<char>, ErrorView>(content)),
        v matches Some(JsonView::Str(enc)) ==> (decrypted(own, enc) matches Err(e) ==> field_text(
            data,
            key,
            id,
            name,
        ) == Err::<Seq<char>, ErrorView>(e)),
        v matches Some(JsonView::Str(enc)) ==> field_text(data, key, id, name) == decrypted_text(
            own,
            enc,
        ),
{
    lemma_field_names();
    if let Some(JsonView::Str(enc)) = v {
        lemma_decrypted_text(own, enc, content);
    }
}

/// Why a field cannot be read: the store has no items, or none with the id, or the
/// item's key cannot be had, or there is no such field.
pub proof fn lemma_field_refused(
    data: JsonView,
    key: Seq<u8>,
    id: Seq<char>,
    items: JsonView,
    c: JsonView,
    base: Seq<u8>,
    own: Seq<u8>,
    name: Seq<char>,
)
    ensures
        store_area(data, "_ciphers_ciphers"@) is None ==> field_text(data, key, id, name) == Err::<
            Seq<char>,
            ErrorView,
        >(Failure::NoItems),
        store_area(data, "_ciphers_ciphers"@) == Some(items) && item_with_id(
            members_of(items),
            id,
        ) is None ==> field_text(data, key, id, name) == Err::<Seq<char>, ErrorView>(
            Failure::ItemNotFound(id),
        ),
        store_area(data, "_ciphers_ciphers"@) == Some(items) && item_with_id(members_of(items), id)
            == Some(c) && below(c, key, organizations_of(data, key), base) ==> (own_key(
            base,
            c,
        ) matches Err(e) ==> field_text(data, key, id, name) == Err::<Seq<char>, ErrorView>(e)),
        store_area(data, "_ciphers_ciphers"@) == Some(items) && item_with_id(members_of(items), id)
            == Some(c) && below(c, key, organizations_of(data, key), base) && opens_fields(
            c,
            base,
            own,
        ) && name != "password"@ && name != "username"@ && name != "uri"@ && name != "notes"@ && name
            != "totp"@ ==> field_text(data, key, id, name) == Err::<Seq<char>, ErrorView>(
            Failure::UnknownField(name),
        ),
{
}

/// A field is shown as it is read, a one-time password by its code.
pub proof fn lemma_field_shown(
    data: JsonView,
    key: Seq<u8>,
    id: Seq<char>,
    name: Seq<char>,
    clock: Result<u64, ErrorView>,
)
    ensures
        name != "totp"@ ==> field_shown(data, key, id, name, clock) == field_text(
            data,
            key,
            id,
            name,
        ),
        field_text(data, key, id, name) matches Err(e) ==> field_shown(data, key, id, name, clock)
            == Err::<Seq<char>, ErrorView>(e),
        field_text(data, key, id, "totp"@) matches Ok(secret) ==> totp::prepared(secret) matches Ok(
            (k, digits, period),
        ) ==> (digits > 9 || period == 0) ==> field_shown(data, key, id, "totp"@, clock) == Err::<
            Seq<char>,
            ErrorView,
        >(Failure::TotpParameters),
        field_text(data, key, id, "totp"@) matches Ok(secret) ==> (totp::prepared(secret) matches Ok(
            (k, digits, period),
        ) ==> digits <= 9 && period > 0) ==> field_shown(data, key, id, "totp"@, clock)
            == totp::code_at(secret, clock),
{
}

/// The list and the fields agree: a listed item that its id leads to shows the user
/// name and the address that reading them gives, or nothing where that fails.
pub proof fn lemma_list_agrees_with_fields(
    data: JsonView,
    key: Seq<u8>,
    id: Seq<char>,
    items: JsonView,
    c: JsonView,
    l: JsonView,
)
    requires
        store_area(data, "_ciphers_ciphers"@) == Some(items),
        item_with_id(members_of(items), id) == Some(c),
        line_of(c, key, organizations_of(data, key), folders_of(data, key)) == Some(l),
    ensures
        text_field(l, "username"@) == Some(
            match field_text(data, key, id, "username"@) {
                Ok(t) => t,
                Err(_) => Seq::empty(),
            },
        ),
        text_field(l, "uri"@) == Some(
            match field_text(data, key, id, "uri"@) {
                Ok(t) => t,
                Err(_) => Seq::empty(),
            },
        ),
{
    lemma_field_names();
    let folders = folders_of(data, key);
    let base = item_base(c, key, organizations_of(data, key))->0;
    let own = own_key(base, c)->Ok_0;
    let details = field(c, "login"@);
    lemma_line_fields(
        text_field(c, "id"@)->0,
        or_empty(text_in(own, field(c, "name"@))),
        or_empty(text_in(own, opt_field(details, "username"@))),
        or_empty(folder_of(c, folders)),
        or_empty(text_in(own, first_address(details))),
    );
}

/// An area is found by the end of its key, the first where several keys end so.
pub proof fn lemma_first_area(
    before: Seq<(Seq<char>, JsonView)>,
    account: Seq<char>,
    suffix: Seq<char>,
    value: JsonView,
    after: Seq<(Seq<char>, JsonView)>,
)
    requires
        forall|i: int, start: Seq<char>|
            0 <= i < before.len() ==> (#[trigger] before[i]).0 != #[trigger] (start + suffix),
    ensures
        store_area(JsonView::Object(before + seq![(account + suffix, value)] + after), suffix)
            == Some(value),
        store_area(JsonView::Object(before), suffix) is None,
    decreases before.len(),
{
    let all = before + seq![(account + suffix, value)] + after;
    if before.len() > 0 {
        let rest = before.skip(1);
        assert forall|i: int, start: Seq<char>| 0 <= i < rest.len() implies (#[trigger] rest[i]).0
            != #[trigger] (start + suffix) by {
            assert(before[i + 1].0 != start + suffix);
        }
        lemma_first_area(rest, account, suffix, value, after);
        assert(all.skip(1) =~= rest + seq![(account + suffix, value)] + after);
        assert(all[0] == before[0]);
        let k = before[0].0;
        if suffix.is_suffix_of(k) {
            let start = k.take(k.len() - suffix.len());
            assert(k =~= start + suffix);
        }
    } else {
        assert(all[0] == (account + suffix, value));
        let k = account + suffix;
        assert(k.subrange(k.len() - suffix.len(), k.len() as int) =~= suffix);
        assert(suffix.is_suffix_of(k));
    }
}

/// A store that is no object has no areas, and its areas have the members of the
/// objects that they are.
pub proof fn lemma_area_members(data: JsonView, suffix: Seq<char>)
    ensures
        !(data is Object) ==> store_area(data, suffix) is None,
        store_area(data, suffix) matches Some(JsonView::Object(members)) ==> area_members(
            data,
            suffix,
        ) == members,
        !(store_area(data, suffix) matches Some(JsonView::Object(_))) ==> area_members(data, suffix)
            == Seq::<(Seq<char>, JsonView)>::empty(),
{
}

/// An id leads to the first item that has it.
pub proof fn lemma_first_item(
    before: Seq<(Seq<char>, JsonView)>,
    k: Seq<char>,
    c: JsonView,
    after: Seq<(Seq<char>, JsonView)>,
    id: Seq<char>,
)
    requires
        forall|i: int|
            0 <= i < before.len() ==> field((#[trigger] before[i]).1, "id"@) != Some(
                JsonView::Str(id),
            ),
        field(c, "id"@) == Some(JsonView::Str(id)),
    ensures
        item_with_id(before + seq![(k, c)] + after, id) == Some(c),
        item_with_id(before, id) is None,
    decreases before.len(),
{
    let all = before + seq![(k, c)] + after;
    if before.len() > 0 {
        let rest = before.skip(1);
        assert forall|i: int| 0 <= i < rest.len() implies field((#[trigger] rest[i]).1, "id"@)
            != Some(JsonView::Str(id)) by {
            assert(field(before[i + 1].1, "id"@) != Some(JsonView::Str(id)));
        }
        lemma_first_item(rest, k, c, after, id);
        assert(all.skip(1) =~= rest + seq![(k, c)] + after);
        assert(field(before[0].1, "id"@) != Some(JsonView::Str(id)));
        assert(all[0] == before[0]);
    } else {
        assert(all[0] == (k, c));
    }
}

/// What is kept last under a key is found.
pub proof fn lemma_last_wins<V>(
    before: Seq<(Seq<char>, V)>,
    key: Seq<char>,
    value: V,
    after: Seq<(Seq<char>, V)>,
)
    requires
        forall|i: int| 0 <= i < after.len() ==> (#[trigger] after[i]).0 != key,
    ensures
        lookup(before + seq![(key, value)] + after, key) == Some(value),
        lookup(after, key) is None,
    decreases after.len(),
{
    let all = before + seq![(key, value)] + after;
    if after.len() > 0 {
        let front = after.drop_last();
        assert forall|i: int| 0 <= i < front.len() implies (#[trigger] front[i]).0 != key by {
            assert(after[i].0 != key);
        }
        lemma_last_wins(before, key, value, front);
        assert(after[after.len() - 1].0 != key);
        assert(all.drop_last() =~= before + seq![(key, value)] + front);
        assert(all.last() == after.last());
    } else {
        assert(all.last() == (key, value));
    }
}

/// The name of a folder is the text under `name` of the member with its id, decrypted;
/// a folder whose name cannot be decrypted has none.
pub proof fn lemma_folder_name(
    members: Seq<(Seq<char>, JsonView)>,
    key: Seq<u8>,
    k: int,
    enc: Seq<char>,
    name: Seq<char>,
)
    requires
        0 <= k < members.len(),
        forall|i: int| 0 <= i < members.len() && i != k ==> (#[trigger] members[i]).0 != members[k].0,
    ensures
        field(members[k].1, "name"@) == Some(JsonView::Str(enc)) && decrypted(key, enc) == Ok::<
            Seq<u8>,
            ErrorView,
        >(encode_utf8(name)) ==> lookup(names_in(members, key), members[k].0) == Some(name),
        !(field(members[k].1, "name"@) matches Some(JsonView::Str(_))) ==> lookup(
            names_in(members, key),
            members[k].0,
        ) is None,
        field(members[k].1, "name"@) == Some(JsonView::Str(enc)) && decrypted(key, enc) is Err
            ==> lookup(names_in(members, key), members[k].0) is None,
    decreases members.len(),
{
    let id = members[k].0;
    let front = members.drop_last();
    let last = members.last();
    lemma_decrypted_text(key, enc, name);
    if k < front.len() {
        assert(front[k] == members[k]);
        assert forall|i: int| 0 <= i < front.len() && i != k implies (#[trigger] front[i]).0
            != front[k].0 by {
            assert(members[i].0 != members[k].0);
        }
        lemma_folder_name(front, key, k, enc, name);
        assert(members[members.len() - 1].0 != id);
        let before = names_in(front, key);
        if let Some(t) = text_in(key, field(last.1, "name"@)) {
            assert(before.push((last.0, t)).drop_last() =~= before);
        }
    } else {
        assert forall|i: int| 0 <= i < front.len() implies (#[trigger] front[i]).0 != id by {
            assert(members[i].0 != members[k].0);
        }
        lemma_no_folder_name(front, key, id);
    }
}

/// A folder that is not in the store has no name.
pub proof fn lemma_no_folder_name(
    members: Seq<(Seq<char>, JsonView)>,
    key: Seq<u8>,
    id: Seq<char>,
)
    requires
        forall|i: int| 0 <= i < members.len() ==> (#[trigger] members[i]).0 != id,
    ensures
        lookup(names_in(members, key), id) is None,
    decreases members.len(),
{
    if members.len() > 0 {
        let front = members.drop_last();
        let last = members[members.len() - 1];
        assert(last.0 != id);
        assert forall|i: int| 0 <= i < front.len() implies (#[trigger] front[i]).0 != id by {
            assert(members[i].0 != id);
        }
        lemma_no_folder_name(front, key, id);
        let before = names_in(front, key);
        if let Some(t) = text_in(key, field(last.1, "name"@)) {
            assert(before.push((last.0, t)).drop_last() =~= before);
        }
    }
}

/// The key of an organization is the 64 bytes that the text under `key` of the member
/// with its id opens to with the account's private key; otherwise there is none.
pub proof fn lemma_organization_key(
    members: Seq<(Seq<char>, JsonView)>,
    der: Seq<u8>,
    k: int,
    enc: Seq<char>,
    raw: Seq<u8>,
)
    requires
        0 <= k < members.len(),
        forall|i: int| 0 <= i < members.len() && i != k ==> (#[trigger] members[i]).0 != members[k].0,
    ensures
        field(members[k].1, "key"@) == Some(JsonView::Str(enc)) && decrypted_type4(der, enc) == Ok::<
            Seq<u8>,
            ErrorView,
        >(raw) && raw.len() == 64 ==> lookup(keys_in(members, der), members[k].0) == Some(raw),
        field(members[k].1, "key"@) == Some(JsonView::Str(enc)) && decrypted_type4(der, enc) == Ok::<
            Seq<u8>,
            ErrorView,
        >(raw) && raw.len() != 64 ==> lookup(keys_in(members, der), members[k].0) is None,
        field(members[k].1, "key"@) == Some(JsonView::Str(enc)) && decrypted_type4(der, enc) is Err
            ==> lookup(keys_in(members, der), members[k].0) is None,
        !(field(members[k].1, "key"@) matches Some(JsonView::Str(_))) ==> lookup(
            keys_in(members, der),
            members[k].0,
        ) is None,
    decreases members.len(),
{
    let id = members[k].0;
    let front = members.drop_last();
    let last = members.last();
    if k < front.len() {
        assert(front[k] == members[k]);
        assert forall|i: int| 0 <= i < front.len() && i != k implies (#[trigger] front[i]).0
            != front[k].0 by {
            assert(members[i].0 != members[k].0);
        }
        lemma_organization_key(front, der, k, enc, raw);
        assert(members[members.len() - 1].0 != id);
        let before = keys_in(front, der);
        if let Some(t) = organization_key(last.1, der) {
            assert(before.push((last.0, t)).drop_last() =~= before);
        }
    } else {
        assert forall|i: int| 0 <= i < front.len() implies (#[trigger] front[i]).0 != id by {
            assert(members[i].0 != members[k].0);
        }
        lemma_no_organization_key(front, der, id);
    }
}

/// An organization that is not in the store has no key.
pub proof fn lemma_no_organization_key(
    members: Seq<(Seq<char>, JsonView)>,
    der: Seq<u8>,
    id: Seq<char>,
)
    requires
        forall|i: int| 0 <= i < members.len() ==> (#[trigger] members[i]).0 != id,
    ensures
        lookup(keys_in(members, der), id) is None,
    decreases members.len(),
{
    if members.len() > 0 {
        let front = members.drop_last();
        let last = members[members.len() - 1];
        assert(last.0 != id);
        assert forall|i: int| 0 <= i < front.len() implies (#[trigger] front[i]).0 != id by {
            assert(members[i].0 != id);
        }
        lemma_no_organization_key(front, der, id);
        let before = keys_in(front, der);
        if let Some(t) = organization_key(last.1, der) {
            assert(before.push((last.0, t)).drop_last() =~= before);
        }
    }
}

/// Folders are named under the user key and stand in the area of folders; organizations
/// have their keys from the area of organization keys, opened with the account's
/// private key, and none without that key.
pub proof fn lemma_areas_used(data: JsonView, key: Seq<u8>, der: Seq<u8>)
    ensures
        folders_of(data, key) == names_in(area_members(data, "_folder_folders"@), key),
        account_key(data, key) == Some(der) ==> organizations_of(data, key) == keys_in(
            area_members(data, "_crypto_organizationKeys"@),
            der,
        ),
        account_key(data, key) is None ==> organizations_of(data, key) == Seq::<
            (Seq<char>, Seq<u8>),
        >::empty(),
{
}

/// The account's private key is what the text below the cryptographic state decrypts
/// to with the user key; only where there is no such text, what the flat text decrypts
/// to. It has to be a private key.
pub proof fn lemma_account_key(
    data: JsonView,
    key: Seq<u8>,
    state: JsonView,
    v1: JsonView,
    enc: Seq<char>,
    der: Seq<u8>,
)
    requires
        store_area(data, "_crypto_accountCryptographicState"@) == Some(state) && field(state, "V1"@)
            == Some(v1) && field(v1, "private_key"@) == Some(JsonView::Str(enc)) || !(opt_field(
            opt_field(store_area(data, "_crypto_accountCryptographicState"@), "V1"@),
            "private_key"@,
        ) matches Some(JsonView::Str(_))) && store_area(data, "_crypto_privateKey"@) == Some(
            JsonView::Str(enc),
        ),
    ensures
        account_key(data, key) == Some(der) <==> decrypted(key, enc) == Ok::<Seq<u8>, ErrorView>(der)
            && pkcs8_fault(der) is None,
{
}

/// Without the text of a private key in either place there is none.
pub proof fn lemma_no_account_key(data: JsonView, key: Seq<u8>)
    requires
        !(opt_field(
            opt_field(store_area(data, "_crypto_accountCryptographicState"@), "V1"@),
            "private_key"@,
        ) matches Some(JsonView::Str(_))),
        !(store_area(data, "_crypto_privateKey"@) matches Some(JsonView::Str(_))),
    ensures
        account_key(data, key) is None,
{
}

/// The list follows the order of the items: the lines of two parts are the lines of the
/// first and then those of the second.
pub proof fn lemma_lines_by_parts(
    a: Seq<(Seq<char>, JsonView)>,
    b: Seq<(Seq<char>, JsonView)>,
    key: Seq<u8>,
    orgs: Seq<(Seq<char>, Seq<u8>)>,
    folders: Seq<(Seq<char>, Seq<char>)>,
)
    ensures
        lines(a + b, key, orgs, folders) == lines(a, key, orgs, folders) + lines(
            b,
            key,
            orgs,
            folders,
        ),
    decreases b.len(),
{
    if b.len() == 0 {
        assert(a + b =~= a);
        assert(lines(a + b, key, orgs, folders) =~= lines(a, key, orgs, folders) + lines(
            b,
            key,
            orgs,
            folders,
        ));
    } else {
        lemma_lines_by_parts(a, b.drop_last(), key, orgs, folders);
        assert((a + b).drop_last() =~= a + b.drop_last());
        assert((a + b).last() == b.last());
        assert(lines(a + b, key, orgs, folders) =~= lines(a, key, orgs, folders) + lines(
            b,
            key,
            orgs,
            folders,
        ));
    }
}

/// One item has its line, or none.
pub proof fn lemma_line_of_one(
    id: Seq<char>,
    c: JsonView,
    key: Seq<u8>,
    orgs: Seq<(Seq<char>, Seq<u8>)>,
    folders: Seq<(Seq<char>, Seq<char>)>,
)
    ensures
        lines(seq![(id, c)], key, orgs, folders) == match line_of(c, key, orgs, folders) {
            Some(l) => seq![l],
            None => Seq::empty(),
        },
{
    let one = seq![(id, c)];
    assert(one.drop_last() =~= Seq::empty());
    assert(lines(one.drop_last(), key, orgs, folders) =~= Seq::<JsonView>::empty());
    assert(lines(one, key, orgs, folders) =~= match line_of(c, key, orgs, folders) {
        Some(l) => seq![l],
        None => Seq::empty(),
    });
}

/// The list is that of the area of items; a store without the area is an error, an area
/// that is no object an empty list.
pub proof fn lemma_listing(data: JsonView, key: Seq<u8>, members: Seq<(Seq<char>, JsonView)>)
    ensures
        store_area(data, "_ciphers_ciphers"@) is None ==> listing(data, key) == Err::<
            JsonView,
            ErrorView,
        >(Failure::NoItems),
        store_area(data, "_ciphers_ciphers"@) == Some(JsonView::Object(members)) ==> listing(
            data,
            key,
        ) == Ok::<JsonView, ErrorView>(
            JsonView::Array(
                lines(members, key, organizations_of(data, key), folders_of(data, key)),
            ),
        ),
        store_area(data, "_ciphers_ciphers"@) matches Some(v) ==> !(v is Object) ==> listing(
            data,
            key,
        ) == Ok::<JsonView, ErrorView>(JsonView::Array(Seq::empty())),
{
    let orgs = organizations_of(data, key);
    let folders = folders_of(data, key);
    assert(lines(Seq::empty(), key, orgs, folders) =~= Seq::<JsonView>::empty());
}

/// A setting that is not empty names the account, whatever the stores say; an empty one
/// is as good as none.
pub proof fn lemma_chosen_account(chosen: Seq<char>, stores: Seq<Option<Seq<char>>>)
    ensures
        chosen.len() > 0 ==> user_id_from(Some(chosen), stores) == Ok::<Seq<char>, ErrorView>(chosen),
        chosen.len() == 0 ==> user_id_from(Some(chosen), stores) == user_id_from(None, stores),
{
}

/// The first store that names an account decides; where none does, there is an error.
pub proof fn lemma_first_store(
    before: Seq<Option<Seq<char>>>,
    text: Seq<char>,
    v: JsonView,
    id: Seq<char>,
    after: Seq<Option<Seq<char>>>,
)
    requires
        forall|i: int| 0 <= i < before.len() ==> account_of_store(#[trigger] before[i]) is None,
        json_of_bytes(encode_utf8(text)) == Ok::<JsonView, Seq<char>>(v),
        account_in(v) == Some(id),
    ensures
        user_id_from(None, before + seq![Some(text)] + after) == Ok::<Seq<char>, ErrorView>(id),
        user_id_from(None, before) == Err::<Seq<char>, ErrorView>(Failure::NoUserId),
    decreases before.len(),
{
    let all = before + seq![Some(text)] + after;
    if before.len() > 0 {
        let rest = before.skip(1);
        assert forall|i: int| 0 <= i < rest.len() implies account_of_store(#[trigger] rest[i]) is None by {
            assert(account_of_store(before[i + 1]) is None);
        }
        lemma_first_store(rest, text, v, id, after);
        assert(all.skip(1) =~= rest + seq![Some(text)] + after);
        assert(account_of_store(before[0]) is None);
        assert(all[0] == before[0]);
    } else {
        assert(all[0] == Some(text));
    }
}

/// A store that is missing or is no JSON names no account.
pub proof fn lemma_unreadable_store(text: Seq<char>, t: Seq<char>)
    ensures
        account_of_store(None) is None,
        json_of_bytes(encode_utf8(text)) == Err::<JsonView, Seq<char>>(t) ==> account_of_store(
            Some(text),
        ) is None,
        json_of_bytes(encode_utf8(text)) matches Ok(v) ==> account_of_store(Some(text)) == account_in(
            v,
        ),
{
}

/// The account that a store names: the active one under its newer key, else under its
/// older one, else the first member that is keyed by a GUID; what has not the form of a
/// GUID does not count.
pub proof fn lemma_account_in(v: JsonView, id: Seq<char>, k: int)
    ensures
        field(v, "global_account_activeAccountId"@) == Some(JsonView::Str(id)) && guid(id)
            ==> account_in(v) == Some(id),
        !(field(v, "global_account_activeAccountId"@) matches Some(JsonView::Str(s)) && guid(s))
            && field(v, "activeUserId"@) == Some(JsonView::Str(id)) && guid(id) ==> account_in(v)
            == Some(id),
        !(field(v, "global_account_activeAccountId"@) matches Some(JsonView::Str(s)) && guid(s)) && !(
        field(v, "activeUserId"@) matches Some(JsonView::Str(s)) && guid(s)) ==> match v {
            JsonView::Object(members) => {
                &&& 0 <= k < members.len() && guid(members[k].0) && (forall|i: int|
                    0 <= i < k ==> !guid((#[trigger] members[i]).0)) ==> account_in(v) == Some(
                    members[k].0,
                )
                &&& (forall|i: int| 0 <= i < members.len() ==> !guid((#[trigger] members[i]).0))
                    ==> account_in(v) is None
            },
            _ => account_in(v) is None,
        },
{
    if let JsonView::Object(members) = v {
        if 0 <= k < members.len() && guid(members[k].0) && (forall|i: int|
            0 <= i < k ==> !guid((#[trigger] members[i]).0)) {
            lemma_first_guid(members, k);
        }
        if forall|i: int| 0 <= i < members.len() ==> !guid((#[trigger] members[i]).0) {
            lemma_no_guid(members);
        }
    }
}

proof fn lemma_first_guid(members: Seq<(Seq<char>, JsonView)>, k: int)
    requires
        0 <= k < members.len(),
        guid(members[k].0),
        forall|i: int| 0 <= i < k ==> !guid((#[trigger] members[i]).0),
    ensures
        first_guid_key(members) == Some(members[k].0),
    decreases k,
{
    if k > 0 {
        let rest = members.skip(1);
        assert(rest[k - 1] == members[k]);
        assert(!guid(members[0].0));
        assert forall|i: int| 0 <= i < k - 1 implies !guid((#[trigger] rest[i]).0) by {
            assert(!guid(members[i + 1].0));
        }
        lemma_first_guid(rest, k - 1);
    }
}

proof fn lemma_no_guid(members: Seq<(Seq<char>, JsonView)>)
    requires
        forall|i: int| 0 <= i < members.len() ==> !guid((#[trigger] members[i]).0),
    ensures
        first_guid_key(members) is None,
    decreases members.len(),
{
    if members.len() > 0 {
        let rest = members.skip(1);
        assert(!guid(members[0].0));
        assert forall|i: int| 0 <= i < rest.len() implies !guid((#[trigger] rest[i]).0) by {
            assert(!guid(members[i + 1].0));
        }
        lemma_no_guid(rest);
    }
}

/// How the handshake and the answer carry an unlock on: what the handshake sends is
/// sent, a channel that stands is asked for the unlock at once, and what is waited
/// through leaves the stage as it is.
pub proof fn lemma_unlock_goes_on(
    h: HandshakeView,
    s: SessionView,
    frame: JsonView,
    timestamp: i64,
    iv: Seq<u8>,
)
    ensures
        handshake_step(h, frame, timestamp).1 is Wait ==> unlock_step(
            StageView::Handshake(h),
            Ok::<JsonView, ErrorView>(frame),
            timestamp,
            iv,
        ) == StepView::Wait(StageView::Handshake(handshake_step(h, frame, timestamp).0)),
        handshake_step(h, frame, timestamp).1 matches ProgressView::Send(j) ==> unlock_step(
            StageView::Handshake(h),
            Ok::<JsonView, ErrorView>(frame),
            timestamp,
            iv,
        ) == StepView::Send(StageView::Handshake(handshake_step(h, frame, timestamp).0), j),
        handshake_step(h, frame, timestamp).1 == ProgressView::Established(s) ==> (sent(
            s,
            unlock_command(s.user_id),
            timestamp,
            iv,
        ) matches Ok((id, j)) ==> unlock_step(
            StageView::Handshake(h),
            Ok::<JsonView, ErrorView>(frame),
            timestamp,
            iv,
        ) == StepView::Send(StageView::Unlock(advanced(s)), j)),
        reply_of(s.key, frame) is Wait ==> unlock_step(
            StageView::Unlock(s),
            Ok::<JsonView, ErrorView>(frame),
            timestamp,
            iv,
        ) == StepView::Wait(StageView::Unlock(s)),
{
}

/// Every failure of an unlock is passed on, with the circumstance in which it came.
pub proof fn lemma_unlock_failures(
    h: HandshakeView,
    s: SessionView,
    frame: JsonView,
    e: ErrorView,
    timestamp: i64,
    iv: Seq<u8>,
)
    ensures
        unlock_step(StageView::Handshake(h), Err::<JsonView, ErrorView>(e), timestamp, iv)
            == StepView::Failed(
            Failure::Context(
                "connecting to the Bitwarden desktop app"@,
                Box::new(Failure::Context("reading handshake frame"@, Box::new(e))),
            ),
        ),
        handshake_step(h, frame, timestamp).1 == ProgressView::Failed(e) ==> unlock_step(
            StageView::Handshake(h),
            Ok::<JsonView, ErrorView>(frame),
            timestamp,
            iv,
        ) == StepView::Failed(
            Failure::Context("connecting to the Bitwarden desktop app"@, Box::new(e)),
        ),
        unlock_step(StageView::Unlock(s), Err::<JsonView, ErrorView>(e), timestamp, iv)
            == StepView::Failed(Failure::Context("biometric unlock"@, Box::new(e))),
        reply_of(s.key, frame) == ReplyView::Failed(e) ==> unlock_step(
            StageView::Unlock(s),
            Ok::<JsonView, ErrorView>(frame),
            timestamp,
            iv,
        ) == StepView::Failed(Failure::Context("biometric unlock"@, Box::new(e))),
        handshake_step(h, frame, timestamp).1 == ProgressView::Established(s) && sent(
            s,
            unlock_command(s.user_id),
            timestamp,
            iv,
        ) == Err::<(i64, JsonView), ErrorView>(e) ==> unlock_step(
            StageView::Handshake(h),
            Ok::<JsonView, ErrorView>(frame),
            timestamp,
            iv,
        ) == StepView::Failed(Failure::Context("biometric unlock"@, Box::new(e))),
{
}

/// The answer to the unlock command ends the unlock: with the key whose base64 text it
/// grants, or with the reason why there is none.
pub proof fn lemma_unlock_answer(
    s: SessionView,
    frame: JsonView,
    reply: JsonView,
    timestamp: i64,
    iv: Seq<u8>,
)
    requires
        reply_of(s.key, frame) == ReplyView::Message(reply),
    ensures
        granted_key(reply) matches Err(e) ==> unlock_step(
            StageView::Unlock(s),
            Ok::<JsonView, ErrorView>(frame),
            timestamp,
            iv,
        ) == StepView::Failed(Failure::Context("biometric unlock"@, Box::new(e))),
        granted_key(reply) matches Ok(text) ==> unlock_step(
            StageView::Unlock(s),
            Ok::<JsonView, ErrorView>(frame),
            timestamp,
            iv,
        ) == (match key_of_b64(text) {
            Ok(key) => StepView::Done(key),
            Err(e) => StepView::Failed(
                Failure::Context("decoding the unlocked user key"@, Box::new(e)),
            ),
        }),
{
}

/// The handshake has 15 seconds, the approval two minutes, counted from when the stage
/// began: with every millisecond that passes there is one less left, until none is. A
/// clock that went back has taken nothing.
pub proof fn lemma_time_left(h: HandshakeView, s: SessionView, began: u64, now: u64)
    ensures
        now <= began ==> time_left(StageView::Handshake(h), began, now) == Some(15_000nat) && time_left(
            StageView::Unlock(s),
            began,
            now,
        ) == Some(120_000nat),
        began <= now < began + 15_000 ==> time_left(StageView::Handshake(h), began, now) == Some(
            (began + 15_000 - now) as nat,
        ),
        now >= began + 15_000 ==> time_left(StageView::Handshake(h), began, now) is None,
        began <= now < began + 120_000 ==> time_left(StageView::Unlock(s), began, now) == Some(
            (began + 120_000 - now) as nat,
        ),
        now >= began + 120_000 ==> time_left(StageView::Unlock(s), began, now) is None,
{
}

/// The time of a stage is counted anew when the unlock has been asked for, and at no
/// other step.
pub proof fn lemma_stage_began(step: StepView, began: u64, now: u64)
    ensures
        step matches StepView::Send(StageView::Unlock(_), _) ==> began_after(step, began, now) == now,
        !(step matches StepView::Send(StageView::Unlock(_), _)) ==> began_after(step, began, now)
            == began,
{
}

/// A line of the list tells nothing else: no other field of the item leaves the store
/// with the list.
pub proof fn lemma_line_tells_nothing_else(
    c: JsonView,
    key: Seq<u8>,
    orgs: Seq<(Seq<char>, Seq<u8>)>,
    folders: Seq<(Seq<char>, Seq<char>)>,
    other: Seq<char>,
)
    requires
        other != "id"@ && other != "name"@ && other != "username"@ && other != "folder"@ && other
            != "uri"@,
    ensures
        line_of(c, key, orgs, folders) matches Some(l) ==> l is Object && field(l, other) is None,
{
    if line_of(c, key, orgs, folders) is Some {
        let base = item_base(c, key, orgs)->0;
        let own = own_key(base, c)->Ok_0;
        let details = field(c, "login"@);
        let id = JsonView::Str(text_field(c, "id"@)->0);
        let name = JsonView::Str(or_empty(text_in(own, field(c, "name"@))));
        let username = JsonView::Str(or_empty(text_in(own, opt_field(details, "username"@))));
        let folder = JsonView::Str(or_empty(folder_of(c, folders)));
        let uri = JsonView::Str(or_empty(text_in(own, first_address(details))));
        let one = with_field(JsonView::Null, "id"@, id);
        let two = with_field(one, "name"@, name);
        let three = with_field(two, "username"@, username);
        let four = with_field(three, "folder"@, folder);
        lemma_with_field(JsonView::Null, "id"@, id, other);
        lemma_with_field(one, "name"@, name, other);
        lemma_with_field(two, "username"@, username, other);
        lemma_with_field(three, "folder"@, folder, other);
        lemma_with_field(four, "uri"@, uri, other);
    }
}

} // verus!
