//! Where things are looked for: sockets, the proxy, the vault store, and the
//! settings that say otherwise.

use crate::text::{decimal, lemma_decimal_read_back, opt_view, parse_unsigned, unsigned_number};
use vstd::prelude::*;

verus! {

/// A place in the file system.
pub enum Location {
    /// A path as it stands.
    Given(String),
    /// A path below the home directory.
    UnderHome(String),
    /// A path below the cache directory.
    UnderCache(String),
}

/// The mathematical view of a [`Location`].
pub enum LocationView {
    /// A path as it stands.
    Given(Seq<char>),
    /// A path below the home directory.
    UnderHome(Seq<char>),
    /// A path below the cache directory.
    UnderCache(Seq<char>),
}

impl View for Location {
    type V = LocationView;

    open spec fn view(&self) -> LocationView {
        match self {
            Location::Given(p) => LocationView::Given(p@),
            Location::UnderHome(p) => LocationView::UnderHome(p@),
            Location::UnderCache(p) => LocationView::UnderCache(p@),
        }
    }
}

/// The views of a list of places.
pub open spec fn location_views(list: Seq<Location>) -> Seq<LocationView> {
    list.map_values(|l: Location| l@)
}

/// The view of an optional setting.
pub open spec fn setting(s: Option<&str>) -> Option<Seq<char>> {
    match s {
        Some(t) => Some(t@),
        None => None,
    }
}

/// Where the desktop app's socket may be: where a setting says, else at the usual places,
/// the one to try first in front.
pub open spec fn socket_places(chosen: Option<Seq<char>>) -> Seq<LocationView> {
    match chosen {
        Some(path) => seq![LocationView::Given(path)],
        None => seq![
            LocationView::UnderHome(
                "Library/Group Containers/LTZ2PFU5D6.com.bitwarden.desktop/s.bw"@,
            ),
            LocationView::UnderHome("Library/Caches/com.bitwarden.desktop/s.bw"@),
        ],
    }
}

/// Where the desktop app's socket may be, the place to try first in front. A
/// setting replaces the list.
pub fn socket_candidates(chosen: Option<&str>) -> (r: Vec<Location>)
    ensures
        location_views(r@) == socket_places(setting(chosen)),
{
    match chosen {
        Some(path) => {
            let r: Vec<Location> = vec![Location::Given(path.to_owned())];
            assert(location_views(r@) =~= seq![LocationView::Given(path@)]);
            r
        },
        None => {
            let r: Vec<Location> = vec![
                Location::UnderHome(
                    "Library/Group Containers/LTZ2PFU5D6.com.bitwarden.desktop/s.bw".to_owned(),
                ),
                Location::UnderHome("Library/Caches/com.bitwarden.desktop/s.bw".to_owned()),
            ];
            assert(location_views(r@) =~= seq![
                LocationView::UnderHome(
                    "Library/Group Containers/LTZ2PFU5D6.com.bitwarden.desktop/s.bw"@,
                ),
                LocationView::UnderHome("Library/Caches/com.bitwarden.desktop/s.bw"@),
            ]);
            r
        },
    }
}

/// The origin of the browser extension, which the proxy is started with.
pub const EXTENSION_ORIGIN: &'static str = "chrome-extension://nngceckbapebfimnlniiiahkandclblb/";

/// Where the native-messaging proxy may be: at the place that a setting names, then
/// at the usual ones.
pub open spec fn proxy_places(chosen: Option<Seq<char>>) -> Seq<LocationView> {
    (match chosen {
        Some(path) => seq![LocationView::Given(path)],
        None => seq![],
    }) + seq![
        LocationView::Given("/Applications/Bitwarden.app/Contents/MacOS/desktop_proxy"@),
        LocationView::Given("/opt/Bitwarden/desktop_proxy"@),
    ]
}

/// Where the native-messaging proxy may be: at the place that a setting names, then
/// at the usual ones. The first that exists is taken.
pub fn proxy_candidates(chosen: Option<&str>) -> (r: Vec<Location>)
    ensures
        location_views(r@) == proxy_places(setting(chosen)),
{
    let mut r: Vec<Location> = Vec::new();
    if let Some(path) = chosen {
        r.push(Location::Given(path.to_owned()));
    }
    let ghost first = r@;
    r.push(
        Location::Given("/Applications/Bitwarden.app/Contents/MacOS/desktop_proxy".to_owned()),
    );
    r.push(Location::Given("/opt/Bitwarden/desktop_proxy".to_owned()));
    assert(location_views(r@) =~= location_views(first) + seq![
        LocationView::Given("/Applications/Bitwarden.app/Contents/MacOS/desktop_proxy"@),
        LocationView::Given("/opt/Bitwarden/desktop_proxy"@),
    ]);
    r
}

/// The desktop app's own stores: that of the sandboxed build, then that of the
/// directly downloaded one.
pub open spec fn desktop_stores() -> Seq<LocationView> {
    seq![
        LocationView::UnderHome(
            "Library/Containers/com.bitwarden.desktop/Data/Library/Application Support/Bitwarden/data.json"@,
        ),
        LocationView::UnderHome("Library/Application Support/Bitwarden/data.json"@),
    ]
}

/// Where the desktop app keeps its vault.
pub fn desktop_data_candidates() -> (r: Vec<Location>)
    ensures
        location_views(r@) == desktop_stores(),
{
    let r: Vec<Location> = vec![
        Location::UnderHome(
            "Library/Containers/com.bitwarden.desktop/Data/Library/Application Support/Bitwarden/data.json".to_owned(),
        ),
        Location::UnderHome("Library/Application Support/Bitwarden/data.json".to_owned()),
    ];
    assert(location_views(r@) =~= desktop_stores());
    r
}

/// The first place that exists, the `i`-th one telling by `exists[i]`.
pub open spec fn first_existing(list: Seq<LocationView>, exists: Seq<bool>) -> Option<LocationView>
    decreases list.len(),
{
    if list.len() == 0 || exists.len() == 0 {
        None
    } else if exists[0] {
        Some(list[0])
    } else {
        first_existing(list.skip(1), exists.skip(1))
    }
}

/// The view of an optional place.
pub open spec fn opt_location(o: Option<Location>) -> Option<LocationView> {
    match o {
        Some(l) => Some(l@),
        None => None,
    }
}

/// Copies a place.
fn copy(l: &Location) -> (r: Location)
    ensures
        r@ == l@,
{
    match l {
        Location::Given(p) => Location::Given(p.clone()),
        Location::UnderHome(p) => Location::UnderHome(p.clone()),
        Location::UnderCache(p) => Location::UnderCache(p.clone()),
    }
}

/// Takes the first place that exists.
pub fn choose_existing(list: &Vec<Location>, exists: &Vec<bool>) -> (r: Option<Location>)
    ensures
        opt_location(r) == first_existing(location_views(list@), exists@),
{
    let ghost all = location_views(list@);
    let mut i: usize = 0;
    assert(all.skip(0) =~= all);
    assert(exists@.skip(0) =~= exists@);
    while i < list.len() && i < exists.len()
        invariant
            i <= list@.len(),
            i <= exists@.len(),
            all == location_views(list@),
            first_existing(all, exists@) == first_existing(
                all.skip(i as int),
                exists@.skip(i as int),
            ),
        decreases list@.len() - i,
    {
        assert(all.skip(i as int)[0] == list@[i as int]@);
        if exists[i] {
            return Some(copy(&list[i]));
        }
        assert(all.skip(i as int).skip(1) =~= all.skip(i + 1));
        assert(exists@.skip(i as int).skip(1) =~= exists@.skip(i + 1));
        i += 1;
    }
    None
}

/// The first of the desktop app's stores that exists.
pub fn desktop_data_path(exists: &Vec<bool>) -> (r: Option<Location>)
    ensures
        opt_location(r) == first_existing(desktop_stores(), exists@),
{
    choose_existing(&desktop_data_candidates(), exists)
}

/// A setting that is not empty.
pub open spec fn given(s: Option<Seq<char>>) -> Option<Seq<char>> {
    match s {
        Some(t) if t.len() > 0 => Some(t),
        _ => None,
    }
}

/// Where settings say that the vault store is: the helper's own setting comes first,
/// then the one for the store of the `bw` program, then the directory of that
/// program's data. Empty settings do not count.
pub open spec fn store_override(
    vault_data: Option<Seq<char>>,
    bw_data: Option<Seq<char>>,
    appdata_dir: Option<Seq<char>>,
) -> Option<Seq<char>> {
    match (given(vault_data), given(bw_data), given(appdata_dir)) {
        (Some(path), _, _) => Some(path),
        (None, Some(path), _) => Some(path),
        (None, None, Some(dir)) => Some(dir + "/data.json"@),
        (None, None, None) => None,
    }
}

/// The setting, if it is not empty.
fn not_empty<'a>(s: Option<&'a str>) -> (r: Option<&'a str>)
    ensures
        setting(r) == given(setting(s)),
{
    match s {
        Some(t) => if t.is_empty() {
            None
        } else {
            Some(t)
        },
        None => None,
    }
}

/// Says where settings put the vault store.
pub fn data_override(
    vault_data: Option<&str>,
    bw_data: Option<&str>,
    appdata_dir: Option<&str>,
) -> (r: Option<String>)
    ensures
        opt_view(r) == store_override(setting(vault_data), setting(bw_data), setting(appdata_dir)),
{
    if let Some(path) = not_empty(vault_data) {
        return Some(path.to_owned());
    }
    if let Some(path) = not_empty(bw_data) {
        return Some(path.to_owned());
    }
    match not_empty(appdata_dir) {
        Some(dir) => {
            let mut path: String = dir.to_owned();
            path.append("/data.json");
            Some(path)
        },
        None => None,
    }
}

/// The vault store: where a setting says, else the first of the desktop app's stores
/// that exists.
pub open spec fn vault_place(
    vault_data: Option<Seq<char>>,
    bw_data: Option<Seq<char>>,
    appdata_dir: Option<Seq<char>>,
    exists: Seq<bool>,
) -> Option<LocationView> {
    match store_override(vault_data, bw_data, appdata_dir) {
        Some(path) => Some(LocationView::Given(path)),
        None => first_existing(desktop_stores(), exists),
    }
}

/// The vault store: where a setting says, else the first of the desktop app's stores
/// that exists.
pub fn vault_data_path(
    vault_data: Option<&str>,
    bw_data: Option<&str>,
    appdata_dir: Option<&str>,
    exists: &Vec<bool>,
) -> (r: Option<Location>)
    ensures
        opt_location(r) == vault_place(
            setting(vault_data),
            setting(bw_data),
            setting(appdata_dir),
            exists@,
        ),
{
    match data_override(vault_data, bw_data, appdata_dir) {
        Some(path) => Some(Location::Given(path)),
        None => desktop_data_path(exists),
    }
}

/// The agent's own socket: where a setting says, else in the cache directory.
pub open spec fn agent_place(chosen: Option<Seq<char>>) -> LocationView {
    match chosen {
        Some(path) => LocationView::Given(path),
        None => LocationView::UnderCache("bw-wez/agent.sock"@),
    }
}

/// The agent's own socket: where a setting says, else in the cache directory.
pub fn agent_socket(chosen: Option<&str>) -> (r: Location)
    ensures
        r@ == agent_place(setting(chosen)),
{
    match chosen {
        Some(path) => Location::Given(path.to_owned()),
        None => Location::UnderCache("bw-wez/agent.sock".to_owned()),
    }
}

/// The seconds without use after which the agent drops the key: fifteen minutes,
/// unless a setting holds another number.
pub const DEFAULT_IDLE_SECS: u64 = 900;

/// The idle timeout that a setting says, in seconds.
pub open spec fn idle_secs(chosen: Option<Seq<char>>) -> nat {
    match chosen {
        Some(text) => match unsigned_number(text, u64::MAX as nat) {
            Some(n) => n,
            None => DEFAULT_IDLE_SECS as nat,
        },
        None => DEFAULT_IDLE_SECS as nat,
    }
}

/// Reads the idle timeout, in seconds.
pub fn idle_timeout(chosen: Option<&str>) -> (r: u64)
    ensures
        r as nat == idle_secs(setting(chosen)),
{
    match chosen {
        Some(text) => match parse_unsigned(text, u64::MAX) {
            Some(n) => n,
            None => DEFAULT_IDLE_SECS,
        },
        None => DEFAULT_IDLE_SECS,
    }
}

/// A setting for a socket is the only place to look; a setting for the proxy comes before
/// the usual places, which stay.
pub proof fn lemma_chosen_places(path: Seq<char>)
    ensures
        socket_places(Some(path)) == seq![LocationView::Given(path)],
        proxy_places(Some(path)) == seq![LocationView::Given(path)] + proxy_places(None),
        agent_place(Some(path)) == LocationView::Given(path),
{
    assert(proxy_places(Some(path)) =~= seq![LocationView::Given(path)] + proxy_places(None));
}

/// The first place that exists is taken, and none if none does.
pub proof fn lemma_first_existing(list: Seq<LocationView>, exists: Seq<bool>, k: int)
    requires
        list.len() >= exists.len(),
    ensures
        0 <= k < exists.len() && exists[k] && (forall|i: int| 0 <= i < k ==> !#[trigger] exists[i])
            ==> first_existing(list, exists) == Some(list[k]),
        (forall|i: int| 0 <= i < exists.len() ==> !#[trigger] exists[i]) ==> first_existing(
            list,
            exists,
        ) is None,
    decreases list.len(),
{
    if exists.len() > 0 {
        let rest = exists.skip(1);
        lemma_first_existing(list.skip(1), rest, k - 1);
        if 0 <= k < exists.len() && exists[k] && (forall|i: int| 0 <= i < k ==> !#[trigger] exists[i]) {
            if k > 0 {
                assert(!exists[0]);
                assert(rest[k - 1] == exists[k]);
                assert forall|i: int| 0 <= i < k - 1 implies !#[trigger] rest[i] by {
                    assert(!exists[i + 1]);
                }
                assert(list.skip(1)[k - 1] == list[k]);
            }
        }
        if forall|i: int| 0 <= i < exists.len() ==> !#[trigger] exists[i] {
            assert(!exists[0]);
            assert forall|i: int| 0 <= i < rest.len() implies !#[trigger] rest[i] by {
                assert(!exists[i + 1]);
            }
        }
    }
}

/// The store is where the helper's own setting says, whatever else is set or exists; else
/// where the setting for the `bw` program's store says; else at `data.json` in that
/// program's directory; else at the first of the desktop app's places that exists. Empty
/// settings count as none.
pub proof fn lemma_vault_place(
    path: Seq<char>,
    a: Option<Seq<char>>,
    b: Option<Seq<char>>,
    exists: Seq<bool>,
)
    ensures
        path.len() > 0 ==> vault_place(Some(path), a, b, exists) == Some(LocationView::Given(path)),
        path.len() > 0 ==> vault_place(None, Some(path), b, exists) == Some(
            LocationView::Given(path),
        ),
        path.len() > 0 ==> vault_place(None, None, Some(path), exists) == Some(
            LocationView::Given(path + "/data.json"@),
        ),
        vault_place(None, None, None, exists) == first_existing(desktop_stores(), exists),
        vault_place(Some(Seq::empty()), a, b, exists) == vault_place(None, a, b, exists),
        vault_place(a, Some(Seq::empty()), b, exists) == vault_place(a, None, b, exists),
        vault_place(a, b, Some(Seq::empty()), exists) == vault_place(a, b, None, exists),
{
}

/// A number of seconds in a setting is the idle timeout; without one, or with anything
/// else in the setting, it is fifteen minutes.
pub proof fn lemma_idle_secs(n: nat, text: Seq<char>)
    ensures
        n <= u64::MAX ==> idle_secs(Some(decimal(n))) == n,
        idle_secs(None) == 15 * 60,
        unsigned_number(text, u64::MAX as nat) is None ==> idle_secs(Some(text)) == 15 * 60,
{
    lemma_decimal_read_back(n, u64::MAX as nat);
}

/// The proxy is told the origin of the extension by the extension's id.
pub proof fn lemma_extension_origin()
    ensures
        EXTENSION_ORIGIN@ == "chrome-extension://"@ + "nngceckbapebfimnlniiiahkandclblb"@ + "/"@,
{
    reveal_strlit("chrome-extension://nngceckbapebfimnlniiiahkandclblb/");
    reveal_strlit("chrome-extension://");
    reveal_strlit("nngceckbapebfimnlniiiahkandclblb");
    reveal_strlit("/");
    assert(EXTENSION_ORIGIN@ =~= "chrome-extension://"@ + "nngceckbapebfimnlniiiahkandclblb"@ + "/"@);
}

/// Where the desktop app is looked for without settings: its socket in the group container
/// of the sandboxed build, then in the caches; the proxy in the application folder, then
/// under `/opt`; the store below the sandbox container, then directly below the library.
pub proof fn lemma_usual_places()
    ensures
        socket_places(None).len() == 2,
        socket_places(None)[0] == LocationView::UnderHome(
            "Library/Group Containers/LTZ2PFU5D6.com.bitwarden.desktop/s.bw"@,
        ),
        socket_places(None)[1] == LocationView::UnderHome(
            "Library/Caches/com.bitwarden.desktop/s.bw"@,
        ),
        proxy_places(None).len() == 2,
        proxy_places(None)[0] == LocationView::Given(
            "/Applications/Bitwarden.app/Contents/MacOS/desktop_proxy"@,
        ),
        proxy_places(None)[1] == LocationView::Given("/opt/Bitwarden/desktop_proxy"@),
        agent_place(None) == LocationView::UnderCache("bw-wez/agent.sock"@),
        desktop_stores().len() == 2,
        desktop_stores()[0] == LocationView::UnderHome(
            "Library/Containers/com.bitwarden.desktop/Data/Library/Application Support/Bitwarden/data.json"@,
        ),
        desktop_stores()[1] == LocationView::UnderHome(
            "Library/Application Support/Bitwarden/data.json"@,
        ),
{
}

} // verus!
