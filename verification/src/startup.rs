use vstd::prelude::*;
use crate::text::{
    chars_of, contains_chars, first_word, first_word_of, has_infix, lowercase, strip_chars, stripped,
    to_lowercase, trim, trimmed, string_of,
};

verus! {

/// A program started at logon: from a Run key of the registry or from the
/// user's Startup folder.
#[derive(Debug, Clone)]
pub struct StartupItem {
    pub name: String,
    pub command: String,
    pub location: String,
    pub enabled: bool,
    pub key_path: Option<String>,
}

/// The startup programs on systems without a registry: none.
pub fn fetch_startup_items() -> (items: Vec<StartupItem>)
    ensures
        items.len() == 0,
{
    Vec::new()
}

/// What removing a startup program answers on systems without a registry.
pub open spec fn unsupported_removal() -> Seq<char> {
    "Startup management is only supported on Windows"@
}

/// Removing a startup program is refused on systems without a registry.
pub fn remove_startup_item(item: &StartupItem) -> (r: Result<(), String>)
    ensures
        r is Err,
        r matches Err(msg) ==> msg@ == unsupported_removal(),
{
    Err(String::from_str("Startup management is only supported on Windows"))
}

/// Where a startup program is registered.
#[derive(Debug, Clone, Copy, PartialEq, Eq, Structural)]
pub enum StartupSource {
    /// The current user's Run key.
    UserRegistry,
    /// The machine-wide Run key.
    MachineRegistry,
    /// The user's Startup folder.
    StartupFolder,
}

/// The location text shown for a source.
pub open spec fn source_location(source: StartupSource) -> Seq<char> {
    match source {
        StartupSource::UserRegistry => "Registry (HKCU)"@,
        StartupSource::MachineRegistry => "Registry (HKLM)"@,
        StartupSource::StartupFolder => "Startup Folder"@,
    }
}

/// The registry key a source is read from, if it is a registry source.
pub open spec fn source_key(source: StartupSource) -> Option<Seq<char>> {
    match source {
        StartupSource::UserRegistry => Some("HKCU\\Software\\Microsoft\\Windows\\CurrentVersion\\Run"@),
        StartupSource::MachineRegistry => Some("HKLM\\Software\\Microsoft\\Windows\\CurrentVersion\\Run"@),
        StartupSource::StartupFolder => None,
    }
}

/// The entry for a program found under `source`: enabled, with the location
/// text and registry key of its source.
pub fn startup_entry(name: String, command: String, source: StartupSource) -> (item: StartupItem)
    ensures
        item.name@ == name@,
        item.command@ == command@,
        item.enabled,
        item.location@ == source_location(source),
        item.key_path matches Some(k) ==> source_key(source) == Some(k@),
        item.key_path is None <==> source_key(source) is None,
{
    let (location, key_path) = match source {
        StartupSource::UserRegistry => (
            String::from_str("Registry (HKCU)"),
            Some(String::from_str("HKCU\\Software\\Microsoft\\Windows\\CurrentVersion\\Run")),
        ),
        StartupSource::MachineRegistry => (
            String::from_str("Registry (HKLM)"),
            Some(String::from_str("HKLM\\Software\\Microsoft\\Windows\\CurrentVersion\\Run")),
        ),
        StartupSource::StartupFolder => (String::from_str("Startup Folder"), None),
    };
    StartupItem { name, command, location, enabled: true, key_path }
}

/// How a startup program is removed, by its location text.
#[derive(Debug, Clone, Copy, PartialEq, Eq, Structural)]
pub enum RemovalRoute {
    UserRegistry,
    MachineRegistry,
    StartupFolder,
    Unknown,
}

/// The route for a location: the first of "HKCU", "HKLM" and "Startup Folder"
/// that the location contains.
pub open spec fn removal_route_of(location: Seq<char>) -> RemovalRoute {
    if has_infix(location, "HKCU"@) {
        RemovalRoute::UserRegistry
    } else if has_infix(location, "HKLM"@) {
        RemovalRoute::MachineRegistry
    } else if has_infix(location, "Startup Folder"@) {
        RemovalRoute::StartupFolder
    } else {
        RemovalRoute::Unknown
    }
}

/// Decides how `item` is to be removed.
pub fn removal_route(item: &StartupItem) -> (route: RemovalRoute)
    ensures
        route == removal_route_of(item.location@),
{
    let loc = chars_of(item.location.as_str());
    if contains_chars(&loc, &chars_of("HKCU")) {
        RemovalRoute::UserRegistry
    } else if contains_chars(&loc, &chars_of("HKLM")) {
        RemovalRoute::MachineRegistry
    } else if contains_chars(&loc, &chars_of("Startup Folder")) {
        RemovalRoute::StartupFolder
    } else {
        RemovalRoute::Unknown
    }
}

/// The message shown when removing `item` by `route` failed.
pub open spec fn removal_failure_text(name: Seq<char>, location: Seq<char>, route: RemovalRoute) -> Seq<char> {
    match route {
        RemovalRoute::UserRegistry => "Failed to delete registry key '"@ + name + "' from HKCU Run"@,
        RemovalRoute::MachineRegistry => "Failed to delete registry key '"@ + name + "' from HKLM Run (access denied)"@,
        RemovalRoute::StartupFolder => "Failed to remove file '"@ + name + "' from Startup folder"@,
        RemovalRoute::Unknown => "Unknown startup item location: "@ + location,
    }
}

/// The message shown when removing `item` failed.
pub fn removal_failure(item: &StartupItem) -> (msg: String)
    ensures
        msg@ == removal_failure_text(item.name@, item.location@, removal_route_of(item.location@)),
{
    let route = removal_route(item);
    match route {
        RemovalRoute::UserRegistry => {
            let mut m = String::from_str("Failed to delete registry key '");
            m.append(item.name.as_str());
            m.append("' from HKCU Run");
            m
        },
        RemovalRoute::MachineRegistry => {
            let mut m = String::from_str("Failed to delete registry key '");
            m.append(item.name.as_str());
            m.append("' from HKLM Run (access denied)");
            m
        },
        RemovalRoute::StartupFolder => {
            let mut m = String::from_str("Failed to remove file '");
            m.append(item.name.as_str());
            m.append("' from Startup folder");
            m
        },
        RemovalRoute::Unknown => {
            let mut m = String::from_str("Unknown startup item location: ");
            m.append(item.location.as_str());
            m
        },
    }
}

/// The file a startup command launches: the command trimmed and unquoted,
/// then its first word (or the whole of it when it has none), unquoted.
pub open spec fn launch_target_of(command: Seq<char>) -> Seq<char> {
    let clean = stripped(trimmed(command), '"');
    let part = match first_word(clean) {
        Some(w) => w,
        None => clean,
    };
    stripped(part, '"')
}

/// The file that "open file location" reveals for a startup command.
pub fn launch_target(command: &str) -> (path: String)
    ensures
        path@ == launch_target_of(command@),
{
    let t = trim(command);
    let clean = strip_chars(&chars_of(t.as_str()), '"');
    let part = match first_word_of(&clean) {
        Some(w) => w,
        None => clean,
    };
    let p = strip_chars(&part, '"');
    string_of(&p, 0, p.len())
}

/// Whether a startup entry matches a normalized search text: every entry
/// matches an empty one; otherwise it must occur in the lowered name,
/// command or location.
pub open spec fn startup_matches(item: StartupItem, q: Seq<char>) -> bool {
    q.len() == 0 || has_infix(lowercase(item.name@), q) || has_infix(lowercase(item.command@), q)
        || has_infix(lowercase(item.location@), q)
}

/// The positions of the startup entries that match the search text (trimmed
/// and lowered), in order.
pub fn filter_startup_items(items: &Vec<StartupItem>, query: &str) -> (shown: Vec<usize>)
    ensures
        forall|a: int, b: int| 0 <= a < b < shown.len() ==> shown@[a] < shown@[b],
        forall|a: int| 0 <= a < shown.len() ==> #[trigger] shown@[a] < items.len(),
        forall|i: int| 0 <= i < items.len() ==> (shown@.contains(i as usize) <==> startup_matches(items@[i], lowercase(trimmed(query@)))),
{
    let t = trim(query);
    let lq = to_lowercase(t.as_str());
    let q = chars_of(lq.as_str());
    let mut shown: Vec<usize> = Vec::new();
    let mut i: usize = 0;
    while i < items.len()
        invariant
            i <= items.len(),
            q@ == lowercase(trimmed(query@)),
            forall|a: int, b: int| 0 <= a < b < shown.len() ==> shown@[a] < shown@[b],
            forall|a: int| 0 <= a < shown.len() ==> #[trigger] shown@[a] < i,
            forall|k: int| 0 <= k < items.len() ==> (shown@.contains(k as usize) <==> (k < i && startup_matches(items@[k], q@))),
        decreases items.len() - i,
    {
        let item = &items[i];
        let hit = q.len() == 0
            || contains_chars(&chars_of(to_lowercase(item.name.as_str()).as_str()), &q)
            || contains_chars(&chars_of(to_lowercase(item.command.as_str()).as_str()), &q)
            || contains_chars(&chars_of(to_lowercase(item.location.as_str()).as_str()), &q);
        let ghost before = shown@;
        if hit {
            shown.push(i);
        }
        proof {
            assert forall|k: int| 0 <= k < items.len() implies (shown@.contains(k as usize) <==> (k < i + 1 && startup_matches(items@[k], q@))) by {
                if shown@.contains(k as usize) && k != i {
                    let a = choose|a: int| 0 <= a < shown@.len() && shown@[a] == k as usize;
                    if hit && a == shown@.len() - 1 {
                    } else {
                        assert(before[a] == k as usize);
                    }
                }
                if k < i && startup_matches(items@[k], q@) {
                    let a = choose|a: int| 0 <= a < before.len() && before[a] == k as usize;
                    assert(shown@[a] == k as usize);
                }
                if k == i && hit {
                    assert(shown@[shown@.len() - 1] == k as usize);
                }
                if k == i && !hit && shown@.contains(k as usize) {
                    let a = choose|a: int| 0 <= a < shown@.len() && shown@[a] == k as usize;
                    assert(before[a] < i);
                }
            }
        }
        i = i + 1;
    }
    shown
}

/// The startup search shows exactly the entries that match the search text
/// trimmed and lowered: all of them when it is blank, otherwise those whose
/// lowered name, lowered command or lowered location contains it.
pub proof fn lemma_startup_search(items: Seq<StartupItem>, query: Seq<char>, shown: Seq<usize>, i: int)
    requires
        forall|j: int| 0 <= j < items.len() ==> (shown.contains(j as usize) <==> startup_matches(items[j], lowercase(trimmed(query)))),
        0 <= i < items.len(),
    ensures
        ({
            let q = lowercase(trimmed(query));
            shown.contains(i as usize) <==> (q.len() == 0 || has_infix(lowercase(items[i].name@), q) || has_infix(
                lowercase(items[i].command@),
                q,
            ) || has_infix(lowercase(items[i].location@), q))
        }),
{
}

} // verus!
