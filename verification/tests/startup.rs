use task_explorer::startup::{
    fetch_startup_items, filter_startup_items, launch_target, remove_startup_item, removal_failure, removal_route,
    startup_entry, RemovalRoute, StartupItem, StartupSource,
};

fn entry(name: &str, command: &str, source: StartupSource) -> StartupItem {
    startup_entry(name.to_string(), command.to_string(), source)
}

#[test]
fn no_startup_items_without_a_registry() {
    assert!(fetch_startup_items().is_empty());
}

#[test]
fn removal_is_refused_without_a_registry() {
    let item = entry("Foo", "foo.exe", StartupSource::UserRegistry);
    assert_eq!(remove_startup_item(&item), Err("Startup management is only supported on Windows".to_string()));
}

#[test]
fn entries_carry_their_source() {
    let a = entry("Steam", "\"C:\\Steam\\steam.exe\" -silent", StartupSource::UserRegistry);
    assert_eq!(a.location, "Registry (HKCU)");
    assert_eq!(a.key_path.as_deref(), Some("HKCU\\Software\\Microsoft\\Windows\\CurrentVersion\\Run"));
    assert!(a.enabled);
    let b = entry("Tool", "x", StartupSource::MachineRegistry);
    assert_eq!(b.location, "Registry (HKLM)");
    assert_eq!(b.key_path.as_deref(), Some("HKLM\\Software\\Microsoft\\Windows\\CurrentVersion\\Run"));
    let c = entry("notes.lnk", "C:\\Startup\\notes.lnk", StartupSource::StartupFolder);
    assert_eq!(c.location, "Startup Folder");
    assert_eq!(c.key_path, None);
}

#[test]
fn removal_routes_and_failures() {
    let a = entry("Steam", "s", StartupSource::UserRegistry);
    let b = entry("Tool", "t", StartupSource::MachineRegistry);
    let c = entry("n.lnk", "n", StartupSource::StartupFolder);
    let mut d = entry("Odd", "o", StartupSource::StartupFolder);
    d.location = "Scheduler".to_string();
    assert_eq!(removal_route(&a), RemovalRoute::UserRegistry);
    assert_eq!(removal_route(&b), RemovalRoute::MachineRegistry);
    assert_eq!(removal_route(&c), RemovalRoute::StartupFolder);
    assert_eq!(removal_route(&d), RemovalRoute::Unknown);
    assert_eq!(removal_failure(&a), "Failed to delete registry key 'Steam' from HKCU Run");
    assert_eq!(removal_failure(&b), "Failed to delete registry key 'Tool' from HKLM Run (access denied)");
    assert_eq!(removal_failure(&c), "Failed to remove file 'n.lnk' from Startup folder");
    assert_eq!(removal_failure(&d), "Unknown startup item location: Scheduler");
}

#[test]
fn launch_targets() {
    assert_eq!(launch_target("  \"C:\\Program Files\\App\\app.exe\" --min "), "C:\\Program");
    assert_eq!(launch_target("C:\\tools\\run.exe -x"), "C:\\tools\\run.exe");
    assert_eq!(launch_target("\"C:\\a.exe\""), "C:\\a.exe");
    assert_eq!(launch_target("   "), "");
    assert_eq!(launch_target("\"\""), "");
}

#[test]
fn startup_search() {
    let items = vec![
        entry("Steam", "steam.exe", StartupSource::UserRegistry),
        entry("Notes", "notes.exe", StartupSource::StartupFolder),
        entry("Driver", "drv.exe", StartupSource::MachineRegistry),
    ];
    assert_eq!(filter_startup_items(&items, ""), vec![0, 1, 2]);
    assert_eq!(filter_startup_items(&items, " STEAM "), vec![0]);
    assert_eq!(filter_startup_items(&items, "hklm"), vec![2]);
    assert_eq!(filter_startup_items(&items, "folder"), vec![1]);
    assert_eq!(filter_startup_items(&items, ".exe"), vec![0, 1, 2]);
    assert_eq!(filter_startup_items(&items, "nothing"), Vec::<usize>::new());
}
