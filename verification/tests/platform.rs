use lume::path::MediaPath;
use lume::platform::{
    fs_events_from_notify_event, watcher_error, MacPlatform, RenameMode, WatchEvent, WatchKind,
};
use lume::traits::{FsEvent, ThermalLevel};

fn event(kind: WatchKind, paths: &[&str]) -> WatchEvent {
    WatchEvent { kind, paths: paths.iter().map(|p| MediaPath::from_text(p)).collect() }
}

#[test]
fn maps_notify_create_modify_remove_events() {
    let path = MediaPath::from_text("/tmp/lume/image.jpg");

    let created =
        fs_events_from_notify_event(&event(WatchKind::Create, &["/tmp/lume/image.jpg"]));
    assert_eq!(created, vec![FsEvent::Created(path.clone())]);

    let modified =
        fs_events_from_notify_event(&event(WatchKind::Modify, &["/tmp/lume/image.jpg"]));
    assert_eq!(modified, vec![FsEvent::Modified(path.clone())]);

    let removed =
        fs_events_from_notify_event(&event(WatchKind::Remove, &["/tmp/lume/image.jpg"]));
    assert_eq!(removed, vec![FsEvent::Removed(path)]);
}

#[test]
fn maps_rename_pair_as_remove_then_create() {
    let events = fs_events_from_notify_event(&event(
        WatchKind::Rename(RenameMode::Both),
        &["/tmp/lume/old.jpg", "/tmp/lume/new.jpg"],
    ));
    assert_eq!(
        events,
        vec![
            FsEvent::Removed(MediaPath::from_text("/tmp/lume/old.jpg")),
            FsEvent::Created(MediaPath::from_text("/tmp/lume/new.jpg")),
        ]
    );
}

#[test]
fn maps_the_other_reports() {
    let a = MediaPath::from_text("/a");
    let b = MediaPath::from_text("/b");
    let both = |kind| fs_events_from_notify_event(&event(kind, &["/a", "/b"]));
    assert_eq!(
        both(WatchKind::Rename(RenameMode::From)),
        vec![FsEvent::Removed(a.clone()), FsEvent::Removed(b.clone())]
    );
    assert_eq!(
        both(WatchKind::Rename(RenameMode::To)),
        vec![FsEvent::Created(a.clone()), FsEvent::Created(b.clone())]
    );
    let modified = vec![FsEvent::Modified(a.clone()), FsEvent::Modified(b)];
    assert_eq!(both(WatchKind::Rename(RenameMode::Any)), modified);
    assert_eq!(both(WatchKind::Any), modified);
    assert_eq!(both(WatchKind::Other), modified);
    assert!(both(WatchKind::Access).is_empty());
    assert_eq!(
        fs_events_from_notify_event(&event(WatchKind::Rename(RenameMode::Both), &["/a"])),
        vec![FsEvent::Modified(a)]
    );
}

#[test]
fn data_dir_uses_home_lume_directory() {
    let platform = MacPlatform::new();
    let home = MediaPath::from_text("/tmp/lume-home");
    assert_eq!(
        platform.data_dir(Some(home)),
        MediaPath::from_text("/tmp/lume-home/.lume")
    );
    assert_eq!(platform.data_dir(None), MediaPath::from_text("./.lume"));
}

#[test]
fn conservative_power_and_thermal_defaults_are_available() {
    let platform = MacPlatform::new();
    assert!(platform.on_ac_power());
    assert_eq!(platform.thermal_pressure(), ThermalLevel::Nominal);
}

#[test]
fn a_failed_watcher_says_why() {
    assert_eq!(watcher_error("no such path"), "platform watcher error: no such path");
}
