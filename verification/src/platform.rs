//! The operating system: where data is kept, and what a watcher reports.

use crate::path::{joined, MediaPath};
use crate::traits::{FsEvent, ThermalLevel};
use vstd::prelude::*;
use vstd::utf8::encode_utf8;

verus! {

/// Which end of a renaming a watcher reports.
#[derive(Clone, Copy, Debug, PartialEq, Eq, Structural)]
pub enum RenameMode {
    Any,
    /// The new path.
    To,
    /// The old path.
    From,
    /// The old path, then the new one.
    Both,
    Other,
}

/// What a watcher reports of some paths.
#[derive(Clone, Copy, Debug, PartialEq, Eq, Structural)]
pub enum WatchKind {
    Any,
    Access,
    Create,
    /// A change of contents or metadata, or of an unknown kind.
    Modify,
    /// A renaming.
    Rename(RenameMode),
    Remove,
    Other,
}

/// A report of a watcher.
#[derive(Clone, Debug, PartialEq, Eq)]
pub struct WatchEvent {
    pub kind: WatchKind,
    pub paths: Vec<MediaPath>,
}

/// What becomes of each path of a report.
#[derive(Clone, Copy, Debug, PartialEq, Eq, Structural)]
pub enum Turn {
    Created,
    Modified,
    Removed,
}

/// Whether an event is a turn of a path.
pub open spec fn turns(event: FsEvent, turn: Turn, path: Seq<u8>) -> bool {
    match turn {
        Turn::Created => event matches FsEvent::Created(p) && p@ == path,
        Turn::Modified => event matches FsEvent::Modified(p) && p@ == path,
        Turn::Removed => event matches FsEvent::Removed(p) && p@ == path,
    }
}

/// What becomes of every path of a report, where the same becomes of all.
pub open spec fn turn_of(kind: WatchKind) -> Option<Turn> {
    match kind {
        WatchKind::Create | WatchKind::Rename(RenameMode::To) => Some(Turn::Created),
        WatchKind::Remove | WatchKind::Rename(RenameMode::From) => Some(Turn::Removed),
        WatchKind::Modify | WatchKind::Rename(_) | WatchKind::Any | WatchKind::Other => Some(
            Turn::Modified,
        ),
        WatchKind::Access => None,
    }
}

fn turned(turn: Turn, path: &MediaPath) -> (event: FsEvent)
    ensures
        turns(event, turn, path@),
{
    match turn {
        Turn::Created => FsEvent::Created(path.clone()),
        Turn::Modified => FsEvent::Modified(path.clone()),
        Turn::Removed => FsEvent::Removed(path.clone()),
    }
}

fn turned_all(turn: Turn, paths: &Vec<MediaPath>) -> (events: Vec<FsEvent>)
    ensures
        events@.len() == paths@.len(),
        forall|i: int| 0 <= i < paths@.len() ==> turns(#[trigger] events@[i], turn, paths@[i]@),
{
    let mut events: Vec<FsEvent> = Vec::new();
    let mut i: usize = 0;
    while i < paths.len()
        invariant
            i <= paths@.len(),
            events@.len() == i,
            forall|k: int| 0 <= k < i ==> turns(#[trigger] events@[k], turn, paths@[k]@),
        decreases paths@.len() - i,
    {
        events.push(turned(turn, &paths[i]));
        i += 1;
    }
    events
}

/// What a report of a watcher means. There is no event for a renaming: the old
/// path is removed and then the new one is created, and the hash tells later
/// that it is the same file.
pub fn fs_events_from_notify_event(event: &WatchEvent) -> (events: Vec<FsEvent>)
    ensures
        event.kind == WatchKind::Rename(RenameMode::Both) && event.paths@.len() >= 2 ==> {
            &&& events@.len() == 2
            &&& turns(events@[0], Turn::Removed, event.paths@[0]@)
            &&& turns(events@[1], Turn::Created, event.paths@[1]@)
        },
        event.kind != WatchKind::Rename(RenameMode::Both) || event.paths@.len() < 2 ==> match turn_of(
            event.kind,
        ) {
            Some(turn) => {
                &&& events@.len() == event.paths@.len()
                &&& forall|i: int|
                    0 <= i < events@.len() ==> turns(
                        #[trigger] events@[i],
                        turn,
                        event.paths@[i]@,
                    )
            },
            None => events@.len() == 0,
        },
        event.kind == WatchKind::Create || event.kind == WatchKind::Rename(RenameMode::To) ==> {
            &&& events@.len() == event.paths@.len()
            &&& forall|i: int|
                0 <= i < events@.len() ==> (#[trigger] events@[i] matches FsEvent::Created(p) && p@
                    == event.paths@[i]@)
        },
        event.kind == WatchKind::Remove || event.kind == WatchKind::Rename(RenameMode::From) ==> {
            &&& events@.len() == event.paths@.len()
            &&& forall|i: int|
                0 <= i < events@.len() ==> (#[trigger] events@[i] matches FsEvent::Removed(p) && p@
                    == event.paths@[i]@)
        },
        event.kind == WatchKind::Modify || event.kind == WatchKind::Any || event.kind
            == WatchKind::Other || event.kind == WatchKind::Rename(RenameMode::Any) || event.kind
            == WatchKind::Rename(RenameMode::Other) || (event.kind == WatchKind::Rename(
            RenameMode::Both,
        ) && event.paths@.len() < 2) ==> {
            &&& events@.len() == event.paths@.len()
            &&& forall|i: int|
                0 <= i < events@.len() ==> (#[trigger] events@[i] matches FsEvent::Modified(p) && p@
                    == event.paths@[i]@)
        },
        event.kind == WatchKind::Rename(RenameMode::Both) && event.paths@.len() >= 2 ==> {
            &&& events@.len() == 2
            &&& events@[0] matches FsEvent::Removed(p) && p@ == event.paths@[0]@
            &&& events@[1] matches FsEvent::Created(q) && q@ == event.paths@[1]@
        },
        event.kind == WatchKind::Access ==> events@.len() == 0,
{
    match event.kind {
        WatchKind::Create => turned_all(Turn::Created, &event.paths),
        WatchKind::Rename(RenameMode::From) => turned_all(Turn::Removed, &event.paths),
        WatchKind::Rename(RenameMode::To) => turned_all(Turn::Created, &event.paths),
        WatchKind::Rename(RenameMode::Both) if event.paths.len() >= 2 => {
            let mut events: Vec<FsEvent> = Vec::new();
            events.push(turned(Turn::Removed, &event.paths[0]));
            events.push(turned(Turn::Created, &event.paths[1]));
            events
        },
        WatchKind::Modify | WatchKind::Rename(_) => turned_all(Turn::Modified, &event.paths),
        WatchKind::Remove => turned_all(Turn::Removed, &event.paths),
        WatchKind::Any | WatchKind::Other => turned_all(Turn::Modified, &event.paths),
        WatchKind::Access => Vec::new(),
    }
}

/// The path of the folder for data below a home folder, or below the current
/// one where there is no home.
pub open spec fn data_path(home: Option<Seq<u8>>) -> Seq<u8> {
    joined(
        match home {
            Some(h) => h,
            None => encode_utf8("."@),
        },
        encode_utf8(".lume"@),
    )
}

/// The platform: macOS.
#[derive(Clone, Copy, Debug, Default, PartialEq, Eq, Structural)]
pub struct MacPlatform {}

impl MacPlatform {
    /// The platform.
    pub fn new() -> (platform: MacPlatform)
        ensures
            platform == (MacPlatform {  }),
    {
        MacPlatform {  }
    }

    /// Whether the machine runs on mains power. It is taken to do so, and
    /// indexing is never paused.
    pub fn on_ac_power(&self) -> (mains: bool)
        ensures
            mains,
    {
        true
    }

    /// How hot the machine runs. It is taken to be cool.
    pub fn thermal_pressure(&self) -> (level: ThermalLevel)
        ensures
            level == ThermalLevel::Nominal,
    {
        ThermalLevel::Nominal
    }

    /// Where the application keeps its data, given the home folder.
    pub fn data_dir(&self, home: Option<MediaPath>) -> (path: MediaPath)
        ensures
            path@ == data_path(
                match home {
                    Some(h) => Some(h@),
                    None => None,
                },
            ),
            home matches Some(h) ==> path@ == joined(h@, encode_utf8(".lume"@)),
            home is None ==> path@ == joined(encode_utf8("."@), encode_utf8(".lume"@)),
    {
        match home {
            Some(h) => h.join(".lume"),
            None => MediaPath::from_text(".").join(".lume"),
        }
    }
}

/// The message about a watcher that failed.
pub fn watcher_error(why: &str) -> (message: String)
    ensures
        message@ == "platform watcher error: "@ + why@,
{
    let mut message: String = "platform watcher error: ".to_string();
    message.append(why);
    message
}

/// A renaming comes to the same whether both its ends are reported at once or one after
/// the other: the old path is removed, then the new one is created.
pub proof fn lemma_renaming_in_two_reports(
    old_path: Seq<u8>,
    new_path: Seq<u8>,
    first: FsEvent,
    second: FsEvent,
)
    requires
        turn_of(WatchKind::Rename(RenameMode::From)) matches Some(turn) && turns(
            first,
            turn,
            old_path,
        ),
        turn_of(WatchKind::Rename(RenameMode::To)) matches Some(turn) && turns(
            second,
            turn,
            new_path,
        ),
    ensures
        first matches FsEvent::Removed(p) && p@ == old_path,
        second matches FsEvent::Created(p) && p@ == new_path,
{
}

}
