//! The engine's result and progress types, handed to the UI layer.
use vstd::prelude::*;

verus! {

/// How far a trip has got — drives the dashboard's next-step hint. Reviewing is the
/// only step that changes what a trip is, so the states track review and stop
/// there; cutting is an export and never advances a trip.
#[derive(Clone, Copy, PartialEq, Eq, Debug, Structural)]
pub enum TripState {
    /// No local footage.
    Empty,
    /// Footage imported, not reviewed.
    Imported,
    /// Reviewed: has marks, ready to edit or cut.
    Marked,
    /// Raw freed locally, kept in the cloud.
    Archived,
}

pub open spec fn spec_next(s: TripState) -> Seq<char> {
    match s {
        TripState::Empty => "import"@,
        TripState::Imported => "review"@,
        TripState::Marked => "edit"@,
        TripState::Archived => "restore"@,
    }
}

impl TripState {
    /// One-word next action the UI turns into a button.
    pub fn next(self) -> (r: &'static str)
        ensures
            r@ == spec_next(self),
    {
        match self {
            TripState::Empty => "import",
            TripState::Imported => "review",
            TripState::Marked => "edit",
            TripState::Archived => "restore",
        }
    }
}

/// Whether your masters in a trip are up in the shared cloud. `Unknown` until a
/// verified push records it, so the UI never implies safety it can't confirm.
#[derive(Clone, Copy, PartialEq, Eq, Debug, Structural)]
pub enum Share {
    Shared,
    Local,
    Unknown,
}

/// A pointer to one clip: path plus the stable content id.
#[derive(Clone, Debug)]
pub struct ClipRef {
    pub path: String,
    pub fileid: String,
}

/// Compact per-trip sync counts embedded in `Trip` for the dashboard chip.
#[derive(Clone, Debug)]
pub struct SyncBrief {
    pub to_push: usize,
    pub to_pull: usize,
    pub deleted_local: usize,
    pub deleted_upstream: usize,
    pub cloud_only: usize,
    pub conflicts: usize,
    pub pending: usize,
    pub last_cloud_check: Option<i64>,
    pub in_sync: bool,
}

#[derive(Clone, Debug)]
pub struct Trip {
    pub name: String,
    pub path: String,
    pub masters: usize,
    pub marks: usize,
    pub clips: usize,
    pub bytes: u64,
    pub from: Option<String>,
    pub to: Option<String>,
    pub start: Option<i64>,
    pub end: Option<i64>,
    pub state: TripState,
    pub next: String,
    pub cover: Option<ClipRef>,
    pub share: Share,
    pub mine: usize,
    pub pulled: usize,
    pub contributors: Vec<String>,
    pub sync: SyncBrief,
    pub shared_with: Option<usize>,
}

/// One clip in a sync diff, for the panel's rows.
#[derive(Clone, Debug)]
pub struct SyncItem {
    /// Cloud-relative path `person/camera/base`.
    pub rel: String,
    /// Owning person (the first segment of `rel`).
    pub person: String,
    /// Basename, for display.
    pub name: String,
    pub bytes: u64,
    /// True when the clip is under your own folder.
    pub mine: bool,
}

/// The full sync picture for one trip: every drift bucket with its clips.
#[derive(Clone, Debug)]
pub struct TripSync {
    pub trip: String,
    pub to_push: Vec<SyncItem>,
    pub to_pull: Vec<SyncItem>,
    pub deleted_local: Vec<SyncItem>,
    pub deleted_upstream: Vec<SyncItem>,
    pub cloud_only: Vec<SyncItem>,
    pub conflicts: Vec<SyncItem>,
    pub pending: usize,
    pub last_cloud_check: Option<i64>,
    pub offline: bool,
    pub in_sync: bool,
}

/// Which reconcile actions the user chose in the panel.
#[derive(Clone, Copy, Debug)]
pub struct SyncActions {
    pub push: bool,
    pub pull: bool,
    pub push_deletions: bool,
    pub restore_cloud: bool,
}

/// Which leg of a reconcile is running.
#[derive(Clone, Copy, PartialEq, Eq, Debug, Structural)]
pub enum SyncPhase {
    Replay,
    Check,
    Push,
    Pull,
    Restore,
    Delete,
}

/// Streamed while reconciling.
#[derive(Clone, Debug)]
pub struct SyncProgress {
    pub phase: SyncPhase,
    pub file: String,
    pub done: u64,
    pub total: u64,
    pub trip: String,
    pub trip_index: u32,
    pub trip_count: u32,
}

/// Summary handed back once a reconcile finishes.
#[derive(Clone, Debug)]
pub struct SyncResult {
    pub trip: String,
    pub pushed: usize,
    pub pulled: usize,
    pub restored: usize,
    pub deleted: usize,
    pub replayed: usize,
    pub still_pending: usize,
    pub in_sync: bool,
}

/// One place a clip lives — a `(trip, rel)` location on disk, in the cloud, or both.
#[derive(Clone, Debug)]
pub struct DupCopy {
    pub trip: String,
    pub person: String,
    pub rel: String,
    pub name: String,
    pub bytes: u64,
    pub local: bool,
    pub in_cloud: bool,
    pub mine: bool,
    pub path: Option<String>,
}

/// Copies that are the same clip (same basename + byte size) in more than one place.
#[derive(Clone, Debug)]
pub struct DupGroup {
    pub key: String,
    pub name: String,
    pub bytes: u64,
    pub copies: Vec<DupCopy>,
    pub reclaimable: u64,
    pub suggested_keep: usize,
}

/// The result of a whole-library duplicate scan.
#[derive(Clone, Debug)]
pub struct DupReport {
    pub groups: Vec<DupGroup>,
    pub groups_count: usize,
    pub total_reclaimable: u64,
    pub scanned_local: usize,
    pub scanned_cloud: usize,
    pub offline: bool,
}

/// One clip location, sent back from the panel to keep or prune.
#[derive(Clone, Debug)]
pub struct DupLoc {
    pub trip: String,
    pub rel: String,
    pub local: bool,
    pub in_cloud: bool,
    pub bytes: u64,
}

/// One group's resolution: keep `keep`, prune every copy in `remove`.
#[derive(Clone, Debug)]
pub struct DupResolution {
    pub keep: DupLoc,
    pub remove: Vec<DupLoc>,
}

/// Streamed while pruning duplicates.
#[derive(Clone, Debug)]
pub struct DupProgress {
    pub file: String,
    pub done: u64,
    pub total: u64,
}

/// Outcome of a prune.
#[derive(Clone, Debug)]
pub struct DupResolveResult {
    pub removed_local: usize,
    pub removed_cloud: usize,
    pub kept_cloud: usize,
    pub freed: u64,
    pub groups: usize,
    pub skipped: usize,
    pub cloud_ok: bool,
    pub offline: bool,
}

/// One capture session detected on a card.
#[derive(Clone, Debug)]
pub struct Session {
    pub index: usize,
    pub start: i64,
    pub end: i64,
    pub captures: usize,
    pub photos: usize,
    pub bytes: u64,
    pub owners: Vec<String>,
    pub imported: bool,
    pub new_captures: usize,
    pub discarded: usize,
    pub strip: Vec<ClipRef>,
    pub safe: bool,
}

#[derive(Clone, Debug)]
pub struct CardInfo {
    pub roots: Vec<String>,
    pub captures: usize,
    pub bytes: u64,
    pub photos: usize,
    pub sessions: Vec<Session>,
}

/// Streamed during an import.
#[derive(Clone, Debug)]
pub struct ImportProgress {
    pub file: String,
    pub file_index: usize,
    pub file_count: usize,
    pub bytes_done: u64,
    pub bytes_total: u64,
    pub copied_bytes: u64,
    pub total_bytes: u64,
}

/// Summary handed back when an import finishes.
#[derive(Clone, Debug)]
pub struct ImportResult {
    pub trip: String,
    pub copied: usize,
    pub bytes: u64,
    pub skipped_here: usize,
    pub skipped_other: usize,
    pub photos: usize,
}

/// Outcome of relocating footage between trips.
#[derive(Clone, Debug)]
pub struct MoveResult {
    pub dest: String,
    pub moved: usize,
    pub clips: usize,
    pub marks: usize,
    pub skipped: usize,
    pub cloud_synced: bool,
}

/// Outcome of a permanent delete.
#[derive(Clone, Debug)]
pub struct DeleteResult {
    pub deleted: usize,
    pub bytes: u64,
    pub in_cloud: usize,
    pub kept_cloud: usize,
    pub cloud_ok: bool,
}

/// Which leg of a share push is running.
#[derive(Clone, Copy, PartialEq, Eq, Debug, Structural)]
pub enum PushPhase {
    Upload,
    Verify,
}

/// Streamed while pushing a trip to the shared cloud.
#[derive(Clone, Debug)]
pub struct PushProgress {
    pub phase: PushPhase,
    pub file: String,
    pub done: u64,
    pub total: u64,
    pub speed: u64,
    pub eta: i64,
}

/// Summary handed back once a push is verified and the trip is marked shared.
#[derive(Clone, Debug)]
pub struct PushResult {
    pub trip: String,
    pub files: usize,
    pub bytes: u64,
    pub uploaded: u64,
}

/// A person with footage in this trip's shared cloud that you could pull down.
#[derive(Clone, Debug)]
pub struct Contributor {
    pub person: String,
    pub clips: usize,
    pub bytes: u64,
    pub pulled: bool,
}

/// One Nextcloud user a trip's cloud folder is shared with.
#[derive(Clone, Debug)]
pub struct TripShare {
    pub id: String,
    pub user: String,
    pub display_name: String,
    pub permissions: u32,
}

/// A candidate share recipient from the Nextcloud sharees autocomplete.
#[derive(Clone, Debug)]
pub struct Sharee {
    pub user: String,
    pub display_name: String,
}

/// Streamed while pulling a person's footage down from the cloud.
#[derive(Clone, Debug)]
pub struct PullProgress {
    pub file: String,
    pub done: u64,
    pub total: u64,
}

/// Summary handed back once a person's footage has been pulled into a trip.
#[derive(Clone, Debug)]
pub struct PullResult {
    pub trip: String,
    pub person: String,
    pub files: usize,
    pub bytes: u64,
}

/// Summary handed back once cloud-only footage has been brought back down.
#[derive(Clone, Debug)]
pub struct RestoreResult {
    pub trip: String,
    pub files: usize,
    pub bytes: u64,
}

/// Which leg of a card reclaim is running.
#[derive(Clone, Copy, PartialEq, Eq, Debug, Structural)]
pub enum WipePhase {
    Match,
    Verify,
}

/// Streamed while planning a reclaim.
#[derive(Clone, Debug)]
pub struct WipeProgress {
    pub phase: WipePhase,
    pub done: u64,
    pub total: u64,
    pub label: String,
}

/// What a reclaim would delete.
#[derive(Clone, Debug)]
pub struct ReclaimPlan {
    pub files: Vec<String>,
    pub bytes: u64,
    pub trips: Vec<String>,
    pub not_imported: usize,
    pub not_verified: usize,
    pub offline: bool,
}

/// Outcome of committing a reclaim.
#[derive(Clone, Debug)]
pub struct ReclaimResult {
    pub deleted: usize,
    pub bytes: u64,
}

/// Streamed while archiving a trip.
#[derive(Clone, Debug)]
pub struct ArchiveProgress {
    pub done: u64,
    pub total: u64,
}

/// What archiving a trip would free.
#[derive(Clone, Debug)]
pub struct ArchivePlan {
    pub trip: String,
    pub masters: usize,
    pub bytes: u64,
}

/// Outcome of archiving: the local raw that was freed.
#[derive(Clone, Debug)]
pub struct ArchiveResult {
    pub trip: String,
    pub freed: u64,
    pub masters: usize,
}

/// A frame grabbed from a master and kept as a photo capture beside it.
#[derive(Clone, Debug)]
pub struct StillResult {
    pub path: String,
    pub name: String,
    pub fileid: String,
    pub bytes: u64,
}

/// Streamed while cutting a trip.
#[derive(Clone, Debug)]
pub struct CutProgress {
    pub file: String,
    pub index: usize,
    pub count: usize,
}

/// Summary of a cut.
#[derive(Clone, Debug)]
pub struct CutResult {
    pub trip: String,
    pub made: usize,
    pub skipped: usize,
    pub failed: usize,
    pub dir: String,
}

/// One clip in a review playlist.
#[derive(Clone, Debug)]
pub struct ReviewClip {
    pub master: String,
    pub play: String,
    pub name: String,
    pub fileid: String,
    pub captured: i64,
    pub bytes: u64,
    pub poster: String,
    pub proxied: bool,
    pub has_proxy: bool,
    pub stub: bool,
    pub photo: bool,
    pub person: String,
    pub mine: bool,
}

} // verus!
