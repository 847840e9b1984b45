use vstd::prelude::*;

verus! {

/// The identity of a record version (the hash of an action or of an
/// entry), as raw bytes.
#[derive(Clone, Debug, PartialEq, Eq)]
pub struct Identity {
    pub bytes: Vec<u8>,
}

/// What the store knows of a record's versions.
#[derive(Clone, Debug)]
pub struct EntryHistory {
    /// False once the record has been deleted.
    pub live: bool,
    /// When the first version was written, in microseconds.
    pub created_at: i64,
    /// When each update was written, in microseconds, in the order in which
    /// the store lists the updates.
    pub update_times: Vec<i64>,
}

/// Which version of a record is the latest.
#[derive(Clone, Copy, Debug, PartialEq, Eq, Structural)]
pub enum LatestSource {
    /// The first version: the record was never updated.
    FirstVersion,
    /// The update at this position of `EntryHistory::update_times`.
    Update(usize),
}

/// The latest version of a record, and the times that go with it.
#[derive(Clone, Copy, Debug, PartialEq, Eq, Structural)]
pub struct LatestVersion {
    pub source: LatestSource,
    /// When the first version was written.
    pub created_at: i64,
    /// When the latest version was written.
    pub updated_at: i64,
}

/// The update at `i` is the latest: none was written later, and of those
/// written at the same time it is the last listed.
pub open spec fn is_latest_update(times: Seq<i64>, i: int) -> bool {
    &&& 0 <= i < times.len()
    &&& forall|j: int| 0 <= j < times.len() ==> #[trigger] times[j] <= times[i]
    &&& forall|j: int| i < j < times.len() ==> #[trigger] times[j] < times[i]
}

/// Picks the latest version of a record: none for a deleted record, the
/// first version when it was never updated, else the update written last.
/// The creation time is always that of the first version.
pub fn latest_version(history: &EntryHistory) -> (r: Option<LatestVersion>)
    ensures
        r is Some <==> history.live,
        r matches Some(v) ==> v.created_at == history.created_at,
        r matches Some(v) ==> (history.update_times@.len() == 0 <==> v.source
            == LatestSource::FirstVersion),
        r matches Some(v) ==> (history.update_times@.len() == 0 ==> v.updated_at == v.created_at),
        r matches Some(v) ==> (v.source matches LatestSource::Update(i) ==> is_latest_update(
            history.update_times@,
            i as int,
        ) && v.updated_at == history.update_times@[i as int]),
{
    if !history.live {
        return None;
    }
    let times = &history.update_times;
    let n = times.len();
    if n == 0 {
        return Some(
            LatestVersion {
                source: LatestSource::FirstVersion,
                created_at: history.created_at,
                updated_at: history.created_at,
            },
        );
    }
    let mut best: usize = 0;
    let mut i: usize = 1;
    while i < n
        invariant
            n == times@.len(),
            best < i <= n,
            forall|j: int| 0 <= j < i ==> #[trigger] times@[j] <= times@[best as int],
            forall|j: int| best < j < i ==> #[trigger] times@[j] < times@[best as int],
        decreases n - i,
    {
        if times[i] >= times[best] {
            best = i;
        }
        i = i + 1;
    }
    Some(
        LatestVersion {
            source: LatestSource::Update(best),
            created_at: history.created_at,
            updated_at: times[best],
        },
    )
}

/// The action that wrote a version of a record.
#[derive(Clone, Debug, PartialEq, Eq)]
pub enum VersionAction {
    /// The version was created by the action with this identity.
    Create { address: Identity },
    /// The version updates the record first created by `creation`.
    Update { creation: Identity },
}

/// The identity that a record keeps across its updates: that of the action
/// that created it.
pub open spec fn stable_identity(action: VersionAction) -> Identity {
    match action {
        VersionAction::Create { address } => address,
        VersionAction::Update { creation } => creation,
    }
}

/// A version of a record as read from the store.
pub struct FetchedVersion<T> {
    /// The payload, or none when it is not of the expected type.
    pub entry: Option<T>,
    pub action: VersionAction,
    /// The identity of the payload's content.
    pub entry_hash: Identity,
}

/// A resolved record as handed to callers.
#[derive(Clone, Debug, PartialEq, Eq)]
pub struct WireElement<T> {
    /// The identity of the action that created the record; the same for
    /// every version.
    pub action_hash: Identity,
    pub entry_hash: Identity,
    pub entry: T,
    pub created_at: i64,
    pub updated_at: i64,
}

/// Builds the resolved record from its latest version, once that version has
/// been read. A version that could not be read, or whose payload is not of the
/// expected type, gives none. The record keeps the identity of its creation,
/// whatever update is the latest.
pub fn get_latest_for_entry<T>(version: LatestVersion, fetched: Option<FetchedVersion<T>>) -> (r:
    Option<WireElement<T>>)
    ensures
        r is Some <==> (fetched matches Some(f) && f.entry is Some),
        r matches Some(w) ==> {
            let f = fetched->Some_0;
            &&& w.entry == f.entry->Some_0
            &&& w.action_hash == stable_identity(f.action)
            &&& w.entry_hash == f.entry_hash
            &&& w.created_at == version.created_at
            &&& w.updated_at == version.updated_at
        },
{
    match fetched {
        None => None,
        Some(f) => {
            let action_hash = match f.action {
                VersionAction::Create { address } => address,
                VersionAction::Update { creation } => creation,
            };
            match f.entry {
                None => None,
                Some(entry) => Some(
                    WireElement {
                        action_hash,
                        entry_hash: f.entry_hash,
                        entry,
                        created_at: version.created_at,
                        updated_at: version.updated_at,
                    },
                ),
            }
        },
    }
}

} // verus!
