//! Hard revocation by moving accepted state into a fresh namespace: when a
//! rotation may start, and which peers are invited into the new namespace.

use vstd::prelude::*;

use crate::domain::{copy_entries, entries_view, ActorId, NoteId, NoteRevision};
use crate::hlc::{clock_run, clock_stamps, lemma_clock_run_len, stamp, Hlc};
use crate::text::{insert_sorted, string_views, strictly_sorted};

verus! {

/// What a rotation produced.
#[derive(Clone, Debug, PartialEq, Eq)]
pub struct RotationResult {
    pub archived_workspace_id: String,
    pub workspace_id: String,
    pub writable_ticket: String,
    pub reinvite_endpoints: Vec<String>,
    pub copied_notes: usize,
    pub copied_assets: usize,
    pub copied_configs: usize,
}

/// What a rotation reads of a registered device.
#[derive(Clone, Debug, PartialEq, Eq)]
pub struct RotationDevice {
    pub author_id: ActorId,
    pub endpoint_id: String,
    pub retired: bool,
}

/// Why a rotation may not start.
#[derive(Clone, Debug, PartialEq, Eq)]
pub enum RotationRefusal {
    /// The source has this many diagnostics.
    SourceDiagnostics(usize),
    /// No device has been retired, so there is nothing to revoke.
    NoRetiredDevice,
    /// The author performing the rotation is itself retired.
    RotatingAuthorRetired,
}

/// Whether some device is retired.
pub open spec fn any_retired(devices: Seq<RotationDevice>) -> bool {
    exists|i: int| 0 <= i < devices.len() && (#[trigger] devices[i]).retired
}

/// Whether `author` is a retired device.
pub open spec fn author_retired(devices: Seq<RotationDevice>, author: Seq<char>) -> bool {
    exists|i: int|
        0 <= i < devices.len() && (#[trigger] devices[i]).retired && devices[i].author_id.0@
            == author
}

/// Which refusal, if any, a rotation meets.
pub open spec fn rotation_refusal(
    diagnostics: usize,
    devices: Seq<RotationDevice>,
    author: Seq<char>,
) -> Option<RotationRefusal> {
    if diagnostics != 0 {
        Some(RotationRefusal::SourceDiagnostics(diagnostics))
    } else if !any_retired(devices) {
        Some(RotationRefusal::NoRetiredDevice)
    } else if author_retired(devices, author) {
        Some(RotationRefusal::RotatingAuthorRetired)
    } else {
        None
    }
}

/// Decide whether a rotation may start: the source must be free of
/// diagnostics, some device must be retired, and the rotating author must
/// not be.
pub fn check_rotation(diagnostics: usize, devices: &Vec<RotationDevice>, author: &ActorId) -> (result: Result<(), RotationRefusal>)
    ensures
        match rotation_refusal(diagnostics, devices@, author.0@) {
            Some(refusal) => result == Err::<(), RotationRefusal>(refusal),
            None => result is Ok,
        },
{
    if diagnostics != 0 {
        return Err(RotationRefusal::SourceDiagnostics(diagnostics));
    }
    let mut retired = false;
    let mut author_is_retired = false;
    let mut i: usize = 0;
    while i < devices.len()
        invariant
            i <= devices@.len(),
            retired == exists|j: int| 0 <= j < i && (#[trigger] devices@[j]).retired,
            author_is_retired == exists|j: int|
                0 <= j < i && (#[trigger] devices@[j]).retired && devices@[j].author_id.0@
                    == author.0@,
        decreases devices@.len() - i,
    {
        if devices[i].retired {
            retired = true;
            if devices[i].author_id.0 == author.0 {
                author_is_retired = true;
            }
        }
        i = i + 1;
    }
    if !retired {
        return Err(RotationRefusal::NoRetiredDevice);
    }
    if author_is_retired {
        return Err(RotationRefusal::RotatingAuthorRetired);
    }
    Ok(())
}

/// The endpoints of the devices that are not retired.
pub open spec fn active_endpoints(devices: Seq<RotationDevice>) -> Set<Seq<char>> {
    Set::new(
        |e: Seq<char>|
            exists|i: int|
                0 <= i < devices.len() && !(#[trigger] devices[i]).retired
                    && devices[i].endpoint_id@ == e,
    )
}

/// The endpoints to invite into the rotated namespace: those of every device
/// that is not retired, in ascending order, each once.
pub fn reinvite_endpoints(devices: &Vec<RotationDevice>) -> (result: Vec<String>)
    ensures
        strictly_sorted(string_views(result@)),
        string_views(result@).to_set() == active_endpoints(devices@),
{
    let mut endpoints: Vec<String> = Vec::new();
    let mut i: usize = 0;
    proof {
        assert(string_views(endpoints@).to_set() =~= active_endpoints(devices@.take(0)));
    }
    while i < devices.len()
        invariant
            i <= devices@.len(),
            strictly_sorted(string_views(endpoints@)),
            string_views(endpoints@).to_set() == active_endpoints(devices@.take(i as int)),
        decreases devices@.len() - i,
    {
        let ghost before = devices@.take(i as int);
        let ghost after = devices@.take(i + 1);
        if !devices[i].retired {
            let endpoint = devices[i].endpoint_id.clone();
            insert_sorted(&mut endpoints, endpoint);
            proof {
                assert forall|e: Seq<char>| active_endpoints(after).contains(e) <==> active_endpoints(before).insert(devices@[i as int].endpoint_id@).contains(e) by {
                    if active_endpoints(after).contains(e) {
                        let j = choose|j: int|
                            0 <= j < after.len() && !(#[trigger] after[j]).retired
                                && after[j].endpoint_id@ == e;
                        if j < i {
                            assert(before[j] == after[j]);
                        }
                    }
                    if active_endpoints(before).contains(e) {
                        let j = choose|j: int|
                            0 <= j < before.len() && !(#[trigger] before[j]).retired
                                && before[j].endpoint_id@ == e;
                        assert(after[j] == before[j]);
                    }
                    if e == devices@[i as int].endpoint_id@ {
                        assert(after[i as int] == devices@[i as int]);
                    }
                }
                assert(active_endpoints(after) =~= active_endpoints(before).insert(
                    devices@[i as int].endpoint_id@,
                ));
            }
        } else {
            proof {
                assert forall|e: Seq<char>| active_endpoints(after).contains(e) <==> active_endpoints(before).contains(e) by {
                    if active_endpoints(after).contains(e) {
                        let j = choose|j: int|
                            0 <= j < after.len() && !(#[trigger] after[j]).retired
                                && after[j].endpoint_id@ == e;
                        if j < i {
                            assert(before[j] == after[j]);
                        }
                    }
                    if active_endpoints(before).contains(e) {
                        let j = choose|j: int|
                            0 <= j < before.len() && !(#[trigger] before[j]).retired
                                && before[j].endpoint_id@ == e;
                        assert(after[j] == before[j]);
                    }
                }
                assert(active_endpoints(after) =~= active_endpoints(before));
            }
        }
        i = i + 1;
    }
    proof {
        assert(devices@.take(devices@.len() as int) =~= devices@);
    }
    endpoints
}


/// The wall times at which the copies of a rotation are stamped: the
/// rotation's wall time, then one millisecond more for each further copy,
/// held at `u64::MAX`.
pub open spec fn rotation_walls(wall: u64, n: nat) -> Seq<u64> {
    Seq::new(n, |k: int| if wall + k <= u64::MAX { (wall + k) as u64 } else { u64::MAX })
}

/// Whether `copy` restates `source` as a fresh write: the same note,
/// content and path, stamped `hlc` by `author`, with no predecessors.
pub open spec fn restates(copy: NoteRevision, source: NoteRevision, hlc: Hlc, author: ActorId) -> bool {
    &&& copy.schema == source.schema
    &&& copy.note_id.0@ == source.note_id.0@
    &&& entries_view(copy.frontmatter@) == entries_view(source.frontmatter@)
    &&& copy.body@ == source.body@
    &&& copy.materialized_path@ == source.materialized_path@
    &&& copy.hlc == hlc
    &&& copy.author_id == author
    &&& copy.predecessors@.len() == 0
    &&& !copy.deleted
}

/// What a rotation writes into the fresh namespace besides the assets,
/// which it copies unchanged.
#[derive(Debug, PartialEq)]
pub struct RotationCopies {
    /// Each visible revision, restated by the rotating author.
    pub notes: Vec<NoteRevision>,
    /// The timestamp of each configuration copy, in order.
    pub config_stamps: Vec<Hlc>,
}

/// The copies a rotation by `actor` at `wall_clock_ms` writes: the visible
/// revisions first, then the configurations, each stamped by a fresh clock
/// at a wall time one millisecond after the one before.
pub fn rotation_copies(visible: &Vec<NoteRevision>, configs: usize, actor: &ActorId, wall_clock_ms: u64) -> (result: RotationCopies)
    requires
        visible@.len() + configs <= usize::MAX,
    ensures
        result.notes@.len() == visible@.len(),
        result.config_stamps@.len() == configs,
        forall|k: int|
            0 <= k < visible@.len() ==> restates(
                #[trigger] result.notes@[k],
                visible@[k],
                stamp(clock_run(rotation_walls(wall_clock_ms, (visible@.len() + configs) as nat))[k], *actor),
                *actor,
            ),
        forall|j: int|
            0 <= j < configs ==> #[trigger] result.config_stamps@[j] == stamp(
                clock_run(rotation_walls(wall_clock_ms, (visible@.len() + configs) as nat))[visible@.len() + j],
                *actor,
            ),
{
    let total = visible.len() + configs;
    let ghost walls_spec = rotation_walls(wall_clock_ms, total as nat);
    let mut walls: Vec<u64> = Vec::new();
    let mut time = wall_clock_ms;
    let mut k: usize = 0;
    while k < total
        invariant
            k <= total,
            walls@.len() == k,
            walls_spec == rotation_walls(wall_clock_ms, total as nat),
            time == (if wall_clock_ms + k <= u64::MAX { (wall_clock_ms + k) as u64 } else { u64::MAX }),
            forall|j: int| 0 <= j < k ==> #[trigger] walls@[j] == walls_spec[j],
        decreases total - k,
    {
        walls.push(time);
        time = time.saturating_add(1);
        k = k + 1;
    }
    proof {
        assert(walls@ =~= walls_spec);
        lemma_clock_run_len(walls@);
    }
    let stamps = clock_stamps(actor, &walls);
    let mut notes: Vec<NoteRevision> = Vec::new();
    let mut i: usize = 0;
    while i < visible.len()
        invariant
            i <= visible@.len(),
            stamps@.len() == total,
            total == visible@.len() + configs,
            walls@ == walls_spec,
            walls_spec == rotation_walls(wall_clock_ms, total as nat),
            forall|k: int| 0 <= k < total ==> #[trigger] stamps@[k] == stamp(clock_run(walls@)[k], *actor),
            notes@.len() == i,
            forall|k: int| 0 <= k < i ==> restates(#[trigger] notes@[k], visible@[k], stamps@[k], *actor),
        decreases visible@.len() - i,
    {
        let source = &visible[i];
        let copy = NoteRevision {
            schema: source.schema,
            note_id: NoteId(source.note_id.0.clone()),
            frontmatter: copy_entries(&source.frontmatter),
            body: source.body.clone(),
            materialized_path: source.materialized_path.clone(),
            hlc: Hlc {
                physical_ms: stamps[i].physical_ms,
                logical: stamps[i].logical,
                actor_id: ActorId(stamps[i].actor_id.0.clone()),
            },
            author_id: ActorId(actor.0.clone()),
            predecessors: Vec::new(),
            deleted: false,
        };
        notes.push(copy);
        i = i + 1;
    }
    let mut config_stamps: Vec<Hlc> = Vec::new();
    let mut j: usize = 0;
    while j < configs
        invariant
            j <= configs,
            stamps@.len() == total,
            total == visible@.len() + configs,
            forall|k: int| 0 <= k < total ==> #[trigger] stamps@[k] == stamp(clock_run(walls@)[k], *actor),
            config_stamps@.len() == j,
            forall|m: int| 0 <= m < j ==> #[trigger] config_stamps@[m] == stamps@[visible@.len() + m],
        decreases configs - j,
    {
        let s = &stamps[visible.len() + j];
        config_stamps.push(Hlc { physical_ms: s.physical_ms, logical: s.logical, actor_id: ActorId(s.actor_id.0.clone()) });
        j = j + 1;
    }
    RotationCopies { notes, config_stamps }
}

} // verus!
