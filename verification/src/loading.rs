//! The decisions of loading a map into the preview: the phases a load goes
//! through, and the batched removal of what was shown before. The caller
//! performs the work (loading assets, spawning, despawning) and reports back.
use vstd::prelude::*;
use std::collections::VecDeque;

verus! {

/// The phase of loading a map.
#[derive(PartialEq, Eq, Structural, Clone, Copy, Debug)]
pub enum LoadPhase {
    /// Nothing is being loaded.
    Idle,
    /// The previous map is being removed.
    Cleanup,
    /// The map's assets are loading.
    LoadingAssets,
    /// The map has been spawned and its layers are awaited.
    Spawning,
}

/// The status line shown while loading, by its translation key.
#[derive(PartialEq, Eq, Structural, Clone, Copy, Debug)]
pub enum LoadStatus {
    /// No status is shown.
    Clear,
    /// `loading-cleanup`.
    Cleanup,
    /// `loading-textures`.
    Textures,
    /// `loading-spawning`.
    Spawning,
}

impl LoadStatus {
    /// The translation key of the status line, empty when none is shown.
    pub fn key(self) -> (s: &'static str)
        ensures
            s@ == status_key(self),
    {
        proof {
            reveal_strlit("");
            reveal_strlit("loading-cleanup");
            reveal_strlit("loading-textures");
            reveal_strlit("loading-spawning");
        }
        match self {
            LoadStatus::Clear => "",
            LoadStatus::Cleanup => "loading-cleanup",
            LoadStatus::Textures => "loading-textures",
            LoadStatus::Spawning => "loading-spawning",
        }
    }
}

/// The translation key of a status line.
pub open spec fn status_key(s: LoadStatus) -> Seq<char> {
    match s {
        LoadStatus::Clear => ""@,
        LoadStatus::Cleanup => "loading-cleanup"@,
        LoadStatus::Textures => "loading-textures"@,
        LoadStatus::Spawning => "loading-spawning"@,
    }
}

/// How far the assets of the map being loaded have come.
#[derive(PartialEq, Eq, Structural, Clone, Copy, Debug)]
pub enum AssetProgress {
    /// The map and everything it depends on have loaded.
    Loaded,
    /// Loading failed.
    Failed,
    /// Still loading.
    Pending,
}

/// What the caller is to do after a step of the load.
#[derive(PartialEq, Eq, Debug)]
pub enum LoadAction {
    /// Nothing.
    Wait,
    /// Start loading the map at this path, and keep its handle.
    StartLoading(String),
    /// Spawn the map whose assets have loaded.
    SpawnMap,
    /// Report that loading the map's assets failed.
    ReportFailure,
}

/// The state of loading a map into the preview.
pub struct MapLoadingState {
    /// The phase of the load.
    pub phase: LoadPhase,
    /// The path of the map being loaded.
    pub current_map: Option<String>,
    /// Whether the caller holds a handle of the map's assets.
    pub has_handle: bool,
    /// The status line shown.
    pub status: LoadStatus,
}

/// The loading state taken by value: phase, map path, whether a handle is
/// held, status line.
pub type LoadView = (LoadPhase, Option<Seq<char>>, bool, LoadStatus);

/// The loading state taken by value.
pub open spec fn load_view(s: MapLoadingState) -> LoadView {
    (
        s.phase,
        match s.current_map {
            Some(m) => Some(m@),
            None => None,
        },
        s.has_handle,
        s.status,
    )
}

/// The state after a request to load the map at `map`: the old map is
/// removed first, and no handle of the new one is held yet.
pub open spec fn requested(map: Seq<char>) -> LoadView {
    (LoadPhase::Cleanup, Some(map), false, LoadStatus::Cleanup)
}

/// The action as a value: `None` for a request to start loading a map, whose
/// path is that of the state.
pub open spec fn action_kind(a: LoadAction) -> Option<LoadAction> {
    match a {
        LoadAction::StartLoading(_) => None,
        _ => Some(a),
    }
}

/// One step of the load, from the state `s`, the progress of the map's assets
/// and whether a spawned map has layers yet: the next state and what the
/// caller is to do (`None` standing for starting to load the state's map).
pub open spec fn load_step(s: LoadView, progress: AssetProgress, populated: bool) -> (LoadView, Option<LoadAction>) {
    let (phase, map, handle, status) = s;
    match phase {
        LoadPhase::Idle => (s, Some(LoadAction::Wait)),
        LoadPhase::Cleanup => match map {
            Some(m) => ((LoadPhase::LoadingAssets, map, true, LoadStatus::Textures), None),
            None => (s, Some(LoadAction::Wait)),
        },
        LoadPhase::LoadingAssets => if !handle {
            (s, Some(LoadAction::Wait))
        } else {
            match progress {
                AssetProgress::Loaded => (
                    (LoadPhase::Spawning, map, handle, LoadStatus::Spawning),
                    Some(LoadAction::SpawnMap),
                ),
                AssetProgress::Failed => (
                    (LoadPhase::Idle, map, handle, LoadStatus::Clear),
                    Some(LoadAction::ReportFailure),
                ),
                AssetProgress::Pending => (
                    (LoadPhase::LoadingAssets, map, handle, LoadStatus::Textures),
                    Some(LoadAction::Wait),
                ),
            }
        },
        LoadPhase::Spawning => if populated {
            ((LoadPhase::Idle, map, false, LoadStatus::Clear), Some(LoadAction::Wait))
        } else {
            (s, Some(LoadAction::Wait))
        },
    }
}

/// A loading state in order: a status line is shown exactly while a load is
/// under way, and a load past its cleanup knows its map and holds a handle.
pub open spec fn load_consistent(s: LoadView) -> bool {
    &&& (s.0 == LoadPhase::Idle) == (s.3 == LoadStatus::Clear)
    &&& (s.0 == LoadPhase::LoadingAssets || s.0 == LoadPhase::Spawning) ==> s.1 is Some && s.2
}

impl MapLoadingState {
    /// Nothing loading, no status.
    pub fn new() -> (s: MapLoadingState)
        ensures
            load_view(s) == (LoadPhase::Idle, None::<Seq<char>>, false, LoadStatus::Clear),
    {
        MapLoadingState { phase: LoadPhase::Idle, current_map: None, has_handle: false, status: LoadStatus::Clear }
    }

    /// Whether a load is under way, as the preview shows it.
    pub fn is_loading(&self) -> (b: bool)
        ensures
            b == (self.phase != LoadPhase::Idle),
    {
        self.phase != LoadPhase::Idle
    }

    /// A request to load the map at `map`; the caller removes what is shown.
    pub fn request(&mut self, map: String)
        ensures
            load_view(*final(self)) == requested(map@),
    {
        self.phase = LoadPhase::Cleanup;
        self.current_map = Some(map);
        self.has_handle = false;
        self.status = LoadStatus::Cleanup;
    }

    /// One step of the load (see `load_step`), given the progress of the
    /// map's assets and whether a spawned map has layers yet.
    pub fn track(&mut self, progress: AssetProgress, populated: bool) -> (a: LoadAction)
        ensures
            (load_view(*final(self)), action_kind(a)) == load_step(load_view(*old(self)), progress, populated),
            a matches LoadAction::StartLoading(m) ==> old(self).current_map matches Some(c) && m@ == c@,
    {
        match self.phase {
            LoadPhase::Idle => LoadAction::Wait,
            LoadPhase::Cleanup => {
                match &self.current_map {
                    Some(m) => {
                        let path = m.clone();
                        self.phase = LoadPhase::LoadingAssets;
                        self.has_handle = true;
                        self.status = LoadStatus::Textures;
                        LoadAction::StartLoading(path)
                    },
                    None => LoadAction::Wait,
                }
            },
            LoadPhase::LoadingAssets => {
                if !self.has_handle {
                    return LoadAction::Wait;
                }
                match progress {
                    AssetProgress::Loaded => {
                        self.phase = LoadPhase::Spawning;
                        self.status = LoadStatus::Spawning;
                        LoadAction::SpawnMap
                    },
                    AssetProgress::Failed => {
                        self.phase = LoadPhase::Idle;
                        self.status = LoadStatus::Clear;
                        LoadAction::ReportFailure
                    },
                    AssetProgress::Pending => {
                        self.status = LoadStatus::Textures;
                        LoadAction::Wait
                    },
                }
            },
            LoadPhase::Spawning => {
                if populated {
                    self.phase = LoadPhase::Idle;
                    self.status = LoadStatus::Clear;
                    self.has_handle = false;
                }
                LoadAction::Wait
            },
        }
    }
}

/// A load keeps its state in order: a request and every step lead from a
/// state in order to a state in order.
pub proof fn lemma_load_stays_consistent(s: LoadView, map: Seq<char>, progress: AssetProgress, populated: bool)
    requires
        load_consistent(s),
    ensures
        load_consistent(requested(map)),
        load_consistent(load_step(s, progress, populated).0),
{
}

/// Nothing happens while no load is under way.
pub proof fn lemma_idle_is_quiet(s: LoadView, progress: AssetProgress, populated: bool)
    requires
        s.0 == LoadPhase::Idle,
    ensures
        load_step(s, progress, populated) == (s, Some(LoadAction::Wait)),
{
}

/// A load that is requested starts loading its map at the next step.
pub proof fn lemma_request_starts_loading(map: Seq<char>, progress: AssetProgress, populated: bool)
    ensures
        load_step(requested(map), progress, populated) == (
            (LoadPhase::LoadingAssets, Some(map), true, LoadStatus::Textures),
            None::<LoadAction>,
        ),
{
}

/// How many layers of a map are despawned per step of the cleanup.
pub const MAP_LAYER_CLEANUP_BATCH: usize = 4;

/// How many maps of a world are despawned per step of the cleanup.
pub const WORLD_MAP_CLEANUP_BATCH: usize = 1;

/// Something shown before that the cleanup still has to remove, by entity.
#[derive(PartialEq, Eq, Structural, Clone, Copy, Debug)]
pub enum CleanupTarget {
    /// A map shown on its own: its layers go first, then the map.
    MapRoot(u64),
    /// A world: its maps go first, then the world.
    WorldRoot(u64),
    /// A root already despawned, awaited until it is gone.
    AwaitRemoval(u64),
}

/// An entity that may be shown: whether it is a map, a world, and whether it
/// has a parent.
#[derive(PartialEq, Eq, Structural, Clone, Copy, Debug)]
pub struct ExistingAsset {
    pub entity: u64,
    pub has_map: bool,
    pub has_world: bool,
    pub has_parent: bool,
}

/// The cleanup target for an entity, if it is one: every world, and every map
/// that stands on its own.
pub open spec fn target_for(a: ExistingAsset) -> Option<CleanupTarget> {
    if a.has_world {
        Some(CleanupTarget::WorldRoot(a.entity))
    } else if a.has_map && !a.has_parent {
        Some(CleanupTarget::MapRoot(a.entity))
    } else {
        None
    }
}

/// The cleanup targets for `assets`, in order.
pub open spec fn targets_for(assets: Seq<ExistingAsset>) -> Seq<CleanupTarget>
    decreases assets.len(),
{
    if assets.len() == 0 {
        Seq::empty()
    } else {
        match target_for(assets.last()) {
            Some(t) => targets_for(assets.drop_last()).push(t),
            None => targets_for(assets.drop_last()),
        }
    }
}

/// What the caller found of a target's entity: nothing, or the entity with
/// its children (none when it has no children).
pub enum RootLookup {
    NotFound,
    Found(Vec<u64>),
}

/// A lookup taken by value.
pub open spec fn lookup_view(l: RootLookup) -> Option<Seq<u64>> {
    match l {
        RootLookup::NotFound => None,
        RootLookup::Found(c) => Some(c@),
    }
}

/// One target's step of the cleanup, given what was found of its entity: the
/// entities to despawn and what stays queued. A map or world whose entity is
/// gone is dropped; otherwise the first few of its children are despawned,
/// and once it had no children left it is despawned and awaited. An awaited
/// root stays queued while it is still found.
pub open spec fn target_step(t: CleanupTarget, found: Option<Seq<u64>>) -> (Seq<u64>, Seq<CleanupTarget>) {
    match t {
        CleanupTarget::MapRoot(e) => match found {
            None => (Seq::empty(), Seq::empty()),
            Some(children) => if children.len() == 0 {
                (seq![e], seq![CleanupTarget::AwaitRemoval(e)])
            } else {
                (children.take(if children.len() < MAP_LAYER_CLEANUP_BATCH { children.len() as int } else { MAP_LAYER_CLEANUP_BATCH as int }), seq![t])
            },
        },
        CleanupTarget::WorldRoot(e) => match found {
            None => (Seq::empty(), Seq::empty()),
            Some(children) => if children.len() == 0 {
                (seq![e], seq![CleanupTarget::AwaitRemoval(e)])
            } else {
                (children.take(WORLD_MAP_CLEANUP_BATCH as int), seq![t])
            },
        },
        CleanupTarget::AwaitRemoval(e) => match found {
            None => (Seq::empty(), Seq::empty()),
            Some(_) => (Seq::empty(), seq![t]),
        },
    }
}

/// A step of the cleanup over the whole queue: each target in turn, the
/// despawns and what stays queued collected in order.
pub open spec fn cleanup_step(targets: Seq<CleanupTarget>, found: Seq<Option<Seq<u64>>>) -> (Seq<u64>, Seq<CleanupTarget>)
    decreases targets.len(),
{
    if targets.len() == 0 || found.len() == 0 {
        (Seq::empty(), Seq::empty())
    } else {
        let (d, n) = cleanup_step(targets.drop_last(), found.drop_last());
        let (d2, n2) = target_step(targets.last(), found.last());
        (d + d2, n + n2)
    }
}

/// The queue of what the cleanup still has to remove.
pub struct PendingCleanup {
    queue: VecDeque<CleanupTarget>,
}

impl PendingCleanup {
    /// The targets queued, in order.
    pub closed spec fn targets(&self) -> Seq<CleanupTarget> {
        self.queue@
    }

    /// An empty queue.
    pub fn new() -> (c: PendingCleanup)
        ensures
            c.targets() == Seq::<CleanupTarget>::empty(),
    {
        PendingCleanup { queue: VecDeque::new() }
    }

    /// Empties the queue.
    pub fn clear(&mut self)
        ensures
            final(self).targets() == Seq::<CleanupTarget>::empty(),
    {
        self.queue.clear();
    }

    /// Whether nothing is queued.
    pub fn is_empty(&self) -> (b: bool)
        ensures
            b == (self.targets().len() == 0),
    {
        self.queue.len() == 0
    }

    /// Queues `target` last.
    pub fn push(&mut self, target: CleanupTarget)
        ensures
            final(self).targets() == old(self).targets().push(target),
    {
        self.queue.push_back(target);
    }

    /// The targets queued, in order, for the caller to look up.
    pub fn queued(&self) -> (v: Vec<CleanupTarget>)
        ensures
            v@ == self.targets(),
    {
        let mut v: Vec<CleanupTarget> = Vec::new();
        let mut i: usize = 0;
        while i < self.queue.len()
            invariant
                i <= self.queue.len(),
                v@ == self.queue@.take(i as int),
            decreases self.queue.len() - i,
        {
            v.push(self.queue[i]);
            i = i + 1;
            assert(v@ =~= self.queue@.take(i as int));
        }
        assert(self.queue@.take(self.queue.len() as int) =~= self.queue@);
        v
    }

    /// Starts the cleanup for a new load: the queue holds the targets among
    /// `assets`, in order, and nothing else. The caller hides each of them.
    pub fn start(&mut self, assets: &Vec<ExistingAsset>)
        ensures
            final(self).targets() == targets_for(assets@),
    {
        self.queue.clear();
        let mut i: usize = 0;
        while i < assets.len()
            invariant
                i <= assets.len(),
                self.queue@ == targets_for(assets@.take(i as int)),
            decreases assets.len() - i,
        {
            let a = assets[i];
            assert(assets@.take(i + 1).drop_last() =~= assets@.take(i as int));
            assert(assets@.take(i + 1).last() == a);
            if a.has_world {
                self.queue.push_back(CleanupTarget::WorldRoot(a.entity));
            } else if a.has_map && !a.has_parent {
                self.queue.push_back(CleanupTarget::MapRoot(a.entity));
            }
            i = i + 1;
        }
        assert(assets@.take(assets.len() as int) =~= assets@);
    }

    /// One step of the cleanup (see `cleanup_step`), given what was found of
    /// each queued target's entity, in queue order: returns the entities to
    /// despawn, and the queue keeps what stays.
    pub fn process(&mut self, found: &Vec<RootLookup>) -> (despawn: Vec<u64>)
        requires
            found.len() == old(self).targets().len(),
        ensures
            (despawn@, final(self).targets()) == cleanup_step(
                old(self).targets(),
                found@.map_values(|l: RootLookup| lookup_view(l)),
            ),
    {
        let ghost fv = found@.map_values(|l: RootLookup| lookup_view(l));
        let ghost targets = self.queue@;
        let mut despawn: Vec<u64> = Vec::new();
        let mut next: VecDeque<CleanupTarget> = VecDeque::new();
        let mut i: usize = 0;
        while i < self.queue.len()
            invariant
                i <= self.queue.len(),
                self.queue@ == targets,
                found.len() == targets.len(),
                fv == found@.map_values(|l: RootLookup| lookup_view(l)),
                (despawn@, next@) == cleanup_step(targets.take(i as int), fv.take(i as int)),
            decreases self.queue.len() - i,
        {
            let t = self.queue[i];
            assert(targets.take(i + 1).drop_last() =~= targets.take(i as int));
            assert(fv.take(i + 1).drop_last() =~= fv.take(i as int));
            assert(targets.take(i + 1).last() == t);
            assert(fv.take(i + 1).last() == lookup_view(found@[i as int]));
            let ghost d0 = despawn@;
            let ghost n0 = next@;
            let ghost (d2, n2) = target_step(t, lookup_view(found@[i as int]));
            match (t, &found[i]) {
                (CleanupTarget::MapRoot(e), RootLookup::Found(children)) => {
                    if children.len() == 0 {
                        despawn.push(e);
                        next.push_back(CleanupTarget::AwaitRemoval(e));
                    } else {
                        let mut k: usize = 0;
                        while k < children.len() && k < MAP_LAYER_CLEANUP_BATCH
                            invariant
                                k <= children.len(),
                                k <= MAP_LAYER_CLEANUP_BATCH,
                                despawn@ == d0 + children@.take(k as int),
                            decreases children.len() - k,
                        {
                            despawn.push(children[k]);
                            k = k + 1;
                            assert(despawn@ =~= d0 + children@.take(k as int));
                        }
                        next.push_back(t);
                    }
                },
                (CleanupTarget::WorldRoot(e), RootLookup::Found(children)) => {
                    if children.len() == 0 {
                        despawn.push(e);
                        next.push_back(CleanupTarget::AwaitRemoval(e));
                    } else {
                        despawn.push(children[0]);
                        assert(children@.take(1) =~= seq![children@[0]]);
                        next.push_back(t);
                    }
                },
                (CleanupTarget::AwaitRemoval(e), RootLookup::Found(_)) => {
                    next.push_back(t);
                },
                (_, RootLookup::NotFound) => {},
            }
            assert(despawn@ =~= d0 + d2);
            assert(next@ =~= n0 + n2);
            i = i + 1;
        }
        assert(targets.take(targets.len() as int) =~= targets);
        assert(fv.take(fv.len() as int) =~= fv);
        self.queue = next;
        despawn
    }
}

/// A step of the cleanup never lets the queue grow.
pub proof fn lemma_cleanup_queue_never_grows(targets: Seq<CleanupTarget>, found: Seq<Option<Seq<u64>>>)
    ensures
        cleanup_step(targets, found).1.len() <= targets.len(),
    decreases targets.len(),
{
    if targets.len() > 0 && found.len() > 0 {
        lemma_cleanup_queue_never_grows(targets.drop_last(), found.drop_last());
    }
}

/// A root leaves the cleanup only when it is no longer found, and what stays
/// queued for a map or world is the same target or its awaited removal.
pub proof fn lemma_target_step_keeps_or_awaits(t: CleanupTarget, found: Option<Seq<u64>>)
    ensures
        found is None ==> target_step(t, found).1.len() == 0,
        found is Some ==> target_step(t, found).1.len() == 1,
        target_step(t, found).1.len() == 1 ==> (target_step(t, found).1[0] == t || (target_step(t, found).1[0]
            matches CleanupTarget::AwaitRemoval(e) && target_step(t, found).0 == seq![e])),
{
}

} // verus!
