use tiled_map_web_viewer::loading::{
    AssetProgress, CleanupTarget, ExistingAsset, LoadAction, LoadPhase, LoadStatus,
    MapLoadingState, PendingCleanup, RootLookup,
};

#[test]
fn a_load_goes_through_its_phases() {
    let mut state = MapLoadingState::new();
    assert!(!state.is_loading());
    assert_eq!(state.track(AssetProgress::Loaded, true), LoadAction::Wait);
    assert_eq!(state.phase, LoadPhase::Idle);

    state.request("maps/room.tmx".to_string());
    assert_eq!(state.phase, LoadPhase::Cleanup);
    assert_eq!(state.status.key(), "loading-cleanup");
    assert!(state.is_loading());

    let action = state.track(AssetProgress::Pending, false);
    assert_eq!(action, LoadAction::StartLoading("maps/room.tmx".to_string()));
    assert_eq!(state.phase, LoadPhase::LoadingAssets);
    assert_eq!(state.status, LoadStatus::Textures);

    assert_eq!(state.track(AssetProgress::Pending, false), LoadAction::Wait);
    assert_eq!(state.phase, LoadPhase::LoadingAssets);

    assert_eq!(state.track(AssetProgress::Loaded, false), LoadAction::SpawnMap);
    assert_eq!(state.phase, LoadPhase::Spawning);
    assert_eq!(state.status.key(), "loading-spawning");

    assert_eq!(state.track(AssetProgress::Loaded, false), LoadAction::Wait);
    assert_eq!(state.phase, LoadPhase::Spawning);
    assert_eq!(state.track(AssetProgress::Loaded, true), LoadAction::Wait);
    assert_eq!(state.phase, LoadPhase::Idle);
    assert_eq!(state.status.key(), "");
    assert!(!state.has_handle);
}

#[test]
fn a_failed_load_returns_to_idle() {
    let mut state = MapLoadingState::new();
    state.request("maps/room.tmx".to_string());
    let _ = state.track(AssetProgress::Pending, false);
    assert_eq!(state.track(AssetProgress::Failed, false), LoadAction::ReportFailure);
    assert_eq!(state.phase, LoadPhase::Idle);
    assert_eq!(state.status, LoadStatus::Clear);
}

#[test]
fn cleanup_targets_worlds_and_standalone_maps() {
    let assets = vec![
        ExistingAsset { entity: 1, has_map: true, has_world: false, has_parent: false },
        ExistingAsset { entity: 2, has_map: true, has_world: false, has_parent: true },
        ExistingAsset { entity: 3, has_map: false, has_world: true, has_parent: false },
        ExistingAsset { entity: 4, has_map: false, has_world: false, has_parent: false },
    ];
    let mut cleanup = PendingCleanup::new();
    cleanup.push(CleanupTarget::AwaitRemoval(9));
    cleanup.start(&assets);
    assert_eq!(
        cleanup.queued(),
        vec![CleanupTarget::MapRoot(1), CleanupTarget::WorldRoot(3)]
    );
}

#[test]
fn cleanup_despawns_in_batches() {
    let mut cleanup = PendingCleanup::new();
    cleanup.push(CleanupTarget::MapRoot(1));
    cleanup.push(CleanupTarget::WorldRoot(2));
    cleanup.push(CleanupTarget::AwaitRemoval(3));
    cleanup.push(CleanupTarget::MapRoot(4));

    let found = vec![
        RootLookup::Found(vec![10, 11, 12, 13, 14, 15]),
        RootLookup::Found(vec![20, 21]),
        RootLookup::NotFound,
        RootLookup::Found(vec![]),
    ];
    let despawn = cleanup.process(&found);
    assert_eq!(despawn, vec![10, 11, 12, 13, 20, 4]);
    assert_eq!(
        cleanup.queued(),
        vec![
            CleanupTarget::MapRoot(1),
            CleanupTarget::WorldRoot(2),
            CleanupTarget::AwaitRemoval(4)
        ]
    );

    let found = vec![
        RootLookup::Found(vec![14, 15]),
        RootLookup::NotFound,
        RootLookup::Found(vec![]),
    ];
    let despawn = cleanup.process(&found);
    assert_eq!(despawn, vec![14, 15]);
    assert_eq!(
        cleanup.queued(),
        vec![CleanupTarget::MapRoot(1), CleanupTarget::AwaitRemoval(4)]
    );
    assert!(!cleanup.is_empty());
    cleanup.clear();
    assert!(cleanup.is_empty());
}
