use gallery::thumbnail::{
    thumbnail_begin, thumbnail_step, SourceStatus, ThumbnailAction, ThumbnailEvent, ThumbnailState,
};

fn run(source: SourceStatus, cached: bool, generated: bool, written: bool, extracted: bool) -> (Vec<ThumbnailAction>, ThumbnailState) {
    let (mut state, mut action) = thumbnail_begin();
    let mut actions = vec![action];
    while state != ThumbnailState::Finished {
        let event = match state {
            ThumbnailState::AwaitSource => ThumbnailEvent::Source(source),
            ThumbnailState::AwaitCache => ThumbnailEvent::CacheOpened(cached),
            ThumbnailState::AwaitGeneration => ThumbnailEvent::Generated(generated),
            ThumbnailState::AwaitWrite => ThumbnailEvent::Written(written),
            ThumbnailState::AwaitExtractor => ThumbnailEvent::Extracted(extracted),
            ThumbnailState::Finished => unreachable!(),
        };
        let next = thumbnail_step(state, event);
        state = next.0;
        action = next.1;
        actions.push(action);
    }
    (actions, state)
}

#[test]
fn directory_source_is_not_found() {
    let (actions, _) = run(SourceStatus::NotFile, true, true, true, true);
    assert_eq!(actions, vec![ThumbnailAction::InspectSource, ThumbnailAction::RespondNotFound]);
}

#[test]
fn missing_source_still_tries_the_cache() {
    let (actions, _) = run(SourceStatus::Missing, true, false, false, false);
    assert_eq!(
        actions,
        vec![ThumbnailAction::InspectSource, ThumbnailAction::OpenCache, ThumbnailAction::RespondCached]
    );
}

#[test]
fn generated_and_stored() {
    let (actions, _) = run(SourceStatus::File, false, true, true, false);
    assert_eq!(
        actions,
        vec![
            ThumbnailAction::InspectSource,
            ThumbnailAction::OpenCache,
            ThumbnailAction::GenerateImage,
            ThumbnailAction::WriteCache,
            ThumbnailAction::RespondStored
        ]
    );
}

#[test]
fn generated_but_not_stored_is_served_from_memory() {
    let (actions, _) = run(SourceStatus::File, false, true, false, false);
    assert_eq!(actions.last(), Some(&ThumbnailAction::RespondGenerated));
}

#[test]
fn extractor_fallback() {
    let (actions, _) = run(SourceStatus::File, false, false, false, true);
    assert_eq!(
        actions,
        vec![
            ThumbnailAction::InspectSource,
            ThumbnailAction::OpenCache,
            ThumbnailAction::GenerateImage,
            ThumbnailAction::RunExtractor,
            ThumbnailAction::RespondStored
        ]
    );
    let (actions, _) = run(SourceStatus::File, false, false, false, false);
    assert_eq!(actions.last(), Some(&ThumbnailAction::RespondBrokenImage));
}
