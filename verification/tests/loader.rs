use batch_loader::loader::{AssetSource, LoadState, Loader};

/// A scripted in-memory asset source: tests decide which load state each
/// path reports, and can change it between polls.
struct ScriptSource {
    /// Path each issued handle stands for, indexed by handle.
    paths: Vec<String>,
    /// Current reported state per path; unlisted paths report `NotLoaded`.
    states: Vec<(String, LoadState)>,
    /// Number of `begin_load` calls the loader made.
    begin_calls: usize,
}

impl ScriptSource {
    fn new() -> ScriptSource {
        ScriptSource {
            paths: Vec::new(),
            states: Vec::new(),
            begin_calls: 0,
        }
    }

    fn set_state(&mut self, path: &str, st: LoadState) {
        for entry in self.states.iter_mut() {
            if entry.0 == path {
                entry.1 = st;
                return;
            }
        }
        self.states.push((path.to_string(), st));
    }

    fn state_of(&self, path: &str) -> LoadState {
        for entry in self.states.iter() {
            if entry.0 == path {
                return entry.1;
            }
        }
        LoadState::NotLoaded
    }
}

impl AssetSource<u64> for ScriptSource {
    fn begin_load(&mut self, path: &str) -> (u64, LoadState) {
        self.begin_calls += 1;
        let h = self.paths.len() as u64;
        self.paths.push(path.to_string());
        (h, self.state_of(path))
    }

    fn query_state(&mut self, handle: &u64) -> LoadState {
        let path = self.paths[*handle as usize].clone();
        self.state_of(&path)
    }
}

#[test]
fn empty() {
    let mut loader: Loader<u64> = Loader::new();
    loader.submit();
    assert!(loader.is_empty());
    assert_eq!(loader.pending_count(), 0);
}

#[test]
fn enqueue() {
    let mut loader: Loader<u64> = Loader::new();
    loader.enqueue("dummy");
    loader.submit();
    assert!(!loader.is_empty());
    assert_eq!(loader.pending_count(), 1);
}

#[test]
fn empty_batch_done_without_touching_source() {
    let mut source = ScriptSource::new();
    let mut loader: Loader<u64> = Loader::new();
    loader.submit();
    assert!(!loader.is_done());
    loader.poll(&mut source);
    assert!(loader.is_done());
    assert_eq!(loader.pending_count(), 0);
    assert_eq!(source.begin_calls, 0);
}

#[test]
fn loaded_and_failed_resolve_on_first_poll() {
    let mut source = ScriptSource::new();
    source.set_state("a", LoadState::Loaded);
    source.set_state("b", LoadState::Failed);
    let mut loader: Loader<u64> = Loader::new();
    loader.enqueue("a");
    loader.enqueue("b");
    loader.submit();
    assert!(!loader.is_done());
    loader.poll(&mut source);
    assert!(loader.is_done());
    assert!(loader.take("a").is_some());
    // A failed load still resolves and surfaces its handle.
    assert!(loader.take("b").is_some());
    // Taking is destructive: the loader forgot about "a".
    assert_eq!(loader.take("a"), None);
}

#[test]
fn second_poll_resolves_slow_asset() {
    let mut source = ScriptSource::new();
    source.set_state("x", LoadState::Loading);
    let mut loader: Loader<u64> = Loader::new();
    loader.enqueue("x");
    loader.submit();
    loader.poll(&mut source);
    assert!(!loader.is_done());
    assert_eq!(loader.pending_count(), 1);
    source.set_state("x", LoadState::Loaded);
    loader.poll(&mut source);
    assert!(loader.is_done());
    assert_eq!(loader.pending_count(), 0);
    assert!(loader.take("x").is_some());
}

#[test]
fn completion_is_monotonic_and_matches_count() {
    let paths = ["one", "two", "three"];
    let mut source = ScriptSource::new();
    for p in paths.iter() {
        source.set_state(p, LoadState::Loading);
    }
    let mut loader: Loader<u64> = Loader::new();
    for p in paths.iter() {
        loader.enqueue(p);
    }
    loader.submit();
    assert_eq!(loader.pending_count(), 3);
    let mut done_polls = 0;
    for p in paths.iter() {
        // After every poll since the submit, the batch is done exactly when
        // nothing is pending.
        assert_eq!(loader.is_done(), loader.pending_count() == 0);
        source.set_state(p, LoadState::Loaded);
        loader.poll(&mut source);
        if loader.is_done() {
            done_polls += 1;
        }
    }
    // Done after at most one poll per request, and it never reverts.
    assert_eq!(done_polls, 1);
    assert!(loader.is_done());
    assert_eq!(loader.pending_count(), 0);
    loader.poll(&mut source);
    loader.poll(&mut source);
    assert!(loader.is_done());
}

#[test]
fn poll_before_submit_is_a_no_op() {
    let mut source = ScriptSource::new();
    source.set_state("a", LoadState::Loaded);
    let mut loader: Loader<u64> = Loader::new();
    loader.enqueue("a");
    loader.poll(&mut source);
    // Nothing was dispatched: the batch is not submitted yet.
    assert_eq!(source.begin_calls, 0);
    assert_eq!(loader.pending_count(), 1);
    assert!(!loader.is_done());
}

#[test]
fn take_is_destructive() {
    let mut source = ScriptSource::new();
    source.set_state("asset", LoadState::Loaded);
    let mut loader: Loader<u64> = Loader::new();
    loader.enqueue("asset");
    loader.submit();
    loader.poll(&mut source);
    assert!(loader.is_loaded("asset"));
    assert!(loader.take("asset").is_some());
    assert!(!loader.is_loaded("asset"));
    assert_eq!(loader.take("asset"), None);
}

#[test]
fn reset_clears_everything() {
    let mut source = ScriptSource::new();
    source.set_state("a", LoadState::Loaded);
    let mut loader: Loader<u64> = Loader::new();
    loader.enqueue("a");
    loader.enqueue("never");
    loader.submit();
    loader.poll(&mut source);
    assert!(!loader.is_done());
    loader.reset();
    assert_eq!(loader.pending_count(), 0);
    assert!(!loader.is_done());
    assert_eq!(loader.take("a"), None);
    // Enqueuing is legal again, and a fresh batch runs to completion.
    loader.enqueue("b");
    source.set_state("b", LoadState::Loaded);
    loader.submit();
    loader.poll(&mut source);
    assert!(loader.is_done());
    assert!(loader.take("b").is_some());
}

#[test]
fn reset_is_idempotent() {
    let mut loader: Loader<u64> = Loader::new();
    loader.reset();
    loader.reset();
    assert_eq!(loader.pending_count(), 0);
    assert!(!loader.is_done());
}

#[test]
fn duplicate_paths_count_separately_and_last_resolution_wins() {
    let mut source = ScriptSource::new();
    source.set_state("a", LoadState::Loading);
    let mut loader: Loader<u64> = Loader::new();
    loader.enqueue("a");
    loader.enqueue("a");
    loader.submit();
    assert_eq!(loader.pending_count(), 2);
    loader.poll(&mut source);
    assert_eq!(loader.pending_count(), 2);
    assert!(!loader.is_done());
    source.set_state("a", LoadState::Loaded);
    loader.poll(&mut source);
    assert!(loader.is_done());
    assert_eq!(loader.pending_count(), 0);
    // Both in-flight copies resolved; the completion map keeps one entry for
    // the path, from the copy that resolved last (handle 1, the second one).
    assert_eq!(loader.take("a"), Some(1));
    assert_eq!(loader.take("a"), None);
}

#[test]
fn is_loaded_tracks_resolution() {
    let mut source = ScriptSource::new();
    source.set_state("slow", LoadState::Loading);
    let mut loader: Loader<u64> = Loader::new();
    loader.enqueue("slow");
    loader.submit();
    assert!(!loader.is_loaded("slow"));
    loader.poll(&mut source);
    assert!(!loader.is_loaded("slow"));
    source.set_state("slow", LoadState::Failed);
    loader.poll(&mut source);
    assert!(loader.is_loaded("slow"));
    assert!(!loader.is_loaded("other"));
}
