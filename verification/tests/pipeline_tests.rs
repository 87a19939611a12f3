use lexicc::guard_allows_start;
use lexicc::Pipeline;
use lexicc::Step;
use std::collections::BTreeMap;
use std::collections::BTreeSet;

fn name(s: &str) -> Vec<u8> {
    s.as_bytes().to_vec()
}

/// Drives one full run over a simulated inbox, the way the surrounding
/// process does: list, decide, drain, repeat. Synthesis and playback are
/// counters; the sink is always quiet. Returns the names in processing order.
fn run_to_exit(inbox: &mut BTreeSet<Vec<u8>>, scramble: bool) -> Vec<Vec<u8>> {
    let mut processed: Vec<Vec<u8>> = Vec::new();
    let mut pipeline = Pipeline::new();
    let mut rounds = 0;
    loop {
        rounds += 1;
        assert!(rounds < 100, "pipeline failed to terminate");
        let mut listing: Vec<Vec<u8>> = inbox.iter().cloned().collect();
        if scramble {
            listing.reverse();
        }
        match pipeline.on_listing(listing, true) {
            Step::Exit => return processed,
            Step::Sleep => continue,
            Step::Drain => {
                while pipeline.is_draining() {
                    let item = pipeline.take_next();
                    assert!(inbox.remove(&item), "item synthesized twice or never listed");
                    processed.push(item);
                }
            }
        }
    }
}

#[test]
fn items_processed_in_lexicographic_order() {
    let mut inbox: BTreeSet<Vec<u8>> = [name("b"), name("c"), name("a")].into_iter().collect();
    let order = run_to_exit(&mut inbox, true);
    assert_eq!(order, vec![name("a"), name("b"), name("c")]);
    assert!(inbox.is_empty());
}

#[test]
fn order_independent_of_enumeration() {
    let names = [name("03"), name("01"), name("02")];
    let mut forward: BTreeSet<Vec<u8>> = names.iter().cloned().collect();
    let mut backward: BTreeSet<Vec<u8>> = names.iter().cloned().collect();
    let a = run_to_exit(&mut forward, false);
    let b = run_to_exit(&mut backward, true);
    assert_eq!(a, b);
    assert_eq!(a, vec![name("01"), name("02"), name("03")]);
}

#[test]
fn each_item_processed_exactly_once() {
    let mut inbox: BTreeSet<Vec<u8>> = [name("x"), name("y")].into_iter().collect();
    let mut artifacts: BTreeMap<Vec<u8>, u32> = BTreeMap::new();
    let mut pipeline = Pipeline::new();
    loop {
        let listing: Vec<Vec<u8>> = inbox.iter().cloned().collect();
        match pipeline.on_listing(listing, true) {
            Step::Exit => break,
            Step::Sleep => continue,
            Step::Drain => {
                while pipeline.is_draining() {
                    let item = pipeline.take_next();
                    *artifacts.entry(item.clone()).or_insert(0) += 1;
                    inbox.remove(&item);
                }
            }
        }
    }
    assert_eq!(artifacts.get(&name("x")), Some(&1));
    assert_eq!(artifacts.get(&name("y")), Some(&1));
    assert!(inbox.is_empty());
}

#[test]
fn killed_mid_pass_resumes_without_repeats() {
    // First run: the process dies after fully processing item "a" but
    // before item "b" — "a"'s source file is already deleted.
    let mut inbox: BTreeSet<Vec<u8>> = [name("a"), name("b")].into_iter().collect();
    let mut first_run = Pipeline::new();
    let listing: Vec<Vec<u8>> = inbox.iter().cloned().collect();
    assert_eq!(first_run.on_listing(listing, true), Step::Drain);
    let item = first_run.take_next();
    assert_eq!(item, name("a"));
    inbox.remove(&item);
    drop(first_run);

    // Restart: only "b" is listed, processed once, and the run exits.
    let order = run_to_exit(&mut inbox, false);
    assert_eq!(order, vec![name("b")]);
}

#[test]
fn empty_inbox_and_quiet_sink_exits() {
    let mut pipeline = Pipeline::new();
    assert_eq!(pipeline.on_listing(Vec::new(), true), Step::Exit);
}

#[test]
fn empty_inbox_with_audio_still_playing_sleeps() {
    let mut pipeline = Pipeline::new();
    assert_eq!(pipeline.on_listing(Vec::new(), false), Step::Sleep);
    // Once playback ends, the next poll exits.
    assert_eq!(pipeline.on_listing(Vec::new(), true), Step::Exit);
}

#[test]
fn drain_pass_returns_to_polling_without_sleeping() {
    let mut pipeline = Pipeline::new();
    assert_eq!(pipeline.on_listing(vec![name("only")], false), Step::Drain);
    let item = pipeline.take_next();
    assert_eq!(item, name("only"));
    assert!(!pipeline.is_draining());
    // Back in polling: a quiet sink and empty inbox end the loop.
    assert_eq!(pipeline.on_listing(Vec::new(), true), Step::Exit);
}

#[test]
fn second_instance_steps_aside() {
    // The host scan counts this process too: two means another is running.
    assert!(!guard_allows_start(2));
    assert!(!guard_allows_start(5));
}

#[test]
fn sole_instance_may_run() {
    assert!(guard_allows_start(1));
    // A scan that somehow misses even the caller still lets it run.
    assert!(guard_allows_start(0));
}
