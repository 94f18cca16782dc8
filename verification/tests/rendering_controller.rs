use mpdelta::rendering_controller::{plan_request, LookaheadRenderingController, LookaheadRenderingControllerBuilder, MPDeltaRenderingController, RenderingControllerItem};
use std::collections::BTreeSet;
use std::sync::{Arc, Mutex};

#[test]
fn test_lookahead_rendering_controller() {
    let add_frames = Arc::new(Mutex::new(Vec::new()));
    let remove_frames = Arc::new(Mutex::new(Vec::new()));
    let af = Arc::clone(&add_frames);
    let rf = Arc::clone(&remove_frames);
    let controller = LookaheadRenderingController::new(move |item| match item {
        RenderingControllerItem::RequestRender { frame } => {
            add_frames.lock().unwrap().push(frame);
        }
        RenderingControllerItem::RemoveCache { frame } => {
            remove_frames.lock().unwrap().push(frame);
        }
    });
    controller.on_request_render(0);
    assert_eq!(*af.lock().unwrap(), (0..40).collect::<Vec<_>>());
    assert_eq!(*rf.lock().unwrap(), []);
    controller.on_request_render(1);
    assert_eq!(*af.lock().unwrap(), (0..41).collect::<Vec<_>>());
    assert_eq!(*rf.lock().unwrap(), []);
    controller.on_request_render(35);
    assert_eq!(*af.lock().unwrap(), (0..75).collect::<Vec<_>>());
    assert_eq!(*rf.lock().unwrap(), (0..15).collect::<Vec<_>>());
}

#[test]
fn plan_request_from_empty() {
    let mut cache = BTreeSet::new();
    let (evicted, requested) = plan_request(&mut cache, 100);
    assert!(evicted.is_empty());
    assert_eq!(requested, (100..140).collect::<Vec<_>>());
    assert_eq!(cache, (100..140).collect::<BTreeSet<_>>());
}

#[test]
fn plan_request_evicts_old_frames_in_order() {
    let mut cache: BTreeSet<usize> = [3, 50, 10, 79, 80, 95].into_iter().collect();
    let (evicted, requested) = plan_request(&mut cache, 100);
    assert_eq!(evicted, vec![3, 10, 50, 79]);
    assert_eq!(requested, (100..140).collect::<Vec<_>>());
    let mut expected: BTreeSet<usize> = (100..140).collect();
    expected.insert(80);
    expected.insert(95);
    assert_eq!(cache, expected);
}

#[test]
fn plan_request_skips_cached_frames() {
    let mut cache: BTreeSet<usize> = (5..10).collect();
    let (evicted, requested) = plan_request(&mut cache, 0);
    assert!(evicted.is_empty());
    let expected: Vec<usize> = (0..5).chain(10..40).collect();
    assert_eq!(requested, expected);
    assert_eq!(cache, (0..40).collect::<BTreeSet<_>>());
}

#[test]
fn plan_request_near_the_largest_frame() {
    let mut cache = BTreeSet::new();
    let frame = usize::MAX - 40;
    let (evicted, requested) = plan_request(&mut cache, frame);
    assert!(evicted.is_empty());
    assert_eq!(requested.len(), 40);
    assert_eq!(requested[39], usize::MAX - 1);
}

#[test]
fn builder_creates_a_working_controller() {
    let seen = Arc::new(Mutex::new(Vec::new()));
    let s = Arc::clone(&seen);
    let controller = LookaheadRenderingControllerBuilder::new().create(move |item| {
        if let RenderingControllerItem::RequestRender { frame } = item {
            s.lock().unwrap().push(frame);
        }
    });
    controller.on_request_render(5);
    controller.on_request_render(5);
    assert_eq!(*seen.lock().unwrap(), (5..45).collect::<Vec<_>>());
}
