use mpdelta::project_editor::{check_split, plan_connect, plan_delete_pin, plan_move_component, plan_move_pin, plan_length_edit, plan_lock_pin, plan_unlock_pin, relink_on_delete, LockPlan, PinModel, ProjectEditError, UnlockPlan};

fn pin(id: u64, locked: bool) -> PinModel {
    PinModel { id, locked }
}

#[test]
fn split_checks() {
    let pins = [pin(1, true), pin(2, true), pin(3, false), pin(4, true)];
    assert_eq!(check_split(&pins, 1, &[]), Err(ProjectEditError::MarkerPinNotFound));
    assert_eq!(check_split(&pins, 4, &[]), Err(ProjectEditError::MarkerPinNotFound));
    assert_eq!(check_split(&pins, 9, &[]), Err(ProjectEditError::MarkerPinNotFound));
    assert_eq!(check_split(&pins, 3, &[]), Err(ProjectEditError::MarkerPinShouldLocked));
    assert_eq!(check_split(&pins, 2, &[]), Err(ProjectEditError::CannotSplitForAvoidFloating));
    assert_eq!(check_split(&pins, 2, &[(1, 10)]), Err(ProjectEditError::CannotSplitForAvoidFloating));
    assert_eq!(check_split(&pins, 2, &[(10, 4)]), Ok(1));
    assert_eq!(check_split(&pins, 2, &[(3, 10)]), Ok(1));
}

#[test]
fn lock_plans() {
    let pins = [pin(1, true), pin(2, false), pin(3, true), pin(4, false)];
    assert_eq!(plan_lock_pin(&pins, 2), Ok(LockPlan::Between { target: 1, left: 0, right: 2 }));
    assert_eq!(plan_lock_pin(&pins, 4), Ok(LockPlan::Between { target: 3, left: 0, right: 2 }));
    assert_eq!(plan_lock_pin(&pins, 3), Ok(LockPlan::AlreadyLocked { target: 2 }));
    assert_eq!(plan_lock_pin(&pins, 7), Err(ProjectEditError::MarkerPinNotFound));
    let pins = [pin(1, true), pin(2, false), pin(3, false)];
    assert_eq!(plan_lock_pin(&pins, 2), Ok(LockPlan::From { target: 1, base: 0 }));
    assert_eq!(plan_lock_pin(&pins, 3), Ok(LockPlan::From { target: 2, base: 0 }));
    let pins = [pin(1, false), pin(2, false), pin(3, true), pin(4, true)];
    assert_eq!(plan_lock_pin(&pins, 1), Ok(LockPlan::Between { target: 0, left: 2, right: 3 }));
    let pins = [pin(1, false), pin(2, true), pin(3, false)];
    assert_eq!(plan_lock_pin(&pins, 1), Ok(LockPlan::From { target: 0, base: 1 }));
}

#[test]
fn unlock_plans() {
    let comps = vec![vec![pin(1, true), pin(2, true), pin(3, false), pin(4, true)]];
    assert_eq!(plan_unlock_pin(&comps, &[], 100, 0, 3), Ok(UnlockPlan::AlreadyUnlocked));
    assert_eq!(plan_unlock_pin(&comps, &[], 100, 0, 2), Ok(UnlockPlan::UnlockAndLink { next: 1 }));
    assert_eq!(plan_unlock_pin(&comps, &[(100, 2)], 100, 0, 2), Ok(UnlockPlan::Unlock));
    assert_eq!(plan_unlock_pin(&comps, &[(100, 7), (7, 2)], 100, 0, 2), Ok(UnlockPlan::Unlock));
    assert_eq!(plan_unlock_pin(&comps, &[(100, 4)], 100, 0, 1), Ok(UnlockPlan::UnlockAndLink { next: 2 }));
    assert_eq!(plan_unlock_pin(&comps, &[], 100, 1, 2), Err(ProjectEditError::ComponentInstanceNotFound));
    assert_eq!(plan_unlock_pin(&comps, &[], 100, 0, 9), Err(ProjectEditError::MarkerPinNotFound));
    let comps = vec![vec![pin(5, false), pin(6, true), pin(7, false)]];
    assert_eq!(plan_unlock_pin(&comps, &[], 100, 0, 6), Err(ProjectEditError::CannotUnlockForAvoidFloating));
    let comps = vec![vec![pin(1, true), pin(2, true)]];
    assert_eq!(plan_unlock_pin(&comps, &[], 100, 0, 1), Ok(UnlockPlan::UnlockAndLink { next: 2 }));
}

#[test]
fn relink_after_delete() {
    let comps = vec![vec![pin(10, true), pin(11, true)], vec![pin(20, true), pin(21, true)]];
    let times = [(10, 1), (11, 2), (20, 0), (21, 5), (30, 7), (31, 9), (100, 0), (22, 3)];
    let links = [(100, 20), (11, 21), (10, 30), (31, 11), (11, 22)];
    let r = relink_on_delete(&comps, &links, 100, 0, &times).unwrap().unwrap();
    assert_eq!(r.0, 21);
    let mut to = r.1.clone();
    to.sort();
    assert_eq!(to, vec![22, 30, 31]);
    assert_eq!(relink_on_delete(&comps, &[(10, 30)], 100, 0, &times), Ok(None));
    assert_eq!(relink_on_delete(&comps, &links, 100, 2, &times), Err(ProjectEditError::ComponentInstanceNotFound));
    let links = [(100, 20), (11, 21), (100, 22), (11, 22)];
    let r = relink_on_delete(&comps, &links, 100, 0, &times).unwrap().unwrap();
    assert_eq!(r, (22, vec![]));
}

#[test]
fn connect_plans() {
    let links = [(1, 2), (2, 3), (4, 5)];
    assert_eq!(plan_connect(&links, &[], 2, 2), Err(ProjectEditError::MarkerPinsAreSame));
    assert_eq!(plan_connect(&links, &[], 1, 2), Err(ProjectEditError::PinsAlreadyConnected));
    assert_eq!(plan_connect(&links, &[], 3, 2), Err(ProjectEditError::PinsAlreadyConnected));
    // 1 - 2 - 3: the link at 3 on the way from 1 goes.
    assert_eq!(plan_connect(&links, &[], 1, 3), Ok(Some(1)));
    assert_eq!(plan_connect(&links, &[], 3, 1), Ok(Some(0)));
    // 4 - 5 is apart from 1 - 2 - 3.
    assert_eq!(plan_connect(&links, &[], 1, 5), Ok(None));
    // A locked pin with no link reaches nothing.
    assert_eq!(plan_connect(&links, &[7], 7, 1), Ok(None));
    // A cycle: the link at 4 whose other end is reached without passing 4.
    let ring = [(1, 2), (2, 3), (3, 4), (4, 1), (4, 9)];
    let r = plan_connect(&ring, &[], 2, 4);
    assert!(r == Ok(Some(2)) || r == Ok(Some(3)));
}

#[test]
fn length_edit_plans() {
    let links = [(0, 9), (9, 3), (0, 3), (5, 9), (3, 9)];
    assert_eq!(plan_length_edit(&links, 0, 9), vec![(0, true), (1, false), (4, true)]);
    // A pin held with the left pin only through the right pin does not count.
    assert_eq!(plan_length_edit(&[(0, 9), (9, 4)], 0, 9), vec![(0, true)]);
    assert_eq!(plan_length_edit(&[], 0, 9), vec![]);
}

#[test]
fn delete_pin_plans() {
    let comps = vec![
        vec![pin(1, true), pin(2, false), pin(3, true), pin(4, false)],
        vec![pin(7, false), pin(8, true), pin(9, false)],
        vec![pin(10, true), pin(11, false), pin(12, false)],
        vec![pin(13, true), pin(14, false)],
    ];
    let links = [(100, 1), (2, 5), (6, 2), (100, 6), (11, 13)];
    assert_eq!(plan_delete_pin(&comps, &links, 100, 9, 2), Err(ProjectEditError::ComponentInstanceNotFound));
    // The left pin is no marker.
    assert_eq!(plan_delete_pin(&comps, &links, 100, 0, 1), Err(ProjectEditError::MarkerPinNotFound));
    // No other pin of the component is locked.
    assert_eq!(plan_delete_pin(&comps, &links, 100, 1, 8), Err(ProjectEditError::MarkerPinNotFound));
    // The nearest locked pin is held with the root: it anchors 6, which the
    // root holds; 5 floats free.
    assert_eq!(plan_delete_pin(&comps, &links, 100, 0, 2), Ok((1, vec![6])));
    // The nearest locked pin floats: the locked pin linked to 11 anchors.
    assert_eq!(plan_delete_pin(&comps, &links, 100, 2, 11), Ok((13, vec![])));
}

#[test]
fn move_pin_plans() {
    let comps = vec![vec![pin(1, true), pin(2, false), pin(3, true)]];
    let links = [(100, 1), (2, 5), (6, 2), (100, 6), (2, 3)];
    assert_eq!(plan_move_pin(&comps, &links, 100, 2), vec![(2, true), (4, false)]);
    // Moving 5: its link to 2, which the other links hold in place, grows.
    assert_eq!(plan_move_pin(&comps, &links, 100, 5), vec![(1, true)]);
}

#[test]
fn move_component_plans() {
    let comps = vec![vec![pin(1, true), pin(2, false), pin(3, true)], vec![pin(7, true), pin(8, true)]];
    let links = [(100, 7), (7, 1), (3, 8), (2, 9), (9, 3), (1, 3)];
    assert_eq!(plan_move_component(&comps, &links, 100, 0), Ok(vec![(1, true), (2, false)]));
    assert_eq!(plan_move_component(&comps, &links, 100, 5), Err(ProjectEditError::ComponentInstanceNotFound));
}
