use mpdelta::signal_queue::{copy_region, receive_into, release_front, send_into, signal_queue, RingState, SplitOwnershipArray, QUEUE_SIZE};

#[test]
fn test_signal_queue() {
    let (mut sender, mut receiver) = signal_queue::<i32>(0);
    assert!(sender.send_signal(&[1, 2, 3]).unwrap() < QUEUE_SIZE - 3);
    assert!(sender.send_signal(&[4, 5, 6]).unwrap() < QUEUE_SIZE - 6);
    assert!(sender.send_signal(&[7, 8, 9]).unwrap() < QUEUE_SIZE - 9);
    let mut data = [0; 4];
    receiver.receive_signal(&mut data);
    assert_eq!(data, [1, 2, 3, 4]);
    receiver.receive_signal(&mut data);
    assert_eq!(data, [5, 6, 7, 8]);
    receiver.receive_signal(&mut data);
    assert_eq!(data, [9, 0, 0, 0]);
    assert!(sender.send_signal(&[10, 11, 12, 13, 14, 15, 16]).unwrap() < QUEUE_SIZE - 7);
    receiver.receive_signal(&mut data);
    assert_eq!(data, [13, 14, 15, 16]);
    assert!(sender.send_signal(&[17, 18, 19]).unwrap() < QUEUE_SIZE - 6);
    receiver.receive_signal(&mut data);
    assert_eq!(data, [17, 18, 19, 0]);
    assert!(sender.send_signal(&[20, 21, 22]).unwrap() < QUEUE_SIZE - 3);
    receiver.receive_signal(&mut data);
    assert_eq!(data, [21, 22, 0, 0]);
    assert!(sender.send_signal(&[23, 24, 25]).unwrap() < QUEUE_SIZE - 3);
    receiver.receive_signal(&mut data);
    assert_eq!(data, [25, 0, 0, 0]);
    receiver.receive_signal(&mut data);
    assert_eq!(data, [0, 0, 0, 0]);
    sender.flush();
    sender.flush();
    assert!(sender.send_signal(&[100, 101, 102]).unwrap() < QUEUE_SIZE - 3);
    receiver.receive_signal(&mut data);
    assert_eq!(data, [100, 101, 102, 0]);
    sender.flush();
    assert!(sender.send_signal(&[1000; QUEUE_SIZE - 2]).unwrap() < 1);
    sender.send_signal(&[1000; 1]).unwrap_err();
    receiver.receive_signal(&mut [0; QUEUE_SIZE / 4]);
    sender.send_signal(&[1000; QUEUE_SIZE / 8]).unwrap();
}

#[test]
fn test_split_ownership_array() {
    let (mut left, mut right) = SplitOwnershipArray::<i32, 8>::new(|| 0);
    assert_eq!(left.get_slice_mut(1), [vec![0], vec![]]);
    assert_eq!(right.get_slice_mut(7), [vec![0; 7], vec![]]);
    let _x = right.get_slice_mut(3);
    assert!(right.write_slice(&[1, 2, 3]));
    assert_eq!(right.release_array(7), Err(()));
    assert_eq!(right.release_array(3), Ok(()));
    assert_eq!(left.get_slice_mut(4), [vec![0, 1, 2, 3], vec![]]);
    assert_eq!(right.get_slice_mut(4), [vec![0; 4], vec![]]);
    assert_eq!(left.release_array(4), Err(()));
    assert_eq!(left.get_slice_mut(4), [vec![0, 1, 2, 3], vec![]]);
    assert_eq!(right.get_slice_mut(4), [vec![0; 4], vec![]]);
}

#[test]
fn split_ownership_array_wraps_around() {
    let (mut left, mut right) = SplitOwnershipArray::<u8, 4>::new(|| 9);
    assert!(right.write_slice(&[1, 2]));
    assert_eq!(right.release_array(2), Ok(()));
    assert_eq!(left.release_array(2), Ok(()));
    assert_eq!(right.get_slice_mut(3), [vec![9], vec![9, 1]]);
    assert!(right.write_slice(&[5, 6]));
    assert_eq!(right.release_array(2), Ok(()));
    assert_eq!(left.get_slice_mut(3), [vec![2, 5], vec![6]]);
    assert!(!right.write_slice(&[0; 4]));
}

#[test]
fn signal_queue_full_ring_refuses() {
    let (mut sender, _receiver) = signal_queue::<i16>(0);
    assert_eq!(sender.send_signal(&[7; QUEUE_SIZE - 1]), Err(()));
    assert_eq!(sender.send_signal(&[7; QUEUE_SIZE - 2]), Ok(0));
    assert_eq!(sender.send_signal(&[]), Ok(0));
    assert_eq!(sender.send_signal(&[7]), Err(()));
}

#[test]
fn signal_queue_flush_drops_pending_samples() {
    let (mut sender, mut receiver) = signal_queue::<i32>(-1);
    sender.send_signal(&[1, 2, 3]).unwrap();
    sender.flush();
    sender.send_signal(&[4]).unwrap();
    let mut data = [0; 3];
    receiver.receive_signal(&mut data);
    assert_eq!(data, [4, -1, -1]);
}

#[test]
fn ring_state_hands_samples_over_in_order() {
    let mut ring = RingState::new(8, || 0i32);
    assert_eq!(send_into(&mut ring, true, &[1, 2, 3], 8), Ok(3));
    let mut dst = [9; 4];
    let skip = receive_into(&mut ring, false, 1, &mut dst, 0, 8);
    assert_eq!(dst, [1, 2, 3, 0]);
    assert_eq!(skip, 2);
    assert_eq!(send_into(&mut ring, true, &[7; 7], 8), Err(()));
}

#[test]
fn ring_state_release_trace() {
    let mut ring = RingState::new(8, || 0i32);
    assert_eq!(copy_region(&ring, false, 1, 8), [vec![0], vec![]]);
    assert_eq!(release_front(&mut ring, true, 7, 8), Err(()));
    assert_eq!(release_front(&mut ring, true, 3, 8), Ok(()));
    assert_eq!(release_front(&mut ring, false, 4, 8), Err(()));
    assert_eq!(release_front(&mut ring, false, 3, 8), Ok(()));
}

#[test]
fn ring_state_pays_back_padded_samples() {
    let mut ring = RingState::new(16, || 0i32);
    assert!(send_into(&mut ring, true, &[1, 2, 3], 16).is_ok());
    assert!(send_into(&mut ring, true, &[4, 5, 6], 16).is_ok());
    assert!(send_into(&mut ring, true, &[7, 8, 9], 16).is_ok());
    let mut d = [0; 4];
    let mut skip = receive_into(&mut ring, false, 1, &mut d, 0, 16);
    assert_eq!(d, [1, 2, 3, 4]);
    skip = receive_into(&mut ring, false, skip, &mut d, 0, 16);
    assert_eq!(d, [5, 6, 7, 8]);
    skip = receive_into(&mut ring, false, skip, &mut d, 0, 16);
    assert_eq!(d, [9, 0, 0, 0]);
    assert_eq!(skip, 4);
    assert!(send_into(&mut ring, true, &[10, 11, 12, 13, 14, 15, 16], 16).is_ok());
    skip = receive_into(&mut ring, false, skip, &mut d, 0, 16);
    assert_eq!(d, [13, 14, 15, 16]);
    assert_eq!(skip, 1);
}
