use queues::chase_lev_deque;
use queues::mpmc_bounded_queue;
use queues::spsc_lifo;
use queues::sync::Place;
use queues::tsigas_zhang_queue;
use queues::work_queue;

#[test]
fn a_place_gives_its_state_once() {
    let mut place = Place::new(spsc_lifo::State::<u8>::new());
    let mut state = place.take().expect("the place holds a state");
    assert!(place.take().is_none());
    state.push(3);
    place.put(state);
    let mut state = place.take().expect("the state was put back");
    assert_eq!(state.pop(), Some(3));
}

#[test]
fn bounded_queue_in_a_place() {
    let mut place = Place::new(mpmc_bounded_queue::State::<u8>::with_capacity(2));
    assert_eq!(mpmc_bounded_queue::offer_in(&mut place, 1), None);
    assert_eq!(mpmc_bounded_queue::offer_in(&mut place, 2), None);
    assert_eq!(mpmc_bounded_queue::offer_in(&mut place, 3), Some(3));
    assert_eq!(mpmc_bounded_queue::pop_in(&mut place), Some(1));
    assert_eq!(mpmc_bounded_queue::pop_in(&mut place), Some(2));
    assert_eq!(mpmc_bounded_queue::pop_in(&mut place), None);

    let _ = place.take();
    assert_eq!(mpmc_bounded_queue::offer_in(&mut place, 4), Some(4));
    assert_eq!(mpmc_bounded_queue::pop_in(&mut place), None);
    assert!(place.take().is_none());
}

#[test]
fn queue_of_boxes_in_a_place() {
    let mut place = Place::new(tsigas_zhang_queue::Store::<u8>::with_capacity(1));
    assert_eq!(tsigas_zhang_queue::offer_in(&mut place, Box::new(1)), None);
    assert_eq!(tsigas_zhang_queue::offer_in(&mut place, Box::new(2)), Some(Box::new(2)));
    assert_eq!(tsigas_zhang_queue::pop_in(&mut place), Some(Box::new(1)));
    assert_eq!(tsigas_zhang_queue::pop_in(&mut place), None);

    let _ = place.take();
    assert_eq!(tsigas_zhang_queue::offer_in(&mut place, Box::new(3)), Some(Box::new(3)));
    assert_eq!(tsigas_zhang_queue::pop_in(&mut place), None);
}

#[test]
fn node_queue_in_a_place() {
    let mut place = Place::new(spsc_lifo::State::<u8>::new());
    assert_eq!(spsc_lifo::push_in(&mut place, 1), None);
    assert_eq!(spsc_lifo::push_in(&mut place, 2), None);
    assert_eq!(spsc_lifo::pop_in(&mut place), Some(2));
    assert_eq!(spsc_lifo::pop_in(&mut place), Some(1));
    assert_eq!(spsc_lifo::pop_in(&mut place), None);

    let _ = place.take();
    assert_eq!(spsc_lifo::push_in(&mut place, 3), Some(3));
    assert_eq!(spsc_lifo::pop_in(&mut place), None);
}

#[test]
fn growing_deque_in_a_place() {
    let mut place = Place::new(chase_lev_deque::Deque::<u8>::new(1));
    assert_eq!(chase_lev_deque::push_in(&mut place, Box::new(1)), None);
    assert_eq!(chase_lev_deque::push_in(&mut place, Box::new(2)), None);
    assert_eq!(chase_lev_deque::push_in(&mut place, Box::new(3)), None);
    assert_eq!(chase_lev_deque::steal_in(&mut place), Ok(Some(Box::new(1))));
    assert_eq!(chase_lev_deque::take_in(&mut place), Some(Box::new(3)));
    assert_eq!(chase_lev_deque::take_in(&mut place), Some(Box::new(2)));
    assert_eq!(chase_lev_deque::take_in(&mut place), None);
    assert_eq!(chase_lev_deque::steal_in(&mut place), Ok(None));

    let _ = place.take();
    assert_eq!(chase_lev_deque::push_in(&mut place, Box::new(4)), Some(Box::new(4)));
    assert_eq!(chase_lev_deque::take_in(&mut place), None);
    assert_eq!(chase_lev_deque::steal_in(&mut place), Ok(None));
}

#[test]
fn a_steal_that_finds_the_lock_taken_is_aborted() {
    assert_eq!(chase_lev_deque::steal_or_abort::<u8>(None), Err(false));
    assert_eq!(chase_lev_deque::steal_or_abort::<u8>(Some(Ok(None))), Ok(None));
    assert_eq!(
        chase_lev_deque::steal_or_abort(Some(Ok(Some(Box::new(5u8))))),
        Ok(Some(Box::new(5u8)))
    );
}

#[test]
fn moved_deque_in_a_place() {
    let mut place = Place::new(work_queue::State::<u8>::with_capacity(2));
    assert_eq!(work_queue::len_in(&mut place), 0);
    assert_eq!(work_queue::push_in(&mut place, 1), None);
    assert_eq!(work_queue::push_in(&mut place, 2), None);
    assert_eq!(work_queue::push_in(&mut place, 3), None);
    assert_eq!(work_queue::len_in(&mut place), 3);
    assert_eq!(work_queue::steal_in(&mut place), Some(1));
    assert_eq!(work_queue::pop_in(&mut place), Some(3));
    assert_eq!(work_queue::pop_in(&mut place), Some(2));
    assert_eq!(work_queue::pop_in(&mut place), None);
    assert_eq!(work_queue::steal_in(&mut place), None);

    let _ = place.take();
    assert_eq!(work_queue::push_in(&mut place, 4), Some(4));
    assert_eq!(work_queue::pop_in(&mut place), None);
    assert_eq!(work_queue::steal_in(&mut place), None);
    assert_eq!(work_queue::len_in(&mut place), 0);
}
