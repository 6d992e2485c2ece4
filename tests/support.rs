use heap_allocators::size_class::{sfl_index, size_class};
use heap_allocators::{Buddy, Locked};

#[test]
fn size_class_rounds_up() {
    assert_eq!(size_class(0), (1, 0));
    assert_eq!(size_class(1), (1, 0));
    assert_eq!(size_class(2), (2, 1));
    assert_eq!(size_class(3), (4, 2));
    assert_eq!(size_class(120), (128, 7));
    assert_eq!(size_class(257), (512, 9));
    assert_eq!(size_class(512), (512, 9));
}

#[test]
fn sfl_index_maps_ranges() {
    assert_eq!(sfl_index(1), 0);
    assert_eq!(sfl_index(32), 0);
    assert_eq!(sfl_index(33), 1);
    assert_eq!(sfl_index(64), 1);
    assert_eq!(sfl_index(65), 2);
    assert_eq!(sfl_index(148), 3);
    assert_eq!(sfl_index(256), 3);
    assert_eq!(sfl_index(300), 4);
    assert_eq!(sfl_index(512), 4);
    assert_eq!(sfl_index(5000), 4);
}

#[test]
fn locked_guards_an_engine() {
    let locked = Locked::new(Buddy::new());
    let mut engine = locked.mutex().lock().unwrap();
    assert_eq!(engine.allocate(8).unwrap().len, 8);
    assert_eq!(engine.total_size(), 512);
}
