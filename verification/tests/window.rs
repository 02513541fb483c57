use rustics::window::Window;
use std::cmp::min;

// The backing vector, the position of the oldest item, and the position of
// the oldest live item.
fn data<T>(window: &Window<T>) -> (&Vec<T>, usize, usize) {
    window.data()
}

// The position of the oldest item, which is where the next push goes once
// the window is full.
fn current_index<T>(window: &Window<T>) -> usize {
    let (data, oldest, _) = window.data();

    if data.len() < window.size_limit() {
        data.len()
    } else {
        oldest
    }
}

fn simple_window_test() {
    let     window_size = 32;
    let mut window      = Window::<usize>::new(window_size, window_size);

    assert!(window.all_len()  == 0);
    assert!(window.live_len() == 0);

    for i in 0..window_size {
        let (data, oldest, oldest_live) = data(&window);

        assert!(data.len() == i          );
        assert!(oldest     == 0          );
        assert!(oldest     == oldest_live);

        window.push(i);

        assert!(window.all_len()      == i + 1);
        assert!(window.live_len()     == i + 1);
        assert!(data_len(&window)     == i + 1);

        assert!(*window.newest().unwrap() == i);
    }

    let (data_vec, oldest, oldest_live) = data(&window);

    assert!(data_vec.len() == window_size);
    assert!(oldest         == 0          );
    assert!(oldest         == oldest_live);

    for i in 0..window_size {
        assert!(data_vec[i] == i);
    }

    window.clear();

    let (data_vec, oldest, oldest_live) = data(&window);

    assert!(data_vec.len() == 0);
    assert!(oldest         == 0);
    assert!(oldest_live    == 0);

    // Make a new window and test the overwrite case.

    let     live_limit   = window_size / 2;
    let     retain_limit = window_size - live_limit;
    let mut window       = Window::<usize>::new(window_size, live_limit);

    for i in 0..window_size {
        window.push(i);

        assert!(window.all_len() == i + 1);

        if i < live_limit {
            assert!(window.live_len() == i + 1);
        } else {
            assert!(window.live_len() == live_limit);
        }

        let (data, oldest, oldest_live) = data(&window);

        assert!(data.len()    == i + 1);
        assert!(oldest        == 0);
        assert!(data[oldest]  == 0);
        assert!(data[i]       == i);

        if data.len() <= live_limit {
            assert!(oldest_live       == 0);
            assert!(data[oldest_live] == 0);
        } else {
            assert!(oldest_live       == data.len() - live_limit);
            assert!(data[oldest_live] == oldest_live   );
        }
    }

    for i in 0..2 * window_size {
        window.push(i + window_size);

        let (data, oldest, oldest_live) = data(&window);

        assert!(data.len()        == window_size         );
        assert!(data[oldest]      == i + 1               );
        assert!(data[oldest_live] == i + 1 + retain_limit);
        assert!(window.all_len()  == window_size         );
        assert!(window.live_len() == live_limit          );
    }

    for i in 0..window_size {
        let expect = 2 * window_size + i;

        assert!(data(&window).0[i] == expect);
    }

    let mut current_push = 3 * window_size;
    let     oldest_value = data(&window).0[current_index(&window)];
    let     expect       = oldest_value + window_size;

    assert!(current_push == expect);

    // Push more values into the window to test the case where we overwrite
    // an existing value.  Check all the values in the array at every iteration.

    for i in 0..2 * window_size {
        let mut current_index = current_index(&window);
        let     data_vec      = data(&window).0;

        for j in 0..data_vec.len() {
            let expect = 2 * window_size + i + j;

            assert!(data_vec[current_index] == expect);

            current_index =
                if current_index == data_vec.len() - 1 {
                    0
                } else {
                    current_index + 1
                };
        }

        // Push the next value into the window.

        window.push(current_push);
        current_push += 1;
    }
}

fn data_len<T>(window: &Window<T>) -> usize {
    window.data().0.len()
}

fn verify_window(window: &Window<usize>, first_data: usize, verbose: bool) {
    let mut expected = first_data;

    // Test the "all" iterator.

    let mut iter = window.iter_all();

    while let Some(data) = iter.next() {
        if verbose {
            println!("verify_window:  oldest {}, expected {}", *data, expected);
        }

        assert!(*data == expected);

        expected += 1;
    }

    let mut expected = first_data;

    // Now test the "all" indexing.

    for i in 0..window.all_len() {
        let data = window.index_all(i).unwrap();

        assert!(*data == expected);

        expected += 1;
    }

    let size_limit   = window.size_limit();
    let live_limit   = window.live_limit();
    let retain_limit = size_limit - live_limit;
    let length       = data_len(window);

    let first_expected =
        if length >= size_limit {
            first_data + retain_limit
        } else if length <= live_limit {
            first_data
        } else {
            first_data + length - live_limit
        };

    // Test the live iterator.

    let mut expected = first_expected;
    let mut iter     = window.iter_live();

    while let Some(data) = iter.next() {
        if verbose {
            println!("verify_window:  oldest live {}, expected {}", *data, expected);
        }

        assert!(*data == expected);

        expected += 1;
    }

    // Now test the live indexing function.

    let mut expected = first_expected;

    for i in 0..window.live_len() {
        let data = window.index_live(i).unwrap();

        assert!(*data == expected);

        expected += 1;
    }
}

fn sample_usage(verbose: bool) {
    let     size_limit  = 96;
    let     live_limit  = 32;
    let mut window      = Window::<usize>::new(size_limit, live_limit);

    assert!(window.is_empty());

    // First, just fill the array.

    for i in 0..size_limit {
        window.push(i);

        if i == 0 {
            verify_window(&window, 0, true);
        } else {
            verify_window(&window, 0, verbose);
        }
    }

    // Now keep pushing, and make sure that old elements disappear.

    for i in 0..size_limit {
        let next_data = i + size_limit;

        window.push(next_data);

        verify_window(&window, next_data - size_limit + 1, verbose);
    }
}

fn test_small_window() {
    let mut window = Window::<usize>::new(1,1);
    let     limit  = 20;

    for i in 1..=limit {
        window.push(i);

        let newest = window.newest().unwrap();
        assert!(*newest == i);
        assert!(window.all_len() == 1);
        assert!(data_len(&window) == 1);
    }
}

#[test]
fn window_run_tests() {
    simple_window_test();
    sample_usage(true);
    test_small_window();
}

#[test]
fn window_documentation_example() {
    let     size_limit  = 96;
    let     live_limit  = 32;
    let mut window      = Window::<usize>::new(size_limit, live_limit);

    assert!(window.iter_all().next().is_none());
    assert!(window.iter_live().next().is_none());

    for i in 1..=size_limit {
        window.push(i);

        assert!(window.live_len() == min(i, live_limit));
        assert!(window.all_len()  == i);
    }

    let first = window.index_all(0).unwrap();
    assert!(*first == 1);

    let first_live = window.index_live(0).unwrap();
    assert!(*first_live == size_limit - live_limit + 1);

    let mut i    = 1;
    let mut iter = window.iter_all();

    while let Some(value) = iter.next() {
        assert!(*value == i);
        i += 1;
    }

    for i in 0..size_limit {
        let next_data = i + size_limit;

        window.push(next_data);

        assert!(window.live_len() == live_limit);
        assert!(window.all_len()  == size_limit);
    }
}

// A window keeps exactly the newest items: after pushing 1..=n into a window
// of capacity 5, it holds the last five, oldest first.
#[test]
fn window_keeps_newest_items() {
    let mut window = Window::<u32>::new(5, 2);

    for i in 1..=12 {
        window.push(i);
    }

    let mut held = Vec::new();
    let mut iter = window.iter_all();

    while let Some(value) = iter.next() {
        held.push(*value);
    }

    assert_eq!(held, vec![8, 9, 10, 11, 12]);

    let mut live = Vec::new();
    let mut iter = window.iter_live();

    while let Some(value) = iter.next() {
        live.push(*value);
    }

    assert_eq!(live, vec![11, 12]);
    assert_eq!(*window.newest().unwrap(), 12);
    assert!(window.index_live(2).is_none());
    assert!(window.index_all(4).is_some());
}

// When the live limit equals the size limit and the window has wrapped, the
// live scan still returns the items oldest first.
#[test]
fn window_live_scan_after_wrap() {
    let mut window = Window::<u32>::new(4, 4);

    for i in 0..7 {
        window.push(i);
    }

    let mut live = Vec::new();
    let mut iter = window.iter_live();

    while let Some(value) = iter.next() {
        live.push(*value);
    }

    assert_eq!(live, vec![3, 4, 5, 6]);
}

#[test]
fn window_newest_mut_updates_newest() {
    let mut window = Window::<u32>::new(3, 3);

    assert!(window.newest_mut().is_none());

    for i in 0..5 {
        window.push(i);
    }

    *window.newest_mut().unwrap() = 40;

    assert_eq!(*window.newest().unwrap(), 40);
    assert_eq!(*window.index_all(0).unwrap(), 2);
    assert_eq!(*window.index_all(2).unwrap(), 40);

    window.clear();

    assert!(window.is_empty());
    assert!(window.newest().is_none());
}

#[test]
fn window_scan_live_condition() {
    let mut window = Window::<u32>::new(3, 0);

    assert!(window.iter_live().next().is_none());
    window.push(1);

    // A window without live items yields nothing, full or not.

    assert!(window.iter_live().next().is_none());
    assert_eq!(window.iter_all().next(), Some(&1));
    window.push(2);
    window.push(3);
    assert!(window.iter_live().next().is_none());
}

#[test]
fn window_least_and_greatest() {
    let mut window = Window::<i64>::new(3, 2);

    assert_eq!(window.least(), None);
    assert_eq!(window.greatest(), None);

    for sample in [5, -2, 9, 4] {
        window.push(sample);
    }

    // The oldest sample, 5, has left the window.

    assert_eq!(window.least(), Some(-2));
    assert_eq!(window.greatest(), Some(9));
}
