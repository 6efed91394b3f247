use containers::lists::fifo::Fifo;

#[test]
fn add_element() {
    let mut fifo = Fifo::new();
    fifo.push(1);
    assert_eq!(fifo.length(), 1);
    assert_eq!(fifo.front(), Some(&1));
    assert_eq!(fifo.back(), Some(&1));
}

#[test]
fn add_more_elements() {
    let mut fifo = Fifo::new();
    fifo.push(1);
    fifo.push(2);
    assert_eq!(fifo.length(), 2);
    assert_eq!(fifo.front(), Some(&1));
    assert_eq!(fifo.back(), Some(&2));
}

#[test]
fn remove_last_element_from_empty_fifo() {
    let mut fifo: Fifo<i32> = Fifo::new();
    let _ = fifo.pop();
    assert_eq!(fifo.length(), 0);
    assert_eq!(fifo.front().is_none(), true);
    assert_eq!(fifo.back().is_none(), true);
}

#[test]
fn remove_last_element_from_non_empty_fifo() {
    let mut fifo = Fifo::new();
    fifo.push(1);
    let element = fifo.pop();
    assert_eq!(element, Some(1));
    assert_eq!(fifo.length(), 0);
    assert_eq!(fifo.front().is_none(), true);
    assert_eq!(fifo.back().is_none(), true);
}

#[test]
fn remove_element_from_fifo() {
    let mut fifo = Fifo::new();
    fifo.push(1);
    fifo.push(2);
    fifo.push(3);
    let element = fifo.pop();
    assert_eq!(element, Some(1));
    assert_eq!(fifo.length(), 2);
    assert_eq!(fifo.front(), Some(&2));
    assert_eq!(fifo.back(), Some(&3));

    let element = fifo.pop();
    assert_eq!(element, Some(2));
    assert_eq!(fifo.length(), 1);
    assert_eq!(fifo.front(), Some(&3));
    assert_eq!(fifo.back(), Some(&3));

    let element = fifo.pop();
    assert_eq!(element, Some(3));
    assert_eq!(fifo.length(), 0);
    assert_eq!(fifo.front().is_none(), true);
    assert_eq!(fifo.back().is_none(), true);
}

#[test]
fn fifo_keeps_arrival_order() {
    let mut fifo = Fifo::new();
    for value in [5, 6, 7, 8] {
        fifo.push(value);
    }
    for expected in [5, 6, 7, 8] {
        assert_eq!(fifo.pop(), Some(expected));
    }
    assert_eq!(fifo.pop(), None);
}
