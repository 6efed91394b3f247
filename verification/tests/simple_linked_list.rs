use containers::lists::simple_linked_list::LinkedList;
use containers::lists::simple_linked_list::LinkedListError;

#[test]
fn create_new_linked_list() {
    let list: LinkedList<i32> = LinkedList::new();
    assert!(list.length() == 0);
}

#[test]
fn add() {
    let mut list = LinkedList::new();

    list.push(31);
    list.push(66);
    list.push(420);

    assert_eq!(list.get_at(0), Ok(&31));
    assert_eq!(list.get_at(1), Ok(&66));
    assert_eq!(list.get_at(2), Ok(&420));
    assert_eq!(list.length(), 3);
}

#[test]
fn add_at() {
    let mut list = LinkedList::new();

    let res = list.add_at(0, 31);
    assert_eq!(res.is_ok(), true);
    assert_eq!(list.get_at(0), Ok(&31));

    let res = list.add_at(1, 66);
    assert_eq!(res.is_ok(), true);
    assert_eq!(list.get_at(0), Ok(&31));
    assert_eq!(list.get_at(1), Ok(&66));

    let res = list.add_at(1, 420);
    assert_eq!(res.is_ok(), true);
    assert_eq!(list.get_at(0), Ok(&31));
    assert_eq!(list.get_at(1), Ok(&420));
    assert_eq!(list.get_at(2), Ok(&66));

    assert_eq!(list.length(), 3);
}

#[test]
fn index_out_of_range() {
    let mut list = LinkedList::new();
    let res = list.add_at(100, 123);

    assert_eq!(res.is_err(), true);
    assert_eq!(res.unwrap_err(), LinkedListError::IndexError(100))
}

#[test]
fn add_at_len() {
    let mut list = LinkedList::new();
    list.push(1);
    list.push(3);

    let n = list.length();
    let res = list.add_at(n, 5);
    assert_eq!(res.is_ok(), true);

    assert_eq!(list.get_at(0), Ok(&1));
    assert_eq!(list.get_at(1), Ok(&3));
    assert_eq!(list.get_at(2), Ok(&5));

    assert_eq!(list.length(), 3);
}

#[test]
fn remove_at() {
    let mut list = LinkedList::new();
    list.push(1);
    list.push(2);
    list.push(3);

    assert_eq!(list.length(), 3);
    let res = list.remove_at(1);
    assert_eq!(list.length(), 2);

    assert_eq!(res, Ok(2));
    assert_eq!(list.get_at(0), Ok(&1));
    assert_eq!(list.get_at(1), Ok(&3));
}

#[test]
fn remove_at_head_and_tail() {
    let mut list = LinkedList::new();
    list.push(1);
    list.push(2);
    list.push(3);

    let head_res = list.remove_at(0);
    assert_eq!(head_res, Ok(1));
    assert_eq!(list.get_at(0), Ok(&2));
    assert_eq!(list.get_at(1), Ok(&3));

    assert_eq!(list.length(), 2);
    let tail_res = list.remove_at(1);
    assert_eq!(list.length(), 1);
    assert_eq!(tail_res, Ok(3));
    assert_eq!(list.get_at(0), Ok(&2));
}

#[test]
fn remove_at_len_index_out_of_range() {
    let mut list = LinkedList::new();
    list.push(1);
    list.push(2);
    list.push(3);

    let n = list.length();
    let res = list.remove_at(n);
    assert_eq!(res.is_err(), true);
    assert_eq!(res.unwrap_err(), LinkedListError::IndexError(n));
}

#[test]
fn remove_from_empty() {
    let mut list: LinkedList<i32> = LinkedList::new();
    let res = list.pop();
    assert_eq!(res.is_err(), true);
    assert_eq!(res.unwrap_err(), LinkedListError::Empty);
}

#[test]
fn get_at() {
    let mut list = LinkedList::new();
    list.push(1);
    list.push(2);
    list.push(3);

    let result = list.get_at(1);
    assert_eq!(result, Ok(&2));
}

#[test]
fn get_at_head_and_tail() {
    let mut list = LinkedList::new();

    list.push(1);
    list.push(2);
    list.push(3);

    let res = list.get_at(0);
    assert_eq!(res, Ok(&1));

    let res = list.get_at(list.length() - 1);
    assert_eq!(res, Ok(&3));
}

#[test]
fn get_element_at_index_out_of_range() {
    let list: LinkedList<i32> = LinkedList::new();

    let res = list.get_at(100);
    assert_eq!(res.is_err(), true);
    assert_eq!(res.unwrap_err(), LinkedListError::IndexError(100));
}

#[test]
fn get_at_len_index_out_of_range() {
    let mut list = LinkedList::new();
    list.push(1);
    list.push(2);
    list.push(3);

    let n = list.length();
    let res = list.get_at(n);
    assert_eq!(res.is_err(), true);
    assert_eq!(res.unwrap_err(), LinkedListError::IndexError(n));
}

#[test]
fn display_trait_list() {
    let mut list = LinkedList::new();
    list.push(1);
    list.push(2);
    list.push(3);

    assert_eq!(list.render(), "1 -> 2 -> 3");
}

#[test]
fn display_empty_list() {
    let list: LinkedList<i32> = LinkedList::new();
    assert_eq!(list.render(), "");
}

#[test]
fn length_tracks_operations() {
    let mut list = LinkedList::new();
    let steps: [i32; 4] = [7, -3, 0, 42];
    for (pos, value) in steps.iter().enumerate() {
        let res = list.add_at(pos, *value);
        assert!(res.is_ok());
        let n = list.length();
        assert_eq!(list.get_at(n), Err(LinkedListError::IndexError(n)));
        assert!(list.get_at(n - 1).is_ok());
    }
    assert_eq!(list.remove_at(2), Ok(0));
    let n = list.length();
    assert_eq!(n, 3);
    assert_eq!(list.get_at(n), Err(LinkedListError::IndexError(n)));
    assert!(list.get_at(n - 1).is_ok());
    assert_eq!(list.pop(), Ok(42));
    let n = list.length();
    assert_eq!(n, 2);
    assert_eq!(list.get_at(n), Err(LinkedListError::IndexError(n)));
    assert!(list.get_at(n - 1).is_ok());
}

#[test]
fn remove_then_add_restores() {
    let mut list = LinkedList::new();
    list.push(1);
    list.push(2);
    list.push(3);

    let removed = list.remove_at(1).unwrap();
    assert_eq!(removed, 2);
    assert_eq!(list.add_at(1, removed), Ok(()));

    assert_eq!(list.length(), 3);
    assert_eq!(list.get_at(0), Ok(&1));
    assert_eq!(list.get_at(1), Ok(&2));
    assert_eq!(list.get_at(2), Ok(&3));
}

#[test]
fn push_preserves_order() {
    let mut list = LinkedList::new();
    list.push(10);
    list.push(20);
    list.push(30);

    assert_eq!(list.get_at(0), Ok(&10));
    assert_eq!(list.get_at(1), Ok(&20));
    assert_eq!(list.get_at(2), Ok(&30));
}

#[test]
fn boundary_on_empty_list() {
    let mut list: LinkedList<i32> = LinkedList::new();
    assert_eq!(list.pop(), Err(LinkedListError::Empty));
    assert_eq!(list.add_at(0, 5), Ok(()));
    assert_eq!(list.length(), 1);
    assert_eq!(list.get_at(0), Ok(&5));
}

#[test]
fn out_of_range_reports_index() {
    let mut empty: LinkedList<i32> = LinkedList::new();
    assert_eq!(empty.add_at(5, 9), Err(LinkedListError::IndexError(5)));

    let mut list = LinkedList::new();
    list.push(1);
    list.push(2);
    list.push(3);
    assert_eq!(list.get_at(100), Err(LinkedListError::IndexError(100)));
}

#[test]
fn display_negative_and_wide_values() {
    let mut list = LinkedList::new();
    list.push(-12);
    list.push(0);
    list.push(345);

    assert_eq!(list.render(), "-12 -> 0 -> 345");
}

#[test]
fn scenario_mixed_operations() {
    let mut list = LinkedList::new();
    list.push(1);
    list.push(2);
    list.push(3);
    assert_eq!(list.length(), 3);
    assert_eq!(list.get_at(0), Ok(&1));
    assert_eq!(list.get_at(1), Ok(&2));
    assert_eq!(list.get_at(2), Ok(&3));

    assert_eq!(list.remove_at(1), Ok(2));
    assert_eq!(list.length(), 2);
    assert_eq!(list.get_at(0), Ok(&1));
    assert_eq!(list.get_at(1), Ok(&3));

    assert_eq!(list.add_at(1, 9), Ok(()));
    assert_eq!(list.get_at(0), Ok(&1));
    assert_eq!(list.get_at(1), Ok(&9));
    assert_eq!(list.get_at(2), Ok(&3));

    assert_eq!(list.pop(), Ok(3));
    assert_eq!(list.length(), 2);
    assert_eq!(list.get_at(0), Ok(&1));
    assert_eq!(list.get_at(1), Ok(&9));
}
