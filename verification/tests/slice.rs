use tools::iter::StreamingIterator;
use tools::slice::{subslice_offset, SliceTools, VecTools};

#[test]
fn test_in_place() {
    let mut v = vec![0, 1, 2, 3, 4, 5, 6, 7];
    let (ptr, cap) = (v.as_ptr(), v.capacity());
    v.in_place(|x| 3..x.len());
    assert_eq!(v, [3, 4, 5, 6, 7]);
    assert_eq!(v.as_ptr(), ptr);
    assert_eq!(v.capacity(), cap);
}

#[test]
fn test_promote() {
    let mut v = vec![0, 1, 2, 3, 4, 5, 6, 7];
    let (a, b) = v.promote(|x| (0..3, 3..x.len()));
    assert_eq!(a, [0, 1, 2]);
    assert_eq!(b, [3, 4, 5, 6, 7]);
}

#[test]
fn test_swap_remove() {
    let mut a = [0, 1, 2, 3, 4, 5];
    let (two, rest) = a.swap_remove(2);
    assert_eq!(*two, 2);
    assert_eq!(rest, [0, 1, 5, 3, 4]);
}

#[test]
fn test_rest_iter() {
    let mut a = [0, 1, 2, 3];
    {
        let mut it = a.remove_iter();
        while let Some((i, rest)) = it.next_streaming() {
            assert_eq!(rest, match *i {
                0 => [3, 1, 2],
                1 => [0, 3, 2],
                2 => [0, 1, 3],
                3 => [0, 1, 2],
                _ => unreachable!(),
            });
        }
    }
    assert_eq!(a, [0, 1, 2, 3]);
}

#[test]
fn offset_counts_items() {
    assert_eq!(subslice_offset(&(0..8), &(3..8), 1), 3);
    assert_eq!(subslice_offset(&(0..8), &(0..0), 1), 0);
    assert_eq!(subslice_offset(&(0..8), &(8..8), 1), 8);
    // views given by addresses, with items of eight bytes
    assert_eq!(subslice_offset(&(4096..4160), &(4112..4128), 8), 2);
    assert_eq!(subslice_offset(&(4096..4160), &(4096..4160), 8), 0);
    assert_eq!(subslice_offset(&(4096..4160), &(4152..4160), 8), 7);
}

#[test]
fn in_place_inner_view() {
    let mut v = vec![10, 11, 12, 13, 14, 15];
    let (ptr, cap) = (v.as_ptr(), v.capacity());
    v.in_place(|_| 2..4);
    assert_eq!(v, [12, 13]);
    assert_eq!(v.as_ptr(), ptr);
    assert_eq!(v.capacity(), cap);
}

#[test]
fn in_place_views_that_overlap_their_target() {
    // the view starts within the stretch that it moves to
    let mut v = vec![0, 1, 2, 3, 4, 5, 6, 7];
    v.in_place(|_| 1..8);
    assert_eq!(v, [1, 2, 3, 4, 5, 6, 7]);
    let mut v = vec![0, 1, 2, 3, 4, 5, 6, 7];
    v.in_place(|_| 2..5);
    assert_eq!(v, [2, 3, 4]);
}

#[test]
fn in_place_edges() {
    let mut v = vec![1, 2, 3];
    v.in_place(|x| 0..x.len());
    assert_eq!(v, [1, 2, 3]);
    v.in_place(|_| 0..2);
    assert_eq!(v, [1, 2]);
    let cap = v.capacity();
    v.in_place(|_| 1..1);
    assert_eq!(v, []);
    assert_eq!(v.capacity(), cap);
    let mut e: Vec<i32> = Vec::new();
    e.in_place(|_| 0..0);
    assert_eq!(e, []);
}

#[test]
fn in_place_selector_sees_the_items() {
    let mut v = vec![0, 0, 5, 6, 0];
    v.in_place(|x| {
        let start = x.iter().position(|i| *i != 0).unwrap();
        let end = x.iter().rposition(|i| *i != 0).unwrap() + 1;
        start..end
    });
    assert_eq!(v, [5, 6]);
}

#[test]
fn in_place_items_that_own() {
    let mut v = vec![String::from("a"), String::from("b"), String::from("c")];
    v.in_place(|_| 1..3);
    assert_eq!(v, ["b", "c"]);
}

#[test]
fn promote_orders_the_views() {
    let mut v = vec![0, 1, 2, 3, 4, 5, 6, 7];
    let (a, b) = v.promote(|_| (5..7, 1..3));
    assert_eq!(a, [1, 2]);
    assert_eq!(b, [5, 6]);
}

#[test]
fn promote_writes_reach_their_view_only() {
    let mut v = vec![0, 1, 2, 3, 4, 5, 6, 7];
    {
        let (a, b) = v.promote(|_| (1..3, 5..7));
        a[0] = 10;
        a[1] = 20;
        b[1] = 60;
    }
    assert_eq!(v, [0, 10, 20, 3, 4, 5, 60, 7]);
    {
        let (a, b) = v.promote(|_| (4..8, 0..4));
        for x in a.iter_mut() {
            *x = 1;
        }
        for x in b.iter_mut() {
            *x = 2;
        }
    }
    assert_eq!(v, [1, 1, 1, 1, 2, 2, 2, 2]);
}

#[test]
fn promote_edges() {
    let mut v = vec![1, 2, 3];
    {
        let (a, b) = v.promote(|_| (0..0, 0..3));
        assert_eq!(a, []);
        assert_eq!(b, [1, 2, 3]);
    }
    {
        let (a, b) = v.promote(|_| (1..1, 1..1));
        assert_eq!(a, []);
        assert_eq!(b, []);
    }
    {
        let (a, b) = v.promote(|_| (3..3, 0..1));
        assert_eq!(a, [1]);
        assert_eq!(b, []);
    }
    let mut e: [i32; 0] = [];
    let (a, b) = e.promote(|_| (0..0, 0..0));
    assert_eq!(a, []);
    assert_eq!(b, []);
}

#[test]
fn swap_remove_edges() {
    let mut one = [9];
    {
        let (item, rest) = one.swap_remove(0);
        assert_eq!(*item, 9);
        assert_eq!(rest, []);
    }
    let mut a = [0, 1, 2];
    {
        let (item, rest) = a.swap_remove(2);
        assert_eq!(*item, 2);
        assert_eq!(rest, [0, 1]);
    }
    assert_eq!(a, [0, 1, 2]);
    {
        let (item, rest) = a.swap_remove(0);
        assert_eq!(*item, 0);
        assert_eq!(rest, [2, 1]);
        *item = 7;
        rest[0] = 8;
    }
    assert_eq!(a, [8, 1, 7]);
}

#[test]
fn remove_iter_pulls_each_item_once() {
    let before = [5, 3, 5, 8, 1];
    let mut a = before;
    let mut pulls = 0;
    {
        let mut it = a.remove_iter();
        while let Some((item, rest)) = it.next_streaming() {
            assert_eq!(*item, before[pulls]);
            // the rest holds the other items, in some order
            let mut others = before.to_vec();
            others.remove(pulls);
            others.sort();
            let mut rest = rest.to_vec();
            rest.sort();
            assert_eq!(rest, others);
            pulls += 1;
        }
        // it stays at the end
        assert!(it.next_streaming().is_none());
        assert!(it.next_streaming().is_none());
    }
    assert_eq!(pulls, before.len());
    assert_eq!(a, before);
}

#[test]
fn remove_iter_edges() {
    let mut e: [i32; 0] = [];
    {
        let mut it = e.remove_iter();
        assert!(it.next_streaming().is_none());
        assert!(it.next_streaming().is_none());
    }
    let mut one = [4];
    {
        let mut it = one.remove_iter();
        {
            let (item, rest) = it.next_streaming().unwrap();
            assert_eq!(*item, 4);
            assert_eq!(rest, []);
        }
        assert!(it.next_streaming().is_none());
    }
    assert_eq!(one, [4]);
}

#[test]
fn remove_iter_left_early() {
    // an iterator that is given up after a pull leaves the item of that pull
    // at the end
    let mut a = [0, 1, 2, 3];
    {
        let mut it = a.remove_iter();
        it.next_streaming();
        it.next_streaming();
    }
    assert_eq!(a, [0, 3, 2, 1]);
}

#[test]
fn remove_iter_writes_stay() {
    let mut a = [1, 2, 3];
    {
        let mut it = a.remove_iter();
        while let Some((item, rest)) = it.next_streaming() {
            *item += rest.len() as i32 * 10;
        }
    }
    assert_eq!(a, [21, 22, 23]);
}

#[test]
fn remove_iter_counts_its_pulls() {
    let mut a = [7, 8, 9, 10];
    assert_eq!(a.remove_iter().count(), 4);
    assert_eq!(a, [7, 8, 9, 10]);
    {
        let mut it = a.remove_iter();
        it.next_streaming();
        it.next_streaming();
        assert_eq!(it.count(), 2);
    }
    assert_eq!(a, [7, 8, 9, 10]);
    {
        let mut it = a.remove_iter();
        while it.next_streaming().is_some() {}
        assert_eq!(it.count(), 0);
    }
    assert_eq!(a, [7, 8, 9, 10]);
    let mut e: [i32; 0] = [];
    assert_eq!(e.remove_iter().count(), 0);
}

#[test]
fn remove_iter_through_the_trait() {
    let mut a = [1, 2, 3];
    let mut seen = Vec::new();
    {
        let mut it = a.remove_iter();
        while let Some((item, rest)) = StreamingIterator::next_streaming(&mut it) {
            seen.push((*item, rest.to_vec()));
        }
    }
    assert_eq!(seen, vec![(1, vec![3, 2]), (2, vec![1, 3]), (3, vec![1, 2])]);
    assert_eq!(a, [1, 2, 3]);
}
