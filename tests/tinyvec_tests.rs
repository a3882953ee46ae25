use tinyvector::general_heap;
use tinyvector::tinyvec;

#[test]
fn setup() {
    let mut vector: tinyvec<i32, 1024> = tinyvec::new();
    vector.push(1);
    vector.push(2);
    vector.push(3);
    let _ = vector.pop();
    let _ = vector.remove(0);
    assert_eq!(vector.len(), 1);
    assert_eq!(vector.capacity(), (1024, 1024));
}

#[test]
fn length() {
    let mut vector: tinyvec<bool, 1024> = tinyvec::new();
    let _ = vector.pop();
    assert_eq!(vector.len(), 0);
}

#[test]
fn extends() {
    let mut vector: tinyvec<char, 2048> = tinyvec::new();
    let slice = ('a'..='z').collect::<Vec<char>>();
    vector.extend(&slice);
    assert_eq!(vector.len(), 26);
}

#[test]
fn iterate() {
    let mut vector: tinyvec<i32, 4> = tinyvec::new();
    let slice: [i32; 8] = [1, 2, 3, 4, 5, 6, 7, 8];
    vector.extend(&slice);
    assert_eq!(vector.len(), 8);
    assert_eq!(vector.capacity(), (4, general_heap));

    let mut number: i32 = 0;
    while let Some(i) = vector.next() {
        number += i;
    }

    assert_eq!(number, 36);
}

#[test]
fn convert() {
    let mut tinyvecwtor: tinyvec<i128, 200> = tinyvec::new();
    for i in 0..200 {
        tinyvecwtor.push(i as i128);
    }

    let mut vector = Vec::new();
    while let Some(x) = tinyvecwtor.next() {
        vector.push(x);
    }
    assert_eq!(vector.len(), 200);
    for (i, x) in vector.iter().enumerate() {
        assert_eq!(*x, i as i128);
    }
}

#[test]
fn pop_then_remove_keeps_middle() {
    let mut vector: tinyvec<i32, 1024> = tinyvec::new();
    vector.push(1);
    vector.push(2);
    vector.push(3);
    assert_eq!(vector.pop(), 3);
    assert_eq!(vector.remove(0), Some(1));
    assert_eq!(vector.len(), 1);
    assert_eq!(vector.get(0), Some(2));
    assert_eq!(vector.get(1), None);
}

#[test]
fn length_follows_successful_calls() {
    let mut vector: tinyvec<u8, 2> = tinyvec::new();
    vector.push(10);
    vector.push(20);
    vector.push(30);
    assert_eq!(vector.len(), 3);
    assert_eq!(vector.remove(7), None);
    assert_eq!(vector.len(), 3);
    assert_eq!(vector.pop(), 30);
    assert_eq!(vector.remove(0), Some(10));
    assert_eq!(vector.pop(), 20);
    assert_eq!(vector.len(), 0);
    assert_eq!(vector.pop(), 0);
    assert_eq!(vector.remove(0), None);
    assert_eq!(vector.len(), 0);
}

#[test]
fn push_then_get_last() {
    let mut vector: tinyvec<i64, 3> = tinyvec::new();
    vector.push(-42);
    assert_eq!(vector.get(vector.len() - 1), Some(-42));
    for x in 0..5 {
        vector.push(x * 7);
        assert_eq!(vector.get(vector.len() - 1), Some(x * 7));
    }
}

#[test]
fn boundary_crossing() {
    let mut vector: tinyvec<u32, 3> = tinyvec::new();
    vector.push(5);
    vector.push(6);
    vector.push(7);
    assert_eq!(vector.get(3), None);
    vector.push(8);
    assert_eq!(vector.len(), 4);
    assert_eq!(vector.get(3), Some(8));
    let (inline, spill) = vector.capacity();
    assert_eq!(inline, 3);
    assert!(spill >= 1);
}

#[test]
fn remove_inline_with_spill_in_use() {
    let mut vector: tinyvec<i32, 4> = tinyvec::new();
    vector.extend(&[1, 2, 3, 4, 5, 6, 7]);
    assert_eq!(vector.remove(1), Some(2));
    assert_eq!(vector.len(), 6);
    let expected = [1, 3, 4, 5, 6, 7];
    for (i, x) in expected.iter().enumerate() {
        assert_eq!(vector.get(i), Some(*x));
    }
    assert_eq!(vector.get(6), None);
    assert_eq!(vector.remove(3), Some(5));
    assert_eq!(vector.get(3), Some(6));
    assert_eq!(vector.pop(), 7);
    assert_eq!(vector.to_string(), "[ 1, 3, 4, 6 ]");
}

#[test]
fn remove_from_spill() {
    let mut vector: tinyvec<i32, 2> = tinyvec::new();
    vector.extend(&[10, 20, 30, 40, 50]);
    assert_eq!(vector.remove(3), Some(40));
    assert_eq!(vector.len(), 4);
    assert_eq!(vector.get(2), Some(30));
    assert_eq!(vector.get(3), Some(50));
    assert_eq!(vector.remove(4), None);
}

#[test]
fn remove_last_inline_slot() {
    let mut vector: tinyvec<i32, 3> = tinyvec::new();
    vector.extend(&[1, 2, 3]);
    assert_eq!(vector.remove(2), Some(3));
    assert_eq!(vector.len(), 2);
    vector.push(9);
    assert_eq!(vector.get(2), Some(9));
}

#[test]
fn pop_on_empty_gives_default() {
    let mut vector: tinyvec<i32, 4> = tinyvec::new();
    assert_eq!(vector.pop(), 0);
    assert_eq!(vector.len(), 0);
    let mut chars: tinyvec<char, 1> = tinyvec::new();
    assert_eq!(chars.pop(), '\0');
    assert_eq!(chars.len(), 0);
}

#[test]
fn pop_across_regions() {
    let mut vector: tinyvec<i32, 2> = tinyvec::new();
    vector.extend(&[1, 2, 3, 4]);
    assert_eq!(vector.pop(), 4);
    assert_eq!(vector.pop(), 3);
    assert_eq!(vector.pop(), 2);
    assert_eq!(vector.pop(), 1);
    assert_eq!(vector.len(), 0);
}

#[test]
fn iteration_is_not_restarted() {
    let mut vector: tinyvec<i32, 2> = tinyvec::new();
    vector.extend(&[4, 5, 6]);
    assert_eq!(vector.next(), Some(4));
    assert_eq!(vector.next(), Some(5));
    assert_eq!(vector.next(), Some(6));
    assert_eq!(vector.next(), None);
    assert_eq!(vector.next(), None);
    assert_eq!(vector.len(), 3);
}

#[test]
fn renders_elements() {
    let mut vector: tinyvec<i32, 2> = tinyvec::new();
    assert_eq!(vector.to_string(), "[ ]");
    vector.push(7);
    assert_eq!(vector.to_string(), "[ 7 ]");
    vector.extend(&[-1, 30]);
    assert_eq!(vector.to_string(), "[ 7, -1, 30 ]");
}

#[test]
fn zero_inline_capacity_spills_everything() {
    let mut vector: tinyvec<u8, 0> = tinyvec::new();
    vector.extend(&[1, 2, 3]);
    assert_eq!(vector.len(), 3);
    assert_eq!(vector.get(0), Some(1));
    assert_eq!(vector.remove(0), Some(1));
    assert_eq!(vector.get(0), Some(2));
    assert_eq!(vector.pop(), 3);
    assert_eq!(vector.capacity().0, 0);
}
