use hsm_rs::fixed_vec::FixedVec;
use std::cell::Cell;

#[test]
fn push_pop() {
    let mut v: FixedVec<i32, 3> = FixedVec::new();

    assert_eq!(v.len(), 0);
    assert_eq!(v.pop(), None);

    const TEST_LEN: usize = 3;
    let test: [i32; TEST_LEN] = [1, 2, 3];

    for val in test {
        v.push(val).unwrap();
    }

    let mut expected_size = TEST_LEN;

    assert_eq!(v.len(), expected_size);
    assert_eq!(v.as_slice(), &test);

    for val in test.iter().rev() {
        assert_eq!(v.pop(), Some(*val));

        expected_size -= 1;
        assert_eq!(v.len(), expected_size);
    }

    assert_eq!(v.pop(), None);
}

#[test]
fn overflow() {
    let mut v: FixedVec<i32, 1> = FixedVec::new();

    assert!(v.push(1).is_ok());
    assert!(v.push(2).is_err());

    assert_eq!(v.len(), 1);
}

#[test]
fn clear() {
    let mut v: FixedVec<i32, 4> = FixedVec::new();

    v.push(1).unwrap();
    v.push(2).unwrap();

    v.clear();

    assert_eq!(v.len(), 0);
    assert_eq!(v.pop(), None);
}

struct DropCounter<'a> {
    counter: &'a Cell<usize>,
}

impl<'a> Drop for DropCounter<'a> {
    fn drop(&mut self) {
        let v = self.counter.get();
        self.counter.set(v + 1);
    }
}

#[test]
fn fixed_vec_drop() {
    let counter = Cell::new(0);

    {
        let mut v: FixedVec<DropCounter, 4> = FixedVec::new();

        assert!(v.push(DropCounter { counter: &counter }).is_ok());
        assert!(v.push(DropCounter { counter: &counter }).is_ok());

        assert_eq!(counter.get(), 0);
    }

    // Nothing extra dropped
    assert_eq!(counter.get(), 2);
}

#[test]
fn drop_on_clear() {
    let counter = Cell::new(0);

    {
        let mut v: FixedVec<DropCounter, 4> = FixedVec::new();

        assert!(v.push(DropCounter { counter: &counter }).is_ok());
        assert!(v.push(DropCounter { counter: &counter }).is_ok());

        v.clear();

        assert_eq!(counter.get(), 2);
    }

    // Nothing extra dropped
    assert_eq!(counter.get(), 2);
}

#[test]
fn deref_mut() {
    let mut v: FixedVec<i32, 4> = FixedVec::new();

    v.push(1).unwrap();
    v.push(2).unwrap();

    v.set(0, 10);

    assert_eq!(v.as_slice(), &[10, 2]);
}

#[test]
fn reverse() {
    let mut v: FixedVec<i32, 3> = FixedVec::new();

    const TEST_LEN: usize = 3;
    let test: [i32; TEST_LEN] = [1, 2, 3];

    for val in test {
        v.push(val).unwrap();
    }

    v.reverse();

    for (val, val_rev) in std::iter::zip(v.as_slice().iter(), test.iter().rev()) {
        assert_eq!(*val, *val_rev);
    }
}

#[test]
fn fixed_vec_push_then_pop_restores() {
    let mut v: FixedVec<u8, 2> = FixedVec::new();
    v.push(4).unwrap();
    v.push(9).unwrap();
    assert_eq!(v.push(1), Err(()));
    assert_eq!(v.as_slice(), &[4, 9]);
    assert_eq!(v.pop(), Some(9));
    assert_eq!(v.as_slice(), &[4]);
    assert_eq!(v.last(), Some(&4));
    assert_eq!(v.get(0), Some(&4));
    assert_eq!(v.get(1), None);
    assert!(!v.is_empty());
}
