use std::cell::RefCell;
use std::collections::HashSet;
use std::mem;
use std::rc::Rc;

#[test]
fn canonical_collections_test() {
    let a: HashSet<usize> = HashSet::new();
    let v: HashSet<Box<usize>> = HashSet::new();
    let c: Vec<usize> = Vec::new();
    assert!(a.is_empty() && v.is_empty() && c.is_empty());

    println!("abcd: {}", mem::size_of::<HashSet<usize>>());
    println!("abcd: {}", mem::size_of::<&HashSet<usize>>());
}

#[test]
fn canonical_collections_test2() {
    let mut hashset = HashSet::<usize>::new();
    for i in 0..10 {
        hashset.insert(i);
    }

    let mut references = Vec::new();
    for item in hashset.iter() {
        references.push(Rc::new(*item));
    }

    for _r in references.iter() {
        hashset.insert(12);
    }
    assert_eq!(hashset.len(), 11);
}

#[test]
fn test3() {
    let v = RefCell::new(vec![1, 2, 3]);

    let r1 = &v;
    let r2 = &v;
    let mut r3 = v.borrow_mut();
    r3.push(4);
    println!("{:?}", r1);
    println!("{:?}", r2);
    println!("{:?}", r3);
}

#[test]
fn parser_test() {
    let arr = [1, 2, 3, 4, 5];
    assert_eq!(arr.len(), 5);
}
