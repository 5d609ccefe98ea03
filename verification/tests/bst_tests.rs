use chatrelay::bst::BST as SimpleBST;
use chatrelay::bst_generic::BST;

#[test]
fn first_test_insert_search() {
    let mut some_bst = SimpleBST::new();
    println!("-------------------------------");
    println!("Empty BST");
    println!("{:#?}", some_bst);
    println!("-------------------------------");

    some_bst.insert(3);
    assert_eq!(some_bst.search(3), true);
    println!("-------------------------------");
    println!("Add single node 3 to the BST. Current nodes: 3");
    println!("{:#?}", some_bst);
    println!("-------------------------------");

    some_bst.insert(1);
    println!("-------------------------------");
    assert_eq!(some_bst.search(1), true);
    println!("Add single node 1 to the BST. Current nodes: 1, 3");
    println!("{:#?}", some_bst);
    println!("-------------------------------");

    some_bst.insert(0);
    some_bst.insert(2);
    assert_eq!(some_bst.search(0), true);
    assert_eq!(some_bst.search(2), true);
    println!("-------------------------------");
    println!("Add single node 0, 2 to the BST. Current nodes: 0, 1, 2, 3");
    println!("{:#?}", some_bst);
    println!("-------------------------------");

    some_bst.insert(6);
    assert_eq!(some_bst.search(6), true);
    println!("-------------------------------");
    println!("Add single node 6 to the BST. Current nodes: 0, 1, 2, 3, 6");
    println!("{:#?}", some_bst);
    println!("-------------------------------");

    assert_eq!(some_bst.search(5), false);
    println!("-------------------------------");
    println!("Search a node not in the BST: 5");
    println!("{:#?}", some_bst);
    println!("-------------------------------");

    some_bst.insert(5);
    assert_eq!(some_bst.search(5), true);
    println!("-------------------------------");
    println!("Add single node 5 to the BST. Current nodes: 0, 1, 2, 3, 5, 6");
    println!("{:#?}", some_bst);
    println!("-------------------------------");

    println!("-------------------------------");
    println!("Insert a node previous inserted(5) should return false");
    assert_eq!(some_bst.insert(5), false);
    println!("-------------------------------");
}

#[test]
fn second_test_insert_search() {
    let mut some_bst: BST<i32> = BST::new();
    println!("-------------------------------");
    println!("Empty BST");
    println!("{:#?}", some_bst);
    println!("-------------------------------");

    some_bst.insert(3);
    assert_eq!(some_bst.search(3), true);
    println!("-------------------------------");
    println!("Add single node 3 to the BST. Current nodes: 3");
    println!("{:#?}", some_bst);
    println!("-------------------------------");

    some_bst.insert(1);
    println!("-------------------------------");
    assert_eq!(some_bst.search(1), true);
    println!("Add single node 1 to the BST. Current nodes: 1, 3");
    println!("{:#?}", some_bst);
    println!("-------------------------------");

    some_bst.insert(0);
    some_bst.insert(2);
    assert_eq!(some_bst.search(0), true);
    assert_eq!(some_bst.search(2), true);
    println!("-------------------------------");
    println!("Add single node 0, 2 to the BST. Current nodes: 0, 1, 2, 3");
    println!("{:#?}", some_bst);
    println!("-------------------------------");

    some_bst.insert(6);
    assert_eq!(some_bst.search(6), true);
    println!("-------------------------------");
    println!("Add single node 6 to the BST. Current nodes: 0, 1, 2, 3, 6");
    println!("{:#?}", some_bst);
    println!("-------------------------------");

    assert_eq!(some_bst.search(5), false);
    println!("-------------------------------");
    println!("Search a node not in the BST: 5");
    println!("{:#?}", some_bst);
    println!("-------------------------------");

    some_bst.insert(5);
    assert_eq!(some_bst.search(5), true);
    println!("-------------------------------");
    println!("Add single node 5 to the BST. Current nodes: 0, 1, 2, 3, 5, 6");
    println!("{:#?}", some_bst);
    println!("-------------------------------");

    println!("-------------------------------");
    println!("Insert a node previous inserted(5) should return false");
    assert_eq!(some_bst.insert(5), false);
    println!("-------------------------------");
}

#[test]
fn test_intoiter() {
    let mut bst = BST::new();
    bst.insert(1);
    bst.insert(2);
    bst.insert(3);

    let mut iterator = bst.into_iter();
    assert_eq!(iterator.next(), Some(1));
    assert_eq!(iterator.next(), Some(2));
    assert_eq!(iterator.next(), Some(3));
    assert_eq!(iterator.next(), None);
}

#[test]
fn test_iter() {
    let mut bst = BST::new();
    bst.insert(2);
    bst.insert(1);
    bst.insert(3);

    let mut iterator = bst.iter();
    assert_eq!(iterator.next(), Some(&2));
    assert_eq!(iterator.next(), Some(&3));
    assert_eq!(iterator.next(), None);
}

#[test]
fn test_iter_mut() {
    let mut bst = BST::new();
    bst.insert(2);
    bst.insert(1);
    bst.insert(3);

    let mut iterator = bst.iter_mut();
    assert_eq!(iterator.next(), Some(&mut 2));
    assert_eq!(iterator.next(), Some(&mut 3));
    assert_eq!(iterator.next(), None);
}

#[test]
fn test_three_kinds_forloops() {
    let mut bst = BST::new();
    bst.insert(1);
    bst.insert(2);
    bst.insert(3);

    let mut by_value = bst.into_iter();
    while let Some(elt) = by_value.next() {
        println!("{}", elt);
    }

    let mut bst = BST::new();
    bst.insert(1);
    bst.insert(2);
    bst.insert(3);

    let mut by_ref = bst.iter();
    while let Some(elt) = by_ref.next() {
        println!("{}", elt);
    }

    let mut bst = BST::new();
    bst.insert(1);
    bst.insert(2);
    bst.insert(3);

    let mut by_mut = bst.iter_mut();
    while let Some(elt) = by_mut.next() {
        println!("{}", elt);
    }
}
