use claudiofsr_lib::unique::IteratorExt;
use claudiofsr_lib::unique::SkipLastIterator;
use claudiofsr_lib::unique::UniqueElements;
use claudiofsr_lib::unique::UniqueIterator;

#[test]
fn unique_values() {
    let mut vector: Vec<u64> = vec![1, 4, 3, 4, 5, 4, 3, 4, 2, 3];
    println!("vector: {:?}", vector);

    vector.unique();
    println!("vector: {:?}", vector);

    assert_eq!(vector, [1, 4, 3, 5, 2]);
}

#[test]
fn remove_duplicates() {
    let mut elements: Vec<u64> = vec![1, 2, 4, 2, 5, 3, 2];
    println!("elements: {elements:?}");

    elements.unique_ordered();
    println!("elements.unique_ordered(): {elements:?}");

    assert_eq!(elements, vec![1, 2, 3, 4, 5])
}

#[test]
fn lazily_filtering_first_occurrences() {
    let numbers: Vec<u64> = vec![1, 3, 2, 2, 5, 2, 3, 4];
    let unique_numbers: Vec<u64> = numbers.get_unique().into_vec();
    assert_eq!(unique_numbers, [1, 3, 2, 5, 4]);

    let empty: Vec<u64> = Vec::new();
    assert_eq!(empty.get_unique().into_vec(), []);

    let mut it = UniqueIterator::new(vec![7, 7, 8]);
    assert_eq!(it.next(), Some(7));
    assert_eq!(it.next(), Some(8));
    assert_eq!(it.next(), None);
    assert_eq!(it.next(), None);
}

#[test]
fn filtering_twice_changes_nothing() {
    let numbers: Vec<u64> = vec![1, 3, 2, 2, 5, 2, 3, 4];
    let once: Vec<u64> = numbers.get_unique().into_vec();
    let twice: Vec<u64> = once.clone().get_unique().into_vec();
    assert_eq!(once, twice);

    let mut in_place: Vec<u64> = vec![1, 3, 2, 2, 5, 2, 3, 4];
    in_place.unique();
    let after_once = in_place.clone();
    in_place.unique();
    assert_eq!(in_place, after_once);
}

#[test]
fn skipping_the_last_element() {
    let data: Vec<u64> = vec![1, 2, 3, 4, 5];
    let kept: Vec<u64> = data.skip_last().into_vec();
    assert_eq!(kept, [1, 2, 3, 4]);

    let mut it = SkipLastIterator::new(vec![1u64, 2]);
    assert_eq!(it.next(), Some(1));
    assert_eq!(it.next(), None);

    let lone = SkipLastIterator::new(vec![9u64]);
    assert_eq!(lone.into_vec(), []);

    let empty = SkipLastIterator::new(Vec::<u64>::new());
    assert_eq!(empty.into_vec(), []);
}
