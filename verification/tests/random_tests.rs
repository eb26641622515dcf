use claudiofsr_lib::random::get_random_integer;
use claudiofsr_lib::random::get_random_integer_v2;
use claudiofsr_lib::random::rand;
use claudiofsr_lib::random::shuffle;
use claudiofsr_lib::random::VRandom;
use claudiofsr_lib::MyResult;
use std::collections::HashSet;

#[test]
fn gen_random() {
    let mut rng = VRandom::new(123456789);
    let mut numbers = HashSet::new();

    for n in 1..100 {
        let random = rng.generate();
        println!("random number {n:2}: {random}");

        if !numbers.insert(random) {
            println!("Error: {random}");
            panic!("Not random!");
        }
    }

    println!("numbers: {numbers:#?}");
    assert_eq!(numbers.len(), 99);
}

#[test]
fn vec_shuffle() {
    let mut vec: Vec<u32> = (1..=100).collect();
    shuffle(&mut vec);

    println!("vec: {:?}", vec);
    assert_eq!(vec.len(), 100);
}

#[test]
fn random_integers_v1() {
    let value: u64 = get_random_integer(1, 20);

    println!("integer: {:?}", value);

    let integers: Vec<u64> = (0..100).map(|_| get_random_integer(1, 20)).collect();

    println!("integers: {:?}", integers);

    let condition_a = integers.iter().min() >= Some(&1);
    let condition_b = integers.iter().max() <= Some(&20);

    assert!(condition_a);
    assert!(condition_b);
    assert_eq!(integers.len(), 100);
}

#[test]
fn random_integers_v2() {
    let value: u64 = get_random_integer_v2(1, 20).unwrap();

    println!("integer: {:?}", value);

    let integers: Vec<u64> = (0..100)
        .map(|_| get_random_integer_v2(1, 20))
        .collect::<Result<Vec<u64>, _>>()
        .unwrap();

    println!("integers: {:?}", integers);

    let condition_a = integers.iter().min() >= Some(&1);
    let condition_b = integers.iter().max() <= Some(&20);

    assert!(condition_a);
    assert!(condition_b);
    assert_eq!(integers.len(), 100);
}

#[test]
fn random_integers_v3() {
    let result: MyResult<u64> = get_random_integer_v2(21, 20);
    assert!(result.is_err());

    let error = result.unwrap_err();
    println!("error: {error:?}");
}

#[test]
fn reseeding_restarts_the_stream() {
    let mut rng = VRandom::new(7);
    let first = rng.generate();
    let second = rng.generate();
    assert_ne!(first, second);
    rng.seed(7);
    assert_eq!(rng.generate(), first);
    assert_eq!(rand(), VRandom::new(123456789).generate());
}
