use claudiofsr_lib::dates::date_from_ymd_opt;
use claudiofsr_lib::dates::Date;
use claudiofsr_lib::dates::get_naive_date;
use claudiofsr_lib::num_digits;
use claudiofsr_lib::string_to_vec_of_integers;
use claudiofsr_lib::to_vec_slice;
use claudiofsr_lib::to_vec_string;
use claudiofsr_lib::BytesExtension;
use claudiofsr_lib::Partition;
use std::collections::HashMap;

#[test]
fn partition_values() {
    let vector: Vec<String> = ["aa", "ab", "aa", "aa", "cc", "aa", "ab", "d1"]
        .iter()
        .map(|s| s.to_string())
        .collect();
    println!("vector: {:?}", vector);

    let (u, d) = vector.partition_dup();
    println!("unique: {u:?}");
    println!("duplicate: {d:?}");

    assert_eq!(u, ["cc", "d1"]);
    assert_eq!(d, ["aa", "ab", "aa", "aa", "aa", "ab"]);
}

#[test]
fn partition_integers() {
    let items_a: Vec<u64> = vec![1, 3, 2, 1, 5, 2, 9, 2];
    let (unique, duplicate) = items_a.partition_dup();
    assert_eq!(unique, [3, 5, 9]);
    assert_eq!(duplicate, [1, 2, 1, 2, 2]);

    let items_b: Vec<u64> = vec![1, 3, 2, 5, 9];
    let (unique, duplicate) = items_b.partition_dup();
    assert_eq!(unique, [1, 3, 2, 5, 9]);
    assert_eq!(duplicate, []);
}

#[test]
fn basic_trimming() {
    assert_eq!(b" A ".trim(), b"A");
    assert_eq!(b" AB ".trim(), b"AB");
    assert_eq!(b"A ".trim(), b"A");
    assert_eq!(b"AB ".trim(), b"AB");
    assert_eq!(b" A".trim(), b"A");
    assert_eq!(b" AB".trim(), b"AB");
    assert_eq!(b" A B ".trim(), b"A B");
    assert_eq!(b"A B ".trim(), b"A B");
    assert_eq!(b" A B".trim(), b"A B");
    assert_eq!(b" ".trim(), b"");
    assert_eq!(b"  ".trim(), b"");
    assert_eq!(b"\nA\n".trim(), b"A");
    assert_eq!(b"\nA  B\r\n".trim(), b"A  B");
    assert_eq!(b"\r\nA  B\r\n".trim(), b"A  B");
}

#[test]
fn bytes_to_hex() {
    let text: &str = " foo bar\n";
    let bytes: Vec<u8> = text.bytes().collect();
    assert_eq!(bytes.as_slice().to_hex_string(), "20666f6f206261720a");
    let empty: &[u8] = b"";
    assert_eq!(empty.to_hex_string(), "");
}

#[test]
fn data_dia_mes_ano() {
    for (date, result) in [
        ("18052022", date_from_ymd_opt(2022, 5, 18)),
        ("15121500", date_from_ymd_opt(1500, 12, 15)),
        ("29021972", date_from_ymd_opt(1972, 2, 29)),
        ("18152022", None),
        ("29021973", None),
        ("2921972", None),
        ("2023", None),
        ("", None),
    ] {
        println!("date: '{date}' ; result: {result:?}");
        let naive_date: Option<Date> = get_naive_date(date);
        assert_eq!(naive_date, result);
    }
}

#[test]
fn test_num_digits() {
    let input: u8 = 0;
    let lenght_u8_zero = num_digits(input as u128);
    println!("num_digits({input}) => {lenght_u8_zero}");

    let input: u8 = 255;
    let lenght_u8 = num_digits(input as u128);
    println!("num_digits({input}) => {lenght_u8}");

    let input: u16 = 65535;
    let lenght_u16 = num_digits(input as u128);
    println!("num_digits({input}) => {lenght_u16}");

    let input: u32 = 4294967295;
    let lenght_u32 = num_digits(input as u128);
    println!("num_digits({input}) => {lenght_u32}");

    let input: f64 = 123456.789;
    let lenght_f64 = num_digits((input as usize) as u128);
    println!("num_digits({input}) => {lenght_f64}");

    let input: u64 = 18446744073709551615;
    let lenght_u64 = num_digits(input as u128);
    println!("num_digits({input}) => {lenght_u64}");

    let input: u128 = 340282366920938463463374607431768211455;
    let lenght_u128 = num_digits(input);
    println!("num_digits({input}) => {lenght_u128}");

    assert_eq!(
        (
            lenght_u8_zero,
            lenght_u8,
            lenght_u16,
            lenght_u32,
            lenght_f64,
            lenght_u64,
            lenght_u128
        ),
        (1, 3, 5, 10, 6, 20, 39)
    );
}

#[test]
fn test_group_anagrams() {
    pub fn group_anagrams(strs: Vec<String>) -> Vec<Vec<String>> {
        let mut h = HashMap::new();

        for s in strs {
            let mut key: Vec<char> = s.chars().collect();
            key.sort();
            h.entry(key).or_insert(Vec::new()).push(s);
        }

        h.into_values().collect()
    }

    let text: Vec<String> = ["abc", "bac", "def", "ab", "tuvxz", "abc", "a", "bca", "fed"]
        .iter()
        .map(|s| s.to_string())
        .collect();
    let result = group_anagrams(text);

    println!("result: {result:?}");
}

#[test]
fn macro_svec_works() {
    let v = to_vec_string(&vec!["this", "that", "the other", "123"]);
    let x: Vec<String> = v;
    assert_eq!(
        x,
        [
            String::from("this"),
            String::from("that"),
            String::from("the other"),
            String::from("123"),
        ]
    );
}

#[test]
fn strings_go_back_and_forth() {
    let original: Vec<&str> = vec!["this", "that", "the other"];
    let owned: Vec<String> = to_vec_string(&original);
    let borrowed: Vec<&str> = to_vec_slice(&owned);
    assert_eq!(borrowed, original);
}

#[test]
fn whitespace_separated_integers() {
    let vector1: Vec<u32> = string_to_vec_of_integers("06 12 2022").unwrap();
    let vector2: Vec<u32> = string_to_vec_of_integers(&"06 12 2022".to_string()).unwrap();

    assert_eq!(vector1, vector2);
    assert_eq!(vector1, vec![6, 12, 2022]);

    assert_eq!(string_to_vec_of_integers("").unwrap(), Vec::<u32>::new());
    assert_eq!(string_to_vec_of_integers("+7  8 ").unwrap(), vec![7, 8]);
    assert!(string_to_vec_of_integers("12 foo").is_err());
    assert!(string_to_vec_of_integers("99999999999").is_err());
}

#[test]
fn hashing_bytes_spells_the_digest() {
    let hex = claudiofsr_lib::blake3_hash(b"");
    assert_eq!(
        hex,
        "af1349b9f5f9a1a6a0404dea36dcc9499bcb25c9adc112b7cc9a93cae41f3262"
    );
    let other = claudiofsr_lib::blake3_hash(b"foo bar");
    assert_eq!(other.len(), 64);
    assert_ne!(other, hex);
}
