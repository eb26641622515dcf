use claudiofsr_lib::strings::StrExtension;
use claudiofsr_lib::strings::StringExtension;

#[test]
fn test_replace_multiple_whitespaces() {
    let strings: Vec<&str> = vec![
        "🦀",
        " teste",
        "teste ",
        " teste ",
        "  teste",
        "teste  ",
        "  teste  ",
        "tes te",
        "tes  te",
        "tes   te",
        " tes te",
        "tes  te ",
        " tes  te ",
        "  tes te",
        "tes  te  ",
        "  tes  te  ",
        " ",
        "  ",
        "   ",
        "    ",
    ];
    for string in strings {
        let s = ["'", string, "'"].concat();
        println!("{:13} --> '{}'", s, string.replace_multiple_whitespaces());
    }
    let s1 = "tes  te".replace_multiple_whitespaces();
    let s2 = " tes  te".replace_multiple_whitespaces();
    let s3 = "tes  te ".replace_multiple_whitespaces();
    let s4 = " tes  te ".replace_multiple_whitespaces();
    let s5 = "  tes  te".replace_multiple_whitespaces();
    let s6 = "tes  te  ".replace_multiple_whitespaces();
    let s7 = "  tes  te  ".replace_multiple_whitespaces();
    let s8 = "         ".replace_multiple_whitespaces();

    assert_eq!(s1, "tes te");
    assert_eq!(s2, " tes te");
    assert_eq!(s3, "tes te ");
    assert_eq!(s4, " tes te ");
    assert_eq!(s5, " tes te");
    assert_eq!(s6, "tes te ");
    assert_eq!(s7, " tes te ");
    assert_eq!(s8, " ");
}

#[test]
fn test_select_first_digits() {
    let strings: Vec<&str> = vec![
        "1234🦀",
        "1191-1",
        "10845/a",
        "987654Cláudio",
        "1",
        "a",
        "12345",
        "12345___abc",
    ];
    let digits: Vec<&str> = vec!["1234", "1191", "10845", "987654", "1", "", "12345", "12345"];

    for (&string, &digit) in strings.iter().zip(digits.iter()) {
        let s = ["'", string, "'"].concat();
        println!("{:15} --> '{}'", s, string.select_first_digits());
        assert_eq!(string.select_first_digits(), digit);
    }
}

#[test]
fn test_contains_only_digits() {
    let strings: Vec<&str> = vec![
        "🦀", "12345", "12345x", " 12345", " 12345 ", "", " ", "0", "7", "10",
    ];
    for string in strings {
        let s = ["'", string, "'"].concat();
        println!("{:13} --> {}", s, string.contains_only_digits());
    }
    let s1 = "🦀".contains_only_digits();
    let s2 = "12345".contains_only_digits();
    let s3 = "12345x".contains_only_digits();
    let s4 = " 12345".contains_only_digits();
    let s5 = " 12345 ".contains_only_digits();
    let s6 = "".contains_only_digits();
    let s7 = " ".contains_only_digits();
    let s8 = "0".contains_only_digits();
    let s9 = "10".contains_only_digits();

    assert!(!s1);
    assert!(s2);
    assert!(!s3);
    assert!(!s4);
    assert!(!s5);
    assert!(!s6);
    assert!(!s7);
    assert!(s8);
    assert!(s9);
}

#[test]
fn test_chars_count() {
    let strings: Vec<&str> = vec![
        "🦀",
        "12345",
        "Cláudio",
        " Cláudio 🦀 çṕ@",
        "Bom dia おはよう!",
    ];
    for string in strings {
        let s = ["'", string, "'"].concat();
        println!("{} --> {}", s, string.chars_count());
    }
    let s1 = "🦀".chars_count();
    let s2 = "12345".chars_count();
    let s3 = "Cláudio".chars_count();
    let s4 = " Cláudio 🦀 çṕ@".chars_count();
    let s5 = "Bom dia おはよう!".chars_count();

    assert_eq!(s1, 1);
    assert_eq!(s2, 5);
    assert_eq!(s3, 7);
    assert_eq!(s4, 14);
    assert_eq!(s5, 13);
}

#[test]
fn counting_and_classifying_characters() {
    let line1: &str = "|C170|zfoo|bar|zzz|";
    let line2: String = "|C170|zfoo|bar|zzz|".to_string();
    assert_eq!(line1.count_char('|'), 5);
    assert_eq!(line2.as_str().count_char('z'), 4);

    assert!("12345".contains_some_digits());
    assert!("12x45".contains_some_digits());
    assert!(!"foo".contains_some_digits());

    assert!("12345".contains_num_digits(5));
    assert!(!"12x45".contains_num_digits(4));
    assert!(!"foo".contains_num_digits(3));

    assert!("12345".contains_up_to_num_digits(6));
    assert!("12345".contains_up_to_num_digits(5));
    assert!(!"12345".contains_up_to_num_digits(4));
    assert!(!"12x45".contains_up_to_num_digits(4));
    assert!(!"foo".contains_up_to_num_digits(3));

    assert!("123aB".is_ascii_alphanumeric());
    assert!(!"12@45".is_ascii_alphanumeric());
    assert!(!"124藏5".is_ascii_alphanumeric());

    assert!("123aB".is_alphanumeric());
    assert!("12¾45①".is_alphanumeric());
    assert!("124藏5".is_alphanumeric());
    assert!(!"124,5".is_alphanumeric());
}

#[test]
fn cutting_strings_apart() {
    let text: &str = "1234-ab_5ção67__8 9 ";
    assert_eq!(text.remove_non_digits(), "123456789");

    let text: &str = "1234-ab_5ç";
    assert_eq!(text.remove_first_and_last_char(), "234-ab_5");
    assert_eq!("x".remove_first_and_last_char(), "");
    assert_eq!("".remove_first_and_last_char(), "");

    let word = "12345abc678";
    assert_eq!(word.retain_first_digits(), "12345");
    assert_eq!("12345".retain_first_digits(), "");

    let text: &str = "12|34|ab|5|ç678";
    assert_eq!(text.strip_prefix_and_sufix(b'|'), "34|ab|5");
    assert_eq!("no delimiter".strip_prefix_and_sufix(b'|'), "no delimiter");

    let string: String = String::from("♥foo よção♥ bar");
    assert_eq!(string.as_str().get_first_n_chars(10), "♥foo よção♥");
    assert_eq!(string.as_str().get_first_n_chars(14), string);
    assert_eq!(string.as_str().get_last_n_chars(9), "よção♥ bar");
    assert_eq!(string.as_str().get_last_n_chars(14), string);

    assert_eq!("12345".to_digits(), vec![1, 2, 3, 4, 5]);
    assert_eq!("ab1c".to_digits(), [1]);
    assert_eq!("".to_digits(), []);
}

#[test]
fn formatting_registration_codes() {
    assert_eq!("12ABC678901234".format_cnpj(), "12.ABC.678/9012-34");
    assert_eq!("12ABC67890123".format_cnpj(), "12ABC67890123");
    assert_eq!("123ABC78901".format_cpf(), "123.ABC.789-01");
    assert_eq!("123ABC7890@".format_cpf(), "123ABC7890@");
    assert_eq!("2309AB90".format_ncm(), "2309.AB.90");
    assert_eq!("2309AB9".format_ncm(), "2309AB9");
}

#[test]
fn removing_characters_in_place() {
    let mut string = String::from(" for  bar \n");
    string.remove_all_whitespace();
    assert_eq!(string, "forbar");

    let mut string = String::from("for bar bbar");
    string.remove_all_char('b');
    assert_eq!(string, "for ar ar");
}
