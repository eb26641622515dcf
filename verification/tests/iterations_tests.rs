use claudiofsr_lib::iterations::IteratorBack;
use claudiofsr_lib::iterations::IteratorExtension;

#[test]
fn iterations_test_empty() {
    let data: Vec<i32> = Vec::new();
    let result = IteratorBack::skip_last(data);
    assert_eq!(result, []);

    let data: Vec<i32> = Vec::new();
    let result = data.skip_back(1);
    assert_eq!(result, []);
}

#[test]
fn iterations_test_single_element() {
    let data = vec![1];
    let result = IteratorBack::skip_last(data);
    assert_eq!(result, []);

    let data = vec![1];
    let result = data.skip_back(0);
    assert_eq!(result, [1]);

    let data = vec![1];
    let result = data.skip_back(1);
    assert_eq!(result, []);
}

#[test]
fn iterations_test_multiple_elements() {
    let data = [1, 2, 3, 4, 5, 6, 7, 8, 9];

    let step: Vec<_> = data.into_iter().skip(1).collect();
    let step = IteratorBack::skip_last(step);
    let step: Vec<_> = step.into_iter().skip(1).collect();
    let step = IteratorBack::skip_last(step);
    let result: Vec<_> = step.into_iter().skip(1).collect();
    assert_eq!(result, [4, 5, 6, 7]);

    let step: Vec<_> = data.into_iter().skip(1).collect();
    let step = step.skip_back(1);
    let step: Vec<_> = step.into_iter().skip(1).collect();
    let step = step.skip_back(2);
    let result: Vec<_> = step.into_iter().skip(1).collect();
    assert_eq!(result, [4, 5, 6]);
}

#[test]
fn iterations_test_split_and_skip_last_and_skip() {
    let line = " | field_1| field_2 |field_3 | ";

    let pieces: Vec<&str> = line.split('|').collect();
    let pieces = IteratorBack::skip_last(pieces);
    let data: Vec<String> = pieces
        .into_iter()
        .skip(1)
        .map(|field| field.trim().to_string())
        .collect();

    assert_eq!(data, ["field_1", "field_2", "field_3"]);
}

#[test]
fn test_empty() {
    let data: Vec<i32> = Vec::new();
    let result = IteratorBack::skip_last(data);
    assert_eq!(result, []);
}

#[test]
fn test_single_element() {
    let data = vec![1];
    let result = IteratorBack::skip_last(data);
    assert_eq!(result, []);
}

#[test]
fn test_multiple_elements() {
    let data = [1, 2, 3, 4, 5, 6, 7, 8, 9];
    let step: Vec<_> = data.into_iter().skip(1).collect();
    let step = IteratorBack::skip_last(step);
    let step: Vec<_> = step.into_iter().skip(1).collect();
    let step = IteratorBack::skip_last(step);
    let result: Vec<_> = step.into_iter().skip(1).collect();
    assert_eq!(result, [4, 5, 6, 7]);
}

#[test]
fn test_split_and_skip_last_and_skip() {
    let line = " | field_1| field_2 |field_3 | ";

    let pieces: Vec<&str> = line.split('|').collect();
    let pieces = IteratorBack::skip_last(pieces);
    let data: Vec<String> = pieces
        .into_iter()
        .skip(1)
        .map(|field| field.trim().to_string())
        .collect();

    assert_eq!(data, ["field_1", "field_2", "field_3"]);
}

#[test]
fn counting_stops_at_the_first_error() {
    let mut items: Vec<Result<u8, String>> = vec![Ok(3), Ok(4), Err(String::from("bad")), Ok(5)];
    let counted = items.try_count();
    assert_eq!(counted, Err(String::from("bad")));

    let mut items: Vec<Result<u8, String>> = vec![Ok(3), Ok(4), Ok(5)];
    let counted = items.try_count();
    assert_eq!(counted, Ok(3));

    let mut items: Vec<Result<u8, String>> = Vec::new();
    let counted = items.try_count();
    assert_eq!(counted, Ok(0));
}
