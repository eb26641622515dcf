use claudiofsr_lib::operations::OperationsExtension;
use claudiofsr_lib::separator::split_and_insert;
use claudiofsr_lib::separator::split_and_insert_alternative;
use claudiofsr_lib::slice::ChunksAtMost;
use claudiofsr_lib::slice::SliceExtension;

#[test]
fn divided_into_approximately_equal_pieces() {
    let data: [char; 5] = ['l', 'o', 'r', 'e', 'm'];
    let pieces: Vec<Vec<char>> = data.chunks_at_most(2).into_chunks();
    assert_eq!(pieces, vec![vec!['l', 'o', 'r'], vec!['e', 'm']]);
    assert_eq!(pieces.len(), 2);

    let data: Vec<usize> = (1..=25).collect();
    let pieces: Vec<Vec<usize>> = data.chunks_at_most(4).into_chunks();
    let expected: Vec<Vec<usize>> = vec![
        vec![1, 2, 3, 4, 5, 6, 7],
        vec![8, 9, 10, 11, 12, 13],
        vec![14, 15, 16, 17, 18, 19],
        vec![20, 21, 22, 23, 24, 25],
    ];
    assert_eq!(pieces, expected);
    assert_eq!(pieces.len(), 4);
}

#[test]
fn degenerate_chunk_counts() {
    let data: [u16; 4] = [3, 67, 0, 9];
    let vector_0: Vec<Vec<u16>> = data.chunks_at_most(0).into_chunks();
    let vector_1: Vec<Vec<u16>> = data.chunks_at_most(1).into_chunks();
    let vector_2: Vec<Vec<u16>> = data.chunks_at_most(2).into_chunks();
    let vector_3: Vec<Vec<u16>> = data.chunks_at_most(3).into_chunks();
    let vector_4: Vec<Vec<u16>> = data.chunks_at_most(4).into_chunks();
    let vector_5: Vec<Vec<u16>> = data.chunks_at_most(5).into_chunks();

    assert!(vector_0.is_empty());
    assert_eq!(vector_1, [vec![3, 67, 0, 9]]);
    assert_eq!(vector_2, [vec![3, 67], vec![0, 9]]);
    assert_eq!(vector_3, [vec![3, 67], vec![0], vec![9]]);
    assert_eq!(vector_4, [vec![3], vec![67], vec![0], vec![9]]);
    assert_eq!(vector_5, vector_4);

    let empty: [u16; 0] = [];
    let chunks: Vec<Vec<u16>> = empty.chunks_at_most(7).into_chunks();
    assert!(chunks.is_empty());
}

#[test]
fn chunks_stay_balanced_for_every_count() {
    let total = 25;
    let my_vec: Vec<usize> = (1..=total).collect();

    for n_pieces in 1..=total {
        let vectors: Vec<Vec<usize>> = my_vec.chunks_at_most(n_pieces).into_chunks();
        assert_eq!(vectors.len(), n_pieces);

        let lengths: Vec<usize> = vectors.iter().map(|v| v.len()).collect();
        let max = lengths.iter().max().unwrap();
        let min = lengths.iter().min().unwrap();
        assert!(max - min <= 1);

        let rebuilt: Vec<usize> = vectors.into_iter().flatten().collect();
        assert_eq!(rebuilt, my_vec);
    }
}

#[test]
fn emitting_chunks_one_by_one() {
    let data: [u8; 5] = [10, 20, 30, 40, 50];
    let mut cursor: ChunksAtMost<u8> = ChunksAtMost::new(&data, 2);
    assert_eq!(cursor.next(), Some(vec![10, 20, 30]));
    assert_eq!(cursor.next(), Some(vec![40, 50]));
    assert_eq!(cursor.next(), None);
    assert_eq!(cursor.next(), None);
}

#[test]
fn inserting_thousands_separators() {
    assert_eq!(split_and_insert("2987954368", '.'), "2.987.954.368");
    assert_eq!(split_and_insert("123", '.'), "123");
    assert_eq!(split_and_insert("1234", '.'), "1.234");
    assert_eq!(split_and_insert("", '.'), "");

    assert_eq!(split_and_insert_alternative("2987954368", '.'), "2.987.954.368");
    assert_eq!(split_and_insert_alternative("123456", ','), "123,456");
}

#[test]
fn assignment_style_arithmetic() {
    let mut count: u64 = 0;
    while count.addition(1) <= 5 {
        println!("count = {count}");
    }
    let result = 2 + count.addition(4);
    assert_eq!(count, 10);
    assert_eq!(result, 12);

    let mut number: i64 = 2;
    let result = 3 + number.multiply(5);
    assert_eq!(number, 10);
    assert_eq!(result, 13);

    let mut number: i64 = 16;
    let result = 7 + number.divide(5);
    assert_eq!(number, 3);
    assert_eq!(result, 10);

    let mut number: i64 = -7;
    number.divide(2);
    assert_eq!(number, -3);

    let mut count: i64 = 5;
    while count.subtraction(1) > 0 {
        println!("count = {count}");
    }
    assert_eq!(count, 0);
}
