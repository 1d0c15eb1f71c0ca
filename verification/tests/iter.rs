use des_usage::helper::iter::{exact_blocks, trim_suffix};

#[test]
fn trim_zeros_on_nonempty_arr_works() {
    let data = vec![1, 2, 3, 4, 5, 0, 0, 0, 0];
    assert_eq!(vec![1, 2, 3, 4, 5], trim_suffix(data, &0))
}

#[test]
fn trim_zeros_on_empty_arr_returns_empty_slice() {
    let data = vec![];
    let empty_arr: Vec<u8> = vec![];
    assert_eq!(empty_arr, trim_suffix(data, &0))
}

#[test]
fn trim_is_idempotent_on_concrete_values() {
    let data: Vec<u8> = vec![9, 7, 7, 5, 5, 5];
    let once = trim_suffix(data.clone(), &5);
    let twice = trim_suffix(trim_suffix(data, &5), &5);
    assert_eq!(vec![9u8, 7, 7], once.clone());
    assert_eq!(once, twice);
}

#[test]
fn trim_removes_only_the_given_value() {
    let data: Vec<u8> = vec![0, 0, 3];
    assert_eq!(vec![0u8, 0, 3], trim_suffix(data, &0));
}

#[test]
fn chunk_of_two_block_lengths_has_two_full_blocks() {
    let data: Vec<u8> = (1..=16).collect();
    let blocks = exact_blocks(&data, 8);
    assert_eq!(2, blocks.len());
    assert_eq!(data[0..8].to_vec(), blocks[0]);
    assert_eq!(data[8..16].to_vec(), blocks[1]);
}

#[test]
fn chunk_one_byte_past_two_blocks_pads_a_third() {
    let data: Vec<u8> = (1..=17).collect();
    let blocks = exact_blocks(&data, 8);
    assert_eq!(3, blocks.len());
    assert_eq!(data[0..8].to_vec(), blocks[0]);
    assert_eq!(data[8..16].to_vec(), blocks[1]);
    assert_eq!(vec![17u8, 0, 0, 0, 0, 0, 0, 0], blocks[2]);
}

#[test]
fn chunk_of_empty_input_is_empty() {
    let data: Vec<u8> = vec![];
    let blocks = exact_blocks(&data, 8);
    assert!(blocks.is_empty());
}
