use worm_cache::find_fetch_block_from_block_id_sequence;

#[test]
fn test_find_fetch_block_from_pa_sequence() {
    let example = vec![0, 0, 1, 1, 2, 2, 3, 3, 3];
    let res = find_fetch_block_from_block_id_sequence(example);
    assert_eq!(res.len(), 4);
    assert_eq!(res.get(&0), Some(&2));
    assert_eq!(res.get(&2), Some(&2));
    assert_eq!(res.get(&4), Some(&2));
    assert_eq!(res.get(&6), Some(&3));

    let example = vec![0];
    let res = find_fetch_block_from_block_id_sequence(example);
    assert_eq!(res.len(), 1);
    assert_eq!(res.get(&0), Some(&1));

    let example = vec![1];
    let res = find_fetch_block_from_block_id_sequence(example);
    assert_eq!(res.len(), 1);
    assert_eq!(res.get(&0), Some(&1));

    let example = vec![1, 2, 2, 10, 10];
    let res = find_fetch_block_from_block_id_sequence(example);
    assert_eq!(res.len(), 3);
    assert_eq!(res.get(&0), Some(&1));
    assert_eq!(res.get(&1), Some(&2));
    assert_eq!(res.get(&3), Some(&2));
}

#[test]
fn empty_sequence_is_one_empty_block() {
    let res = find_fetch_block_from_block_id_sequence(vec![]);
    assert_eq!(res.len(), 1);
    assert_eq!(res.get(&0), Some(&0));
}
