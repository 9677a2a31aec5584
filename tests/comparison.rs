use snic::common_types::{BaseInt, InputInt};
use snic::network::comparison::{comparisons_from, convert_to_comparisons, generate_expansion_mould_for};

const MATCHUP_SIZE: BaseInt = u8::MAX as BaseInt;

#[test]
fn test_elements_retrieval() {
    let indices = (0, MATCHUP_SIZE - 1);
    let values = indices;
    let mould: &[(BaseInt, BaseInt)] = &[indices];
    let matchup_results = &(0..MATCHUP_SIZE).collect::<Vec<BaseInt>>()[..];
    assert_eq!(convert_to_comparisons(matchup_results, mould), vec![values]);
}

#[test]
fn correct_number_of_pairs() {
    let expected_pairs_number: InputInt = (MATCHUP_SIZE as InputInt * (MATCHUP_SIZE as InputInt - 1)) / 2;
    assert_eq!(
        expected_pairs_number as usize,
        generate_expansion_mould_for(MATCHUP_SIZE).len()
    )
}

#[test]
fn expand_3() {
    assert_eq!(generate_expansion_mould_for(3), vec![(0, 1), (0, 2), (1, 2)],);
}

#[test]
fn expand_4() {
    assert_eq!(
        generate_expansion_mould_for(4),
        vec![(0, 1), (0, 2), (0, 3), (1, 2), (1, 3), (2, 3)],
    );
}

#[test]
fn expand_small_sizes_are_empty() {
    assert_eq!(generate_expansion_mould_for(0), vec![]);
    assert_eq!(generate_expansion_mould_for(1), vec![]);
    assert_eq!(generate_expansion_mould_for(2), vec![(0, 1)]);
}

#[test]
fn mould_cardinality_for_many_sizes() {
    for size in [0u16, 1, 2, 3, 7, 10, 64, 300] {
        let s = size as usize;
        let expected = if s == 0 { 0 } else { s * (s - 1) / 2 };
        assert_eq!(generate_expansion_mould_for(size).len(), expected);
    }
}

#[test]
fn mould_pairs_are_ordered_and_in_range() {
    let mould = generate_expansion_mould_for(6);
    for window in mould.windows(2) {
        assert!(window[0] < window[1]);
    }
    for (left, right) in mould {
        assert!(left < right && right < 6);
    }
}

#[test]
fn conversion_follows_the_mould() {
    let matchup: Vec<InputInt> = vec![40, 10, 30];
    let mould = generate_expansion_mould_for(3);
    assert_eq!(
        convert_to_comparisons(&matchup[..], &mould[..]),
        vec![(40, 10), (40, 30), (10, 30)],
    );
}

#[test]
fn comparisons_of_ranked_matchups() {
    let ranked: Vec<Vec<InputInt>> = vec![vec![0, 1, 2], vec![5, 4, 3]];
    assert_eq!(
        comparisons_from(&ranked),
        vec![(0, 1), (0, 2), (1, 2), (5, 4), (5, 3), (4, 3)],
    );
    assert_eq!(comparisons_from(&vec![]), vec![]);
}
