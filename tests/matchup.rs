use snic::common_types::{BaseInt, InputInt};
use snic::gber::Decomposition;
use snic::network::bridge::create_intersubnetwork_matchups;
use snic::network::matchup::{
    allocate_matchup_seats_for, calculate_comparisons_number_for, calculate_matchups_number_for,
    get_vector_slice_from, hub_fits_bridges, matchup_allocations_for,
    take_elements_uniformly, LocalMatchupsManager, StreamNetworkMatchups, SubnetworkIterator,
    SubnetworkMatchupIterator,
};
use std::collections::HashSet;

const NETWORK_SIZE: InputInt = BaseInt::MAX as InputInt;
const MATCH_SIZE: BaseInt = 2;

fn drain(mut iterator: SubnetworkMatchupIterator) -> Vec<Vec<InputInt>> {
    let mut matchups = Vec::new();
    while let Some(matchup) = iterator.next() {
        matchups.push(matchup);
    }
    matchups
}

fn drain_all(manager: LocalMatchupsManager) -> Vec<Vec<InputInt>> {
    manager.subnetwork_iterators.into_iter().flat_map(drain).collect()
}

fn stream_all(network_size: InputInt, base: BaseInt) -> Vec<Vec<InputInt>> {
    let decomposition = Decomposition::new(network_size, base).unwrap();
    assert!(hub_fits_bridges(&decomposition));
    let mut stream = StreamNetworkMatchups::new(decomposition);
    let mut matchups = Vec::new();
    while let Some(matchup) = stream.next() {
        matchups.push(matchup);
    }
    assert_eq!(stream.next(), None);
    matchups
}

#[test]
fn matches_are_unique() {
    let decomposition = Decomposition::new(NETWORK_SIZE, MATCH_SIZE).expect("Invalid decomposition values");
    let network = LocalMatchupsManager::new(decomposition);
    let matchups = drain_all(network);
    let matchups_length = matchups.len();
    let unique_matchups = matchups.into_iter().collect::<HashSet<Vec<InputInt>>>();
    assert_eq!(matchups_length, unique_matchups.len());
}

#[test]
fn special_2_base() {
    let decomposition = Decomposition::new(NETWORK_SIZE, MATCH_SIZE).expect("Invalid decomposition values");
    let math_calculation = decomposition
        .stream_all_components()
        .into_iter()
        .map(|comp_size| calculate_matchups_number_for(comp_size, MATCH_SIZE))
        .sum::<u64>();
    let network = LocalMatchupsManager::new(decomposition);
    let counted_subnetwork_matchups = drain_all(network).into_iter().map(|_| 1u64).sum::<u64>();
    assert_eq!(math_calculation, counted_subnetwork_matchups);
}

const ZEROS: [i32; 5] = [0, 0, 0, 0, 0];

#[test]
fn full_slice() {
    assert_eq!(&ZEROS[..], &get_vector_slice_from(&ZEROS, 0, ZEROS.len() as u16)[..],)
}

#[test]
fn slice_length() {
    assert_eq!(3, get_vector_slice_from(&ZEROS, 0, 3).len(),)
}

#[test]
fn slice_from_the_middle() {
    let view: Vec<InputInt> = vec![5, 6, 7, 8, 9];
    assert_eq!(get_vector_slice_from(&view, 1, 3), vec![6, 7, 8]);
    assert_eq!(get_vector_slice_from(&view, 5, 0), Vec::<InputInt>::new());
}

const SHORT_SLICE: &[(InputInt, u8)] = &[(100, 2), (10, 1)];
const MID_SLICE: &[(InputInt, u8)] = &[(1000, 3), (100, 2), (10, 1)];
const LONGER_SLICE: &[(InputInt, u8)] = &[
    (1000, 3),
    (1000, 3),
    (1000, 3),
    (1000, 3),
    (1000, 3),
    (100, 2),
    (100, 2),
    (100, 2),
    (100, 2),
    (10, 1),
    (10, 1),
    (10, 1),
    (10, 1),
];

#[test]
fn base2() {
    let base = 2 as InputInt;
    let slice = &[(base.pow(10), 10u8), (base.pow(10), 10u8), (base, 1u8)];
    for allocation in matchup_allocations_for(slice, base as BaseInt) {
        assert_eq!(allocation, (1 as BaseInt, 1 as BaseInt))
    }
}

#[test]
fn seat_allocation_equivalence() {
    let base = 10;
    for slice in [SHORT_SLICE, MID_SLICE, LONGER_SLICE] {
        let allocations = matchup_allocations_for(slice, base);
        assert_eq!(
            allocations.into_iter().map(|(a, b)| a + b).sum::<BaseInt>(),
            (slice.len() as BaseInt - 1) * base,
        )
    }
}

#[test]
fn simple_10_base_components() {
    assert_eq!(matchup_allocations_for(SHORT_SLICE, 10), vec![(6, 4)]);
    assert_eq!(matchup_allocations_for(MID_SLICE, 10), vec![(6, 4), (7, 3)]);
    assert_eq!(
        matchup_allocations_for(LONGER_SLICE, 10),
        vec![
            (5, 5),
            (5, 5),
            (5, 5),
            (5, 5),
            (6, 4),
            (6, 4),
            (6, 4),
            (6, 4),
            (7, 3),
            (7, 3),
            (7, 3),
            (7, 3),
        ]
    );
}

#[test]
fn allocations_skip_zero_exponents() {
    let slice: &[(InputInt, u8)] = &[(1, 0), (100, 2), (1, 0), (10, 1)];
    assert_eq!(matchup_allocations_for(slice, 10), vec![(6, 4)]);
}

#[test]
fn seat_allocation_values() {
    assert_eq!(allocate_matchup_seats_for(3, 1, 10), (7, 3));
    assert_eq!(allocate_matchup_seats_for(3, 3, 10), (5, 5));
    assert_eq!(allocate_matchup_seats_for(5, 1, 2), (1, 1));
    assert_eq!(allocate_matchup_seats_for(1, 1, 3), (1, 2));
    assert_eq!(allocate_matchup_seats_for(200, 1, 65535), (65208, 327));
}

#[test]
fn take_2_of_20() {
    assert_eq!(take_elements_uniformly(20, 2, 10), vec![10, 20],);
}

#[test]
fn take_2_of_3() {
    assert_eq!(take_elements_uniformly(3, 2, 100), vec![100, 101],);
}

#[test]
fn take_5_of_1000() {
    assert_eq!(take_elements_uniformly(1001, 5, 1), vec![1, 201, 401, 601, 801],);
}

#[test]
fn take_all_of_a_block() {
    assert_eq!(take_elements_uniformly(4, 4, 7), vec![7, 8, 9, 10]);
    assert_eq!(take_elements_uniformly(InputInt::MAX, 1, 0), vec![0]);
}

#[test]
fn matchup_and_comparison_counts() {
    assert_eq!(calculate_matchups_number_for(8, 2), 12);
    assert_eq!(calculate_matchups_number_for(1000, 10), 300);
    assert_eq!(calculate_matchups_number_for(1, 2), 0);
    assert_eq!(calculate_matchups_number_for(2, 2), 1);
    assert_eq!(calculate_comparisons_number_for(12, 2), 12);
    assert_eq!(calculate_comparisons_number_for(1, 10), 45);
    assert_eq!(calculate_comparisons_number_for(0, 255), 0);
}

#[test]
fn subnetwork_of_four_in_base_two() {
    let iterator = SubnetworkMatchupIterator::new(4, 2, 0).unwrap();
    assert_eq!(drain(iterator), vec![vec![0, 2], vec![1, 3], vec![0, 1], vec![2, 3]]);
}

#[test]
fn subnetwork_stays_exhausted() {
    let mut iterator = SubnetworkIterator::new(2, 2, 5).unwrap();
    assert_eq!(iterator.next(), Some(vec![5, 6]));
    assert_eq!(iterator.next(), None);
    assert_eq!(iterator.next(), None);
    assert_eq!(iterator.next(), None);
}

#[test]
fn subnetwork_of_nine_in_base_three() {
    let iterator = SubnetworkMatchupIterator::new(9, 3, 10).unwrap();
    assert_eq!(
        drain(iterator),
        vec![
            vec![10, 13, 16],
            vec![11, 14, 17],
            vec![12, 15, 18],
            vec![10, 11, 12],
            vec![13, 14, 15],
            vec![16, 17, 18],
        ]
    );
}

#[test]
fn subnetwork_of_one_item_has_no_matchups() {
    let iterator = SubnetworkMatchupIterator::new(1, 5, 3).unwrap();
    assert_eq!(drain(iterator), Vec::<Vec<InputInt>>::new());
}

#[test]
fn subnetwork_rejects_invalid_blocks() {
    assert!(SubnetworkMatchupIterator::new(6, 2, 0).is_err());
    assert!(SubnetworkMatchupIterator::new(0, 2, 0).is_err());
    assert!(SubnetworkMatchupIterator::new(4, 1, 0).is_err());
    assert!(SubnetworkMatchupIterator::new(4, 2, InputInt::MAX - 2).is_err());
    assert!(SubnetworkMatchupIterator::new(4, 2, InputInt::MAX - 3).is_ok());
}

#[test]
fn subnetwork_levels_are_disjoint_and_in_bounds() {
    let (size, base, offset) = (81, 3, 19);
    let matchups = drain(SubnetworkMatchupIterator::new(size, base, offset).unwrap());
    assert_eq!(matchups.len() as u64, calculate_matchups_number_for(size, base));
    let per_level = (size / base as InputInt) as usize;
    for level in matchups.chunks(per_level) {
        let mut seen = HashSet::new();
        for matchup in level {
            assert_eq!(matchup.len(), base as usize);
            for item in matchup {
                assert!(offset <= *item && *item < offset + size);
                assert!(seen.insert(*item));
            }
        }
        assert_eq!(seen.len(), size as usize);
    }
    let unique = matchups.iter().cloned().collect::<HashSet<Vec<InputInt>>>();
    assert_eq!(unique.len(), matchups.len());
}

#[test]
fn bridges_of_seven_in_base_three() {
    let decomposition = Decomposition::new(7, 3).unwrap();
    assert!(hub_fits_bridges(&decomposition));
    assert_eq!(
        Vec::from(create_intersubnetwork_matchups(&decomposition)),
        vec![vec![0, 3, 4], vec![1, 2, 6]],
    );
}

#[test]
fn bridges_without_spokes_or_remainder() {
    let single = Decomposition::new(9, 3).unwrap();
    assert_eq!(create_intersubnetwork_matchups(&single).len(), 0);
    let only_remainder = Decomposition::new(11, 3).unwrap();
    assert_eq!(
        Vec::from(create_intersubnetwork_matchups(&only_remainder)),
        vec![vec![0, 9, 10]],
    );
    let tiny = Decomposition::new(2, 3).unwrap();
    assert_eq!(create_intersubnetwork_matchups(&tiny).len(), 0);
}

#[test]
fn hub_too_small_for_bridges() {
    let decomposition = Decomposition::new(15, 4).unwrap();
    assert!(!hub_fits_bridges(&decomposition));
    assert!(hub_fits_bridges(&Decomposition::new(100, 3).unwrap()));
}

#[test]
fn stream_of_seven_in_base_three() {
    assert_eq!(
        stream_all(7, 3),
        vec![vec![0, 1, 2], vec![3, 4, 5], vec![0, 3, 4], vec![1, 2, 6]],
    );
}

#[test]
fn stream_matchups_have_base_items_in_range() {
    for (size, base) in [(100 as InputInt, 3 as BaseInt), (65535, 2), (1000, 10), (2, 2)] {
        let matchups = stream_all(size, base);
        assert!(!matchups.is_empty());
        for matchup in matchups {
            assert_eq!(matchup.len(), base as usize);
            assert!(matchup.iter().all(|item| *item < size));
            let distinct = matchup.iter().collect::<HashSet<_>>();
            assert_eq!(distinct.len(), matchup.len());
        }
    }
}

#[test]
fn manager_offsets_follow_components() {
    let decomposition = Decomposition::new(26, 3).unwrap();
    let manager = LocalMatchupsManager::new(decomposition);
    let offsets = manager.subnetwork_iterators.iter().map(|it| it.offset).collect::<Vec<_>>();
    assert_eq!(offsets, vec![0, 9, 18, 21]);
    assert_eq!(manager.intersubnetwork_matchups.len(), 4);
}
