use graph::prelude::{page_rank, CsrLayout, DirectedCsrGraph, GraphBuilder, PageRankConfig};
use snic::common_types::{BaseInt, InputInt};
use snic::gber::Decomposition;
use snic::network::comparison::{convert_to_comparisons, generate_expansion_mould_for};
use snic::network::matchup::LocalMatchupsManager;

#[test]
fn simple_rank_preserves_sorting() {
    let base: BaseInt = u8::MAX.into();
    let length: InputInt = u8::MAX.into();
    let gber = Decomposition::new(length, base).unwrap();
    let network_matchups = LocalMatchupsManager::new(gber);
    let mut matchups: Vec<Vec<InputInt>> = Vec::new();
    for mut iterator in network_matchups.subnetwork_iterators {
        while let Some(matchup) = iterator.next() {
            matchups.push(matchup);
        }
    }
    matchups.extend(network_matchups.intersubnetwork_matchups);
    let mould = generate_expansion_mould_for(base);
    let pairwise_comparisons = matchups
        .into_iter()
        .flat_map(|ranking| convert_to_comparisons(&ranking[..], &mould[..]))
        .collect::<Vec<(InputInt, InputInt)>>();
    let graph: DirectedCsrGraph<InputInt> = GraphBuilder::new()
        .csr_layout(CsrLayout::Sorted)
        .edges(pairwise_comparisons)
        .build();
    let (rating, _iterations, _) = page_rank(&graph, PageRankConfig::default());
    let mut sorted_rating = rating.clone();
    sorted_rating.sort_by(|a, b| a.partial_cmp(b).unwrap());
    assert_eq!(sorted_rating, rating);
}
