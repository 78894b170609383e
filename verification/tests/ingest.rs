use nsd_packer::dimensions::LayerDimensions;
use nsd_packer::error::PackError;
use nsd_packer::ingest::{
    assemble_in_order, gather, persist_after_create, plan_workers, reversed,
};
use nsd_packer::layer::Layer;

#[test]
fn no_files_no_layers() {
    assert_eq!(plan_workers(0, Some(8)), Err(PackError::NoLayersFound));
    assert_eq!(plan_workers(0, None), Err(PackError::NoLayersFound));
}

#[test]
fn workers_are_the_smaller_of_jobs_and_hardware() {
    assert_eq!(plan_workers(3, Some(8)), Ok(3));
    assert_eq!(plan_workers(10, Some(8)), Ok(8));
    assert_eq!(plan_workers(8, Some(8)), Ok(8));
    assert_eq!(plan_workers(1, Some(1)), Ok(1));
}

#[test]
fn unknown_hardware_counts_as_four() {
    assert_eq!(plan_workers(10, None), Ok(4));
    assert_eq!(plan_workers(2, None), Ok(2));
    assert_eq!(plan_workers(10, Some(0)), Ok(4));
}

#[test]
fn completion_order_does_not_matter() {
    let finished = vec![(2usize, "c"), (0, "a"), (3, "d"), (1, "b")];
    assert_eq!(assemble_in_order(finished), Some(vec!["a", "b", "c", "d"]));
    let finished = vec![(3usize, "d"), (2, "c"), (1, "b"), (0, "a")];
    assert_eq!(assemble_in_order(finished), Some(vec!["a", "b", "c", "d"]));
    let finished = vec![(0usize, "a"), (1, "b"), (2, "c"), (3, "d")];
    assert_eq!(assemble_in_order(finished), Some(vec!["a", "b", "c", "d"]));
}

#[test]
fn every_arrival_order_of_three_gives_the_same_list() {
    let orders = [[0usize, 1, 2], [0, 2, 1], [1, 0, 2], [1, 2, 0], [2, 0, 1], [2, 1, 0]];
    for order in orders {
        let finished: Vec<(usize, String)> =
            order.iter().map(|t| (*t, format!("layer{}", t))).collect();
        assert_eq!(
            assemble_in_order(finished),
            Some(vec!["layer0".to_string(), "layer1".to_string(), "layer2".to_string()])
        );
    }
}

#[test]
fn empty_batch_assembles_to_nothing() {
    let finished: Vec<(usize, u8)> = Vec::new();
    assert_eq!(assemble_in_order(finished), Some(Vec::new()));
}

#[test]
fn tags_that_do_not_number_the_tasks_are_refused() {
    assert_eq!(assemble_in_order(vec![(0usize, 'a'), (0, 'b')]), None);
    assert_eq!(assemble_in_order(vec![(0usize, 'a'), (2, 'b')]), None);
    assert_eq!(assemble_in_order(vec![(1usize, 'a')]), None);
    assert_eq!(assemble_in_order(vec![(usize::MAX, 'a'), (0, 'b')]), None);
}

#[test]
fn gather_keeps_order_when_all_succeed() {
    let results: Vec<Result<u8, PackError>> = vec![Ok(1), Ok(2), Ok(3)];
    assert_eq!(gather(results), Ok(vec![1, 2, 3]));
    let results: Vec<Result<u8, PackError>> = Vec::new();
    assert_eq!(gather(results), Ok(Vec::new()));
}

#[test]
fn gather_reports_the_first_failure() {
    let results: Vec<Result<u8, PackError>> =
        vec![Ok(1), Err(PackError::DecodeError), Ok(3), Err(PackError::NamingError)];
    assert_eq!(gather(results), Err(PackError::DecodeError));
    let results: Vec<Result<u8, PackError>> =
        vec![Err(PackError::NamingError), Err(PackError::DecodeError)];
    assert_eq!(gather(results), Err(PackError::NamingError));
    let results: Vec<Result<u8, PackError>> = vec![Ok(1), Ok(2), Err(PackError::DecodeError)];
    assert_eq!(gather(results), Err(PackError::DecodeError));
}

#[test]
fn reversed_turns_the_list() {
    assert_eq!(reversed(vec![1, 2, 3]), vec![3, 2, 1]);
    assert_eq!(reversed(Vec::<u8>::new()), Vec::<u8>::new());
}

#[test]
fn copies_need_both_the_wish_and_the_directory() {
    assert!(persist_after_create(true, true));
    assert!(!persist_after_create(true, false));
    assert!(!persist_after_create(false, true));
    assert!(!persist_after_create(false, false));
}

#[test]
fn ingestion_keeps_path_order_whoever_finishes_first() {
    let d = LayerDimensions::from_power_of_two(1, 0);
    let stems = ["a_height", "b_moisture", "c_heat"];
    for arrival in [[2usize, 0, 1], [1, 2, 0], [0, 1, 2], [2, 1, 0]] {
        let finished: Vec<(usize, Result<Layer, PackError>)> = arrival
            .iter()
            .map(|index| {
                let stem = Some(stems[*index].to_string());
                let image = Some((1, 1, vec![*index as u8, 0, 0, 255]));
                (*index, Layer::from_decoded(stem, image, &d))
            })
            .collect();
        let layers = gather(assemble_in_order(finished).unwrap()).unwrap();
        assert_eq!(layers.len(), 3);
        for (index, layer) in layers.iter().enumerate() {
            assert_eq!(layer.name, stems[index]);
            assert_eq!((layer.width, layer.height), (2, 1));
            assert_eq!(layer.pixels, vec![index as u8, 0, 0, 255, index as u8, 0, 0, 255]);
        }
    }
}

#[test]
fn one_failed_task_fails_the_batch() {
    let d = LayerDimensions::from_power_of_two(0, 0);
    let finished: Vec<(usize, Result<Layer, PackError>)> = vec![
        (1, Layer::from_decoded(Some("b".to_string()), None, &d)),
        (0, Layer::from_decoded(Some("a".to_string()), Some((1, 1, vec![1, 2, 3, 4])), &d)),
        (2, Layer::from_decoded(None, Some((1, 1, vec![1, 2, 3, 4])), &d)),
    ];
    let outcome = gather(assemble_in_order(finished).unwrap());
    assert_eq!(outcome.err(), Some(PackError::DecodeError));
}
