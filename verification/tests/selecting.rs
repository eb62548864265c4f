use provence::model::ProvenceModel;
use provence::ranking::rank;
use provence::score::Score;

fn scores(values: &[f32]) -> Vec<Score> {
    values.iter().map(|x| Score { bits: x.to_bits() }).collect()
}

#[test]
fn tokens_after_the_separator_are_parted() {
    let tokens = [1, 2, 3, 4, 5, 6];
    let mask = [true, true, true, false, true, false];
    assert_eq!(
        ProvenceModel::apply_keep_mask_after_skip(&tokens, 1, &mask),
        (vec![3, 5], vec![4, 6])
    );
}

#[test]
fn what_lies_past_the_mask_is_removed() {
    assert_eq!(
        ProvenceModel::apply_keep_mask_after_skip(&[7, 8, 9, 10], 0, &[true, true]),
        (vec![8], vec![9, 10])
    );
    assert_eq!(
        ProvenceModel::apply_keep_mask_after_skip(&[7, 8], 5, &[true, true]),
        (Vec::new(), Vec::new())
    );
}

#[test]
fn every_token_after_the_separator_goes_one_way() {
    let tokens = [5, 5, 6, 7, 5, 8];
    for bits in 0..64u32 {
        let mask: Vec<bool> = (0..6).map(|i| bits & (1 << i) != 0).collect();
        for skip in 0..6usize {
            let (kept, removed) = ProvenceModel::apply_keep_mask_after_skip(&tokens, skip, &mask);
            assert_eq!(kept.len() + removed.len(), 5 - skip);
            let mut all = [kept, removed].concat();
            all.sort();
            let mut rest = tokens[skip + 1..].to_vec();
            rest.sort();
            assert_eq!(all, rest);
        }
    }
}

#[test]
fn uniform_masks_keep_or_remove_everything() {
    let tokens = [1, 2, 3, 4];
    assert_eq!(
        ProvenceModel::apply_keep_mask_after_skip(&tokens, 1, &[true; 4]),
        (vec![3, 4], Vec::new())
    );
    assert_eq!(
        ProvenceModel::apply_keep_mask_after_skip(&tokens, 1, &[false; 4]),
        (Vec::new(), vec![3, 4])
    );
}

#[test]
fn the_first_separator_counts() {
    let tokens: Vec<String> =
        ["[CLS]", "a", "[SEP]", "b", "[SEP]"].iter().map(|t| t.to_string()).collect();
    assert_eq!(ProvenceModel::get_separator_index(&tokens), Some(2));
    assert_eq!(ProvenceModel::get_separator_index(&tokens[..2].to_vec()), None);
    assert_eq!(ProvenceModel::get_separator_index(&vec!["[sep]".to_string()]), None);
}

#[test]
fn the_best_come_first() {
    assert_eq!(rank(&scores(&[0.2, 0.9, -1.0, 0.5])), vec![1, 3, 0, 2]);
    assert_eq!(rank(&scores(&[])), Vec::<usize>::new());
}

#[test]
fn equal_scores_keep_their_order() {
    assert_eq!(rank(&scores(&[0.5, 0.7, 0.5, 0.7, 0.0, -0.0])), vec![1, 3, 0, 2, 4, 5]);
}

#[test]
fn ranking_is_a_stable_descending_sort() {
    let values = [3.5f32, -2.0, 0.0, 7.25, 3.5, f32::INFINITY, -0.0, 1.0e-3, -2.0, 3.5];
    let mut expected: Vec<usize> = (0..values.len()).collect();
    expected.sort_by(|a, b| values[*b].partial_cmp(&values[*a]).unwrap());
    assert_eq!(rank(&scores(&values)), expected);
}

#[test]
fn what_is_not_a_number_stays() {
    let nan = f32::NAN;
    assert_eq!(rank(&scores(&[0.1, nan, 0.3])), vec![0, 1, 2]);
    assert_eq!(rank(&scores(&[0.1, 0.5, nan, 0.7, 0.9])), vec![1, 0, 2, 4, 3]);
    assert_eq!(rank(&scores(&[nan, -nan, 0.2, 0.4])), vec![0, 1, 3, 2]);
}

#[test]
fn runs_of_tokens_stay_together() {
    let tokens = [9, 1, 2, 3, 4, 5, 6];
    let mask = [false, false, true, true, false, false, true];
    let (kept, removed) = ProvenceModel::apply_keep_mask_after_skip(&tokens, 0, &mask);
    assert!(kept.windows(2).any(|w| w == &tokens[2..4]));
    assert!(removed.windows(2).any(|w| w == &tokens[4..6]));
    assert_eq!((kept, removed), (vec![2, 3, 6], vec![1, 4, 5]));
}
