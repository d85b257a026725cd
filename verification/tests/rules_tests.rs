use voting::AggregationError;
use voting::Preference;
use voting::ValidationError;
use voting::{argmax, borda, dictator_pick, max_of, plurality, positional_voting, random_dictator, rank};

#[test]
fn dictatorship_functionality() {
    let v = vec![vec![0, 1, 2, 3]; 4];
    let p = Preference(v);

    assert_eq!(vec![0, 1, 2, 3], random_dictator(p).unwrap().0);
}

#[test]
fn plurality_functionality() {
    let v = vec![
        vec![0, 1, 2, 3],
        vec![0, 1, 2, 3],
        vec![0, 1, 2, 3],
        vec![1, 0, 2, 3],
        vec![1, 0, 2, 3],
        vec![2, 1, 0, 3],
    ];
    let p = Preference(v);
    assert_eq!(vec![0, 1, 2, 3], plurality(p).unwrap().0);
}

#[test]
fn borda_functionality() {
    let v = vec![
        vec![3, 1, 2, 0],
        vec![0, 1, 2, 3],
        vec![0, 1, 2, 3],
        vec![3, 0, 1, 2],
    ];
    let p = Preference(v);
    assert_eq!(vec![0, 1, 3, 2], borda(p).unwrap().0);
}

#[test]
fn positional_voting_with_explicit_borda_weights() {
    let v = vec![
        vec![3, 1, 2, 0],
        vec![0, 1, 2, 3],
        vec![0, 1, 2, 3],
        vec![3, 0, 1, 2],
    ];
    let p = Preference(v);
    let r = positional_voting(p, vec![4, 3, 2, 1]).unwrap();
    assert_eq!(vec![0, 1, 3, 2], r.0);
}

#[test]
fn positional_voting_rejects_short_weights() {
    let p = Preference(vec![vec![0, 1, 2], vec![2, 1, 0]]);
    assert_eq!(
        positional_voting(p, vec![1, 0]).unwrap_err(),
        AggregationError::InvalidWeights
    );
}

#[test]
fn positional_voting_rejects_empty_profile() {
    let p: Preference<u32> = Preference(vec![]);
    assert_eq!(
        positional_voting(p, vec![]).unwrap_err(),
        AggregationError::EmptyProfile
    );
}

#[test]
fn plurality_rejects_invalid_profile() {
    let p = Preference(vec![vec![0, 1], vec![2, 3]]);
    assert_eq!(
        plurality(p).unwrap_err(),
        AggregationError::Invalid(ValidationError::SetMismatch(0, 1))
    );
}

#[test]
fn plurality_over_chars() {
    let p = Preference(vec![
        vec!['b', 'a', 'c'],
        vec!['b', 'c', 'a'],
        vec!['a', 'b', 'c'],
    ]);
    assert_eq!(vec!['b', 'a', 'c'], plurality(p).unwrap().0);
}

#[test]
fn borda_ties_break_by_first_appearance() {
    let p = Preference(vec![vec![5, 9], vec![9, 5]]);
    assert_eq!(vec![5, 9], borda(p).unwrap().0);
}

#[test]
fn rank_is_a_permutation() {
    let scores = vec![3, 1, 2];
    let r = rank(&scores);
    assert_eq!(vec![0, 2, 1], r);

    let scores = vec![-5, 7, 0, 7];
    let mut r = rank(&scores);
    assert_eq!(vec![1, 3, 2, 0], r);
    r.sort();
    assert_eq!(vec![0, 1, 2, 3], r);
}

#[test]
fn rank_all_ties_yields_identity() {
    let scores = vec![5, 5, 5];
    assert_eq!(vec![0, 1, 2], rank(&scores));
}

#[test]
fn max_and_argmax() {
    let scores = vec![2, 8, 8, -1];
    assert_eq!(8, max_of(&scores));
    assert_eq!(vec![1, 2], argmax(&scores));

    let single = vec![-3];
    assert_eq!(-3, max_of(&single));
    assert_eq!(vec![0], argmax(&single));
}

#[test]
fn dictator_pick_returns_chosen_ballot() {
    for k in 0..3 {
        let ballots = vec![vec![0, 1, 2], vec![1, 2, 0], vec![2, 0, 1]];
        let expected = ballots[k].clone();
        let p = Preference(ballots);
        assert_eq!(expected, dictator_pick(p, k).unwrap().0);
    }
}

#[test]
fn random_dictator_returns_an_input_ballot() {
    for _ in 0..200 {
        let ballots = vec![vec![0, 1, 2], vec![1, 2, 0], vec![2, 0, 1]];
        let p = Preference(ballots.clone());
        let r = random_dictator(p).unwrap().0;
        assert!(ballots.contains(&r));
    }
}

#[test]
fn random_dictator_rejects_invalid_profile() {
    let p = Preference(vec![vec![0, 1], vec![1, 0], vec![1, 1]]);
    assert_eq!(
        random_dictator(p).unwrap_err(),
        AggregationError::Invalid(ValidationError::SetMismatch(0, 2))
    );
}
