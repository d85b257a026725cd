use voting::Preference;
use voting::ValidationError;

#[test]
fn try_some_ints() {
    let v = Preference(vec![vec![0, 1, 2, 3]; 4]);
    assert!(v.audit().is_ok());
}

#[test]
fn try_some_chars() {
    let v = Preference(vec![vec!['a', 'b', 'c', 'd']; 4]);
    assert!(v.audit().is_ok());
}

#[test]
fn try_some_enums() {
    #[derive(Clone, Eq, PartialEq, Hash)]
    enum Voters {
        A,
        B,
        C,
        D,
    }
    let v = Preference(vec![vec![Voters::A, Voters::B, Voters::C, Voters::D]; 4]);
    assert!(v.audit().is_ok());
}

#[test]
fn audit_rejects_int_set_mismatch() {
    let v = Preference(vec![vec![3, 1, 2, 9], vec![0, 1, 2, 3], vec![0, 1, 2, 3]]);
    assert_eq!(v.audit(), Err(ValidationError::SetMismatch(0, 1)));
}

#[test]
fn audit_rejects_char_set_mismatch() {
    let v = Preference(vec![
        vec!['3', '1', '2', '9'],
        vec!['0', '1', '2', '3'],
        vec!['0', '1', '2', '3'],
    ]);
    assert_eq!(v.audit(), Err(ValidationError::SetMismatch(0, 1)));
}

#[test]
fn audit_rejects_enum_duplicates() {
    #[derive(Clone, Eq, PartialEq, Hash, Debug)]
    enum Voters {
        A,
        B,
        C,
        D,
    }
    let v = Preference(vec![
        vec![Voters::A, Voters::B, Voters::C, Voters::C, Voters::D];
        4
    ]);
    assert_eq!(v.audit(), Err(ValidationError::SetMismatch(0, 0)));
}

#[test]
fn audit_rejects_out_of_range_value() {
    let v = Preference(vec![vec![3, 1, 2, 57], vec![0, 1, 2, 3], vec![0, 1, 2, 3]]);
    assert!(matches!(v.audit(), Err(ValidationError::SetMismatch(_, _))));
}

#[test]
fn audit_rejects_length_mismatch() {
    let v = Preference(vec![vec![0, 1, 2], vec![0, 1], vec![0, 1, 2]]);
    assert_eq!(v.audit(), Err(ValidationError::LengthMismatch(1)));
}

#[test]
fn audit_rejects_duplicate_within_ballot() {
    let v = Preference(vec![vec![0, 0, 1], vec![0, 1, 2]]);
    assert_eq!(v.audit(), Err(ValidationError::SetMismatch(0, 0)));
}

#[test]
fn audit_accepts_single_ballot() {
    let v = Preference(vec![vec![42]]);
    assert!(v.audit().is_ok());
}

#[test]
fn audit_is_idempotent() {
    let ok = Preference(vec![vec![2, 0, 1], vec![1, 2, 0]]);
    assert_eq!(ok.audit(), ok.audit());

    let bad = Preference(vec![vec![0, 1], vec![2, 3]]);
    assert_eq!(bad.audit(), bad.audit());
    assert_eq!(bad.audit(), Err(ValidationError::SetMismatch(0, 1)));
}
