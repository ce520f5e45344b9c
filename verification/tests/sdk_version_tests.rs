use opacity_cli::sdk_version::SdkVersionOut;

fn interval(min_sdk_version: u64, max_sdk_version: Option<u64>) -> SdkVersionOut {
    SdkVersionOut { min_sdk_version, max_sdk_version }
}

fn samples() -> Vec<SdkVersionOut> {
    vec![
        interval(0, None),
        interval(1, None),
        interval(20, None),
        interval(16, Some(19)),
        interval(5, Some(5)),
        interval(30, Some(10)),
        interval(u64::MAX, Some(0)),
        interval(0, Some(u64::MAX)),
    ]
}

#[test]
fn new_is_unbounded_from_the_default() {
    assert_eq!(SdkVersionOut::new(7), interval(7, None));
    assert_eq!(SdkVersionOut::default(), interval(0, None));
}

#[test]
fn intersection_takes_higher_minimum_and_lower_maximum() {
    assert_eq!(
        SdkVersionOut::sdk_version_intersection(interval(10, None), interval(20, Some(30))),
        interval(20, Some(30))
    );
    assert_eq!(
        SdkVersionOut::sdk_version_intersection(interval(10, Some(25)), interval(5, Some(30))),
        interval(10, Some(25))
    );
    assert_eq!(
        SdkVersionOut::sdk_version_intersection(interval(1, None), interval(2, None)),
        interval(2, None)
    );
}

#[test]
fn minimum_of_max_prefers_a_present_bound() {
    assert_eq!(SdkVersionOut::sdk_version_minimum_of_max(Some(3), Some(9)), Some(3));
    assert_eq!(SdkVersionOut::sdk_version_minimum_of_max(Some(9), Some(3)), Some(3));
    assert_eq!(SdkVersionOut::sdk_version_minimum_of_max(Some(4), None), Some(4));
    assert_eq!(SdkVersionOut::sdk_version_minimum_of_max(None, Some(6)), Some(6));
    assert_eq!(SdkVersionOut::sdk_version_minimum_of_max(None, None), None);
}

#[test]
fn union_takes_lower_minimum_and_drops_a_one_sided_maximum() {
    assert_eq!(
        SdkVersionOut::sdk_version_union(interval(20, None), interval(16, Some(19))),
        interval(16, None)
    );
    assert_eq!(
        SdkVersionOut::sdk_version_union(interval(3, Some(8)), interval(5, Some(12))),
        interval(3, Some(12))
    );
    assert_eq!(
        SdkVersionOut::sdk_version_union(interval(3, None), interval(5, None)),
        interval(3, None)
    );
}

#[test]
fn both_operations_are_associative() {
    for a in samples() {
        for b in samples() {
            for c in samples() {
                assert_eq!(
                    SdkVersionOut::sdk_version_intersection(
                        a,
                        SdkVersionOut::sdk_version_intersection(b, c)
                    ),
                    SdkVersionOut::sdk_version_intersection(
                        SdkVersionOut::sdk_version_intersection(a, b),
                        c
                    )
                );
                assert_eq!(
                    SdkVersionOut::sdk_version_union(a, SdkVersionOut::sdk_version_union(b, c)),
                    SdkVersionOut::sdk_version_union(SdkVersionOut::sdk_version_union(a, b), c)
                );
            }
        }
    }
}

#[test]
fn both_operations_are_commutative() {
    for a in samples() {
        for b in samples() {
            assert_eq!(
                SdkVersionOut::sdk_version_intersection(a, b),
                SdkVersionOut::sdk_version_intersection(b, a)
            );
            assert_eq!(SdkVersionOut::sdk_version_union(a, b), SdkVersionOut::sdk_version_union(b, a));
        }
    }
}

#[test]
fn both_operations_are_idempotent() {
    for a in samples() {
        assert_eq!(SdkVersionOut::sdk_version_intersection(a, a), a);
        assert_eq!(SdkVersionOut::sdk_version_union(a, a), a);
    }
}

#[test]
fn the_default_interval_is_neutral_for_intersection() {
    for a in samples() {
        assert_eq!(SdkVersionOut::sdk_version_intersection(SdkVersionOut::default(), a), a);
        assert_eq!(SdkVersionOut::sdk_version_intersection(a, SdkVersionOut::default()), a);
    }
}
