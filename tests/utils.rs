use terminal::{get_coincidence, Error, Words};

#[test]
fn test_compare() {
    let s1 = "processor";
    let s2 = "durasteel";
    assert_eq!(get_coincidence(s1, s2), 0);

    let s2 = "consisted";
    assert_eq!(get_coincidence(s1, s2), 1);
}

#[test]
fn match_count_is_symmetric_and_bounded() {
    let pairs = [("abcd", "abce"), ("abcd", "wxyz"), ("favored", "freedom"), ("same", "same")];
    for (a, b) in pairs {
        let ab = get_coincidence(a, b);
        assert_eq!(ab, get_coincidence(b, a));
        assert!(ab <= a.chars().count());
    }
    assert_eq!(get_coincidence("same", "same"), 4);
}

#[test]
fn match_count_stops_at_the_shorter_word() {
    assert_eq!(get_coincidence("ab", "abc"), 2);
    assert_eq!(get_coincidence("", "abc"), 0);
}

#[test]
fn match_count_compares_characters_not_bytes() {
    assert_eq!(get_coincidence("éa", "éb"), 1);
    assert_eq!(get_coincidence("éa", "ea"), 1);
}

#[test]
fn error_messages() {
    assert_eq!(Error::EmptyCorpus.message(), "Empty word's list");
    assert_eq!(Error::UnequalLength.message(), "Word's length is not equal");
    assert_eq!(Error::MetricUndefined.message(), "No metric for a single word");
    assert_eq!(Error::NoMatchingChild.message(), "No such choice at this step");
}

#[test]
fn coincidence_matrix_of_a_corpus() {
    let list = vec!["abcd".to_string(), "abce".to_string(), "wxyz".to_string()];
    let words = Words::from_iter(&list).unwrap();
    let m = words.intersections();
    assert_eq!(m.num_rows(), 3);
    assert_eq!(m.num_cols(), 3);
    for i in 0..3 {
        assert_eq!(m.get(i, i), -1);
        for j in 0..3 {
            assert_eq!(m.get(i, j), m.get(j, i));
        }
    }
    assert_eq!(m.get(0, 1), 3);
    assert_eq!(m.get(2, 0), 0);
    assert_eq!(m.column(1), vec![3, -1, 0]);
}
