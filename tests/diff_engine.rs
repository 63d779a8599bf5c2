use contractdiff::diff::{diff, edit_script, group_runs, ChangeTag, Run};

fn chars(s: &str) -> Vec<char> {
    s.chars().collect()
}

fn run(tag: ChangeTag, s: &str) -> Run {
    Run { tag, units: chars(s) }
}

fn side(runs: &[Run], skip: ChangeTag) -> String {
    runs.iter().filter(|r| r.tag != skip).flat_map(|r| r.units.iter()).collect()
}

fn changed(runs: &[Run]) -> usize {
    runs.iter().filter(|r| r.tag != ChangeTag::Equal).map(|r| r.units.len()).sum()
}

fn assert_well_formed(left: &str, right: &str, runs: &[Run]) {
    assert_eq!(side(runs, ChangeTag::Insert), left);
    assert_eq!(side(runs, ChangeTag::Delete), right);
    for r in runs {
        assert!(!r.units.is_empty());
    }
    for w in runs.windows(2) {
        assert_ne!(w[0].tag, w[1].tag);
    }
}

#[test]
fn substitution_in_the_middle() {
    let runs = diff(&chars("abcd"), &chars("abxd"));
    assert_eq!(
        runs,
        vec![
            run(ChangeTag::Equal, "ab"),
            run(ChangeTag::Delete, "c"),
            run(ChangeTag::Insert, "x"),
            run(ChangeTag::Equal, "d"),
        ]
    );
}

#[test]
fn identical_inputs() {
    let runs = diff(&chars("abc"), &chars("abc"));
    assert_eq!(runs, vec![run(ChangeTag::Equal, "abc")]);
}

#[test]
fn empty_left_input() {
    let runs = diff(&chars(""), &chars("xyz"));
    assert_eq!(runs, vec![run(ChangeTag::Insert, "xyz")]);
}

#[test]
fn empty_right_input() {
    let runs = diff(&chars("xyz"), &chars(""));
    assert_eq!(runs, vec![run(ChangeTag::Delete, "xyz")]);
}

#[test]
fn both_inputs_empty() {
    let runs = diff(&chars(""), &chars(""));
    assert!(runs.is_empty());
}

#[test]
fn self_diff_of_longer_text() {
    let text = "6080604052348015600f57600080fd5b50";
    let runs = diff(&chars(text), &chars(text));
    assert_eq!(runs, vec![run(ChangeTag::Equal, text)]);
}

#[test]
fn totally_different_inputs() {
    let runs = diff(&chars("abc"), &chars("xyz"));
    assert_eq!(runs, vec![run(ChangeTag::Delete, "abc"), run(ChangeTag::Insert, "xyz")]);
    assert_eq!(changed(&runs), 6);
}

#[test]
fn reconstruction_and_compaction() {
    let cases = [
        ("kitten", "sitting"),
        ("abcabba", "cbabac"),
        ("608060405234", "60806040526004"),
        ("a", "b"),
        ("aaaa", "aa"),
    ];
    for (left, right) in cases {
        let runs = diff(&chars(left), &chars(right));
        assert_well_formed(left, right, &runs);
    }
}

#[test]
fn changed_units_equal_edit_distance() {
    // lcs("abcabba", "cbabac") has length 4
    let runs = diff(&chars("abcabba"), &chars("cbabac"));
    assert_eq!(changed(&runs), 7 + 6 - 2 * 4);
    // lcs("kitten", "sitting") = "ittn"
    let runs = diff(&chars("kitten"), &chars("sitting"));
    assert_eq!(changed(&runs), 6 + 7 - 2 * 4);
    let runs = diff(&chars("aaaa"), &chars("aa"));
    assert_eq!(runs, vec![run(ChangeTag::Equal, "aa"), run(ChangeTag::Delete, "aa")]);
}

#[test]
fn repeated_calls_agree() {
    let left = chars("abcabba");
    let right = chars("cbabac");
    let first = diff(&left, &right);
    let second = diff(&left, &right);
    assert_eq!(first, second);
}

#[test]
fn edit_script_then_grouping() {
    let ops = edit_script(&chars("abcd"), &chars("abxd"));
    assert_eq!(
        ops,
        vec![
            (ChangeTag::Equal, 'a'),
            (ChangeTag::Equal, 'b'),
            (ChangeTag::Delete, 'c'),
            (ChangeTag::Insert, 'x'),
            (ChangeTag::Equal, 'd'),
        ]
    );
    let runs = group_runs(&ops);
    assert_eq!(runs, diff(&chars("abcd"), &chars("abxd")));
}

#[test]
fn grouping_merges_equal_tags() {
    let ops = vec![
        (ChangeTag::Insert, 'a'),
        (ChangeTag::Insert, 'b'),
        (ChangeTag::Equal, 'c'),
        (ChangeTag::Insert, 'd'),
    ];
    assert_eq!(
        group_runs(&ops),
        vec![run(ChangeTag::Insert, "ab"), run(ChangeTag::Equal, "c"), run(ChangeTag::Insert, "d")]
    );
    assert!(group_runs(&vec![]).is_empty());
}

#[test]
fn long_inputs_with_one_change() {
    let base: String = "0123456789abcdef".repeat(250);
    let mut changed_text = base.clone();
    changed_text.replace_range(2000..2001, "z");
    let runs = diff(&chars(&base), &chars(&changed_text));
    assert_eq!(runs.len(), 4);
    assert_eq!(runs[0], run(ChangeTag::Equal, &base[..2000]));
    assert_eq!(runs[1], run(ChangeTag::Delete, &base[2000..2001]));
    assert_eq!(runs[2], run(ChangeTag::Insert, "z"));
    assert_eq!(runs[3], run(ChangeTag::Equal, &base[2001..]));
}

#[test]
fn dissimilar_inputs_of_unequal_length() {
    let left = "abababababababababab";
    let right = "cdcdcdcdcdcdcdcd";
    let runs = diff(&chars(left), &chars(right));
    assert_well_formed(left, right, &runs);
    assert_eq!(changed(&runs), 36);
}
