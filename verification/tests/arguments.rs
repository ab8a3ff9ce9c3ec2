use external_sort::cli::{parse_distribution_list, parse_usize, parse_usize_list, split_commas_exec};
use external_sort::dataset::DataDistribution;

fn reference_list(raw: &str) -> Result<Vec<usize>, String> {
    let mut out = Vec::new();
    for value in raw.split(',').filter(|value| !value.trim().is_empty()) {
        match value.trim().parse::<usize>() {
            Ok(v) => out.push(v),
            Err(_) => return Err(value.to_string()),
        }
    }
    Ok(out)
}

#[test]
fn numbers_parse_like_std() {
    let cases = [
        "0", "42", "+7", "007", "", "+", "-1", "1a", " 1", "1 ", "++1", "18446744073709551615",
        "18446744073709551616", "99999999999999999999999", "4294967295", "٣",
    ];
    for case in cases {
        assert_eq!(parse_usize(case), case.parse::<usize>().ok(), "case {:?}", case);
    }
    assert_eq!(parse_usize("+15"), Some(15));
    assert_eq!(parse_usize("x"), None);
}

#[test]
fn splits_on_commas() {
    assert_eq!(split_commas_exec("a,b"), vec!["a".to_string(), "b".to_string()]);
    assert_eq!(split_commas_exec(""), vec!["".to_string()]);
    assert_eq!(split_commas_exec(",x,"), vec!["".to_string(), "x".to_string(), "".to_string()]);
}

#[test]
fn number_lists() {
    let cases = ["1,2, 4", "16,,400,", " , ", "", "1,x,2", "1, y ,z", "3,\u{3000}5\t", "8,+9", "2,-2"];
    for case in cases {
        assert_eq!(parse_usize_list(case), reference_list(case), "case {:?}", case);
    }
    assert_eq!(parse_usize_list("2,4,8,16"), Ok(vec![2, 4, 8, 16]));
    assert_eq!(parse_usize_list("1, y ,z"), Err(" y ".to_string()));
}

#[test]
fn distribution_lists() {
    assert_eq!(
        parse_distribution_list("random, descending,,ascending "),
        Ok(vec![DataDistribution::Random, DataDistribution::Descending, DataDistribution::Ascending])
    );
    assert_eq!(parse_distribution_list("random,sorted"), Err("sorted".to_string()));
    assert_eq!(parse_distribution_list(""), Ok(vec![]));
}
