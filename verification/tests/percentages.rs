use lang_summary::languages::{LanguageContentInfo, LanguageMetadata};
use lang_summary::percentages::{get_files_percentages, get_lines_percentages, get_percentages, get_sizes_percentages};
use lang_summary::table::LanguageMap;

/// Shares in tenths of a percent, as percentages.
fn as_percent(tenths: Vec<usize>) -> Vec<f64> {
    tenths.iter().map(|t| *t as f64 / 10.0).collect()
}

fn names(list: &[&str]) -> Vec<String> {
    list.iter().map(|s| s.to_string()).collect()
}

fn content_map(entries: &[(&str, usize)]) -> LanguageMap<LanguageContentInfo> {
    let mut map = LanguageMap::new();
    for (name, lines) in entries {
        map.insert(name.to_string(), LanguageContentInfo::dummy(*lines));
    }
    map
}

fn metadata_map(entries: &[(&str, usize, usize)]) -> LanguageMap<LanguageMetadata> {
    let mut map = LanguageMap::new();
    for (name, files, bytes) in entries {
        map.insert(name.to_string(), LanguageMetadata::new(*files, *bytes));
    }
    map
}

#[test]
fn test_get_lines_percentages() {
    let ext_names = names(&["py", "java", "cs"]);

    let content_info_map = content_map(&[("cs", 100), ("java", 100), ("py", 0)]);
    assert_eq!(vec![0f64, 50f64, 50f64], as_percent(get_lines_percentages(&content_info_map, &ext_names).unwrap()));
    let content_info_map = content_map(&[("cs", 0), ("java", 0), ("py", 1)]);
    assert_eq!(vec![100f64, 0f64, 0f64], as_percent(get_lines_percentages(&content_info_map, &ext_names).unwrap()));
    let content_info_map = content_map(&[("cs", 20), ("java", 20), ("py", 20)]);
    assert_eq!(
        vec![33.3f64, 33.3f64, 33.4f64],
        as_percent(get_lines_percentages(&content_info_map, &ext_names).unwrap())
    );

    let ext_names = names(&["py", "java", "cs", "rs"]);

    let content_info_map = content_map(&[("cs", 100), ("java", 100), ("py", 0), ("rs", 0)]);
    assert_eq!(
        vec![0f64, 50f64, 50f64, 0f64],
        as_percent(get_lines_percentages(&content_info_map, &ext_names).unwrap())
    );
    let content_info_map = content_map(&[("cs", 100), ("java", 100), ("py", 100), ("rs", 0)]);
    assert_eq!(
        vec![33.3f64, 33.3f64, 33.3f64, 0f64],
        as_percent(get_lines_percentages(&content_info_map, &ext_names).unwrap())
    );
    let content_info_map = content_map(&[("cs", 201), ("java", 200), ("py", 200), ("rs", 0)]);
    assert_eq!(
        vec![33.3f64, 33.3f64, 33.4f64, 0f64],
        as_percent(get_lines_percentages(&content_info_map, &ext_names).unwrap())
    );

    let ext_names = names(&["py", "java", "cs", "rs", "cpp"]);

    let content_info_map = content_map(&[("cs", 100), ("java", 100), ("py", 0), ("rs", 0), ("cpp", 0)]);
    assert_eq!(
        vec![0f64, 50f64, 50f64, 0f64, 0f64],
        as_percent(get_lines_percentages(&content_info_map, &ext_names).unwrap())
    );
}

#[test]
fn percentages_round_half_up_and_last_takes_the_rest() {
    // 1/8 = 12.5% exactly; 1/6 = 16.67% rounds to 16.7%.
    assert_eq!(Some(vec![125, 875]), get_percentages(&[1, 7]));
    assert_eq!(Some(vec![167, 833]), get_percentages(&[1, 5]));
    // 2/3 = 66.67% rounds up to 66.7%; the last gets 33.3%.
    assert_eq!(Some(vec![667, 333]), get_percentages(&[2, 1]));
}

#[test]
fn percentages_of_a_single_number_make_all() {
    assert_eq!(Some(vec![1000]), get_percentages(&[7]));
    assert_eq!(Some(vec![1000]), get_percentages(&[0]));
    assert_eq!(Some(vec![]), get_percentages(&[]));
}

#[test]
fn percentages_of_zeros_are_undefined() {
    assert_eq!(None, get_percentages(&[0, 0]));
    assert_eq!(None, get_percentages(&[0, 0, 0]));
}

#[test]
fn last_share_is_zero_once_the_others_reach_all() {
    // 999 of 1000 gives 99.9% to the first; the last is shown as 0.0%.
    assert_eq!(Some(vec![999, 0]), get_percentages(&[999, 1]));
    let total: usize = get_percentages(&[3, 3, 4]).unwrap().iter().sum();
    assert_eq!(1000, total);
}

#[test]
fn files_and_sizes_are_placed_by_name() {
    let metadata = metadata_map(&[("rs", 3, 2500), ("py", 1, 900)]);
    let order = names(&["py", "rs"]);
    assert_eq!(Some(vec![250, 750]), get_files_percentages(&metadata, &order));
    assert_eq!(Some(vec![265, 735]), get_sizes_percentages(&metadata, &order));
    let order = names(&["rs", "py"]);
    assert_eq!(Some(vec![750, 250]), get_files_percentages(&metadata, &order));
    assert_eq!(Some(vec![735, 265]), get_sizes_percentages(&metadata, &order));
}

#[test]
fn lines_of_languages_without_lines_are_undefined() {
    let content = content_map(&[("rs", 0), ("py", 0)]);
    assert_eq!(None, get_lines_percentages(&content, &names(&["rs", "py"])));
}

#[test]
fn rounded_shares_can_exceed_all() {
    // Seven sevenths of 14.3% each make 100.1%; the last share is 0.0%.
    let shares = get_percentages(&[1, 1, 1, 1, 1, 1, 1, 0]).unwrap();
    assert_eq!(vec![143, 143, 143, 143, 143, 143, 143, 0], shares);
    assert_eq!(1001, shares.iter().sum::<usize>());
}

#[test]
fn halfway_shares_follow_double_precision() {
    // 201/400 = 0.5025 lies just below its nearest double, so 502.5 tenths become 502.
    assert_eq!(Some(vec![502, 498]), get_percentages(&[201, 199]));
    // 1/16 = 0.0625 is exact: 62.5 tenths round away from zero to 63.
    assert_eq!(Some(vec![63, 937]), get_percentages(&[1, 15]));
    // The same, computed as the overview computes it.
    let f = (201f64 / 400f64 * 1000f64).round();
    assert_eq!(502.0, f);
}

#[test]
fn shares_of_large_numbers() {
    let big = usize::MAX / 3;
    let shares = get_percentages(&[big, big, big]).unwrap();
    let expected = ((big as f64 / (3 * big) as f64) * 1000f64).round() as usize;
    assert_eq!(vec![expected, expected, 1000 - 2 * expected], shares);
}

#[test]
fn leading_shares_agree_with_double_precision() {
    for total in [1usize, 3, 7, 16, 40, 400, 1000, 2000, 4000, 12345, 99999, 1 << 40, (1 << 53) + 1, usize::MAX / 2] {
        let step = if total > 1000 { total / 997 } else { 1 };
        let mut part = 0;
        while part <= total {
            let shares = get_percentages(&[part, total - part]).unwrap();
            let expected = ((part as f64 / total as f64) * 1000f64).round() as usize;
            assert_eq!(expected, shares[0], "{} of {}", part, total);
            part += step;
        }
    }
}
