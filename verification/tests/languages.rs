use lang_summary::languages::{
    checked_keyword_sum_map, create_keyword_sum_map, files_lines_size,
    get_language_names_as_sorted_vec_according_to_how_much_they_appeared, remove_languages_with_0_files,
    retain_most_relevant_and_add_others_field_for_rest, LanguageContentInfo, LanguageMetadata,
};
use lang_summary::table::LanguageMap;

fn keywords(entries: &[(&str, usize)]) -> LanguageMap<usize> {
    let mut map = LanguageMap::new();
    for (name, count) in entries {
        map.insert(name.to_string(), *count);
    }
    map
}

fn content(lines: usize, code_lines: usize, kws: &[(&str, usize)]) -> LanguageContentInfo {
    LanguageContentInfo { lines, code_lines, keyword_occurences: keywords(kws) }
}

fn metadata_map(entries: &[(&str, usize, usize)]) -> LanguageMap<LanguageMetadata> {
    let mut map = LanguageMap::new();
    for (name, files, bytes) in entries {
        map.insert(name.to_string(), LanguageMetadata::new(*files, *bytes));
    }
    map
}

fn content_map(entries: &[(&str, usize)]) -> LanguageMap<LanguageContentInfo> {
    let mut map = LanguageMap::new();
    for (name, lines) in entries {
        map.insert(name.to_string(), LanguageContentInfo::dummy(*lines));
    }
    map
}

fn keys<T>(map: &LanguageMap<T>) -> Vec<String> {
    (0..map.len()).map(|i| map.key_at(i).clone()).collect()
}

#[test]
fn map_insert_get_remove() {
    let mut map = keywords(&[("if", 1), ("for", 2)]);
    assert_eq!(2, map.len());
    map.insert("if".to_string(), 5);
    assert_eq!(2, map.len());
    assert_eq!(Some(&5), map.get(&"if".to_string()));
    assert_eq!(None, map.get(&"while".to_string()));
    map.remove(&"if".to_string());
    assert!(!map.contains_key(&"if".to_string()));
    assert_eq!(vec!["for".to_string()], keys(&map));
    map.remove(&"absent".to_string());
    assert_eq!(1, map.len());
}

#[test]
fn languages_without_files_are_removed_from_both_maps() {
    let mut metadata = metadata_map(&[("rs", 2, 100), ("c", 0, 0), ("py", 1, 10), ("go", 0, 5)]);
    let mut contents = content_map(&[("rs", 10), ("c", 0), ("py", 3), ("go", 1)]);
    remove_languages_with_0_files(&mut contents, &mut metadata);
    assert_eq!(vec!["rs".to_string(), "py".to_string()], keys(&metadata));
    assert_eq!(vec!["rs".to_string(), "py".to_string()], keys(&contents));
    assert_eq!(Some(&LanguageMetadata::new(2, 100)), metadata.get(&"rs".to_string()));
    assert_eq!(3, contents.get(&"py".to_string()).unwrap().lines);
}

#[test]
fn names_are_sorted_by_weight_heaviest_first() {
    // Weights: rs 2 * 10 + 100 = 120, py 10 + 10 = 20, go 5 * 10 + 200 = 250, c 10 + 10 = 20.
    let metadata = metadata_map(&[("rs", 2, 100), ("py", 1, 10), ("go", 5, 200), ("c", 1, 10)]);
    let names = get_language_names_as_sorted_vec_according_to_how_much_they_appeared(&metadata);
    assert_eq!(vec!["go".to_string(), "rs".to_string(), "py".to_string(), "c".to_string()], names);
}

#[test]
fn totals_of_files_lines_and_bytes() {
    let metadata = metadata_map(&[("rs", 2, 100), ("py", 1, 10)]);
    let contents = content_map(&[("rs", 30), ("py", 12)]);
    assert_eq!((3, 42, 110), files_lines_size(&contents, &metadata));
}

#[test]
fn smaller_languages_are_gathered_under_others() {
    let mut names = vec!["go".to_string(), "rs".to_string(), "py".to_string(), "c".to_string(), "js".to_string()];
    let mut metadata = metadata_map(&[("rs", 2, 100), ("py", 1, 10), ("go", 5, 200), ("c", 1, 10), ("js", 3, 7)]);
    let mut contents = content_map(&[("rs", 30), ("py", 12), ("go", 50), ("c", 4), ("js", 9)]);
    retain_most_relevant_and_add_others_field_for_rest(&mut names, &mut contents, &mut metadata);
    assert_eq!(vec!["go".to_string(), "rs".to_string(), "py".to_string(), "others".to_string()], names);
    assert_eq!(
        vec!["rs".to_string(), "py".to_string(), "go".to_string(), "others".to_string()],
        keys(&metadata)
    );
    assert_eq!(Some(&LanguageMetadata::new(4, 17)), metadata.get(&"others".to_string()));
    let others = contents.get(&"others".to_string()).unwrap();
    assert_eq!(13, others.lines);
    assert_eq!(0, others.code_lines);
    assert_eq!(0, others.keyword_occurences.len());
    // Nothing is lost: the totals are the same as before.
    assert_eq!((12, 105, 327), files_lines_size(&contents, &metadata));
}

#[test]
fn with_four_languages_only_others_is_added() {
    let mut names = vec!["rs".to_string(), "py".to_string()];
    let mut metadata = metadata_map(&[("rs", 2, 100), ("py", 1, 10)]);
    let mut contents = content_map(&[("rs", 30), ("py", 12)]);
    retain_most_relevant_and_add_others_field_for_rest(&mut names, &mut contents, &mut metadata);
    assert_eq!(vec!["rs".to_string(), "py".to_string()], names);
    assert_eq!(Some(&LanguageMetadata::new(0, 0)), metadata.get(&"others".to_string()));
    assert_eq!(0, contents.get(&"others".to_string()).unwrap().lines);
}

#[test]
fn keyword_counts_are_added_up_per_keyword() {
    let mut contents = LanguageMap::new();
    contents.insert("rs".to_string(), content(10, 5, &[("fn", 3), ("if", 0), ("for", 2)]));
    contents.insert("py".to_string(), content(10, 5, &[("if", 4), ("for", 1)]));
    let sums = create_keyword_sum_map(&contents);
    assert_eq!(vec!["fn".to_string(), "for".to_string(), "if".to_string()], keys(&sums));
    assert_eq!(Some(&3), sums.get(&"fn".to_string()));
    assert_eq!(Some(&3), sums.get(&"for".to_string()));
    assert_eq!(Some(&4), sums.get(&"if".to_string()));
}

#[test]
fn keyword_sums_of_disjoint_maps_add_up() {
    let mut a = LanguageMap::new();
    a.insert("rs".to_string(), content(10, 5, &[("fn", 3), ("if", 2)]));
    let mut b = LanguageMap::new();
    b.insert("py".to_string(), content(10, 5, &[("if", 4), ("def", 6)]));
    let mut both = LanguageMap::new();
    both.insert("rs".to_string(), content(10, 5, &[("fn", 3), ("if", 2)]));
    both.insert("py".to_string(), content(10, 5, &[("if", 4), ("def", 6)]));
    let (sa, sb, sc) = (create_keyword_sum_map(&a), create_keyword_sum_map(&b), create_keyword_sum_map(&both));
    for k in ["fn", "if", "def", "while"] {
        let k = k.to_string();
        let get = |m: &LanguageMap<usize>| m.get(&k).copied().unwrap_or(0);
        assert_eq!(get(&sc), get(&sa) + get(&sb));
    }
    assert_eq!(Some(&6), sc.get(&"if".to_string()));
}

#[test]
fn keyword_totals_beyond_a_machine_word_are_refused() {
    let mut contents = LanguageMap::new();
    contents.insert("rs".to_string(), content(1, 1, &[("fn", usize::MAX)]));
    contents.insert("py".to_string(), content(1, 1, &[("fn", 1)]));
    assert!(checked_keyword_sum_map(&contents).is_none());
    contents.remove(&"py".to_string());
    assert_eq!(Some(&usize::MAX), checked_keyword_sum_map(&contents).unwrap().get(&"fn".to_string()));
}
