use lang_summary::format::{format_and_print_results, try_format_and_print_results};
use lang_summary::languages::{Configuration, LanguageContentInfo, LanguageMetadata};
use lang_summary::report::{add_verticals_str, create_overview_line, get_keywords_as_str};
use lang_summary::table::LanguageMap;
use lang_summary::text::{colored_word, with_seperators, Piece, Span, Style};

/// The text of the spans, amounts written as the terminal shows them.
fn render(doc: &[Span]) -> String {
    let mut out = String::new();
    for span in doc {
        match &span.piece {
            Piece::Text(s) => out.push_str(s),
            Piece::Percent { part, whole } => out.push_str(&format!("{:.2}", *part as f64 / *whole as f64 * 100f64)),
            Piece::Amount { value, divisor } => out.push_str(&format!("{:.1}", *value as f64 / *divisor as f64)),
            Piece::Rule { base, total, total_divisor, average, average_divisor } => {
                let total = (*total as f64 / *total_divisor as f64).to_string().len();
                let average = (*average as f64 / *average_divisor as f64).to_string().len();
                out.push_str(&"-".repeat(base + total + average));
            }
        }
    }
    out
}

fn keywords(entries: &[(&str, usize)]) -> LanguageMap<usize> {
    let mut map = LanguageMap::new();
    for (name, count) in entries {
        map.insert(name.to_string(), *count);
    }
    map
}

fn content(lines: usize, code_lines: usize, kws: &[(&str, usize)]) -> LanguageContentInfo {
    LanguageContentInfo { lines, code_lines, keyword_occurences: keywords(kws) }
}

fn metadata_map(entries: &[(&str, usize, usize)]) -> LanguageMap<LanguageMetadata> {
    let mut map = LanguageMap::new();
    for (name, files, bytes) in entries {
        map.insert(name.to_string(), LanguageMetadata::new(*files, *bytes));
    }
    map
}

fn bars_of(doc: &[Span], style: Style) -> usize {
    doc.iter().filter(|s| s.style == style && matches!(&s.piece, Piece::Text(t) if t == "|")).count()
}

/// Two languages with files, one without.
fn sample() -> (LanguageMap<LanguageContentInfo>, LanguageMap<LanguageMetadata>) {
    let mut contents = LanguageMap::new();
    contents.insert("rs".to_string(), content(100, 80, &[("fn", 10)]));
    contents.insert("c".to_string(), content(0, 0, &[]));
    contents.insert("py".to_string(), content(50, 50, &[]));
    let metadata = metadata_map(&[("rs", 3, 2500), ("c", 0, 0), ("py", 1, 900)]);
    (contents, metadata)
}

#[test]
fn numbers_get_thousands_separators() {
    assert_eq!("0", with_seperators(0));
    assert_eq!("999", with_seperators(999));
    assert_eq!("1,000", with_seperators(1000));
    assert_eq!("1,234,567", with_seperators(1234567));
    assert_eq!("12,000", with_seperators(12000));
}

#[test]
fn colored_words_have_the_keyword_style() {
    let span = colored_word("files");
    assert!(span.style == Style::Keyword);
    assert_eq!("files", render(&[span]));
}

#[test]
fn keyword_line_lists_every_keyword() {
    assert!(get_keywords_as_str(&keywords(&[]), 2).is_empty());
    let line = get_keywords_as_str(&keywords(&[("if", 3), ("for", 1200)]), 2);
    assert_eq!(format!("{}if: 3 , for: 1,200", " ".repeat(21)), render(&line));
    assert_eq!(2, line.iter().filter(|s| s.style == Style::Keyword).count());
}

#[test]
fn vertical_bars_take_the_colour_of_their_language() {
    let mut line = Vec::new();
    add_verticals_str(&mut line, &[2, 3], &[Style::Cyan, Style::Magenta]);
    assert_eq!("    [-|||||-]", render(&line));
    assert_eq!(2, bars_of(&line, Style::Cyan));
    assert_eq!(3, bars_of(&line, Style::Magenta));
}

#[test]
fn overview_line_with_and_without_bars() {
    let names = vec!["rs".to_string(), "py".to_string()];
    let colors = [Style::Cyan, Style::Magenta, Style::Yellow, Style::Fourth];
    let visual = Configuration { no_visual: false };
    let line = create_overview_line("Files:", &[Some(750), Some(250)], &[37, 13], &names, &colors, &visual);
    assert_eq!(format!("Files:    75.0% rs - 25.0% py    [-{}-]", "|".repeat(50)), render(&line));
    let plain = Configuration { no_visual: true };
    let line = create_overview_line("Lines:", &[Some(5), None], &[], &names, &colors, &plain);
    assert_eq!("Lines:     0.5% rs -  NaN% py", render(&line));
}

#[test]
fn report_of_two_languages() {
    let (mut contents, mut metadata) = sample();
    let config = Configuration { no_visual: false };
    let doc = format_and_print_results(&mut contents, &mut metadata, &config);
    let bars = "|".repeat(50);
    let expected = [
        "Details.\n\n".to_string(),
        "rs      3 files  -> lines 100 {80 code (80.00%) + 20 extra}  |  2.5 KBs total - 833.0 Bytes average\n"
            .to_string(),
        format!("{}fn: 10\n\n", " ".repeat(20)),
        "py      1 files  -> lines 50 {50 code (100.00%) + 0 extra}    |  900.0 Bytes total - 900.0 Bytes average\n"
            .to_string(),
        "\n".to_string(),
        format!("{} \n", "-".repeat(92)),
        "total    4 files  -> lines 150 {130 code (86.67%) + 20 extra}  |  3.4 KBs total - 850.0 Bytes average\n"
            .to_string(),
        format!("{}fn: 10\n\n", " ".repeat(20)),
        "Overview.\n\n".to_string(),
        format!("Files:    75.0% rs - 25.0% py    [-{}-]\n\n", bars),
        format!("Lines:    66.7% rs - 33.3% py    [-{}-]\n\n", bars),
        format!("Size :    73.5% rs - 26.5% py    [-{}-]\n\n", bars),
    ]
    .concat();
    assert_eq!(expected, render(&doc));
    // Files: 75.0% and 25.0% give 38 and 13 bars, normalized to 37 and 13;
    // lines 33 and 17; sizes 37 and 13.
    assert_eq!(37 + 33 + 37, bars_of(&doc, Style::Cyan));
    assert_eq!(13 + 17 + 13, bars_of(&doc, Style::Magenta));
    // The language without files is gone from both maps.
    assert_eq!(2, metadata.len());
    assert_eq!(2, contents.len());
    assert!(!metadata.contains_key(&"c".to_string()));
    assert!(!contents.contains_key(&"c".to_string()));
}

#[test]
fn report_without_visuals_has_no_bars() {
    let (mut contents, mut metadata) = sample();
    let config = Configuration { no_visual: true };
    let doc = try_format_and_print_results(&mut contents, &mut metadata, &config).unwrap();
    let text = render(&doc);
    assert!(text.ends_with("Size :    73.5% rs - 26.5% py\n\n"));
    assert!(!text.contains("[-"));
    assert_eq!(0, bars_of(&doc, Style::Cyan));
}

#[test]
fn report_of_one_language_has_only_details() {
    let mut contents = LanguageMap::new();
    contents.insert("go".to_string(), content(12, 0, &[]));
    let mut metadata = metadata_map(&[("go", 2, 40)]);
    let config = Configuration { no_visual: false };
    let doc = try_format_and_print_results(&mut contents, &mut metadata, &config).unwrap();
    assert_eq!(
        "Details.\n\ngo      2 files  -> lines 12 {0 code (0.00%) + 12 extra}  |  40.0 Bytes total - 20.0 Bytes average\n\n",
        render(&doc)
    );
}

#[test]
fn report_is_refused_for_a_long_name() {
    let mut contents = LanguageMap::new();
    contents.insert("markdown".to_string(), content(1, 1, &[]));
    let mut metadata = metadata_map(&[("markdown", 1, 1)]);
    let config = Configuration { no_visual: false };
    assert!(try_format_and_print_results(&mut contents, &mut metadata, &config).is_none());
}

#[test]
fn report_is_refused_when_one_language_has_all_lines() {
    let mut contents = LanguageMap::new();
    contents.insert("rs".to_string(), content(10, 5, &[]));
    contents.insert("py".to_string(), content(0, 0, &[]));
    let mut metadata = metadata_map(&[("rs", 1, 10), ("py", 1, 10)]);
    let config = Configuration { no_visual: true };
    // The lines line would show 100.0%, which does not fit its column.
    assert!(try_format_and_print_results(&mut contents, &mut metadata, &config).is_none());
}

#[test]
fn report_gathers_small_languages_under_others() {
    let mut contents = LanguageMap::new();
    let mut metadata = LanguageMap::new();
    for (name, files) in [("a", 5), ("b", 4), ("c", 3), ("d", 2), ("e", 1)] {
        contents.insert(name.to_string(), content(10 * files, files, &[]));
        metadata.insert(name.to_string(), LanguageMetadata::new(files, 100 * files));
    }
    let config = Configuration { no_visual: false };
    let doc = try_format_and_print_results(&mut contents, &mut metadata, &config).unwrap();
    let text = render(&doc);
    // Totals: 15 files, 150 lines, 1500 bytes; others hold d and e.
    assert!(text.contains("Files:    33.3% a - 26.7% b - 20.0% c - 20.0% others    [-"));
    assert_eq!(4, metadata.len());
    assert_eq!(Some(&LanguageMetadata::new(3, 300)), metadata.get(&"others".to_string()));
    assert!(bars_of(&doc, Style::Others) > 0);
    assert_eq!(0, bars_of(&doc, Style::Fourth));
}

#[test]
fn report_shows_undefined_shares_of_lines() {
    let mut contents = LanguageMap::new();
    contents.insert("rs".to_string(), content(0, 0, &[]));
    contents.insert("py".to_string(), content(0, 0, &[]));
    let mut metadata = metadata_map(&[("rs", 3, 30), ("py", 1, 10)]);
    let config = Configuration { no_visual: false };
    let doc = try_format_and_print_results(&mut contents, &mut metadata, &config).unwrap();
    let text = render(&doc);
    // Both languages start from one bar; normalizing gives 28 and 22.
    let expected = format!("Lines:     NaN% rs -  NaN% py    [-{}-]\n\n", "|".repeat(50));
    assert!(text.contains(&expected));
    assert_eq!(37 + 28 + 37, bars_of(&doc, Style::Cyan));
}

#[test]
fn overview_line_without_visuals_needs_no_colours() {
    let names = vec!["rs".to_string(), "py".to_string()];
    let plain = Configuration { no_visual: true };
    let line = create_overview_line("Files:", &[Some(50), Some(950)], &[], &names, &[], &plain);
    assert_eq!("Files:     5.0% rs - 95.0% py", render(&line));
    assert!(line.iter().all(|s| s.style == Style::Plain));
}
