//! The whole report, from the two maps of statistics to the styled spans,
//! and the test of the inputs that it can be made from.
use vstd::prelude::*;

use crate::languages::{
    Configuration, LanguageContentInfo, LanguageMetadata, bytes_seq, files_seq, lines_seq, is_dummy, names_by_weight,
    relevant_entries, relevant_names, remove_all, retain_most_relevant_and_add_others_field_for_rest, weight,
    zero_file_names, remove_languages_with_0_files, checked_keyword_sum_map, files_vec, bytes_vec, lines_vec,
    code_lines_vec, get_language_names_as_sorted_vec_according_to_how_much_they_appeared,
};
use crate::ordering::seq_sum;
use crate::percentages::keyed_lines;
use crate::report::{
    content_of, metadata_of, row_ok, byte_len, overview_line_ok, verticals_ok, hundredths_of,
    files_shares, lines_shares, sizes_shares, options_of, files_width, max_files_exec,
    details, details_ok, individual_section, overview, overview_ok, overview_section, sum_ok, sum_section,
    sum_section_spans,
};
use crate::text::{Span, append_doc, doc_view, decimal_string, lemma_usize_text_len, with_seperators};
use crate::verticals::{NUM_OF_VERTICALS, lemma_prefix_sum_le, raw_verticals_exec, raw_verticals_seq};
use crate::percentages::{
    first_index, get_files_percentages, get_lines_percentages, get_sizes_percentages, names_cover, position,
    values_of,
};
use crate::table::{
    Entries, LanguageMap, has_key, key_index, keys_distinct, map_insert, strings_view, lemma_keep_named_distinct,
};

verus! {

/// The languages of a map that have files.
pub open spec fn with_files<T>(s: Entries<T>, m0: Entries<LanguageMetadata>) -> Entries<T> {
    remove_all(s, zero_file_names(m0))
}

/// The names of the overview: those of `names1`, or the first three and
/// "others" when there are more than four languages.
pub open spec fn overview_names(c1: Entries<LanguageContentInfo>, names1: Seq<Seq<char>>) -> Seq<Seq<char>> {
    if c1.len() > 4 {
        relevant_names(names1)
    } else {
        names1
    }
}

/// The files and bytes of the overview's languages, the rest under "others".
pub open spec fn overview_metadata(
    c1: Entries<LanguageContentInfo>,
    m1: Entries<LanguageMetadata>,
    names1: Seq<Seq<char>>,
) -> Entries<LanguageMetadata> {
    if c1.len() > 4 {
        map_insert(
            relevant_entries(m1, names1),
            "others"@,
            LanguageMetadata {
                files: (seq_sum(files_seq(m1)) - seq_sum(files_seq(relevant_entries(m1, names1)))) as usize,
                bytes: (seq_sum(bytes_seq(m1)) - seq_sum(bytes_seq(relevant_entries(m1, names1)))) as usize,
            },
        )
    } else {
        m1
    }
}

/// The lines of the overview's languages, the rest under "others".
pub open spec fn overview_lines(c1: Entries<LanguageContentInfo>, names1: Seq<Seq<char>>) -> Entries<usize> {
    if c1.len() > 4 {
        map_insert(
            keyed_lines(relevant_entries(c1, names1)),
            "others"@,
            (seq_sum(lines_seq(c1)) - seq_sum(lines_seq(relevant_entries(c1, names1)))) as usize,
        )
    } else {
        keyed_lines(c1)
    }
}

/// `c` holds the contents of the overview's languages, and a placeholder
/// with the remaining lines under "others".
pub open spec fn overview_content(
    c1: Entries<LanguageContentInfo>,
    names1: Seq<Seq<char>>,
    c: Entries<LanguageContentInfo>,
) -> bool {
    if c1.len() > 4 {
        exists|v: LanguageContentInfo|
            is_dummy(v, seq_sum(lines_seq(c1)) - seq_sum(lines_seq(relevant_entries(c1, names1))))
                && #[trigger] map_insert(relevant_entries(c1, names1), "others"@, v) == c
    } else {
        c == c1
    }
}

/// The metadata map once the report has been made.
pub open spec fn final_metadata(c0: Entries<LanguageContentInfo>, m0: Entries<LanguageMetadata>) -> Entries<
    LanguageMetadata,
> {
    let c1 = with_files(c0, m0);
    let m1 = with_files(m0, m0);
    if m1.len() > 1 {
        overview_metadata(c1, m1, names_by_weight(m1))
    } else {
        m1
    }
}

/// `c` is the content map once the report has been made.
pub open spec fn final_content(
    c0: Entries<LanguageContentInfo>,
    m0: Entries<LanguageMetadata>,
    c: Entries<LanguageContentInfo>,
) -> bool {
    let c1 = with_files(c0, m0);
    let m1 = with_files(m0, m0);
    if m1.len() > 1 {
        overview_content(c1, names_by_weight(m1), c)
    } else {
        c == c1
    }
}

pub open spec fn weights_ok(m: Entries<LanguageMetadata>) -> bool {
    forall|i: int| 0 <= i < m.len() ==> weight(#[trigger] m[i].1) <= usize::MAX
}

/// The inputs that the report can be made from.
pub open spec fn printable(
    c0: Entries<LanguageContentInfo>,
    m0: Entries<LanguageMetadata>,
    no_visual: bool,
) -> bool {
    let c1 = with_files(c0, m0);
    let m1 = with_files(m0, m0);
    let names1 = names_by_weight(m1);
    &&& weights_ok(m1)
    &&& details_ok(names1, c1, m1)
    &&& m1.len() > 1 ==> {
        &&& sum_ok(c1, m1)
        &&& overview_ok(
            overview_names(c1, names1),
            overview_lines(c1, names1),
            overview_metadata(c1, m1, names1),
            no_visual,
        )
    }
}

/// The report: the details of every language with files, ordered by weight;
/// with more than one such language also the totals and the overview.
pub open spec fn report(
    c0: Entries<LanguageContentInfo>,
    m0: Entries<LanguageMetadata>,
    no_visual: bool,
) -> Seq<crate::text::SpanView> {
    let c1 = with_files(c0, m0);
    let m1 = with_files(m0, m0);
    let names1 = names_by_weight(m1);
    details(names1, c1, m1) + if m1.len() > 1 {
        sum_section(c1, m1) + overview(
            overview_names(c1, names1),
            overview_metadata(c1, m1, names1),
            overview_lines(c1, names1),
            no_visual,
        )
    } else {
        Seq::empty()
    }
}

/// The lines of a map after storing one more entry.
pub proof fn lemma_keyed_lines_insert(s: Entries<LanguageContentInfo>, k: Seq<char>, v: LanguageContentInfo)
    requires
        keys_distinct(s),
    ensures
        keyed_lines(map_insert(s, k, v)) == map_insert(keyed_lines(s), k, v.lines),
{
    let l = keyed_lines(s);
    assert forall|i: int| 0 <= i < l.len() implies #[trigger] l[i].0 == s[i].0 by {}
    if has_key(s, k) {
        let i = key_index(s, k);
        assert(l[i].0 == k);
        assert(has_key(l, k));
        let j = key_index(l, k);
        if i != j {
            assert(s[j].0 == l[j].0);
        }
        assert(keyed_lines(map_insert(s, k, v)) =~= map_insert(l, k, v.lines));
    } else {
        assert(!has_key(l, k)) by {
            if has_key(l, k) {
                let j = key_index(l, k);
                assert(s[j].0 == k);
            }
        }
        assert(keyed_lines(map_insert(s, k, v)) =~= map_insert(l, k, v.lines));
    }
}

/// With more than four languages, keeps the three largest under their
/// names and gathers the rest under "others", in the maps and in
/// `sorted_language_vec`.
fn retain_for_overview(
    sorted_language_vec: &mut Vec<String>,
    content_info_map: &mut LanguageMap<LanguageContentInfo>,
    languages_metadata_map: &mut LanguageMap<LanguageMetadata>,
)
    requires
        seq_sum(files_seq(old(languages_metadata_map)@)) <= usize::MAX,
        seq_sum(bytes_seq(old(languages_metadata_map)@)) <= usize::MAX,
        seq_sum(lines_seq(old(content_info_map)@)) <= usize::MAX,
    ensures
        strings_view(final(sorted_language_vec)@) == overview_names(old(content_info_map)@, strings_view(old(sorted_language_vec)@)),
        final(languages_metadata_map)@ == overview_metadata(old(content_info_map)@, old(languages_metadata_map)@, strings_view(old(sorted_language_vec)@)),
        keyed_lines(final(content_info_map)@) == overview_lines(old(content_info_map)@, strings_view(old(sorted_language_vec)@)),
        overview_content(old(content_info_map)@, strings_view(old(sorted_language_vec)@), final(content_info_map)@),
{
    let ghost c1 = content_info_map@;
    let ghost m1 = languages_metadata_map@;
    let ghost names1 = strings_view(sorted_language_vec@);
    let n = content_info_map.len();
    if n > 4 {
        retain_most_relevant_and_add_others_field_for_rest(sorted_language_vec, content_info_map, languages_metadata_map);
        proof {
            let rel = relevant_entries(c1, names1);
            if names1.len() > 4 {
                lemma_keep_named_distinct(c1, relevant_names(names1));
            }
            assert(keys_distinct(rel));
            let v = choose|v: LanguageContentInfo|
                is_dummy(v, seq_sum(lines_seq(c1)) - seq_sum(lines_seq(rel))) && #[trigger] map_insert(rel, "others"@, v)
                    == content_info_map@;
            lemma_keyed_lines_insert(rel, "others"@, v);
        }
    }
}

/// The overview section. With more than four languages, the three largest
/// are kept under their names and the rest gathered under "others" first,
/// in the maps and in `sorted_language_vec`.
pub fn visual_overview(
    sorted_language_vec: &mut Vec<String>,
    content_info_map: &mut LanguageMap<LanguageContentInfo>,
    languages_metadata_map: &mut LanguageMap<LanguageMetadata>,
    config: &Configuration,
) -> (doc: Vec<Span>)
    requires
        seq_sum(files_seq(old(languages_metadata_map)@)) <= usize::MAX,
        seq_sum(bytes_seq(old(languages_metadata_map)@)) <= usize::MAX,
        seq_sum(lines_seq(old(content_info_map)@)) <= usize::MAX,
        overview_ok(
            overview_names(old(content_info_map)@, strings_view(old(sorted_language_vec)@)),
            overview_lines(old(content_info_map)@, strings_view(old(sorted_language_vec)@)),
            overview_metadata(old(content_info_map)@, old(languages_metadata_map)@, strings_view(old(sorted_language_vec)@)),
            config.no_visual,
        ),
    ensures
        doc_view(doc@) == overview(
            overview_names(old(content_info_map)@, strings_view(old(sorted_language_vec)@)),
            overview_metadata(old(content_info_map)@, old(languages_metadata_map)@, strings_view(old(sorted_language_vec)@)),
            overview_lines(old(content_info_map)@, strings_view(old(sorted_language_vec)@)),
            config.no_visual,
        ),
        strings_view(final(sorted_language_vec)@) == overview_names(old(content_info_map)@, strings_view(old(sorted_language_vec)@)),
        final(languages_metadata_map)@ == overview_metadata(old(content_info_map)@, old(languages_metadata_map)@, strings_view(old(sorted_language_vec)@)),
        keyed_lines(final(content_info_map)@) == overview_lines(old(content_info_map)@, strings_view(old(sorted_language_vec)@)),
        overview_content(old(content_info_map)@, strings_view(old(sorted_language_vec)@), final(content_info_map)@),
{
    retain_for_overview(sorted_language_vec, content_info_map, languages_metadata_map);
    overview_section(sorted_language_vec, content_info_map, languages_metadata_map, config)
}

/// Formats the statistics of every language that has files: their
/// details, ordered by weight, and with more than one language also the
/// totals and the overview. Languages without files are removed from both
/// maps; with more than four languages the maps keep the three largest and
/// "others". The spans are the text to print, in order.
pub fn format_and_print_results(
    content_info_map: &mut LanguageMap<LanguageContentInfo>,
    languages_metadata_map: &mut LanguageMap<LanguageMetadata>,
    config: &Configuration,
) -> (doc: Vec<Span>)
    requires
        printable(old(content_info_map)@, old(languages_metadata_map)@, config.no_visual),
    ensures
        doc_view(doc@) == report(old(content_info_map)@, old(languages_metadata_map)@, config.no_visual),
        final(languages_metadata_map)@ == final_metadata(old(content_info_map)@, old(languages_metadata_map)@),
        final_content(old(content_info_map)@, old(languages_metadata_map)@, final(content_info_map)@),
{
    let ghost c0 = content_info_map@;
    let ghost m0 = languages_metadata_map@;
    remove_languages_with_0_files(content_info_map, languages_metadata_map);
    let mut sorted_language_names = get_language_names_as_sorted_vec_according_to_how_much_they_appeared(
        languages_metadata_map,
    );
    let mut doc = individual_section(sorted_language_names.as_slice(), content_info_map, languages_metadata_map);
    if languages_metadata_map.len() > 1 {
        let sum = sum_section_spans(content_info_map, languages_metadata_map);
        append_doc(&mut doc, sum);
        let overview_doc = visual_overview(
            &mut sorted_language_names,
            content_info_map,
            languages_metadata_map,
            config,
        );
        append_doc(&mut doc, overview_doc);
    }
    assert(doc_view(doc@) =~= report(c0, m0, config.no_visual));
    doc
}

/// Whether every weight fits in a machine word.
fn weights_check(m: &LanguageMap<LanguageMetadata>) -> (b: bool)
    ensures
        b == weights_ok(m@),
{
    let n = m.len();
    let mut i: usize = 0;
    while i < n
        invariant
            0 <= i <= n,
            n == m@.len(),
            forall|j: int| 0 <= j < i ==> weight(#[trigger] m@[j].1) <= usize::MAX,
        decreases n - i,
    {
        let e = m.value_at(i);
        if (e.files as u128) * 10 + (e.bytes as u128) > usize::MAX as u128 {
            assert(weight(m@[i as int].1) > usize::MAX);
            return false;
        }
        i = i + 1;
    }
    true
}

/// Whether the details can be laid out for `names`.
fn details_check(
    names: &Vec<String>,
    c: &LanguageMap<LanguageContentInfo>,
    m: &LanguageMap<LanguageMetadata>,
) -> (b: bool)
    ensures
        b == details_ok(strings_view(names@), c@, m@),
{
    let ghost nv = strings_view(names@);
    if m.len() == 0 {
        return false;
    }
    let max_files_num = max_files_exec(m);
    let width = decimal_string(max_files_num).as_str().unicode_len();
    proof {
        lemma_usize_text_len(max_files_num);
    }
    let n = names.len();
    let mut j: usize = 0;
    while j < n
        invariant
            0 <= j <= n,
            n == nv.len(),
            nv == strings_view(names@),
            width == files_width(m@),
            width <= 20,
            m@.len() >= 1,
            forall|k: int|
                0 <= k < j ==> has_key(c@, #[trigger] nv[k]) && has_key(m@, nv[k]) && row_ok(
                    nv[k],
                    content_of(c@, nv[k]),
                    metadata_of(m@, nv[k]),
                    files_width(m@),
                ),
        decreases n - j,
    {
        let name = &names[j];
        assert(nv[j as int] == name@);
        let content_info = match c.get(name) {
            Some(x) => x,
            None => {
                return false;
            },
        };
        let metadata = match m.get(name) {
            Some(x) => x,
            None => {
                return false;
            },
        };
        proof {
            lemma_usize_text_len(metadata.files);
            assert(has_key(c@, name@));
            assert(has_key(m@, name@));
            assert(content_of(c@, name@) == *content_info);
            assert(metadata_of(m@, name@) == *metadata);
        }
        if !(metadata.files > 0 && name.as_str().len() <= 7
            && with_seperators(metadata.files).as_str().unicode_len() <= width + 1
            && content_info.code_lines <= content_info.lines) {
            return false;
        }
        assert(byte_len(name@) <= 7);
        assert(row_ok(nv[j as int], content_of(c@, nv[j as int]), metadata_of(m@, nv[j as int]), files_width(m@)));
        j = j + 1;
    }
    true
}

/// The sum of `values`, if it fits in a machine word.
fn checked_sum(values: &Vec<usize>) -> (r: Option<usize>)
    ensures
        r is Some <==> seq_sum(values@) <= usize::MAX,
        r matches Some(t) ==> t == seq_sum(values@),
{
    let mut total: usize = 0;
    let mut i: usize = 0;
    while i < values.len()
        invariant
            0 <= i <= values@.len(),
            total == seq_sum(values@.take(i as int)),
        decreases values@.len() - i,
    {
        proof {
            assert(values@.take(i as int + 1).drop_last() =~= values@.take(i as int));
            lemma_prefix_sum_le(values@, i as int + 1);
        }
        match total.checked_add(values[i]) {
            Some(x) => {
                total = x;
            },
            None => {
                return None;
            },
        }
        i = i + 1;
    }
    assert(values@.take(i as int) =~= values@);
    Some(total)
}

/// Whether the totals can be laid out.
fn sum_check(c: &LanguageMap<LanguageContentInfo>, m: &LanguageMap<LanguageMetadata>) -> (b: bool)
    ensures
        b == sum_ok(c@, m@),
{
    if m.len() == 0 {
        return false;
    }
    let tf = match checked_sum(&files_vec(m)) {
        Some(x) => x,
        None => {
            return false;
        },
    };
    let tb = match checked_sum(&bytes_vec(m)) {
        Some(x) => x,
        None => {
            return false;
        },
    };
    let tl = match checked_sum(&lines_vec(c)) {
        Some(x) => x,
        None => {
            return false;
        },
    };
    let tc = match checked_sum(&code_lines_vec(c)) {
        Some(x) => x,
        None => {
            return false;
        },
    };
    if tc > tl || tf == 0 {
        return false;
    }
    let max_files_num = max_files_exec(m);
    let width = decimal_string(max_files_num).as_str().unicode_len();
    proof {
        lemma_usize_text_len(max_files_num);
        lemma_usize_text_len(tf);
    }
    if with_seperators(tf).as_str().unicode_len() > width + 1 {
        return false;
    }
    checked_keyword_sum_map(c).is_some()
}

/// Whether an overview line can be laid out with these percentages.
fn line_check(p: &Vec<Option<usize>>, names: &Vec<String>) -> (b: bool)
    ensures
        b == overview_line_ok(p@, strings_view(names@)),
{
    if p.len() > names.len() {
        return false;
    }
    let mut i: usize = 0;
    while i < p.len()
        invariant
            0 <= i <= p@.len(),
            forall|j: int| 0 <= j < i ==> (#[trigger] p@[j] matches Some(t) ==> t < 1000),
        decreases p@.len() - i,
    {
        match p[i] {
            Some(t) => {
                if t >= 1000 {
                    return false;
                }
            },
            None => {},
        }
        i = i + 1;
    }
    true
}

/// Whether bars can be drawn for these percentages.
fn verticals_check(p: &Vec<Option<usize>>) -> (b: bool)
    ensures
        b == verticals_ok(p@),
{
    if p.len() == 0 || p.len() > 4 {
        return false;
    }
    let mut i: usize = 0;
    while i < p.len()
        invariant
            0 <= i <= p@.len(),
            forall|j: int| 0 <= j < i ==> (#[trigger] p@[j] matches Some(t) ==> t <= 1000),
        decreases p@.len() - i,
    {
        match p[i] {
            Some(t) => {
                if t > 1000 {
                    return false;
                }
            },
            None => {},
        }
        i = i + 1;
    }
    if p.len() == 1 {
        let h = match p[0] {
            Some(t) => Some(t * 10),
            None => None,
        };
        let raw = raw_verticals_exec(h);
        proof {
            let rs = raw_verticals_seq(hundredths_of(p@));
            assert(rs.drop_last() =~= Seq::<usize>::empty());
            assert(seq_sum(rs.drop_last()) == 0);
            assert(rs.last() == rs[0]);
            assert(hundredths_of(p@)[0] == h);
            assert(seq_sum(rs) == raw);
        }
        if raw > NUM_OF_VERTICALS + 1 || raw + 1 < NUM_OF_VERTICALS {
            return false;
        }
    }
    true
}

/// Whether every name of `m` occurs in `names` within the size of `m`.
fn cover_check_meta(m: &LanguageMap<LanguageMetadata>, names: &Vec<String>) -> (b: bool)
    ensures
        b == names_cover(m@, strings_view(names@)),
{
    let n = m.len();
    let mut i: usize = 0;
    while i < n
        invariant
            0 <= i <= n,
            n == m@.len(),
            forall|j: int| 0 <= j < i ==> first_index(strings_view(names@), #[trigger] m@[j].0) < m@.len(),
        decreases n - i,
    {
        if position(names.as_slice(), m.key_at(i)) >= n {
            return false;
        }
        i = i + 1;
    }
    true
}

/// Whether every name of `c` occurs in `names` within the size of `c`.
fn cover_check_lines(c: &LanguageMap<LanguageContentInfo>, names: &Vec<String>) -> (b: bool)
    ensures
        b == names_cover(keyed_lines(c@), strings_view(names@)),
{
    let n = c.len();
    let ghost l = keyed_lines(c@);
    let mut i: usize = 0;
    while i < n
        invariant
            0 <= i <= n,
            n == c@.len(),
            l == keyed_lines(c@),
            forall|j: int| 0 <= j < i ==> first_index(strings_view(names@), #[trigger] l[j].0) < l.len(),
        decreases n - i,
    {
        assert(l[i as int].0 == c@[i as int].0);
        if position(names.as_slice(), c.key_at(i)) >= n {
            return false;
        }
        i = i + 1;
    }
    true
}

/// Whether the overview can be laid out for `names` and these maps.
fn overview_check(
    names: &Vec<String>,
    c: &LanguageMap<LanguageContentInfo>,
    m: &LanguageMap<LanguageMetadata>,
    config: &Configuration,
) -> (b: bool)
    ensures
        b == overview_ok(strings_view(names@), keyed_lines(c@), m@, config.no_visual),
{
    let ghost nv = strings_view(names@);
    assert(values_of(keyed_lines(c@)) =~= lines_seq(c@));
    if names.len() == 0 || !cover_check_meta(m, names) || !cover_check_lines(c, names) {
        return false;
    }
    if checked_sum(&files_vec(m)).is_none() || checked_sum(&bytes_vec(m)).is_none() || checked_sum(
        &lines_vec(c),
    ).is_none() {
        return false;
    }
    proof {
        assert(names_cover(c@, nv)) by {
            assert forall|i: int| 0 <= i < c@.len() implies first_index(nv, #[trigger] c@[i].0) < c@.len() by {
                assert(keyed_lines(c@)[i].0 == c@[i].0);
            }
        }
    }
    let fp = options_of(get_files_percentages(m, names.as_slice()), m.len());
    let lp = options_of(get_lines_percentages(c, names.as_slice()), c.len());
    let sp = options_of(get_sizes_percentages(m, names.as_slice()), m.len());
    assert(fp@ == files_shares(m@, nv));
    assert(lp@ == lines_shares(keyed_lines(c@), nv));
    assert(sp@ == sizes_shares(m@, nv));
    if !line_check(&fp, names) || !line_check(&lp, names) || !line_check(&sp, names) {
        return false;
    }
    if !config.no_visual {
        if !verticals_check(&fp) || !verticals_check(&lp) || !verticals_check(&sp) {
            return false;
        }
    }
    true
}

/// Formats the results when the report can be laid out ([`printable`]),
/// and answers `None` exactly when it cannot: a name longer than seven
/// bytes, a share of 100.0% in the overview, totals beyond a machine word
/// and the like.
#[verifier::rlimit(50)]
pub fn try_format_and_print_results(
    content_info_map: &mut LanguageMap<LanguageContentInfo>,
    languages_metadata_map: &mut LanguageMap<LanguageMetadata>,
    config: &Configuration,
) -> (r: Option<Vec<Span>>)
    ensures
        r is Some <==> printable(old(content_info_map)@, old(languages_metadata_map)@, config.no_visual),
        r matches Some(doc) ==> doc_view(doc@) == report(
            old(content_info_map)@,
            old(languages_metadata_map)@,
            config.no_visual,
        ),
        r is Some ==> final(languages_metadata_map)@ == final_metadata(old(content_info_map)@, old(languages_metadata_map)@),
        r is Some ==> final_content(old(content_info_map)@, old(languages_metadata_map)@, final(content_info_map)@),
{
    let ghost c0 = content_info_map@;
    let ghost m0 = languages_metadata_map@;
    remove_languages_with_0_files(content_info_map, languages_metadata_map);
    if !weights_check(languages_metadata_map) {
        return None;
    }
    let mut sorted_language_names = get_language_names_as_sorted_vec_according_to_how_much_they_appeared(
        languages_metadata_map,
    );
    if !details_check(&sorted_language_names, content_info_map, languages_metadata_map) {
        return None;
    }
    let mut doc = individual_section(sorted_language_names.as_slice(), content_info_map, languages_metadata_map);
    if languages_metadata_map.len() > 1 {
        if !sum_check(content_info_map, languages_metadata_map) {
            return None;
        }
        let sum = sum_section_spans(content_info_map, languages_metadata_map);
        append_doc(&mut doc, sum);
        retain_for_overview(&mut sorted_language_names, content_info_map, languages_metadata_map);
        if !overview_check(&sorted_language_names, content_info_map, languages_metadata_map, config) {
            return None;
        }
        let overview_doc = overview_section(&sorted_language_names, content_info_map, languages_metadata_map, config);
        append_doc(&mut doc, overview_doc);
    }
    assert(doc_view(doc@) =~= report(c0, m0, config.no_visual));
    Some(doc)
}

} // verus!
