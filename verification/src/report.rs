//! The report: per-language details, the totals and the visual overview,
//! laid out as styled spans.
use vstd::prelude::*;
use vstd::utf8::encode_utf8;

use crate::languages::{
    Configuration, LanguageContentInfo, LanguageMetadata, files_seq, bytes_seq, lines_seq, code_lines_seq, keyword_sums,
    total_count, files_lines_size, create_keyword_sum_map,
};
use crate::ordering::{lemma_sum_bounded, seq_sum};
use crate::percentages::{
    keyed_bytes, keyed_files, keyed_lines, names_cover, values_of, first_index, placed_percentages, get_files_percentages,
    get_lines_percentages, get_sizes_percentages,
};
use crate::verticals::{
    NUM_OF_VERTICALS, distance, get_num_of_verticals, lemma_prefix_sum_le, num_of_verticals, raw_verticals_seq,
};
use crate::table::{Entries, LanguageMap, has_key, lookup, strings_view};
use crate::text::{
    Piece, PieceView, Span, SpanView, Style, doc_view, styled, txt, spaces, separated, decimal,
    push_span, push_span_value, push_text, push_str, push_spaces, push_separated, append_doc, with_seperators,
    colored_word, decimal_string, lemma_usize_text_len, tenths_text, pow10, lemma_decimal_len, push_decimal,
};

verus! {

/// Columns of a keyword line before its first keyword, besides the width of
/// the file counts.
pub const KEYWORD_LINE_OFFSET: usize = 19;

/// Width of the line statistics besides their three numbers.
pub const STANDARD_LINE_STATS_LEN: usize = 33;

/// The number of bytes of a name, as `str::len` reports it.
pub open spec fn byte_len(s: Seq<char>) -> nat {
    (encode_utf8(s).len() as usize) as nat
}

/// ` , name: count`.
pub open spec fn keyword_item(k: Seq<char>, c: usize) -> Seq<SpanView> {
    seq![txt(" , "@), styled(k, Style::Keyword), txt(": "@ + separated(c as nat))]
}

pub open spec fn keyword_tail(s: Entries<usize>) -> Seq<SpanView>
    decreases s.len(),
{
    if s.len() == 0 {
        Seq::empty()
    } else {
        keyword_tail(s.drop_last()) + keyword_item(s.last().0, s.last().1)
    }
}

/// The keyword line: indented by `KEYWORD_LINE_OFFSET + width`, then every
/// keyword with its count, separated by ` , `; nothing without keywords.
pub open spec fn keywords_line(s: Entries<usize>, width: nat) -> Seq<SpanView> {
    if s.len() == 0 {
        Seq::empty()
    } else {
        seq![
            txt(spaces((KEYWORD_LINE_OFFSET + width) as nat)),
            styled(s[0].0, Style::Keyword),
            txt(": "@ + separated(s[0].1 as nat)),
        ] + keyword_tail(s.drop_first())
    }
}

/// The keyword occurrences on one line, each keyword in the keyword style.
pub fn get_keywords_as_str(keyword_occurencies: &LanguageMap<usize>, max_files_num_size: usize) -> (line: Vec<Span>)
    requires
        KEYWORD_LINE_OFFSET + max_files_num_size <= usize::MAX,
    ensures
        doc_view(line@) == keywords_line(keyword_occurencies@, max_files_num_size as nat),
{
    let ghost s = keyword_occurencies@;
    let mut keyword_info: Vec<Span> = Vec::new();
    let n = keyword_occurencies.len();
    if n == 0 {
        assert(doc_view(keyword_info@) =~= Seq::<SpanView>::empty());
        return keyword_info;
    }
    let mut indent = String::new();
    push_spaces(&mut indent, KEYWORD_LINE_OFFSET + max_files_num_size);
    push_text(&mut keyword_info, indent, Style::Plain);
    push_span_value(&mut keyword_info, colored_word(keyword_occurencies.key_at(0).as_str()));
    let mut count = String::from_str(": ");
    push_separated(&mut count, *keyword_occurencies.value_at(0));
    push_text(&mut keyword_info, count, Style::Plain);
    let ghost head = seq![
        txt(spaces((KEYWORD_LINE_OFFSET + max_files_num_size) as nat)),
        styled(s[0].0, Style::Keyword),
        txt(": "@ + separated(s[0].1 as nat)),
    ];
    assert(doc_view(keyword_info@) =~= head);
    assert(s.subrange(1, 1) =~= Seq::<(Seq<char>, usize)>::empty());
    let mut i: usize = 1;
    while i < n
        invariant
            1 <= i <= n,
            n == s.len(),
            keyword_occurencies@ == s,
            doc_view(keyword_info@) == head + keyword_tail(s.subrange(1, i as int)),
        decreases n - i,
    {
        proof {
            assert(s.subrange(1, i as int + 1).drop_last() =~= s.subrange(1, i as int));
            assert(s.subrange(1, i as int + 1).last() == s[i as int]);
        }
        let ghost before = doc_view(keyword_info@);
        push_str(&mut keyword_info, " , ", Style::Plain);
        push_span_value(&mut keyword_info, colored_word(keyword_occurencies.key_at(i).as_str()));
        let mut count = String::from_str(": ");
        push_separated(&mut count, *keyword_occurencies.value_at(i));
        push_text(&mut keyword_info, count, Style::Plain);
        proof {
            assert(doc_view(keyword_info@) =~= before + keyword_item(s[i as int].0, s[i as int].1));
        }
        i = i + 1;
    }
    assert(s.subrange(1, n as int) =~= s.drop_first());
    keyword_info
}

/// The largest number of files of a language.
pub open spec fn max_files(s: Entries<LanguageMetadata>) -> nat
    decreases s.len(),
{
    if s.len() == 0 {
        0
    } else {
        let p = max_files(s.drop_last());
        if s.last().1.files > p {
            s.last().1.files as nat
        } else {
            p
        }
    }
}

/// The number of digits of the largest number of files.
pub open spec fn files_width(s: Entries<LanguageMetadata>) -> nat {
    decimal(max_files(s)).len()
}

/// The share of code lines in all lines, or `0.00` without lines.
pub open spec fn code_share(code: usize, lines: usize) -> SpanView {
    if lines > 0 {
        (PieceView::Percent { part: code, whole: lines }, Style::Plain)
    } else {
        txt("0.00"@)
    }
}

/// Sizes are shown in megabytes above a million bytes, in kilobytes above a
/// thousand, in bytes otherwise.
pub open spec fn size_divisor(v: usize) -> usize {
    if v > 1000000 {
        1000000
    } else if v > 1000 {
        1000
    } else {
        1
    }
}

pub open spec fn size_unit(v: usize) -> Seq<char> {
    if v > 1000000 {
        "MBs "@
    } else if v > 1000 {
        "KBs "@
    } else {
        "Bytes "@
    }
}

/// An amount of bytes with its unit and `suffix`, as in `1.5 KBs total`.
pub open spec fn size_spans(v: usize, suffix: Seq<char>) -> Seq<SpanView> {
    seq![
        (PieceView::Amount { value: v, divisor: size_divisor(v) }, Style::Plain),
        txt(" "@),
        styled(size_unit(v) + suffix, Style::Keyword),
    ]
}

/// `<total> total - <average> average`.
pub open spec fn size_text(total: usize, average: usize) -> Seq<SpanView> {
    size_spans(total, "total"@) + seq![txt(" - "@)] + size_spans(average, "average"@)
}

/// `name   <files> files  -> `, the name padded to seven bytes and the file
/// count right-aligned to `width + 1` columns.
pub open spec fn title_spans(k: Seq<char>, files: usize, width: nat) -> Seq<SpanView> {
    seq![
        styled(k, Style::Bold),
        txt(spaces((7 - byte_len(k)) as nat) + spaces((width + 1 - separated(files as nat).len()) as nat)
            + separated(files as nat) + " "@),
        styled("files"@, Style::Keyword),
        txt("  -> "@),
    ]
}

/// `lines <n> {<code> code (<share>%) + <extra> extra}`.
pub open spec fn stats_spans(lines: usize, code: usize) -> Seq<SpanView> {
    seq![
        styled("lines"@, Style::Keyword),
        txt(" "@ + separated(lines as nat) + " {"@ + separated(code as nat) + " code ("@),
        code_share(code, lines),
        txt("%) + "@ + separated((lines - code) as nat) + " extra}"@),
    ]
}

/// The width the line statistics are aligned by, besides the share.
pub open spec fn stats_len(lines: usize, code: usize) -> nat {
    (STANDARD_LINE_STATS_LEN + separated(lines as nat).len() + separated(code as nat).len() + separated(
        (lines - code) as nat,
    ).len()) as nat
}

pub open spec fn content_of(c: Entries<LanguageContentInfo>, k: Seq<char>) -> LanguageContentInfo {
    lookup(c, k).unwrap()
}

pub open spec fn metadata_of(m: Entries<LanguageMetadata>, k: Seq<char>) -> LanguageMetadata {
    lookup(m, k).unwrap()
}

/// The details of one language; `last` ends it with one line break less.
pub open spec fn row_spans(
    k: Seq<char>,
    c: LanguageContentInfo,
    m: LanguageMetadata,
    width: nat,
    max_len: nat,
    last: bool,
) -> Seq<SpanView> {
    title_spans(k, m.files, width) + stats_spans(c.lines, c.code_lines) + seq![
        txt(spaces((max_len + 1 - stats_len(c.lines, c.code_lines)) as nat) + " |  "@),
    ] + size_text(m.bytes, (m.bytes / m.files) as usize) + seq![txt("\n"@)] + keywords_line(
        c.keyword_occurences@,
        width,
    ) + seq![txt(if last { "\n"@ } else { "\n\n"@ })]
}

/// The widest line statistics, at least `STANDARD_LINE_STATS_LEN`.
pub open spec fn max_stats_len(names: Seq<Seq<char>>, c: Entries<LanguageContentInfo>) -> nat
    decreases names.len(),
{
    if names.len() == 0 {
        STANDARD_LINE_STATS_LEN as nat
    } else {
        let p = max_stats_len(names.drop_last(), c);
        let cl = content_of(c, names.last());
        let l = stats_len(cl.lines, cl.code_lines);
        if l > p {
            l
        } else {
            p
        }
    }
}

pub open spec fn rows(
    names: Seq<Seq<char>>,
    c: Entries<LanguageContentInfo>,
    m: Entries<LanguageMetadata>,
    width: nat,
    max_len: nat,
    n: nat,
) -> Seq<SpanView>
    decreases names.len(),
{
    if names.len() == 0 {
        Seq::empty()
    } else {
        rows(names.drop_last(), c, m, width, max_len, n) + row_spans(
            names.last(),
            content_of(c, names.last()),
            metadata_of(m, names.last()),
            width,
            max_len,
            names.len() == n,
        )
    }
}

/// The details section: a heading and one entry per language of `names`.
pub open spec fn details(
    names: Seq<Seq<char>>,
    c: Entries<LanguageContentInfo>,
    m: Entries<LanguageMetadata>,
) -> Seq<SpanView> {
    seq![styled("Details"@, Style::BoldUnderline), txt(".\n\n"@)] + rows(
        names,
        c,
        m,
        files_width(m),
        max_stats_len(names, c),
        names.len(),
    )
}

/// What the details of a language need: files, a name of at most seven
/// bytes, a file count no wider than the widest count plus one column, and
/// no more code lines than lines.
pub open spec fn row_ok(k: Seq<char>, c: LanguageContentInfo, m: LanguageMetadata, width: nat) -> bool {
    &&& m.files > 0
    &&& byte_len(k) <= 7
    &&& separated(m.files as nat).len() <= width + 1
    &&& c.code_lines <= c.lines
}

pub open spec fn details_ok(
    names: Seq<Seq<char>>,
    c: Entries<LanguageContentInfo>,
    m: Entries<LanguageMetadata>,
) -> bool {
    &&& m.len() >= 1
    &&& forall|j: int|
        0 <= j < names.len() ==> has_key(c, #[trigger] names[j]) && has_key(m, names[j]) && row_ok(
            names[j],
            content_of(c, names[j]),
            metadata_of(m, names[j]),
            files_width(m),
        )
}

/// The largest number of files of a language.
pub(crate) fn max_files_exec(m: &LanguageMap<LanguageMetadata>) -> (r: usize)
    ensures
        r == max_files(m@),
{
    let ghost s = m@;
    let n = m.len();
    let mut best: usize = 0;
    let mut i: usize = 0;
    while i < n
        invariant
            0 <= i <= n,
            n == s.len(),
            m@ == s,
            best == max_files(s.take(i as int)),
        decreases n - i,
    {
        assert(s.take(i as int + 1).drop_last() =~= s.take(i as int));
        let f = m.value_at(i).files;
        if f > best {
            best = f;
        }
        i = i + 1;
    }
    assert(s.take(n as int) =~= s);
    best
}

/// Appends an amount of bytes with its unit.
fn push_size(doc: &mut Vec<Span>, v: usize, suffix: &str)
    ensures
        doc_view(final(doc)@) == doc_view(old(doc)@) + size_spans(v, suffix@),
{
    let ghost d0 = doc_view(doc@);
    let (divisor, unit) = if v > 1000000 {
        (1000000usize, "MBs ")
    } else if v > 1000 {
        (1000usize, "KBs ")
    } else {
        (1usize, "Bytes ")
    };
    push_span(doc, Piece::Amount { value: v, divisor }, Style::Plain);
    push_str(doc, " ", Style::Plain);
    let mut u = String::from_str(unit);
    u.append(suffix);
    push_text(doc, u, Style::Keyword);
    assert(doc_view(doc@) =~= d0 + size_spans(v, suffix@));
}

/// Appends the total and average sizes.
fn push_size_text(doc: &mut Vec<Span>, total: usize, average: usize)
    ensures
        doc_view(final(doc)@) == doc_view(old(doc)@) + size_text(total, average),
{
    let ghost d0 = doc_view(doc@);
    push_size(doc, total, "total");
    push_str(doc, " - ", Style::Plain);
    push_size(doc, average, "average");
    assert(doc_view(doc@) =~= d0 + size_text(total, average));
}

/// Appends the share of code lines.
fn push_code_share(doc: &mut Vec<Span>, code: usize, lines: usize)
    ensures
        doc_view(final(doc)@) == doc_view(old(doc)@).push(code_share(code, lines)),
{
    if lines > 0 {
        push_span(doc, Piece::Percent { part: code, whole: lines }, Style::Plain);
    } else {
        push_str(doc, "0.00", Style::Plain);
    }
}

/// Appends the line statistics; returns their width.
fn push_stats(doc: &mut Vec<Span>, lines: usize, code: usize, extra_suffix: &str) -> (len: usize)
    requires
        code <= lines,
    ensures
        len == stats_len(lines, code),
        doc_view(final(doc)@) == doc_view(old(doc)@) + seq![
            styled("lines"@, Style::Keyword),
            txt(" "@ + separated(lines as nat) + " {"@ + separated(code as nat) + " code ("@),
            code_share(code, lines),
            txt("%) + "@ + separated((lines - code) as nat) + extra_suffix@),
        ],
{
    let ghost d0 = doc_view(doc@);
    let lines_str = with_seperators(lines);
    let code_lines_str = with_seperators(code);
    let extra_lines_str = with_seperators(lines - code);
    proof {
        lemma_usize_text_len(lines);
        lemma_usize_text_len(code);
        lemma_usize_text_len((lines - code) as usize);
    }
    let len = STANDARD_LINE_STATS_LEN + lines_str.as_str().unicode_len() + code_lines_str.as_str().unicode_len()
        + extra_lines_str.as_str().unicode_len();
    push_span_value(doc, colored_word("lines"));
    let mut a = String::from_str(" ");
    a.append(lines_str.as_str());
    a.append(" {");
    a.append(code_lines_str.as_str());
    a.append(" code (");
    push_text(doc, a, Style::Plain);
    push_code_share(doc, code, lines);
    let mut b = String::from_str("%) + ");
    b.append(extra_lines_str.as_str());
    b.append(extra_suffix);
    push_text(doc, b, Style::Plain);
    assert(doc_view(doc@) =~= d0 + seq![
        styled("lines"@, Style::Keyword),
        txt(" "@ + separated(lines as nat) + " {"@ + separated(code as nat) + " code ("@),
        code_share(code, lines),
        txt("%) + "@ + separated((lines - code) as nat) + extra_suffix@),
    ]);
    len
}

/// Every language's statistics fit in the widest.
pub proof fn lemma_max_stats_len(names: Seq<Seq<char>>, c: Entries<LanguageContentInfo>)
    requires
        forall|j: int| 0 <= j < names.len() ==> content_of(c, #[trigger] names[j]).code_lines <= content_of(c, names[j]).lines,
    ensures
        max_stats_len(names, c) >= STANDARD_LINE_STATS_LEN,
        max_stats_len(names, c) <= STANDARD_LINE_STATS_LEN + 120,
        forall|j: int|
            0 <= j < names.len() ==> stats_len(
                content_of(c, #[trigger] names[j]).lines,
                content_of(c, names[j]).code_lines,
            ) <= max_stats_len(names, c),
    decreases names.len(),
{
    if names.len() > 0 {
        let p = names.drop_last();
        assert forall|j: int| 0 <= j < p.len() implies content_of(c, #[trigger] p[j]).code_lines <= content_of(c, p[j]).lines by {
            assert(p[j] == names[j]);
        }
        assert(names[names.len() - 1] == names.last());
        lemma_max_stats_len(p, c);
        let cl = content_of(c, names.last());
        lemma_usize_text_len(cl.lines);
        lemma_usize_text_len(cl.code_lines);
        lemma_usize_text_len((cl.lines - cl.code_lines) as usize);
        assert forall|j: int|
            0 <= j < names.len() implies stats_len(
            content_of(c, #[trigger] names[j]).lines,
            content_of(c, names[j]).code_lines,
        ) <= max_stats_len(names, c) by {
            if j < names.len() - 1 {
                assert(names[j] == p[j]);
            }
        }
    }
}

/// The width of the line statistics.
pub(crate) fn stats_len_exec(lines: usize, code: usize) -> (len: usize)
    requires
        code <= lines,
    ensures
        len == stats_len(lines, code),
{
    proof {
        lemma_usize_text_len(lines);
        lemma_usize_text_len(code);
        lemma_usize_text_len((lines - code) as usize);
    }
    STANDARD_LINE_STATS_LEN + with_seperators(lines).as_str().unicode_len() + with_seperators(
        code,
    ).as_str().unicode_len() + with_seperators(lines - code).as_str().unicode_len()
}

/// Appends the title of a language (or of the totals): the name, the file
/// count right-aligned to `width + 1` columns after `pad` blanks, and `files`.
fn push_title(doc: &mut Vec<Span>, name: Span, pad: usize, files: usize, width: usize)
    requires
        separated(files as nat).len() <= width + 1,
        width <= 20,
    ensures
        doc_view(final(doc)@) == doc_view(old(doc)@) + seq![
            name@,
            txt(spaces(pad as nat) + spaces((width + 1 - separated(files as nat).len()) as nat)
                + separated(files as nat) + " "@),
            styled("files"@, Style::Keyword),
            txt("  -> "@),
        ],
{
    let ghost d0 = doc_view(doc@);
    let ghost nv = name@;
    push_span_value(doc, name);
    let files_str = with_seperators(files);
    let mut a = String::new();
    push_spaces(&mut a, pad);
    push_spaces(&mut a, width + 1 - files_str.as_str().unicode_len());
    a.append(files_str.as_str());
    a.append(" ");
    push_text(doc, a, Style::Plain);
    push_span_value(doc, colored_word("files"));
    push_str(doc, "  -> ", Style::Plain);
    assert(doc_view(doc@) =~= d0 + seq![
        nv,
        txt(spaces(pad as nat) + spaces((width + 1 - separated(files as nat).len()) as nat)
            + separated(files as nat) + " "@),
        styled("files"@, Style::Keyword),
        txt("  -> "@),
    ]);
}

/// Appends the details of one language.
fn push_row(
    doc: &mut Vec<Span>,
    lang_name: &String,
    content_info: &LanguageContentInfo,
    metadata: &LanguageMetadata,
    max_files_num_size: usize,
    max_line_stats_len: usize,
    last: bool,
)
    requires
        row_ok(lang_name@, *content_info, *metadata, max_files_num_size as nat),
        max_files_num_size <= 20,
        stats_len(content_info.lines, content_info.code_lines) <= max_line_stats_len,
        max_line_stats_len <= STANDARD_LINE_STATS_LEN + 120,
    ensures
        doc_view(final(doc)@) == doc_view(old(doc)@) + row_spans(
            lang_name@,
            *content_info,
            *metadata,
            max_files_num_size as nat,
            max_line_stats_len as nat,
            last,
        ),
{
    let ghost before = doc_view(doc@);
    let name_len = lang_name.as_str().len();
    push_title(
        doc,
        Span { piece: Piece::Text(lang_name.clone()), style: Style::Bold },
        7 - name_len,
        metadata.files,
        max_files_num_size,
    );
    let len = push_stats(doc, content_info.lines, content_info.code_lines, " extra}");
    let mut pad = String::new();
    push_spaces(&mut pad, max_line_stats_len + 1 - len);
    pad.append(" |  ");
    push_text(doc, pad, Style::Plain);
    push_size_text(doc, metadata.bytes, metadata.bytes / metadata.files);
    push_str(doc, "\n", Style::Plain);
    let keywords = get_keywords_as_str(&content_info.keyword_occurences, max_files_num_size);
    append_doc(doc, keywords);
    if last {
        push_str(doc, "\n", Style::Plain);
    } else {
        push_str(doc, "\n\n", Style::Plain);
    }
    assert(doc_view(doc@) =~= before + row_spans(
        lang_name@,
        *content_info,
        *metadata,
        max_files_num_size as nat,
        max_line_stats_len as nat,
        last,
    ));
}

/// The details section: for each language of `sorted_languages_map`, its
/// files, lines, sizes and keywords, the line statistics aligned.
pub fn individual_section(
    sorted_languages_map: &[String],
    content_info_map: &LanguageMap<LanguageContentInfo>,
    languages_metadata_map: &LanguageMap<LanguageMetadata>,
) -> (doc: Vec<Span>)
    requires
        details_ok(strings_view(sorted_languages_map@), content_info_map@, languages_metadata_map@),
    ensures
        doc_view(doc@) == details(strings_view(sorted_languages_map@), content_info_map@, languages_metadata_map@),
{
    let ghost names = strings_view(sorted_languages_map@);
    let ghost c = content_info_map@;
    let ghost m = languages_metadata_map@;
    let mut doc: Vec<Span> = Vec::new();
    push_str(&mut doc, "Details", Style::BoldUnderline);
    push_str(&mut doc, ".\n\n", Style::Plain);
    let max_files_num = max_files_exec(languages_metadata_map);
    let max_files_num_size = decimal_string(max_files_num).as_str().unicode_len();
    proof {
        lemma_usize_text_len(max_files_num);
    }
    let n = sorted_languages_map.len();
    // the widest line statistics
    let mut max_line_stats_len: usize = STANDARD_LINE_STATS_LEN;
    let mut i: usize = 0;
    while i < n
        invariant
            0 <= i <= n,
            n == names.len(),
            names == strings_view(sorted_languages_map@),
            c == content_info_map@,
            m == languages_metadata_map@,
            details_ok(names, c, m),
            max_line_stats_len == max_stats_len(names.take(i as int), c),
        decreases n - i,
    {
        proof {
            assert(names.take(i as int + 1).drop_last() =~= names.take(i as int));
            assert(names.take(i as int + 1).last() == names[i as int]);
            assert(has_key(c, names[i as int]));
        }
        let content_info = content_info_map.get(&sorted_languages_map[i]).unwrap();
        let curr_line_stats_len = stats_len_exec(content_info.lines, content_info.code_lines);
        if max_line_stats_len < curr_line_stats_len {
            max_line_stats_len = curr_line_stats_len;
        }
        i = i + 1;
    }
    assert(names.take(n as int) =~= names);
    proof {
        lemma_max_stats_len(names, c);
    }
    let ghost head = doc_view(doc@);
    assert(head =~= seq![styled("Details"@, Style::BoldUnderline), txt(".\n\n"@)]);
    let mut j: usize = 0;
    while j < n
        invariant
            0 <= j <= n,
            n == names.len(),
            names == strings_view(sorted_languages_map@),
            c == content_info_map@,
            m == languages_metadata_map@,
            details_ok(names, c, m),
            max_files_num_size == files_width(m),
            max_files_num_size <= 20,
            max_line_stats_len == max_stats_len(names, c),
            max_stats_len(names, c) <= STANDARD_LINE_STATS_LEN + 120,
            forall|k: int|
                0 <= k < names.len() ==> stats_len(
                    content_of(c, #[trigger] names[k]).lines,
                    content_of(c, names[k]).code_lines,
                ) <= max_stats_len(names, c),
            doc_view(doc@) == head + rows(names.take(j as int), c, m, files_width(m), max_stats_len(names, c), n as nat),
        decreases n - j,
    {
        let ghost before = doc_view(doc@);
        let ghost k = names[j as int];
        proof {
            assert(names.take(j as int + 1).drop_last() =~= names.take(j as int));
            assert(names.take(j as int + 1).last() == k);
            assert(has_key(c, k) && has_key(m, k));
            assert(row_ok(k, content_of(c, k), metadata_of(m, k), files_width(m)));
        }
        let lang_name = &sorted_languages_map[j];
        let content_info = content_info_map.get(lang_name).unwrap();
        let metadata = languages_metadata_map.get(lang_name).unwrap();
        push_row(&mut doc, lang_name, content_info, metadata, max_files_num_size, max_line_stats_len, j == n - 1);
        proof {
            assert(doc_view(doc@) =~= before + row_spans(
                k,
                content_of(c, k),
                metadata_of(m, k),
                files_width(m),
                max_stats_len(names, c),
                j + 1 == n,
            ));
        }
        j = j + 1;
    }
    assert(names.take(n as int) =~= names);
    doc
}

/// The totals section: a rule, then the files, lines, sizes and keyword
/// occurrences of all languages together.
pub open spec fn sum_section(c: Entries<LanguageContentInfo>, m: Entries<LanguageMetadata>) -> Seq<SpanView> {
    let tf = seq_sum(files_seq(m));
    let tb = seq_sum(bytes_seq(m));
    let tl = seq_sum(lines_seq(c));
    let tc = seq_sum(code_lines_seq(c));
    let w = files_width(m);
    let avg = (tb / tf) as usize;
    seq![
        (PieceView::Rule {
            base: (STANDARD_LINE_STATS_LEN + separated(tf as nat).len() + separated(tc as nat).len()
                + separated((tl - tc) as nat).len() + 47) as usize,
            total: tb as usize,
            total_divisor: size_divisor(tb as usize),
            average: avg,
            average_divisor: size_divisor(avg),
        }, Style::Plain),
        txt(" \n"@),
        styled("total"@, Style::Bold),
        txt(spaces(3) + spaces((w + 1 - separated(tf as nat).len()) as nat) + separated(tf as nat) + " "@),
        styled("files"@, Style::Keyword),
        txt("  -> "@),
        styled("lines"@, Style::Keyword),
        txt(" "@ + separated(tl as nat) + " {"@ + separated(tc as nat) + " code ("@),
        code_share(tc as usize, tl as usize),
        txt("%) + "@ + separated((tl - tc) as nat) + " extra}  |  "@),
    ] + size_text(tb as usize, avg) + seq![txt("\n"@)] + keywords_line(keyword_sums(c), w) + seq![txt("\n\n"@)]
}

/// What the totals section needs: totals that fit in a machine word, more
/// lines than code lines, files, a total file count no wider than the
/// widest count plus one column.
pub open spec fn sum_ok(c: Entries<LanguageContentInfo>, m: Entries<LanguageMetadata>) -> bool {
    &&& m.len() >= 1
    &&& seq_sum(files_seq(m)) <= usize::MAX
    &&& seq_sum(bytes_seq(m)) <= usize::MAX
    &&& seq_sum(lines_seq(c)) <= usize::MAX
    &&& seq_sum(code_lines_seq(c)) <= seq_sum(lines_seq(c))
    &&& seq_sum(files_seq(m)) > 0
    &&& separated(seq_sum(files_seq(m)) as nat).len() <= files_width(m) + 1
    &&& forall|k: Seq<char>| #[trigger] total_count(c, k) <= usize::MAX
}

/// The total number of code lines.
fn total_code_lines(content_info_map: &LanguageMap<LanguageContentInfo>) -> (r: usize)
    requires
        seq_sum(code_lines_seq(content_info_map@)) <= usize::MAX,
    ensures
        r == seq_sum(code_lines_seq(content_info_map@)),
{
    let ghost c = content_info_map@;
    let mut code: usize = 0;
    let mut i: usize = 0;
    let n = content_info_map.len();
    while i < n
        invariant
            0 <= i <= n,
            n == c.len(),
            content_info_map@ == c,
            seq_sum(code_lines_seq(c)) <= usize::MAX,
            code == seq_sum(code_lines_seq(c).take(i as int)),
        decreases n - i,
    {
        proof {
            assert(code_lines_seq(c).take(i as int + 1).drop_last() =~= code_lines_seq(c).take(i as int));
            lemma_prefix_sum_le(code_lines_seq(c), i as int + 1);
        }
        code = code + content_info_map.value_at(i).code_lines;
        i = i + 1;
    }
    assert(code_lines_seq(c).take(n as int) =~= code_lines_seq(c));
    code
}

/// The totals of all languages: files, lines, sizes and keyword occurrences.
pub fn sum_section_spans(
    content_info_map: &LanguageMap<LanguageContentInfo>,
    languages_metadata_map: &LanguageMap<LanguageMetadata>,
) -> (doc: Vec<Span>)
    requires
        sum_ok(content_info_map@, languages_metadata_map@),
    ensures
        doc_view(doc@) == sum_section(content_info_map@, languages_metadata_map@),
{
    let ghost c = content_info_map@;
    let ghost m = languages_metadata_map@;
    let mut doc: Vec<Span> = Vec::new();
    let (total_files, total_lines, total_bytes) = files_lines_size(content_info_map, languages_metadata_map);
    let total_code_lines = total_code_lines(content_info_map);
    let total_files_str = with_seperators(total_files);
    let total_code_lines_str = with_seperators(total_code_lines);
    let total_extra_lines_str = with_seperators(total_lines - total_code_lines);
    let average = total_bytes / total_files;
    let max_files_num = max_files_exec(languages_metadata_map);
    let max_files_num_size = decimal_string(max_files_num).as_str().unicode_len();
    proof {
        lemma_usize_text_len(max_files_num);
        lemma_usize_text_len(total_files);
        lemma_usize_text_len(total_code_lines);
        lemma_usize_text_len((total_lines - total_code_lines) as usize);
    }
    let keywords_sum_map = create_keyword_sum_map(content_info_map);
    let keywords_line = get_keywords_as_str(&keywords_sum_map, max_files_num_size);
    let line_len = STANDARD_LINE_STATS_LEN + total_files_str.as_str().unicode_len()
        + total_code_lines_str.as_str().unicode_len() + total_extra_lines_str.as_str().unicode_len() + 47;
    let total_divisor = if total_bytes > 1000000 { 1000000 } else if total_bytes > 1000 { 1000 } else { 1 };
    let average_divisor = if average > 1000000 { 1000000 } else if average > 1000 { 1000 } else { 1 };
    push_span(
        &mut doc,
        Piece::Rule { base: line_len, total: total_bytes, total_divisor, average, average_divisor },
        Style::Plain,
    );
    push_str(&mut doc, " \n", Style::Plain);
    push_title(
        &mut doc,
        Span { piece: Piece::Text(String::from_str("total")), style: Style::Bold },
        3,
        total_files,
        max_files_num_size,
    );
    let _ = push_stats(&mut doc, total_lines, total_code_lines, " extra}  |  ");
    push_size_text(&mut doc, total_bytes, average);
    push_str(&mut doc, "\n", Style::Plain);
    append_doc(&mut doc, keywords_line);
    push_str(&mut doc, "\n\n", Style::Plain);
    assert(doc_view(doc@) =~= sum_section(c, m));
    doc
}

/// A percentage as printed: one decimal, or `NaN` when undefined.
pub open spec fn percent_text(p: Option<usize>) -> Seq<char> {
    match p {
        Some(t) => tenths_text(t as nat),
        None => "NaN"@,
    }
}

/// `<share>% <name>`, followed by ` - ` unless it is the last.
pub open spec fn overview_item(
    p: Option<usize>,
    name: Seq<char>,
    color: Style,
    no_visual: bool,
    last: bool,
) -> Seq<SpanView> {
    seq![
        txt(spaces((4 - percent_text(p).len()) as nat) + percent_text(p) + "% "@),
        if no_visual { txt(name) } else { styled(name, color) },
    ] + if last { Seq::empty() } else { seq![txt(" - "@)] }
}

pub open spec fn overview_items(
    pcts: Seq<Option<usize>>,
    names: Seq<Seq<char>>,
    colors: Seq<Style>,
    no_visual: bool,
    n: nat,
) -> Seq<SpanView>
    decreases pcts.len(),
{
    if pcts.len() == 0 {
        Seq::empty()
    } else {
        let i = pcts.len() - 1;
        overview_items(pcts.drop_last(), names, colors, no_visual, n) + overview_item(
            pcts[i],
            names[i],
            colors[i],
            no_visual,
            i == n - 1,
        )
    }
}

/// `count` bars in the colour `color`, each a span of its own.
pub open spec fn bar_run(count: usize, color: Style) -> Seq<SpanView> {
    Seq::new(count as nat, |j: int| styled("|"@, color))
}

pub open spec fn bars(verticals: Seq<usize>, colors: Seq<Style>) -> Seq<SpanView>
    decreases verticals.len(),
{
    if verticals.len() == 0 {
        Seq::empty()
    } else {
        bars(verticals.drop_last(), colors) + bar_run(verticals.last(), colors[verticals.len() - 1])
    }
}

/// `    [-` then the bars of every language in its colour, then `-]`.
pub open spec fn verticals_block(verticals: Seq<usize>, colors: Seq<Style>) -> Seq<SpanView> {
    seq![txt("    [-"@)] + bars(verticals, colors) + seq![txt("-]"@)]
}

/// One line of the overview.
pub open spec fn overview_line(
    prefix: Seq<char>,
    pcts: Seq<Option<usize>>,
    verticals: Seq<usize>,
    names: Seq<Seq<char>>,
    colors: Seq<Style>,
    no_visual: bool,
) -> Seq<SpanView> {
    seq![txt(prefix + "    "@)] + overview_items(pcts, names, colors, no_visual, pcts.len()) + if no_visual {
        Seq::empty()
    } else {
        verticals_block(verticals, colors)
    }
}

/// What an overview line needs: a name for every percentage, and no
/// percentage of 100.0% or more. Colours are needed only with bars.
pub open spec fn overview_line_ok(pcts: Seq<Option<usize>>, names: Seq<Seq<char>>) -> bool {
    &&& pcts.len() <= names.len()
    &&& forall|i: int| 0 <= i < pcts.len() ==> (#[trigger] pcts[i] matches Some(t) ==> t < 1000)
}

/// The bars of every language, each run in the language's colour.
pub fn add_verticals_str(line: &mut Vec<Span>, files_verticals: &[usize], color_func_vec: &[Style])
    requires
        files_verticals@.len() <= color_func_vec@.len(),
    ensures
        doc_view(final(line)@) == doc_view(old(line)@) + verticals_block(files_verticals@, color_func_vec@),
{
    let ghost d0 = doc_view(line@);
    push_str(line, "    [-", Style::Plain);
    let ghost head = doc_view(line@);
    let mut i: usize = 0;
    assert(files_verticals@.take(0) =~= Seq::<usize>::empty());
    while i < files_verticals.len()
        invariant
            0 <= i <= files_verticals@.len(),
            files_verticals@.len() <= color_func_vec@.len(),
            doc_view(line@) == head + bars(files_verticals@.take(i as int), color_func_vec@),
        decreases files_verticals@.len() - i,
    {
        proof {
            assert(files_verticals@.take(i as int + 1).drop_last() =~= files_verticals@.take(i as int));
            assert(files_verticals@.take(i as int + 1).last() == files_verticals@[i as int]);
        }
        let ghost before = doc_view(line@);
        let color = color_func_vec[i];
        let count = files_verticals[i];
        let mut k: usize = 0;
        while k < count
            invariant
                0 <= k <= count,
                doc_view(line@) == before + bar_run(k, color),
            decreases count - k,
        {
            push_str(line, "|", color);
            assert(doc_view(line@) =~= before + bar_run((k + 1) as usize, color));
            k = k + 1;
        }
        i = i + 1;
    }
    assert(files_verticals@.take(files_verticals@.len() as int) =~= files_verticals@);
    push_str(line, "-]", Style::Plain);
    assert(doc_view(line@) =~= d0 + verticals_block(files_verticals@, color_func_vec@));
}

/// The text of a percentage and its length.
fn percent_string(p: Option<usize>) -> (s: String)
    requires
        p matches Some(t) ==> t < 1000,
    ensures
        s@ == percent_text(p),
        s@.len() <= 4,
{
    match p {
        Some(t) => {
            proof {
                assert(pow10(2) == 100) by {
                    reveal_with_fuel(pow10, 3);
                }
                lemma_decimal_len((t / 10) as nat, 2);
                assert(decimal((t % 10) as nat).len() == 1);
            }
            let mut s = String::new();
            push_decimal(&mut s, t / 10);
            s.append(".");
            push_decimal(&mut s, t % 10);
            proof {
                reveal_strlit(".");
            }
            s
        },
        None => {
            proof {
                reveal_strlit("NaN");
            }
            String::from_str("NaN")
        },
    }
}

/// One line of the overview: the prefix, each language's share with its
/// name, and unless `no_visual` the bars.
pub fn create_overview_line(
    prefix: &str,
    percentages: &[Option<usize>],
    verticals: &[usize],
    languages_name: &[String],
    color_func_vec: &[Style],
    config: &Configuration,
) -> (line: Vec<Span>)
    requires
        overview_line_ok(percentages@, strings_view(languages_name@)),
        !config.no_visual ==> percentages@.len() <= color_func_vec@.len(),
        !config.no_visual ==> verticals@.len() <= color_func_vec@.len(),
    ensures
        doc_view(line@) == overview_line(
            prefix@,
            percentages@,
            verticals@,
            strings_view(languages_name@),
            color_func_vec@,
            config.no_visual,
        ),
{
    let ghost names = strings_view(languages_name@);
    let ghost pv = percentages@;
    let mut line: Vec<Span> = Vec::new();
    let mut first = String::from_str(prefix);
    first.append("    ");
    push_text(&mut line, first, Style::Plain);
    let ghost head = doc_view(line@);
    let n = percentages.len();
    let mut i: usize = 0;
    assert(pv.take(0) =~= Seq::<Option<usize>>::empty());
    while i < n
        invariant
            0 <= i <= n,
            n == pv.len(),
            pv == percentages@,
            names == strings_view(languages_name@),
            overview_line_ok(pv, names),
            !config.no_visual ==> n <= color_func_vec@.len(),
            doc_view(line@) == head + overview_items(pv.take(i as int), names, color_func_vec@, config.no_visual, n as nat),
        decreases n - i,
    {
        proof {
            assert(pv.take(i as int + 1).drop_last() =~= pv.take(i as int));
            assert(pv.take(i as int + 1)[i as int] == pv[i as int]);
            assert(pv[i as int] matches Some(t) ==> t < 1000);
        }
        let ghost before = doc_view(line@);
        let str_perc = percent_string(percentages[i]);
        let mut a = String::new();
        push_spaces(&mut a, 4 - str_perc.as_str().unicode_len());
        a.append(str_perc.as_str());
        a.append("% ");
        push_text(&mut line, a, Style::Plain);
        if config.no_visual {
            push_text(&mut line, languages_name[i].clone(), Style::Plain);
        } else {
            push_text(&mut line, languages_name[i].clone(), color_func_vec[i]);
        }
        if i < n - 1 {
            push_str(&mut line, " - ", Style::Plain);
        }
        proof {
            assert(doc_view(line@) =~= before + overview_item(
                pv[i as int],
                names[i as int],
                color_func_vec@[i as int],
                config.no_visual,
                i == n - 1,
            ));
        }
        i = i + 1;
    }
    assert(pv.take(n as int) =~= pv);
    if !config.no_visual {
        add_verticals_str(&mut line, verticals, color_func_vec);
    }
    proof {
        if config.no_visual {
            assert(doc_view(line@) =~= overview_line(prefix@, pv, verticals@, names, color_func_vec@, true));
        } else {
            assert(doc_view(line@) =~= overview_line(prefix@, pv, verticals@, names, color_func_vec@, false));
        }
    }
    line
}

/// Percentages one by one; every one undefined when they are undefined
/// together.
pub open spec fn as_options(p: Option<Seq<usize>>, n: nat) -> Seq<Option<usize>> {
    match p {
        Some(t) => Seq::new(t.len(), |i: int| Some(t[i])),
        None => Seq::new(n, |i: int| None::<usize>),
    }
}

/// Percentages in tenths of a percent, in hundredths.
pub open spec fn hundredths_of(pcts: Seq<Option<usize>>) -> Seq<Option<usize>> {
    Seq::new(
        pcts.len(),
        |i: int|
            match pcts[i] {
                Some(t) => Some((t * 10) as usize),
                None => None,
            },
    )
}

/// The bars of the overview for percentages in tenths of a percent.
pub open spec fn overview_verticals(pcts: Seq<Option<usize>>) -> Seq<usize> {
    num_of_verticals(hundredths_of(pcts))
}

pub open spec fn verticals_ok(pcts: Seq<Option<usize>>) -> bool {
    &&& pcts.len() >= 1
    &&& pcts.len() <= 4
    &&& forall|i: int| 0 <= i < pcts.len() ==> (#[trigger] pcts[i] matches Some(t) ==> t <= 1000)
    &&& pcts.len() == 1 ==> distance(seq_sum(raw_verticals_seq(hundredths_of(pcts)))) <= 1
}

/// The bars of each language for percentages in tenths of a percent.
fn verticals_of_percentages(percentages: &[Option<usize>]) -> (verticals: Vec<usize>)
    requires
        verticals_ok(percentages@),
    ensures
        verticals@ == overview_verticals(percentages@),
        verticals@.len() == percentages@.len(),
        seq_sum(verticals@) == NUM_OF_VERTICALS,
{
    let ghost h = hundredths_of(percentages@);
    let mut hundredths: Vec<Option<usize>> = Vec::new();
    let mut i: usize = 0;
    while i < percentages.len()
        invariant
            0 <= i <= percentages@.len(),
            verticals_ok(percentages@),
            h == hundredths_of(percentages@),
            hundredths@ == h.take(i as int),
        decreases percentages@.len() - i,
    {
        let p = match percentages[i] {
            Some(t) => {
                assert(percentages@[i as int] matches Some(t) ==> t <= 1000);
                Some(t * 10)
            },
            None => None,
        };
        hundredths.push(p);
        assert(hundredths@ =~= h.take(i as int + 1));
        i = i + 1;
    }
    assert(h.take(i as int) =~= h);
    proof {
        let raw = raw_verticals_seq(h);
        assert forall|j: int| 0 <= j < raw.len() implies #[trigger] raw[j] <= 51 by {
            assert(percentages@[j] matches Some(t) ==> t <= 1000);
        }
        lemma_sum_bounded(raw, 51);
    }
    get_num_of_verticals(hundredths.as_slice())
}

/// Shares one by one.
pub(crate) fn options_of(p: Option<Vec<usize>>, n: usize) -> (r: Vec<Option<usize>>)
    ensures
        r@ == as_options(
            match p {
                Some(v) => Some(v@),
                None => None,
            },
            n as nat,
        ),
{
    let mut r: Vec<Option<usize>> = Vec::new();
    match p {
        Some(v) => {
            let mut i: usize = 0;
            while i < v.len()
                invariant
                    0 <= i <= v@.len(),
                    r@ == Seq::new(i as nat, |j: int| Some(v@[j])),
                decreases v@.len() - i,
            {
                r.push(Some(v[i]));
                i = i + 1;
                assert(r@ =~= Seq::new(i as nat, |j: int| Some(v@[j])));
            }
        },
        None => {
            let mut i: usize = 0;
            while i < n
                invariant
                    0 <= i <= n,
                    r@ == Seq::new(i as nat, |j: int| None::<usize>),
                decreases n - i,
            {
                r.push(None);
                i = i + 1;
                assert(r@ =~= Seq::new(i as nat, |j: int| None::<usize>));
            }
        },
    }
    r
}

/// The colours of the overview: cyan, magenta, yellow, and for the fourth
/// language the colour of "others" when the last name is "others".
pub open spec fn colors_for(names: Seq<Seq<char>>) -> Seq<Style> {
    seq![
        Style::Cyan,
        Style::Magenta,
        Style::Yellow,
        if names.last() == "others"@ { Style::Others } else { Style::Fourth },
    ]
}

pub open spec fn files_shares(m: Entries<LanguageMetadata>, names: Seq<Seq<char>>) -> Seq<Option<usize>> {
    as_options(placed_percentages(keyed_files(m), names), m.len())
}

pub open spec fn lines_shares(l: Entries<usize>, names: Seq<Seq<char>>) -> Seq<Option<usize>> {
    as_options(placed_percentages(l, names), l.len())
}

pub open spec fn sizes_shares(m: Entries<LanguageMetadata>, names: Seq<Seq<char>>) -> Seq<Option<usize>> {
    as_options(placed_percentages(keyed_bytes(m), names), m.len())
}

pub open spec fn shown_verticals(p: Seq<Option<usize>>, no_visual: bool) -> Seq<usize> {
    if no_visual {
        Seq::empty()
    } else {
        overview_verticals(p)
    }
}

/// The overview section: a heading, then the shares of files, lines and
/// bytes of each language, with bars unless `no_visual`.
pub open spec fn overview(
    names: Seq<Seq<char>>,
    m: Entries<LanguageMetadata>,
    l: Entries<usize>,
    no_visual: bool,
) -> Seq<SpanView> {
    let colors = colors_for(names);
    let fp = files_shares(m, names);
    let lp = lines_shares(l, names);
    let sp = sizes_shares(m, names);
    seq![styled("Overview"@, Style::BoldUnderline), txt(".\n\n"@)] + overview_line(
        "Files:"@,
        fp,
        shown_verticals(fp, no_visual),
        names,
        colors,
        no_visual,
    ) + seq![txt("\n\n"@)] + overview_line(
        "Lines:"@,
        lp,
        shown_verticals(lp, no_visual),
        names,
        colors,
        no_visual,
    ) + seq![txt("\n\n"@)] + overview_line(
        "Size :"@,
        sp,
        shown_verticals(sp, no_visual),
        names,
        colors,
        no_visual,
    ) + seq![txt("\n\n"@)]
}

/// What the overview needs: every language named in `names` within the
/// size of the maps, totals that fit in a machine word, no share of 100.0%
/// or more, and with bars at most four languages and bars that can be
/// normalized.
/// `l` holds the lines of each language.
pub open spec fn overview_ok(
    names: Seq<Seq<char>>,
    l: Entries<usize>,
    m: Entries<LanguageMetadata>,
    no_visual: bool,
) -> bool {
    let fp = files_shares(m, names);
    let lp = lines_shares(l, names);
    let sp = sizes_shares(m, names);
    &&& names.len() >= 1
    &&& names_cover(m, names)
    &&& names_cover(l, names)
    &&& seq_sum(files_seq(m)) <= usize::MAX
    &&& seq_sum(bytes_seq(m)) <= usize::MAX
    &&& seq_sum(values_of(l)) <= usize::MAX
    &&& overview_line_ok(fp, names)
    &&& overview_line_ok(lp, names)
    &&& overview_line_ok(sp, names)
    &&& !no_visual ==> verticals_ok(fp) && verticals_ok(lp) && verticals_ok(sp)
}

/// The overview of shares, in the order of `sorted_language_vec`.
pub fn overview_section(
    sorted_language_vec: &Vec<String>,
    content_info_map: &LanguageMap<LanguageContentInfo>,
    languages_metadata_map: &LanguageMap<LanguageMetadata>,
    config: &Configuration,
) -> (doc: Vec<Span>)
    requires
        overview_ok(strings_view(sorted_language_vec@), keyed_lines(content_info_map@), languages_metadata_map@, config.no_visual),
    ensures
        doc_view(doc@) == overview(
            strings_view(sorted_language_vec@),
            languages_metadata_map@,
            keyed_lines(content_info_map@),
            config.no_visual,
        ),
{
    let ghost names = strings_view(sorted_language_vec@);
    let ghost m = languages_metadata_map@;
    let ghost c = content_info_map@;
    proof {
        assert(names_cover(c, names)) by {
            assert forall|i: int| 0 <= i < c.len() implies first_index(names, #[trigger] c[i].0) < c.len() by {
                assert(keyed_lines(c)[i].0 == c[i].0);
            }
        }
        assert(values_of(keyed_lines(c)) =~= lines_seq(c));
    }
    let mut doc: Vec<Span> = Vec::new();
    push_str(&mut doc, "Overview", Style::BoldUnderline);
    push_str(&mut doc, ".\n\n", Style::Plain);
    let others = String::from_str("others");
    let fourth = if sorted_language_vec[sorted_language_vec.len() - 1] == others {
        Style::Others
    } else {
        Style::Fourth
    };
    let mut color_func_vec: Vec<Style> = Vec::new();
    color_func_vec.push(Style::Cyan);
    color_func_vec.push(Style::Magenta);
    color_func_vec.push(Style::Yellow);
    color_func_vec.push(fourth);
    assert(color_func_vec@ =~= colors_for(names));
    let files_percentages = options_of(
        get_files_percentages(languages_metadata_map, sorted_language_vec.as_slice()),
        languages_metadata_map.len(),
    );
    let lines_percentages = options_of(
        get_lines_percentages(content_info_map, sorted_language_vec.as_slice()),
        content_info_map.len(),
    );
    let sizes_percentages = options_of(
        get_sizes_percentages(languages_metadata_map, sorted_language_vec.as_slice()),
        languages_metadata_map.len(),
    );
    assert(files_percentages@ == files_shares(m, names));
    assert(lines_percentages@ == lines_shares(keyed_lines(c), names));
    assert(sizes_percentages@ == sizes_shares(m, names));
    let files_verticals = if config.no_visual {
        Vec::new()
    } else {
        verticals_of_percentages(files_percentages.as_slice())
    };
    let lines_verticals = if config.no_visual {
        Vec::new()
    } else {
        verticals_of_percentages(lines_percentages.as_slice())
    };
    let size_verticals = if config.no_visual {
        Vec::new()
    } else {
        verticals_of_percentages(sizes_percentages.as_slice())
    };
    assert(files_verticals@ =~= shown_verticals(files_shares(m, names), config.no_visual));
    assert(lines_verticals@ =~= shown_verticals(lines_shares(keyed_lines(c), names), config.no_visual));
    assert(size_verticals@ =~= shown_verticals(sizes_shares(m, names), config.no_visual));
    let files_line = create_overview_line(
        "Files:",
        files_percentages.as_slice(),
        files_verticals.as_slice(),
        sorted_language_vec.as_slice(),
        color_func_vec.as_slice(),
        config,
    );
    let lines_line = create_overview_line(
        "Lines:",
        lines_percentages.as_slice(),
        lines_verticals.as_slice(),
        sorted_language_vec.as_slice(),
        color_func_vec.as_slice(),
        config,
    );
    let size_line = create_overview_line(
        "Size :",
        sizes_percentages.as_slice(),
        size_verticals.as_slice(),
        sorted_language_vec.as_slice(),
        color_func_vec.as_slice(),
        config,
    );
    append_doc(&mut doc, files_line);
    push_str(&mut doc, "\n\n", Style::Plain);
    append_doc(&mut doc, lines_line);
    push_str(&mut doc, "\n\n", Style::Plain);
    append_doc(&mut doc, size_line);
    push_str(&mut doc, "\n\n", Style::Plain);
    assert(doc_view(doc@) =~= overview(names, m, keyed_lines(c), config.no_visual));
    doc
}

} // verus!
