//! Properties of the statistics operations that hold for all inputs.
use vstd::prelude::*;

use crate::languages::{
    LanguageContentInfo, add_counts, count_all, keyword_sums, lemma_add_count, lemma_count_all_nonneg, total_count,
    value_of, lemma_total_count_nonneg,
    LanguageMetadata, bytes_seq, files_seq, lemma_keep_named_sums_meta, lemma_remove_all,
    lemma_zero_file_names, names_by_weight, relevant_entries, relevant_names, weight, weights,
    zero_file_names, remove_all,
};
use crate::verticals::{NUM_OF_VERTICALS, bump, normalized, raw_verticals, steps};
use crate::ordering::{insert_pos, index_seq, indices_below, lemma_sort_desc, seq_sum, sort_desc};
use crate::percentages::{leading_shares, percentages};
use crate::report::{details, overview, size_spans, sum_section};
use crate::format::{
    final_content, final_metadata, overview_content, overview_lines, overview_metadata, overview_names, report, with_files,
};
use crate::percentages::keyed_lines;
use crate::text::{PieceView, Style, styled, txt};
use crate::table::{Entries, has_key, key_index, keys_distinct, lookup, map_insert, lemma_keep_named_distinct};

verus! {

/// The shares of the numbers make 100.0% (1000 tenths) whenever all but the
/// last make at most 99.8%; beyond that the last share is 0.0%.
pub proof fn lemma_percentages_total(numbers: Seq<usize>)
    requires
        numbers.len() >= 1,
        percentages(numbers) is Some,
    ensures
        seq_sum(leading_shares(numbers)) <= 998 ==> seq_sum(percentages(numbers).unwrap()) == 1000,
        seq_sum(leading_shares(numbers)) >= 999 ==> percentages(numbers).unwrap().last() == 0,
        percentages(numbers).unwrap().len() == numbers.len(),
{
    let firsts = leading_shares(numbers);
    let p = percentages(numbers).unwrap();
    crate::verticals::lemma_sum_nonneg(firsts);
    assert(p.drop_last() =~= firsts);
    assert(seq_sum(p) == seq_sum(p.drop_last()) + p.last());
}

/// After dropping the languages without files, exactly the languages with
/// files remain, each with what it had.
pub proof fn lemma_languages_with_files(m: Entries<LanguageMetadata>)
    requires
        keys_distinct(m),
    ensures
        forall|k: Seq<char>|
            #[trigger] has_key(remove_all(m, zero_file_names(m)), k) <==> has_key(m, k) && lookup(m, k).unwrap().files > 0,
        forall|i: int|
            0 <= i < remove_all(m, zero_file_names(m)).len() ==> (#[trigger] remove_all(m, zero_file_names(m))[i]).1.files
                > 0,
{
    let r = remove_all(m, zero_file_names(m));
    lemma_remove_all(m, zero_file_names(m));
    lemma_zero_file_names(m);
    assert forall|k: Seq<char>| #[trigger] has_key(r, k) <==> has_key(m, k) && lookup(m, k).unwrap().files > 0 by {
        if has_key(m, k) {
            let i = key_index(m, k);
            if zero_file_names(m).contains(k) {
                let j = choose|j: int| 0 <= j < m.len() && m[j].0 == k && m[j].1.files == 0;
                if j != i {
                    assert(m[j].0 == m[i].0);
                }
            } else {
                if m[i].1.files == 0 {
                    assert(exists|j: int| 0 <= j < m.len() && m[j].0 == k && m[j].1.files == 0);
                }
            }
        }
    }
    assert forall|i: int| 0 <= i < r.len() implies (#[trigger] r[i]).1.files > 0 by {
        let k = r[i].0;
        assert(has_key(r, k));
        let j = key_index(r, k);
        if j != i {
            assert(r[j].0 == r[i].0);
        }
        assert(lookup(r, k) == lookup(m, k));
    }
}

/// The languages ordered by how much they appeared: every language once,
/// and of two languages the one listed first has at least as many files
/// times ten plus bytes as the other.
pub proof fn lemma_names_by_weight(m: Entries<LanguageMetadata>)
    requires
        keys_distinct(m),
        m.len() <= usize::MAX,
        forall|i: int| 0 <= i < m.len() ==> #[trigger] m[i].1.files * 10 + m[i].1.bytes <= usize::MAX,
    ensures
        names_by_weight(m).len() == m.len(),
        names_by_weight(m).no_duplicates(),
        forall|i: int| 0 <= i < m.len() ==> names_by_weight(m).contains(#[trigger] m[i].0),
        forall|a: int, b: int|
            0 <= a < b < m.len() ==> lookup(m, #[trigger] names_by_weight(m)[a]).unwrap().files * 10 + lookup(
                m,
                names_by_weight(m)[a],
            ).unwrap().bytes >= lookup(m, #[trigger] names_by_weight(m)[b]).unwrap().files * 10 + lookup(
                m,
                names_by_weight(m)[b],
            ).unwrap().bytes,
{
    assert forall|i: int| 0 <= i < m.len() implies weight(#[trigger] m[i].1) <= usize::MAX by {
        assert(m[i].1.files * 10 + m[i].1.bytes <= usize::MAX);
    }
    let n = m.len();
    let w = weights(m);
    let ids = index_seq(n);
    assert(indices_below(ids, w.len()));
    assert forall|a: int, b: int| 0 <= a < ids.len() && 0 <= b < ids.len() && a != b implies ids[a] != ids[b] by {
        assert(ids[a] == a as usize && ids[b] == b as usize);
    }
    assert(ids.no_duplicates());
    lemma_sort_desc(ids, w);
    let order = sort_desc(ids, w);
    let names = names_by_weight(m);
    assert forall|j: int| 0 <= j < n implies lookup(m, #[trigger] names[j]) == Some(m[order[j] as int].1) by {
        let i = order[j] as int;
        assert(names[j] == m[i].0);
        assert(has_key(m, m[i].0));
        let t = key_index(m, m[i].0);
        if t != i {
            assert(m[t].0 == m[i].0);
        }
    }
    assert forall|a: int, b: int| 0 <= a < names.len() && 0 <= b < names.len() && a != b implies names[a] != names[b] by {
        assert(order[a] != order[b]);
        assert(names[a] == m[order[a] as int].0 && names[b] == m[order[b] as int].0);
    }
    assert forall|i: int| 0 <= i < n implies names.contains(#[trigger] m[i].0) by {
        assert(ids[i] == i as usize);
        assert(ids.contains(i as usize));
        assert(order.contains(i as usize));
        let j = choose|j: int| 0 <= j < order.len() && order[j] == i as usize;
        assert(names[j] == m[i].0);
    }
    assert forall|a: int, b: int|
        0 <= a < b < n implies lookup(m, #[trigger] names[a]).unwrap().files * 10 + lookup(m, names[a]).unwrap().bytes
        >= lookup(m, #[trigger] names[b]).unwrap().files * 10 + lookup(m, names[b]).unwrap().bytes by {
        assert(w[order[a] as int] >= w[order[b] as int]);
        assert(w[order[a] as int] == m[order[a] as int].1.files * 10 + m[order[a] as int].1.bytes);
        assert(w[order[b] as int] == m[order[b] as int].1.files * 10 + m[order[b] as int].1.bytes);
    }
}

/// Appending an entry adds its files and bytes to the totals.
proof fn lemma_meta_sums_push(s: Entries<LanguageMetadata>, e: (Seq<char>, LanguageMetadata))
    ensures
        seq_sum(files_seq(s.push(e))) == seq_sum(files_seq(s)) + e.1.files,
        seq_sum(bytes_seq(s.push(e))) == seq_sum(bytes_seq(s)) + e.1.bytes,
{
    assert(files_seq(s.push(e)).drop_last() =~= files_seq(s));
    assert(bytes_seq(s.push(e)).drop_last() =~= bytes_seq(s));
}

/// Gathering the smaller languages under "others" keeps the total files and
/// bytes, when no language is itself called "others".
pub proof fn lemma_others_keeps_totals(m: Entries<LanguageMetadata>, names: Seq<Seq<char>>)
    requires
        keys_distinct(m),
        !has_key(m, "others"@),
    ensures
        ({
            let rel = relevant_entries(m, names);
            let folded = map_insert(
                rel,
                "others"@,
                LanguageMetadata {
                    files: (seq_sum(files_seq(m)) - seq_sum(files_seq(rel))) as usize,
                    bytes: (seq_sum(bytes_seq(m)) - seq_sum(bytes_seq(rel))) as usize,
                },
            );
            seq_sum(files_seq(m)) <= usize::MAX && seq_sum(bytes_seq(m)) <= usize::MAX ==> seq_sum(files_seq(folded))
                == seq_sum(files_seq(m)) && seq_sum(bytes_seq(folded)) == seq_sum(bytes_seq(m))
        }),
{
    let rel = relevant_entries(m, names);
    if names.len() > 4 {
        lemma_keep_named_distinct(m, relevant_names(names));
        lemma_keep_named_sums_meta(m, relevant_names(names));
    } else {
        crate::verticals::lemma_sum_nonneg(files_seq(m));
        crate::verticals::lemma_sum_nonneg(bytes_seq(m));
    }
    assert(!has_key(rel, "others"@));
    let e = LanguageMetadata {
        files: (seq_sum(files_seq(m)) - seq_sum(files_seq(rel))) as usize,
        bytes: (seq_sum(bytes_seq(m)) - seq_sum(bytes_seq(rel))) as usize,
    };
    lemma_meta_sums_push(rel, ("others"@, e));
}

/// Adding the counts of `kws` to `acc` adds, per keyword, all its counts.
proof fn lemma_add_counts(acc: Entries<usize>, kws: Entries<usize>)
    requires
        keys_distinct(acc),
        forall|k: Seq<char>| value_of(acc, k) + #[trigger] count_all(kws, k) <= usize::MAX,
    ensures
        keys_distinct(add_counts(acc, kws)),
        forall|k: Seq<char>| #[trigger] value_of(add_counts(acc, kws), k) == value_of(acc, k) + count_all(kws, k),
    decreases kws.len(),
{
    if kws.len() > 0 {
        let p = kws.drop_last();
        let (kl, cl) = kws.last();
        assert forall|k: Seq<char>| value_of(acc, k) + #[trigger] count_all(p, k) <= usize::MAX by {
            assert(count_all(kws, k) >= count_all(p, k));
        }
        lemma_add_counts(acc, p);
        let mid = add_counts(acc, p);
        assert(value_of(mid, kl) + cl == value_of(acc, kl) + count_all(kws, kl));
        lemma_add_count(mid, kl, cl);
    }
}

/// The summed keyword counts of a map give every keyword its total count.
proof fn lemma_keyword_sums(s: Entries<LanguageContentInfo>)
    requires
        forall|k: Seq<char>| #[trigger] total_count(s, k) <= usize::MAX,
    ensures
        keys_distinct(keyword_sums(s)),
        forall|k: Seq<char>| #[trigger] value_of(keyword_sums(s), k) == total_count(s, k),
    decreases s.len(),
{
    if s.len() > 0 {
        let p = s.drop_last();
        let kws = s.last().1.keyword_occurences@;
        assert forall|k: Seq<char>| #[trigger] total_count(p, k) <= usize::MAX by {
            lemma_count_all_nonneg(kws, k);
            assert(total_count(s, k) == total_count(p, k) + count_all(kws, k));
        }
        lemma_keyword_sums(p);
        assert forall|k: Seq<char>| value_of(keyword_sums(p), k) + #[trigger] count_all(kws, k) <= usize::MAX by {
            assert(total_count(s, k) == total_count(p, k) + count_all(kws, k));
        }
        lemma_add_counts(keyword_sums(p), kws);
    }
}

/// Total counts over the entries of two maps one after the other add up.
proof fn lemma_total_count_concat(a: Entries<LanguageContentInfo>, b: Entries<LanguageContentInfo>, k: Seq<char>)
    ensures
        total_count(a + b, k) == total_count(a, k) + total_count(b, k),
    decreases b.len(),
{
    if b.len() == 0 {
        assert(a + b =~= a);
    } else {
        assert((a + b).drop_last() =~= a + b.drop_last());
        assert((a + b).last() == b.last());
        lemma_total_count_concat(a, b.drop_last(), k);
    }
}

/// Taking one entry out of a map takes its keyword counts out of the totals.
proof fn lemma_total_count_remove(t: Entries<LanguageContentInfo>, j: int, k: Seq<char>)
    requires
        0 <= j < t.len(),
    ensures
        total_count(t, k) == total_count(t.remove(j), k) + count_all(t[j].1.keyword_occurences@, k),
    decreases t.len(),
{
    if j == t.len() - 1 {
        assert(t.remove(j) =~= t.drop_last());
    } else {
        assert(t.remove(j).drop_last() =~= t.drop_last().remove(j));
        assert(t.remove(j).last() == t.last());
        lemma_total_count_remove(t.drop_last(), j, k);
    }
}

/// Total counts do not depend on the order of the entries.
proof fn lemma_total_count_reordered(s: Entries<LanguageContentInfo>, t: Entries<LanguageContentInfo>, k: Seq<char>)
    requires
        s.to_multiset() == t.to_multiset(),
    ensures
        total_count(s, k) == total_count(t, k),
    decreases s.len(),
{
    broadcast use vstd::seq_lib::group_to_multiset_ensures, vstd::multiset::group_multiset_axioms;

    if s.len() == 0 {
        assert(t.len() == t.to_multiset().len());
        assert(s.to_multiset().len() == 0);
    } else {
        let x = s.last();
        let p = s.drop_last();
        assert(s =~= p.push(x));
        assert(s.to_multiset() =~= p.to_multiset().insert(x));
        assert(t.to_multiset().count(x) > 0);
        assert(t.contains(x));
        let j = choose|j: int| 0 <= j < t.len() && t[j] == x;
        assert(t.remove(j).to_multiset() =~= t.to_multiset().remove(x));
        assert(p.to_multiset().insert(x).remove(x) =~= p.to_multiset());
        lemma_total_count_reordered(p, t.remove(j), k);
        lemma_total_count_remove(t, j, k);
    }
}

/// The keyword sums of two maps without a language in common, taken
/// together in any order, are per keyword the sums of each map added up.
pub proof fn lemma_keyword_sums_additive(
    a: Entries<LanguageContentInfo>,
    b: Entries<LanguageContentInfo>,
    c: Entries<LanguageContentInfo>,
)
    requires
        keys_distinct(a + b),
        c.to_multiset() == a.to_multiset().add(b.to_multiset()),
        forall|k: Seq<char>| #[trigger] total_count(c, k) <= usize::MAX,
    ensures
        forall|k: Seq<char>|
            #[trigger] value_of(keyword_sums(c), k) == value_of(keyword_sums(a), k) + value_of(keyword_sums(b), k),
{
    vstd::seq_lib::lemma_multiset_commutative(a, b);
    assert forall|k: Seq<char>| #[trigger] total_count(c, k) == total_count(a, k) + total_count(b, k) by {
        lemma_total_count_reordered(c, a + b, k);
        lemma_total_count_concat(a, b, k);
    }
    assert forall|k: Seq<char>| #[trigger] total_count(a, k) <= usize::MAX by {
        assert(total_count(c, k) == total_count(a, k) + total_count(b, k));
        lemma_total_count_nonneg(b, k);
    }
    assert forall|k: Seq<char>| #[trigger] total_count(b, k) <= usize::MAX by {
        assert(total_count(c, k) == total_count(a, k) + total_count(b, k));
        lemma_total_count_nonneg(a, k);
    }
    lemma_keyword_sums(a);
    lemma_keyword_sums(b);
    lemma_keyword_sums(c);
}

/// A size is shown in megabytes above a million bytes, in kilobytes above a
/// thousand and in bytes otherwise: the amount is the size divided by the
/// bytes of the unit that follows it.
pub proof fn lemma_size_units(v: usize, suffix: Seq<char>)
    ensures
        v > 1000000 ==> size_spans(v, suffix) == seq![
            (PieceView::Amount { value: v, divisor: 1000000 }, Style::Plain),
            txt(" "@),
            styled("MBs "@ + suffix, Style::Keyword),
        ],
        1000 < v <= 1000000 ==> size_spans(v, suffix) == seq![
            (PieceView::Amount { value: v, divisor: 1000 }, Style::Plain),
            txt(" "@),
            styled("KBs "@ + suffix, Style::Keyword),
        ],
        v <= 1000 ==> size_spans(v, suffix) == seq![
            (PieceView::Amount { value: v, divisor: 1 }, Style::Plain),
            txt(" "@),
            styled("Bytes "@ + suffix, Style::Keyword),
        ],
{
}

/// The rule above the totals is as long as the sizes it is measured with:
/// the total and the average size of all languages, each divided by the
/// bytes of the unit it is shown in.
pub proof fn lemma_rule_units(c: Entries<LanguageContentInfo>, m: Entries<LanguageMetadata>)
    requires
        seq_sum(files_seq(m)) > 0,
        seq_sum(bytes_seq(m)) <= usize::MAX,
    ensures
        ({
            let total = seq_sum(bytes_seq(m));
            let average = total / seq_sum(files_seq(m));
            sum_section(c, m)[0].0 matches PieceView::Rule {
                total: t,
                total_divisor: td,
                average: a,
                average_divisor: ad,
                ..
            } && t == total && a == average && td == (if total > 1000000 {
                1000000int
            } else if total > 1000 {
                1000int
            } else {
                1int
            }) && ad == (if average > 1000000 {
                1000000int
            } else if average > 1000 {
                1000int
            } else {
                1int
            })
        }),
{
    crate::verticals::lemma_sum_nonneg(bytes_seq(m));
    let total = seq_sum(bytes_seq(m));
    let f = seq_sum(files_seq(m));
    assert(0 <= total / f <= total) by (nonlinear_arith)
        requires
            f > 0,
            total >= 0,
    ;
}

/// With more than four names, the overview keeps the first three and
/// "others" for all the rest.
pub proof fn lemma_relevant_names(names: Seq<Seq<char>>)
    requires
        names.len() > 4,
    ensures
        relevant_names(names) == seq![names[0], names[1], names[2], "others"@],
{
    assert(relevant_names(names) =~= seq![names[0], names[1], names[2], "others"@]);
}

/// With more than four names, the entries kept for the overview are those
/// of the first three names and of "others", unchanged.
pub proof fn lemma_relevant_entries<T>(s: Entries<T>, names: Seq<Seq<char>>)
    requires
        keys_distinct(s),
        names.len() > 4,
    ensures
        keys_distinct(relevant_entries(s, names)),
        forall|k: Seq<char>|
            #[trigger] has_key(relevant_entries(s, names), k) <==> has_key(s, k) && (k == names[0] || k == names[1]
                || k == names[2] || k == "others"@),
        forall|k: Seq<char>|
            has_key(relevant_entries(s, names), k) ==> #[trigger] lookup(relevant_entries(s, names), k) == lookup(s, k),
{
    lemma_relevant_names(names);
    let r = relevant_names(names);
    crate::table::lemma_keep_named_distinct(s, r);
    assert forall|k: Seq<char>| #[trigger] r.contains(k) <==> (k == names[0] || k == names[1] || k == names[2] || k
        == "others"@) by {
        if k == names[0] {
            assert(r[0] == k);
        }
        if k == names[1] {
            assert(r[1] == k);
        }
        if k == names[2] {
            assert(r[2] == k);
        }
        if k == "others"@ {
            assert(r[3] == k);
        }
    }
}

/// With at most four languages the overview shows the languages
/// themselves: no "others" is added, and the maps stay as they are.
pub proof fn lemma_small_overview(
    c1: Entries<LanguageContentInfo>,
    m1: Entries<LanguageMetadata>,
    names1: Seq<Seq<char>>,
)
    requires
        c1.len() <= 4,
    ensures
        overview_names(c1, names1) == names1,
        overview_metadata(c1, m1, names1) == m1,
        overview_lines(c1, names1) == keyed_lines(c1),
        forall|c: Entries<LanguageContentInfo>| #[trigger] overview_content(c1, names1, c) <==> c == c1,
{
}

/// With more than four languages the overview shows the first three of
/// `names1` and "others".
pub proof fn lemma_large_overview(
    c1: Entries<LanguageContentInfo>,
    names1: Seq<Seq<char>>,
)
    requires
        c1.len() > 4,
        names1.len() > 4,
    ensures
        overview_names(c1, names1) == seq![names1[0], names1[1], names1[2], "others"@],
{
    lemma_relevant_names(names1);
}

/// A report of at most four languages with files: their details, then with
/// two or more of them the totals and an overview of exactly those
/// languages, heaviest first; the maps keep just the languages with files.
pub proof fn lemma_small_report(c0: Entries<LanguageContentInfo>, m0: Entries<LanguageMetadata>, no_visual: bool)
    requires
        with_files(c0, m0).len() <= 4,
    ensures
        ({
            let c1 = with_files(c0, m0);
            let m1 = with_files(m0, m0);
            let names1 = names_by_weight(m1);
            &&& report(c0, m0, no_visual) == details(names1, c1, m1) + if m1.len() > 1 {
                sum_section(c1, m1) + overview(names1, m1, keyed_lines(c1), no_visual)
            } else {
                Seq::empty()
            }
            &&& final_metadata(c0, m0) == m1
            &&& forall|c: Entries<LanguageContentInfo>| #[trigger] final_content(c0, m0, c) <==> c == c1
        }),
{
}

/// How far the larger of two bar counts leads the smaller after the
/// corrections that take `r` surplus bars away, when it led by `g`: while
/// it leads by more than three it gives up a bar, otherwise the smaller
/// one does; so the lead falls to three, or rises to four, and then
/// alternates between three and four.
pub open spec fn lead_after_removing(g: int, r: int) -> int {
    if g >= 3 {
        if r <= g - 3 {
            g - r
        } else {
            3 + (r - (g - 3)) % 2
        }
    } else {
        if r <= 4 - g {
            g + r
        } else {
            4 - (r - (4 - g)) % 2
        }
    }
}

/// How far the larger of two bar counts leads the smaller after the
/// corrections that add `r` missing bars, when it led by `g`: while it
/// leads by more than five the smaller gets a bar, otherwise the larger
/// does; so the lead falls to five, or rises to six, and then alternates
/// between five and six.
pub open spec fn lead_after_adding(g: int, r: int) -> int {
    if g >= 5 {
        if r <= g - 5 {
            g - r
        } else {
            5 + (r - (g - 5)) % 2
        }
    } else {
        if r <= 6 - g {
            g + r
        } else {
            6 - (r - (6 - g)) % 2
        }
    }
}

/// The corrections on two counts, `n` of them, with the larger first.
#[verifier::rlimit(30)]
proof fn lemma_two_steps(i: usize, j: usize, v: Seq<usize>, n: nat, over: bool)
    requires
        v.len() == 2,
        i < 2,
        j < 2,
        i != j,
        v[i as int] >= v[j as int],
        over ==> v[i as int] + v[j as int] == NUM_OF_VERTICALS + n,
        !over ==> v[i as int] + v[j as int] + n == NUM_OF_VERTICALS,
    ensures
        steps(seq![i, j], v, n, over).len() == 2,
        steps(seq![i, j], v, n, over)[i as int] + steps(seq![i, j], v, n, over)[j as int] == NUM_OF_VERTICALS,
        over ==> steps(seq![i, j], v, n, over)[i as int] - steps(seq![i, j], v, n, over)[j as int]
            == lead_after_removing(v[i as int] - v[j as int], n as int),
        !over ==> steps(seq![i, j], v, n, over)[i as int] - steps(seq![i, j], v, n, over)[j as int]
            == lead_after_adding(v[i as int] - v[j as int], n as int),
    decreases n,
{
    let o = seq![i, j];
    if n > 0 {
        let g = v[i as int] - v[j as int];
        let (o2, v2) = crate::verticals::step(o, v, over);
        assert(o[0] == i && o[1] == j);
        assert(o2 =~= o);
        if over {
            if g > 3 {
                assert(v2 == bump(v, i, false));
            } else {
                assert(v2 == bump(v, j, false));
            }
        } else {
            if g > 5 {
                assert(v2 == bump(v, j, true));
            } else {
                assert(v2 == bump(v, i, true));
            }
        }
        lemma_two_steps(i, j, v2, (n - 1) as nat, over);
        assert(steps(o, v, n, over) == steps(o2, v2, (n - 1) as nat, over));
    }
}

/// Two bar counts of different sizes with too many bars: one bar is taken
/// from the larger, and each further surplus bar from the larger while it
/// leads by more than three, otherwise from the smaller. The counts end at
/// fifty together, the larger leading by `lead_after_removing`.
pub proof fn lemma_normalized_two_over(vals: Seq<usize>)
    requires
        vals.len() == 2,
        vals[0] != vals[1],
        vals[0] + vals[1] > NUM_OF_VERTICALS,
    ensures
        ({
            let i: int = if vals[0] > vals[1] { 0 } else { 1 };
            let j: int = 1 - i;
            let w = normalized(vals);
            &&& w.len() == 2
            &&& w[i] + w[j] == NUM_OF_VERTICALS
            &&& w[i] - w[j] == lead_after_removing(vals[i] - 1 - vals[j], vals[0] + vals[1] - NUM_OF_VERTICALS - 1)
        }),
{
    let i: usize = if vals[0] > vals[1] { 0 } else { 1 };
    let j: usize = (1 - i) as usize;
    lemma_two_order(vals, i, j);
    let order = seq![i, j];
    let v2 = bump(vals, i, false);
    lemma_insert_pos_one(i, j, v2);
    lemma_sort_one(i, v2);
    assert(order.drop_last() =~= seq![i]);
    assert(order.last() == j);
    assert(seq![i].insert(1, j) =~= order);
    assert(sort_desc(order, v2) =~= order);
    lemma_sum_two(vals);
    assert(crate::verticals::bump_prefix(order, vals, 0, false) == vals);
    lemma_two_steps(i, j, v2, (vals[0] + vals[1] - NUM_OF_VERTICALS - 1) as nat, true);
}

/// Two bar counts of different sizes with too few bars: one bar is added
/// to the larger, and each further missing bar to the smaller while the
/// larger leads by more than five, otherwise to the larger. The counts end
/// at fifty together, the larger leading by `lead_after_adding`.
pub proof fn lemma_normalized_two_under(vals: Seq<usize>)
    requires
        vals.len() == 2,
        vals[0] != vals[1],
        vals[0] + vals[1] < NUM_OF_VERTICALS,
    ensures
        ({
            let i: int = if vals[0] > vals[1] { 0 } else { 1 };
            let j: int = 1 - i;
            let w = normalized(vals);
            &&& w.len() == 2
            &&& w[i] + w[j] == NUM_OF_VERTICALS
            &&& w[i] - w[j] == lead_after_adding(vals[i] + 1 - vals[j], NUM_OF_VERTICALS - vals[0] - vals[1] - 1)
        }),
{
    let i: usize = if vals[0] > vals[1] { 0 } else { 1 };
    let j: usize = (1 - i) as usize;
    lemma_two_order(vals, i, j);
    lemma_sum_two(vals);
    assert(crate::verticals::bump_prefix(seq![i, j], vals, 0, true) == vals);
    lemma_two_steps(i, j, bump(vals, i, true), (NUM_OF_VERTICALS - vals[0] - vals[1] - 1) as nat, false);
}

/// Two counts add up.
proof fn lemma_sum_two(vals: Seq<usize>)
    requires
        vals.len() == 2,
    ensures
        seq_sum(vals) == vals[0] + vals[1],
{
    let p = vals.drop_last();
    assert(p.drop_last() =~= Seq::<usize>::empty());
    assert(seq_sum(p.drop_last()) == 0);
    assert(p.last() == vals[0]);
    assert(seq_sum(p) == vals[0]);
    assert(vals.last() == vals[1]);
}

/// Sorting one position gives that position.
proof fn lemma_sort_one(x: usize, vals: Seq<usize>)
    ensures
        sort_desc(seq![x], vals) == seq![x],
{
    let s = seq![x];
    assert(s.drop_last() =~= Seq::<usize>::empty());
    assert(sort_desc(s.drop_last(), vals) == Seq::<usize>::empty());
    assert(insert_pos(Seq::<usize>::empty(), x, vals) == 0);
    assert(Seq::<usize>::empty().insert(0, x) =~= s);
    assert(s.last() == x);
}

/// Where a stable insertion puts `x` next to one position `y`.
proof fn lemma_insert_pos_one(y: usize, x: usize, vals: Seq<usize>)
    ensures
        insert_pos(seq![y], x, vals) == if vals[y as int] < vals[x as int] { 0nat } else { 1nat },
{
    let s = seq![y];
    assert(s.drop_first() =~= Seq::<usize>::empty());
    assert(insert_pos(s.drop_first(), x, vals) == 0);
    assert(s[0] == y);
}

/// Two counts of different sizes: the larger comes first, and neither
/// moves before the corrections.
proof fn lemma_two_order(vals: Seq<usize>, i: usize, j: usize)
    requires
        vals.len() == 2,
        vals[0] != vals[1],
        i == (if vals[0] > vals[1] { 0usize } else { 1usize }),
        j == 1 - i,
    ensures
        crate::verticals::largest_first(vals) == seq![i, j],
        crate::verticals::leading_moves(vals) == 0,
{
    let ids = index_seq(2);
    assert(ids =~= seq![0usize, 1usize]);
    assert(ids.drop_last() =~= seq![0usize]);
    assert(seq![0usize].drop_last() =~= Seq::<usize>::empty());
    lemma_sort_one(0, vals);
    lemma_insert_pos_one(0, 1, vals);
    assert(ids.last() == 1usize);
    assert(sort_desc(ids, vals) == sort_desc(seq![0usize], vals).insert(
        insert_pos(sort_desc(seq![0usize], vals), 1, vals) as int,
        1usize,
    ));
    assert(crate::verticals::largest_first(vals) =~= seq![i, j]);
    let order = seq![i, j];
    assert(order.drop_first() =~= seq![j]);
    assert(order[0] == i);
    assert(seq![j][0] == j);
    assert(seq![j].drop_first() =~= Seq::<usize>::empty());
    assert(crate::verticals::run_len(seq![j].drop_first(), vals, vals[i as int]) == 0);
    assert(crate::verticals::run_len(seq![j], vals, vals[i as int]) == 0);
    assert(crate::verticals::run_len(order, vals, vals[i as int]) == 1);
}

/// A share of `h` hundredths of a percent gets half of it in bars, rounded
/// to the nearest count with halves up: no bar for nothing, at least one
/// bar for any share, and one bar for an undefined share.
pub proof fn lemma_raw_verticals(h: usize)
    ensures
        raw_verticals(None) == 1,
        h == 0 ==> raw_verticals(Some(h)) == 0,
        0 < h < 100 ==> raw_verticals(Some(h)) == 1,
        h >= 100 ==> 200 * raw_verticals(Some(h)) - 100 <= h < 200 * raw_verticals(Some(h)) + 100,
{
    if h >= 100 {
        let r = (h + 100) / 200;
        assert(200 * r <= h + 100 < 200 * r + 200) by (nonlinear_arith)
            requires
                r == (h + 100) / 200,
        ;
        assert(r >= 1);
    }
}

} // verus!
