//! The per-language statistics and the operations on the two maps that hold
//! them: dropping languages without files, ordering languages, folding the
//! smaller ones into "others" and summing keyword occurrences.
use vstd::prelude::*;

use crate::ordering::{index_seq, indices_below, seq_sum, sort_desc, sort_indices_desc, lemma_sort_desc};
use crate::table::{
    Entries, LanguageMap, has_key, key_index, keys_distinct, lookup, map_remove, map_insert,
    keep_named, strings_view,
};

verus! {

/// What was counted in the files of one language.
pub struct LanguageContentInfo {
    pub lines: usize,
    pub code_lines: usize,
    /// How often each keyword of the language occurs.
    pub keyword_occurences: LanguageMap<usize>,
}

impl LanguageContentInfo {
    /// Content with `lines` lines, no code lines and no keywords.
    pub fn dummy(lines: usize) -> (c: Self)
        ensures
            c.lines == lines,
            c.code_lines == 0,
            c.keyword_occurences@ == Seq::<(Seq<char>, usize)>::empty(),
    {
        LanguageContentInfo { lines, code_lines: 0, keyword_occurences: LanguageMap::new() }
    }
}

/// How many files of one language there are and how large they are.
#[derive(Clone, Copy, PartialEq, Eq, Debug, Structural)]
pub struct LanguageMetadata {
    pub files: usize,
    pub bytes: usize,
}

impl LanguageMetadata {
    pub fn new(files: usize, bytes: usize) -> (m: Self)
        ensures
            m.files == files,
            m.bytes == bytes,
    {
        LanguageMetadata { files, bytes }
    }
}

/// Options of the report.
#[derive(Clone, Copy, PartialEq, Eq, Debug, Structural)]
pub struct Configuration {
    /// Leave out colours and the vertical bars of the overview.
    pub no_visual: bool,
}

/// The entries after removing every name of `names`, one after the other.
pub open spec fn remove_all<T>(s: Entries<T>, names: Seq<Seq<char>>) -> Entries<T>
    decreases names.len(),
{
    if names.len() == 0 {
        s
    } else {
        map_remove(remove_all(s, names.drop_last()), names.last())
    }
}

/// The names of the languages without files, in map order.
pub open spec fn zero_file_names(s: Entries<LanguageMetadata>) -> Seq<Seq<char>>
    decreases s.len(),
{
    if s.len() == 0 {
        Seq::empty()
    } else if s.last().1.files == 0 {
        zero_file_names(s.drop_last()).push(s.last().0)
    } else {
        zero_file_names(s.drop_last())
    }
}

pub proof fn lemma_zero_file_names(s: Entries<LanguageMetadata>)
    ensures
        forall|k: Seq<char>| #[trigger] zero_file_names(s).contains(k) <==> exists|i: int|
            0 <= i < s.len() && s[i].0 == k && s[i].1.files == 0,
    decreases s.len(),
{
    if s.len() > 0 {
        let p = s.drop_last();
        lemma_zero_file_names(p);
        assert forall|k: Seq<char>| #[trigger] zero_file_names(s).contains(k) <==> exists|i: int|
            0 <= i < s.len() && s[i].0 == k && s[i].1.files == 0 by {
            let z = zero_file_names(s);
            let zp = zero_file_names(p);
            if z.contains(k) {
                if s.last().1.files == 0 && k == s.last().0 {
                    assert(s[s.len() - 1].0 == k);
                } else {
                    if s.last().1.files == 0 {
                        let j = choose|j: int| 0 <= j < z.len() && z[j] == k;
                        assert(j < zp.len());
                        assert(zp[j] == k);
                    }
                    assert(zp.contains(k));
                    let i = choose|i: int| 0 <= i < p.len() && p[i].0 == k && p[i].1.files == 0;
                    assert(s[i] == p[i]);
                }
            }
            if exists|i: int| 0 <= i < s.len() && s[i].0 == k && s[i].1.files == 0 {
                let i = choose|i: int| 0 <= i < s.len() && s[i].0 == k && s[i].1.files == 0;
                if i == s.len() - 1 {
                    assert(z[z.len() - 1] == k);
                } else {
                    assert(p[i] == s[i]);
                    assert(zp.contains(k));
                    let j = choose|j: int| 0 <= j < zp.len() && zp[j] == k;
                    assert(z[j] == k);
                }
            }
        }
    }
}

/// Removing a name keeps the names distinct and every other entry as it was.
pub proof fn lemma_map_remove<T>(s: Entries<T>, key: Seq<char>)
    requires
        keys_distinct(s),
    ensures
        keys_distinct(map_remove(s, key)),
        forall|k: Seq<char>| #[trigger] has_key(map_remove(s, key), k) <==> has_key(s, k) && k != key,
        forall|k: Seq<char>|
            has_key(map_remove(s, key), k) ==> #[trigger] lookup(map_remove(s, key), k) == lookup(s, k),
{
    if has_key(s, key) {
        let i = key_index(s, key);
        let r = s.remove(i);
        assert forall|a: int, b: int|
            0 <= a < r.len() && 0 <= b < r.len() && a != b implies #[trigger] r[a].0 != #[trigger] r[b].0 by {
            let a0 = if a < i { a } else { a + 1 };
            let b0 = if b < i { b } else { b + 1 };
            assert(r[a] == s[a0] && r[b] == s[b0]);
        }
        assert forall|k: Seq<char>| #[trigger] has_key(r, k) <==> has_key(s, k) && k != key by {
            if has_key(r, k) {
                let a = key_index(r, k);
                let a0 = if a < i { a } else { a + 1 };
                assert(r[a] == s[a0]);
                if k == key {
                    assert(s[a0].0 == s[i].0);
                }
            }
            if has_key(s, k) && k != key {
                let a0 = key_index(s, k);
                assert(a0 != i);
                let a = if a0 < i { a0 } else { a0 - 1 };
                assert(r[a] == s[a0]);
            }
        }
        assert forall|k: Seq<char>| has_key(r, k) implies #[trigger] lookup(r, k) == lookup(s, k) by {
            let a = key_index(r, k);
            let a0 = if a < i { a } else { a + 1 };
            assert(r[a] == s[a0]);
            let b0 = key_index(s, k);
            if b0 != a0 {
                assert(s[b0].0 == s[a0].0);
            }
        }
    }
}

pub proof fn lemma_remove_all<T>(s: Entries<T>, names: Seq<Seq<char>>)
    requires
        keys_distinct(s),
    ensures
        keys_distinct(remove_all(s, names)),
        forall|k: Seq<char>| #[trigger] has_key(remove_all(s, names), k) <==> has_key(s, k) && !names.contains(k),
        forall|k: Seq<char>|
            has_key(remove_all(s, names), k) ==> #[trigger] lookup(remove_all(s, names), k) == lookup(s, k),
    decreases names.len(),
{
    if names.len() > 0 {
        let p = names.drop_last();
        lemma_remove_all(s, p);
        lemma_map_remove(remove_all(s, p), names.last());
        assert forall|k: Seq<char>| #[trigger] names.contains(k) <==> p.contains(k) || k == names.last() by {
            if names.contains(k) {
                let j = choose|j: int| 0 <= j < names.len() && names[j] == k;
                if j < p.len() {
                    assert(p[j] == k);
                }
            }
            if p.contains(k) {
                let j = choose|j: int| 0 <= j < p.len() && p[j] == k;
                assert(names[j] == k);
            }
            if k == names.last() {
                assert(names[names.len() - 1] == k);
            }
        }
    }
}

/// Drops the languages that have no files from both maps.
pub fn remove_languages_with_0_files(
    content_info_map: &mut LanguageMap<LanguageContentInfo>,
    languages_metadata_map: &mut LanguageMap<LanguageMetadata>,
)
    ensures
        final(languages_metadata_map)@ == remove_all(
            old(languages_metadata_map)@,
            zero_file_names(old(languages_metadata_map)@),
        ),
        final(content_info_map)@ == remove_all(
            old(content_info_map)@,
            zero_file_names(old(languages_metadata_map)@),
        ),
{
    let ghost m0 = languages_metadata_map@;
    let ghost c0 = content_info_map@;
    let mut empty_languages: Vec<String> = Vec::new();
    let mut i: usize = 0;
    let n = languages_metadata_map.len();
    while i < n
        invariant
            0 <= i <= n,
            n == m0.len(),
            languages_metadata_map@ == m0,
            strings_view(empty_languages@) == zero_file_names(m0.take(i as int)),
        decreases n - i,
    {
        proof {
            assert(m0.take(i as int + 1).drop_last() =~= m0.take(i as int));
        }
        if languages_metadata_map.value_at(i).files == 0 {
            let name = languages_metadata_map.key_at(i).clone();
            let ghost e0 = empty_languages@;
            empty_languages.push(name);
            assert(strings_view(empty_languages@) =~= strings_view(e0).push(m0[i as int].0));
        }
        i = i + 1;
    }
    assert(m0.take(n as int) =~= m0);
    let ghost names = strings_view(empty_languages@);
    let mut j: usize = 0;
    while j < empty_languages.len()
        invariant
            0 <= j <= empty_languages.len(),
            names == strings_view(empty_languages@),
            languages_metadata_map@ == remove_all(m0, names.take(j as int)),
            content_info_map@ == remove_all(c0, names.take(j as int)),
        decreases empty_languages.len() - j,
    {
        let ext = &empty_languages[j];
        languages_metadata_map.remove(ext);
        content_info_map.remove(ext);
        assert(names.take(j as int + 1).drop_last() =~= names.take(j as int));
        j = j + 1;
    }
    assert(names.take(j as int) =~= names);
}

/// How much a language counts when languages are ordered: ten per file plus
/// one per byte.
pub open spec fn weight(m: LanguageMetadata) -> int {
    m.files * 10 + m.bytes
}

pub open spec fn weights(s: Entries<LanguageMetadata>) -> Seq<usize> {
    Seq::new(s.len(), |i: int| weight(s[i].1) as usize)
}

/// The names of the languages, the heaviest first; languages of equal weight
/// keep their map order.
pub open spec fn names_by_weight(s: Entries<LanguageMetadata>) -> Seq<Seq<char>> {
    sort_desc(index_seq(s.len()), weights(s)).map_values(|i: usize| s[i as int].0)
}

/// The language names ordered by how much of each there is (ten per file
/// plus one per byte), largest first; ties keep the map's order.
pub fn get_language_names_as_sorted_vec_according_to_how_much_they_appeared(
    languages_metadata_map: &LanguageMap<LanguageMetadata>,
) -> (names: Vec<String>)
    requires
        forall|i: int|
            0 <= i < languages_metadata_map@.len() ==> weight(#[trigger] languages_metadata_map@[i].1)
                <= usize::MAX,
    ensures
        strings_view(names@) == names_by_weight(languages_metadata_map@),
        names@.len() == languages_metadata_map@.len(),
        forall|a: int, b: int|
            0 <= a < b < names@.len() ==> lookup(languages_metadata_map@, #[trigger] names@[a]@).unwrap().files * 10
                + lookup(languages_metadata_map@, names@[a]@).unwrap().bytes >= lookup(
                languages_metadata_map@,
                #[trigger] names@[b]@,
            ).unwrap().files * 10 + lookup(languages_metadata_map@, names@[b]@).unwrap().bytes,
{
    let ghost s = languages_metadata_map@;
    let n = languages_metadata_map.len();
    let mut values: Vec<usize> = Vec::new();
    let mut ids: Vec<usize> = Vec::new();
    let mut i: usize = 0;
    while i < n
        invariant
            0 <= i <= n,
            n == s.len(),
            languages_metadata_map@ == s,
            forall|j: int| 0 <= j < s.len() ==> weight(#[trigger] s[j].1) <= usize::MAX,
            values@ == weights(s).take(i as int),
            ids@ == index_seq(i as nat),
        decreases n - i,
    {
        let m = languages_metadata_map.value_at(i);
        let w = m.files * 10 + m.bytes;
        values.push(w);
        ids.push(i);
        assert(values@ =~= weights(s).take(i as int + 1));
        assert(ids@ =~= index_seq(i as nat + 1));
        i = i + 1;
    }
    assert(weights(s).take(n as int) =~= weights(s));
    assert(indices_below(ids@, values@.len()));
    let order = sort_indices_desc(&ids, &values);
    proof {
        lemma_sort_desc(ids@, values@);
    }
    let mut names: Vec<String> = Vec::new();
    let mut j: usize = 0;
    while j < n
        invariant
            0 <= j <= n,
            n == s.len(),
            languages_metadata_map@ == s,
            order@ == sort_desc(index_seq(n as nat), weights(s)),
            order@.len() == n,
            indices_below(order@, n as nat),
            strings_view(names@) == order@.take(j as int).map_values(|i: usize| s[i as int].0),
        decreases n - j,
    {
        let name = languages_metadata_map.key_at(order[j]).clone();
        let ghost before = names@;
        assert(strings_view(before).len() == j);
        assert(before.len() == j);
        assert(name@ == s[order@[j as int] as int].0);
        names.push(name);
        proof {
            let lhs = strings_view(names@);
            let rhs = order@.take(j as int + 1).map_values(|i: usize| s[i as int].0);
            assert forall|k: int| 0 <= k < lhs.len() implies lhs[k] == rhs[k] by {
                if k == j {
                    assert(lhs[k] == names@[k]@);
                    assert(names@[k] == name);
                    assert(rhs[k] == s[order@[j as int] as int].0);
                } else {
                    assert(names@[k] == before[k]);
                    assert(strings_view(before)[k] == order@.take(j as int).map_values(|i: usize| s[i as int].0)[k]);
                }
            }
            assert(lhs =~= rhs);
        }
        j = j + 1;
    }
    assert(order@.take(n as int) =~= order@);
    proof {
        assert forall|i: int| 0 <= i < s.len() implies #[trigger] s[i].1.files * 10 + s[i].1.bytes <= usize::MAX by {
            assert(weight(s[i].1) <= usize::MAX);
        }
        crate::laws::lemma_names_by_weight(s);
        let nv = strings_view(names@);
        assert(nv.len() == names@.len());
        assert forall|k: int| 0 <= k < names@.len() implies #[trigger] names@[k]@ == nv[k] by {}
    }
    names
}

/// Files per entry.
pub open spec fn files_seq(s: Entries<LanguageMetadata>) -> Seq<usize> {
    Seq::new(s.len(), |i: int| s[i].1.files)
}

/// Bytes per entry.
pub open spec fn bytes_seq(s: Entries<LanguageMetadata>) -> Seq<usize> {
    Seq::new(s.len(), |i: int| s[i].1.bytes)
}

/// Lines per entry.
pub open spec fn lines_seq(s: Entries<LanguageContentInfo>) -> Seq<usize> {
    Seq::new(s.len(), |i: int| s[i].1.lines)
}

/// Code lines per entry.
pub open spec fn code_lines_seq(s: Entries<LanguageContentInfo>) -> Seq<usize> {
    Seq::new(s.len(), |i: int| s[i].1.code_lines)
}

/// The files of each language, in map order.
pub(crate) fn files_vec(m: &LanguageMap<LanguageMetadata>) -> (v: Vec<usize>)
    ensures
        v@ == files_seq(m@),
{
    let mut v: Vec<usize> = Vec::new();
    let n = m.len();
    let mut i: usize = 0;
    while i < n
        invariant
            0 <= i <= n,
            n == m@.len(),
            v@ == files_seq(m@).take(i as int),
        decreases n - i,
    {
        v.push(m.value_at(i).files);
        i = i + 1;
        assert(v@ =~= files_seq(m@).take(i as int));
    }
    assert(files_seq(m@).take(n as int) =~= files_seq(m@));
    v
}

/// The bytes of each language, in map order.
pub(crate) fn bytes_vec(m: &LanguageMap<LanguageMetadata>) -> (v: Vec<usize>)
    ensures
        v@ == bytes_seq(m@),
{
    let mut v: Vec<usize> = Vec::new();
    let n = m.len();
    let mut i: usize = 0;
    while i < n
        invariant
            0 <= i <= n,
            n == m@.len(),
            v@ == bytes_seq(m@).take(i as int),
        decreases n - i,
    {
        v.push(m.value_at(i).bytes);
        i = i + 1;
        assert(v@ =~= bytes_seq(m@).take(i as int));
    }
    assert(bytes_seq(m@).take(n as int) =~= bytes_seq(m@));
    v
}

/// The lines of each language, in map order.
pub(crate) fn lines_vec(c: &LanguageMap<LanguageContentInfo>) -> (v: Vec<usize>)
    ensures
        v@ == lines_seq(c@),
{
    let mut v: Vec<usize> = Vec::new();
    let n = c.len();
    let mut i: usize = 0;
    while i < n
        invariant
            0 <= i <= n,
            n == c@.len(),
            v@ == lines_seq(c@).take(i as int),
        decreases n - i,
    {
        v.push(c.value_at(i).lines);
        i = i + 1;
        assert(v@ =~= lines_seq(c@).take(i as int));
    }
    assert(lines_seq(c@).take(n as int) =~= lines_seq(c@));
    v
}

/// The code lines of each language, in map order.
pub(crate) fn code_lines_vec(c: &LanguageMap<LanguageContentInfo>) -> (v: Vec<usize>)
    ensures
        v@ == code_lines_seq(c@),
{
    let mut v: Vec<usize> = Vec::new();
    let n = c.len();
    let mut i: usize = 0;
    while i < n
        invariant
            0 <= i <= n,
            n == c@.len(),
            v@ == code_lines_seq(c@).take(i as int),
        decreases n - i,
    {
        v.push(c.value_at(i).code_lines);
        i = i + 1;
        assert(v@ =~= code_lines_seq(c@).take(i as int));
    }
    assert(code_lines_seq(c@).take(n as int) =~= code_lines_seq(c@));
    v
}

pub proof fn lemma_keep_named_sums_meta(s: Entries<LanguageMetadata>, names: Seq<Seq<char>>)
    ensures
        0 <= seq_sum(files_seq(keep_named(s, names))) <= seq_sum(files_seq(s)),
        0 <= seq_sum(bytes_seq(keep_named(s, names))) <= seq_sum(bytes_seq(s)),
    decreases s.len(),
{
    if s.len() > 0 {
        let p = s.drop_last();
        lemma_keep_named_sums_meta(p, names);
        let k = keep_named(p, names);
        assert(files_seq(s).drop_last() =~= files_seq(p));
        assert(bytes_seq(s).drop_last() =~= bytes_seq(p));
        if names.contains(s.last().0) {
            assert(files_seq(k.push(s.last())).drop_last() =~= files_seq(k));
            assert(bytes_seq(k.push(s.last())).drop_last() =~= bytes_seq(k));
        }
    }
}

pub proof fn lemma_keep_named_sums_content(s: Entries<LanguageContentInfo>, names: Seq<Seq<char>>)
    ensures
        0 <= seq_sum(lines_seq(keep_named(s, names))) <= seq_sum(lines_seq(s)),
    decreases s.len(),
{
    if s.len() > 0 {
        let p = s.drop_last();
        lemma_keep_named_sums_content(p, names);
        let k = keep_named(p, names);
        assert(lines_seq(s).drop_last() =~= lines_seq(p));
        if names.contains(s.last().0) {
            assert(lines_seq(k.push(s.last())).drop_last() =~= lines_seq(k));
        }
    }
}

/// Total files, lines and bytes of the two maps.
pub fn files_lines_size(
    content_info_map: &LanguageMap<LanguageContentInfo>,
    languages_metadata_map: &LanguageMap<LanguageMetadata>,
) -> (r: (usize, usize, usize))
    requires
        seq_sum(files_seq(languages_metadata_map@)) <= usize::MAX,
        seq_sum(bytes_seq(languages_metadata_map@)) <= usize::MAX,
        seq_sum(lines_seq(content_info_map@)) <= usize::MAX,
    ensures
        r.0 == seq_sum(files_seq(languages_metadata_map@)),
        r.1 == seq_sum(lines_seq(content_info_map@)),
        r.2 == seq_sum(bytes_seq(languages_metadata_map@)),
{
    let ghost c = content_info_map@;
    let ghost m = languages_metadata_map@;
    let mut lines: usize = 0;
    let mut i: usize = 0;
    let n = content_info_map.len();
    while i < n
        invariant
            0 <= i <= n,
            n == c.len(),
            content_info_map@ == c,
            seq_sum(lines_seq(c)) <= usize::MAX,
            lines == seq_sum(lines_seq(c).take(i as int)),
        decreases n - i,
    {
        proof {
            assert(lines_seq(c).take(i as int + 1).drop_last() =~= lines_seq(c).take(i as int));
            crate::verticals::lemma_prefix_sum_le(lines_seq(c), i as int + 1);
        }
        lines = lines + content_info_map.value_at(i).lines;
        i = i + 1;
    }
    assert(lines_seq(c).take(n as int) =~= lines_seq(c));
    let mut files: usize = 0;
    let mut size: usize = 0;
    let mut j: usize = 0;
    let k = languages_metadata_map.len();
    while j < k
        invariant
            0 <= j <= k,
            k == m.len(),
            languages_metadata_map@ == m,
            seq_sum(files_seq(m)) <= usize::MAX,
            seq_sum(bytes_seq(m)) <= usize::MAX,
            files == seq_sum(files_seq(m).take(j as int)),
            size == seq_sum(bytes_seq(m).take(j as int)),
        decreases k - j,
    {
        proof {
            assert(files_seq(m).take(j as int + 1).drop_last() =~= files_seq(m).take(j as int));
            assert(bytes_seq(m).take(j as int + 1).drop_last() =~= bytes_seq(m).take(j as int));
            crate::verticals::lemma_prefix_sum_le(files_seq(m), j as int + 1);
            crate::verticals::lemma_prefix_sum_le(bytes_seq(m), j as int + 1);
        }
        let e = languages_metadata_map.value_at(j);
        files = files + e.files;
        size = size + e.bytes;
        j = j + 1;
    }
    assert(files_seq(m).take(k as int) =~= files_seq(m));
    assert(bytes_seq(m).take(k as int) =~= bytes_seq(m));
    (files, lines, size)
}

/// The languages kept by name in the overview: the first three and
/// "others", when there are more than four.
pub open spec fn relevant_names(names: Seq<Seq<char>>) -> Seq<Seq<char>> {
    if names.len() > 4 {
        names.take(3).push("others"@)
    } else {
        names
    }
}

/// The entries kept for the overview.
pub open spec fn relevant_entries<T>(s: Entries<T>, names: Seq<Seq<char>>) -> Entries<T> {
    if names.len() > 4 {
        keep_named(s, relevant_names(names))
    } else {
        s
    }
}

/// `c` is the placeholder content of `lines` lines.
pub open spec fn is_dummy(c: LanguageContentInfo, lines: int) -> bool {
    &&& c.lines == lines
    &&& c.code_lines == 0
    &&& c.keyword_occurences@.len() == 0
}

/// Keeps the three largest languages and gathers the rest under "others",
/// whose files, lines and bytes are what the dropped languages had.
pub fn retain_most_relevant_and_add_others_field_for_rest(
    sorted_language_names: &mut Vec<String>,
    content_info_map: &mut LanguageMap<LanguageContentInfo>,
    languages_metadata_map: &mut LanguageMap<LanguageMetadata>,
)
    requires
        seq_sum(files_seq(old(languages_metadata_map)@)) <= usize::MAX,
        seq_sum(bytes_seq(old(languages_metadata_map)@)) <= usize::MAX,
        seq_sum(lines_seq(old(content_info_map)@)) <= usize::MAX,
    ensures
        strings_view(final(sorted_language_names)@) == relevant_names(
            strings_view(old(sorted_language_names)@),
        ),
        final(languages_metadata_map)@ == map_insert(
            relevant_entries(old(languages_metadata_map)@, strings_view(old(sorted_language_names)@)),
            "others"@,
            LanguageMetadata {
                files: (seq_sum(files_seq(old(languages_metadata_map)@)) - seq_sum(
                    files_seq(relevant_entries(old(languages_metadata_map)@, strings_view(old(sorted_language_names)@))),
                )) as usize,
                bytes: (seq_sum(bytes_seq(old(languages_metadata_map)@)) - seq_sum(
                    bytes_seq(relevant_entries(old(languages_metadata_map)@, strings_view(old(sorted_language_names)@))),
                )) as usize,
            },
        ),
        exists|v: LanguageContentInfo|
            is_dummy(
                v,
                seq_sum(lines_seq(old(content_info_map)@)) - seq_sum(
                    lines_seq(relevant_entries(old(content_info_map)@, strings_view(old(sorted_language_names)@))),
                ),
            ) && #[trigger] map_insert(
                relevant_entries(old(content_info_map)@, strings_view(old(sorted_language_names)@)),
                "others"@,
                v,
            ) == final(content_info_map)@,
{
    let ghost n0 = strings_view(sorted_language_names@);
    let ghost c0 = content_info_map@;
    let ghost m0 = languages_metadata_map@;
    let (total_files, total_lines, total_size) = files_lines_size(content_info_map, languages_metadata_map);
    if sorted_language_names.len() > 4 {
        assert(n0.take(n0.len() as int) =~= n0);
        while sorted_language_names.len() > 3
            invariant
                sorted_language_names@.len() >= 3,
                sorted_language_names@.len() <= n0.len(),
                strings_view(sorted_language_names@) == n0.take(sorted_language_names@.len() as int),
            decreases sorted_language_names@.len(),
        {
            let ghost before = sorted_language_names@;
            sorted_language_names.pop();
            proof {
                assert(sorted_language_names@ == before.drop_last());
                assert forall|k: int| 0 <= k < sorted_language_names@.len() implies strings_view(sorted_language_names@)[k] == n0.take(sorted_language_names@.len() as int)[k] by {
                    assert(strings_view(before)[k] == n0.take(before.len() as int)[k]);
                }
            }
            assert(strings_view(sorted_language_names@) =~= n0.take(sorted_language_names@.len() as int));
        }
        let ghost three = sorted_language_names@;
        sorted_language_names.push(String::from_str("others"));
        assert(strings_view(sorted_language_names@) =~= relevant_names(n0));
        content_info_map.retain_named(sorted_language_names);
        languages_metadata_map.retain_named(sorted_language_names);
    }
    proof {
        lemma_keep_named_sums_meta(m0, relevant_names(n0));
        lemma_keep_named_sums_content(c0, relevant_names(n0));
    }
    let (relevant_files, relevant_lines, relevant_size) = files_lines_size(content_info_map, languages_metadata_map);
    let other_files = total_files - relevant_files;
    let other_lines = total_lines - relevant_lines;
    let other_size = total_size - relevant_size;
    let dummy = LanguageContentInfo::dummy(other_lines);
    let ghost dv = dummy;
    content_info_map.insert(String::from_str("others"), dummy);
    languages_metadata_map.insert(String::from_str("others"), LanguageMetadata::new(other_files, other_size));
    assert(is_dummy(dv, other_lines as int));
    assert(map_insert(relevant_entries(c0, n0), "others"@, dv) == content_info_map@);
}

/// The count stored under `k`, zero when there is none.
pub open spec fn value_of(s: Entries<usize>, k: Seq<char>) -> int {
    if has_key(s, k) {
        s[key_index(s, k)].1 as int
    } else {
        0
    }
}

/// Adds `c` occurrences of keyword `k`; a keyword seen for the first time
/// goes last, and zero counts are skipped.
pub open spec fn add_count(acc: Entries<usize>, k: Seq<char>, c: usize) -> Entries<usize> {
    if c == 0 {
        acc
    } else if has_key(acc, k) {
        acc.update(key_index(acc, k), (k, (acc[key_index(acc, k)].1 + c) as usize))
    } else {
        acc.push((k, c))
    }
}

/// Adds the keyword counts of one language, in its map order.
pub open spec fn add_counts(acc: Entries<usize>, kws: Entries<usize>) -> Entries<usize>
    decreases kws.len(),
{
    if kws.len() == 0 {
        acc
    } else {
        add_count(add_counts(acc, kws.drop_last()), kws.last().0, kws.last().1)
    }
}

/// The keyword counts of all languages added up, keywords in order of first
/// (non-zero) occurrence.
pub open spec fn keyword_sums(s: Entries<LanguageContentInfo>) -> Entries<usize>
    decreases s.len(),
{
    if s.len() == 0 {
        Seq::empty()
    } else {
        add_counts(keyword_sums(s.drop_last()), s.last().1.keyword_occurences@)
    }
}

/// All occurrences of keyword `k` listed in `kws`.
pub open spec fn count_all(kws: Entries<usize>, k: Seq<char>) -> int
    decreases kws.len(),
{
    if kws.len() == 0 {
        0
    } else {
        count_all(kws.drop_last(), k) + if kws.last().0 == k {
            kws.last().1 as int
        } else {
            0
        }
    }
}

/// All occurrences of keyword `k` over all languages.
pub open spec fn total_count(s: Entries<LanguageContentInfo>, k: Seq<char>) -> int
    decreases s.len(),
{
    if s.len() == 0 {
        0
    } else {
        total_count(s.drop_last(), k) + count_all(s.last().1.keyword_occurences@, k)
    }
}

pub proof fn lemma_count_all_prefix(kws: Entries<usize>, j: int, k: Seq<char>)
    requires
        0 <= j <= kws.len(),
    ensures
        0 <= count_all(kws.take(j), k) <= count_all(kws, k),
    decreases kws.len() - j,
{
    lemma_count_all_nonneg(kws.take(j), k);
    if j < kws.len() {
        lemma_count_all_prefix(kws, j + 1, k);
        assert(kws.take(j + 1).drop_last() =~= kws.take(j));
    } else {
        assert(kws.take(j) =~= kws);
        lemma_count_all_nonneg(kws, k);
    }
}

pub proof fn lemma_count_all_nonneg(kws: Entries<usize>, k: Seq<char>)
    ensures
        0 <= count_all(kws, k),
    decreases kws.len(),
{
    if kws.len() > 0 {
        lemma_count_all_nonneg(kws.drop_last(), k);
    }
}

pub proof fn lemma_total_count_prefix(s: Entries<LanguageContentInfo>, i: int, k: Seq<char>)
    requires
        0 <= i <= s.len(),
    ensures
        0 <= total_count(s.take(i), k) <= total_count(s, k),
    decreases s.len() - i,
{
    lemma_total_count_nonneg(s.take(i), k);
    if i < s.len() {
        lemma_total_count_prefix(s, i + 1, k);
        assert(s.take(i + 1).drop_last() =~= s.take(i));
        lemma_count_all_nonneg(s[i].1.keyword_occurences@, k);
    } else {
        assert(s.take(i) =~= s);
    }
}

pub proof fn lemma_total_count_nonneg(s: Entries<LanguageContentInfo>, k: Seq<char>)
    ensures
        0 <= total_count(s, k),
    decreases s.len(),
{
    if s.len() > 0 {
        lemma_total_count_nonneg(s.drop_last(), k);
        lemma_count_all_nonneg(s.last().1.keyword_occurences@, k);
    }
}

/// Adding a count changes only the count of that keyword.
pub proof fn lemma_add_count(acc: Entries<usize>, k: Seq<char>, c: usize)
    requires
        keys_distinct(acc),
        value_of(acc, k) + c <= usize::MAX,
    ensures
        keys_distinct(add_count(acc, k, c)),
        forall|k2: Seq<char>|
            #[trigger] value_of(add_count(acc, k, c), k2) == value_of(acc, k2) + if k2 == k {
                c as int
            } else {
                0
            },
{
    let r = add_count(acc, k, c);
    if c != 0 {
        if has_key(acc, k) {
            let i = key_index(acc, k);
            assert forall|a: int, b: int|
                0 <= a < r.len() && 0 <= b < r.len() && a != b implies #[trigger] r[a].0 != #[trigger] r[b].0 by {
                assert(r[a].0 == acc[a].0 && r[b].0 == acc[b].0);
            }
            assert forall|k2: Seq<char>| #[trigger] value_of(r, k2) == value_of(acc, k2) + if k2 == k {
                c as int
            } else {
                0
            } by {
                if has_key(acc, k2) {
                    let j = key_index(acc, k2);
                    assert(r[j].0 == k2);
                    let j2 = key_index(r, k2);
                    if j2 != j {
                        assert(r[j2].0 == r[j].0);
                    }
                    if k2 == k {
                        assert(j == i);
                    }
                } else {
                    if has_key(r, k2) {
                        let j2 = key_index(r, k2);
                        assert(acc[j2].0 == k2);
                    }
                }
            }
        } else {
            assert forall|a: int, b: int|
                0 <= a < r.len() && 0 <= b < r.len() && a != b implies #[trigger] r[a].0 != #[trigger] r[b].0 by {
                if a < acc.len() && b < acc.len() {
                    assert(r[a].0 == acc[a].0 && r[b].0 == acc[b].0);
                } else if a < acc.len() {
                    assert(r[a].0 == acc[a].0);
                } else {
                    assert(r[b].0 == acc[b].0);
                }
            }
            assert forall|k2: Seq<char>| #[trigger] value_of(r, k2) == value_of(acc, k2) + if k2 == k {
                c as int
            } else {
                0
            } by {
                if k2 == k {
                    assert(r[acc.len() as int].0 == k);
                    let j2 = key_index(r, k2);
                    if j2 < acc.len() {
                        assert(acc[j2].0 == k);
                    }
                } else if has_key(acc, k2) {
                    let j = key_index(acc, k2);
                    assert(r[j].0 == k2);
                    let j2 = key_index(r, k2);
                    if j2 != j {
                        assert(r[j2].0 == r[j].0);
                    }
                } else if has_key(r, k2) {
                    let j2 = key_index(r, k2);
                    assert(j2 < acc.len());
                    assert(acc[j2].0 == k2);
                }
            }
        }
    }
}

/// The keyword occurrences of all languages, added up per keyword, when
/// every keyword's total fits in a machine word; `None` otherwise.
pub fn checked_keyword_sum_map(content_info_map: &LanguageMap<LanguageContentInfo>) -> (r: Option<LanguageMap<usize>>)
    ensures
        r is Some <==> forall|k: Seq<char>| #[trigger] total_count(content_info_map@, k) <= usize::MAX,
        r matches Some(sums) ==> sums@ == keyword_sums(content_info_map@),
        r matches Some(sums) ==> forall|k: Seq<char>| #[trigger] value_of(sums@, k) == total_count(content_info_map@, k),
{
    let ghost c = content_info_map@;
    let mut collective_keywords_map: LanguageMap<usize> = LanguageMap::new();
    let n = content_info_map.len();
    let mut i: usize = 0;
    while i < n
        invariant
            0 <= i <= n,
            n == c.len(),
            content_info_map@ == c,
            collective_keywords_map@ == keyword_sums(c.take(i as int)),
            forall|k: Seq<char>| #[trigger] value_of(collective_keywords_map@, k) == total_count(c.take(i as int), k),
        decreases n - i,
    {
        let kws = &content_info_map.value_at(i).keyword_occurences;
        let ghost kv = kws@;
        let ghost before = collective_keywords_map@;
        proof {
            assert(c.take(i as int + 1).drop_last() =~= c.take(i as int));
            assert(c.take(i as int + 1).last() == c[i as int]);
            assert(kv.take(0) =~= Seq::<(Seq<char>, usize)>::empty());
        }
        let m = kws.len();
        let mut j: usize = 0;
        while j < m
            invariant
                0 <= j <= m,
                m == kv.len(),
                kws@ == kv,
                kv == c[i as int].1.keyword_occurences@,
                0 <= i < n,
                n == c.len(),
                content_info_map@ == c,
                collective_keywords_map@ == add_counts(before, kv.take(j as int)),
                forall|k: Seq<char>| #[trigger] value_of(collective_keywords_map@, k) == total_count(c.take(i as int), k) + count_all(kv.take(j as int), k),
            decreases m - j,
        {
            let key = kws.key_at(j);
            let count = *kws.value_at(j);
            proof {
                assert(kv.take(j as int + 1).drop_last() =~= kv.take(j as int));
                assert(kv.take(j as int + 1).last() == (key@, count));
                lemma_total_count_prefix(c, i as int + 1, key@);
                assert(c.take(i as int + 1).drop_last() =~= c.take(i as int));
                lemma_count_all_prefix(kv, j as int + 1, key@);
            }
            let _ = collective_keywords_map.len();
            let ghost acc = collective_keywords_map@;
            if count != 0 {
                match collective_keywords_map.index_of(key) {
                    Some(idx) => {
                        assert(value_of(acc, key@) == acc[idx as int].1);
                        match collective_keywords_map.value_at(idx).checked_add(count) {
                            Some(x) => {
                                proof {
                                    lemma_add_count(acc, key@, count);
                                }
                                collective_keywords_map.set_value_at(idx, x);
                            },
                            None => {
                                assert(total_count(c, key@) > usize::MAX);
                                return None;
                            },
                        }
                    },
                    None => {
                        proof {
                            lemma_add_count(acc, key@, count);
                        }
                        collective_keywords_map.insert(key.clone(), count);
                    },
                }
            }
            j = j + 1;
        }
        assert(kv.take(m as int) =~= kv);
        i = i + 1;
    }
    assert(c.take(n as int) =~= c);
    assert forall|k: Seq<char>| #[trigger] total_count(c, k) <= usize::MAX by {
        assert(value_of(collective_keywords_map@, k) == total_count(c.take(n as int), k));
        if has_key(collective_keywords_map@, k) {
            let idx = key_index(collective_keywords_map@, k);
            let x: usize = collective_keywords_map@[idx].1;
            assert(value_of(collective_keywords_map@, k) == x);
        }
    }
    Some(collective_keywords_map)
}

/// The keyword occurrences of all languages, added up per keyword;
/// keywords appear in the order in which a non-zero count is first met.
pub fn create_keyword_sum_map(content_info_map: &LanguageMap<LanguageContentInfo>) -> (sums: LanguageMap<usize>)
    requires
        forall|k: Seq<char>| #[trigger] total_count(content_info_map@, k) <= usize::MAX,
    ensures
        sums@ == keyword_sums(content_info_map@),
        forall|k: Seq<char>| #[trigger] value_of(sums@, k) == total_count(content_info_map@, k),
{
    match checked_keyword_sum_map(content_info_map) {
        Some(sums) => sums,
        None => {
            assert(false);
            LanguageMap::new()
        },
    }
}

} // verus!
