//! Shares of files, lines and bytes per language, in tenths of a percent.
use vstd::prelude::*;

use crate::binary64::{binary64_share, binary64_share_exec};
use crate::languages::{
    LanguageContentInfo, LanguageMetadata, bytes_seq, bytes_vec, files_seq, files_vec, lines_seq, lines_vec,
};
use crate::ordering::seq_sum;
use crate::table::{Entries, LanguageMap, strings_view};
use crate::verticals::{lemma_elem_le_sum, lemma_prefix_sum_le, lemma_sum_nonneg, lemma_sum_update};

verus! {

/// `part / total` in tenths of a percent, computed in double precision:
/// both numbers are converted to binary64, divided, multiplied by 1000 and
/// rounded to an integer, halfway cases away from zero. The rounding of the
/// binary64 quotient decides exact half-tenths: 201 of 400 is 50.25%, and
/// 0.5025 in binary64 lies just below it, so the share is 50.2%.
pub open spec fn share(part: int, total: int) -> int {
    if part <= 0 {
        0
    } else {
        binary64_share(part as nat, total as nat) as int
    }
}

/// The rounded shares of all numbers but the last.
pub open spec fn leading_shares(numbers: Seq<usize>) -> Seq<usize> {
    Seq::new((numbers.len() - 1) as nat, |i: int| share(numbers[i] as int, seq_sum(numbers)) as usize)
}

/// The share of each number in their total, in tenths of a percent. All but
/// the last are [`share`]s; the last is what is left of 100.0%, or 0.0%
/// when the others already make 99.9% or more. (Added up in binary64 as
/// tenths divided by ten, the shares stay far closer than 0.05% to their
/// exact sum: a share is not zero only for a number of at least 1/2000 of
/// the total, so at most 2000 shares are not zero, and adding zero is
/// exact. Comparing with 99.89% and subtracting from 100% therefore gives
/// the same tenths as the exact sum does.) With two or more numbers
/// that add up to zero the shares are undefined (`None`).
pub open spec fn percentages(numbers: Seq<usize>) -> Option<Seq<usize>> {
    if numbers.len() == 0 {
        Some(Seq::empty())
    } else if numbers.len() >= 2 && seq_sum(numbers) == 0 {
        None
    } else {
        let firsts = leading_shares(numbers);
        let s = seq_sum(firsts);
        Some(firsts.push(if s >= 999 { 0 } else { (1000 - s) as usize }))
    }
}

/// The shares of `numbers` in their total, in tenths of a percent; `None`
/// when they are not defined.
pub fn get_percentages(numbers: &[usize]) -> (r: Option<Vec<usize>>)
    requires
        seq_sum(numbers@) <= usize::MAX,
    ensures
        r matches Some(v) ==> percentages(numbers@) == Some(v@),
        r is None ==> percentages(numbers@) is None,
{
    let n = numbers.len();
    if n == 0 {
        let v: Vec<usize> = Vec::new();
        assert(v@ =~= Seq::<usize>::empty());
        return Some(v);
    }
    let mut total: usize = 0;
    let mut i: usize = 0;
    while i < n
        invariant
            0 <= i <= n,
            n == numbers@.len(),
            seq_sum(numbers@) <= usize::MAX,
            total == seq_sum(numbers@.take(i as int)),
        decreases n - i,
    {
        proof {
            assert(numbers@.take(i as int + 1).drop_last() =~= numbers@.take(i as int));
            lemma_prefix_sum_le(numbers@, i as int + 1);
        }
        total = total + numbers[i];
        i = i + 1;
    }
    assert(numbers@.take(n as int) =~= numbers@);
    if n >= 2 && total == 0 {
        return None;
    }
    let ghost firsts = leading_shares(numbers@);
    let mut language_percentages: Vec<usize> = Vec::new();
    let mut sum: u128 = 0;
    let mut c: usize = 0;
    while c + 1 < n
        invariant
            0 <= c < n,
            n == numbers@.len(),
            total == seq_sum(numbers@),
            n >= 2 ==> total > 0,
            firsts == leading_shares(numbers@),
            language_percentages@ == firsts.take(c as int),
            sum == seq_sum(language_percentages@),
            sum <= 0x4000 * c,
        decreases n - c,
    {
        proof {
            lemma_elem_le_sum(numbers@, c as int);
        }
        let canonicalized = if numbers[c] == 0 {
            0
        } else {
            binary64_share_exec(numbers[c] as u64, total as u64)
        };
        let ghost before = language_percentages@;
        language_percentages.push(canonicalized);
        proof {
            assert(language_percentages@ =~= firsts.take(c as int + 1));
            assert(language_percentages@.drop_last() =~= before);
        }
        sum = sum + canonicalized as u128;
        c = c + 1;
    }
    assert(firsts.take(c as int) =~= firsts);
    let last: usize = if sum >= 999 { 0 } else { (1000 - sum) as usize };
    language_percentages.push(last);
    Some(language_percentages)
}

/// Where `k` first occurs in `names`; `names.len()` when it does not.
pub open spec fn first_index(names: Seq<Seq<char>>, k: Seq<char>) -> int
    decreases names.len(),
{
    if names.len() == 0 {
        0
    } else if names[0] == k {
        0
    } else {
        1 + first_index(names.drop_first(), k)
    }
}

/// An array of `len` zeros in which each value is written at the position
/// where its name first occurs in `names`, in map order.
pub open spec fn placed(s: Entries<usize>, names: Seq<Seq<char>>, len: nat) -> Seq<usize>
    decreases s.len(),
{
    if s.len() == 0 {
        Seq::new(len, |i: int| 0usize)
    } else {
        placed(s.drop_last(), names, len).update(first_index(names, s.last().0), s.last().1)
    }
}

pub open spec fn keyed_files(s: Entries<LanguageMetadata>) -> Entries<usize> {
    Seq::new(s.len(), |i: int| (s[i].0, s[i].1.files))
}

pub open spec fn keyed_bytes(s: Entries<LanguageMetadata>) -> Entries<usize> {
    Seq::new(s.len(), |i: int| (s[i].0, s[i].1.bytes))
}

pub open spec fn keyed_lines(s: Entries<LanguageContentInfo>) -> Entries<usize> {
    Seq::new(s.len(), |i: int| (s[i].0, s[i].1.lines))
}

/// Every name of the map occurs in `names` at a position below the size of
/// the map.
pub open spec fn names_cover<T>(s: Entries<T>, names: Seq<Seq<char>>) -> bool {
    forall|i: int| 0 <= i < s.len() ==> first_index(names, #[trigger] s[i].0) < s.len()
}

pub open spec fn values_of(s: Entries<usize>) -> Seq<usize> {
    Seq::new(s.len(), |i: int| s[i].1)
}

pub proof fn lemma_first_index(names: Seq<Seq<char>>, k: Seq<char>)
    ensures
        0 <= first_index(names, k) <= names.len(),
        first_index(names, k) < names.len() ==> names[first_index(names, k)] == k,
        forall|j: int| 0 <= j < first_index(names, k) ==> names[j] != k,
    decreases names.len(),
{
    if names.len() > 0 && names[0] != k {
        lemma_first_index(names.drop_first(), k);
        assert forall|j: int| 0 <= j < first_index(names, k) implies names[j] != k by {
            if j > 0 {
                assert(names[j] == names.drop_first()[j - 1]);
            }
        }
    }
}

/// Placing values never makes more than they add up to.
pub proof fn lemma_placed_sum(s: Entries<usize>, names: Seq<Seq<char>>, len: nat)
    requires
        forall|i: int| 0 <= i < s.len() ==> first_index(names, #[trigger] s[i].0) < len,
    ensures
        placed(s, names, len).len() == len,
        0 <= seq_sum(placed(s, names, len)) <= seq_sum(values_of(s)),
    decreases s.len(),
{
    if s.len() == 0 {
        crate::verticals::lemma_sum_zero(Seq::new(len, |i: int| 0usize));
    } else {
        let p = s.drop_last();
        assert forall|i: int| 0 <= i < p.len() implies first_index(names, #[trigger] p[i].0) < len by {
            assert(p[i] == s[i]);
        }
        lemma_placed_sum(p, names, len);
        let q = placed(p, names, len);
        let pos = first_index(names, s.last().0);
        assert(s[s.len() - 1] == s.last());
        lemma_first_index(names, s.last().0);
        lemma_sum_update(q, pos, s.last().1);
        lemma_sum_nonneg(placed(s, names, len));
        assert(values_of(s).drop_last() =~= values_of(p));
    }
}

/// Writes each value at the position of its name in `names`.
fn place(keyed: &Vec<(usize, usize)>, len: usize, ghost_names: Ghost<Seq<Seq<char>>>, ghost_s: Ghost<Entries<usize>>) -> (r: Vec<usize>)
    requires
        keyed@.len() == ghost_s@.len(),
        forall|i: int| 0 <= i < keyed@.len() ==> (#[trigger] keyed@[i]).0 == first_index(ghost_names@, ghost_s@[i].0) && keyed@[i].1 == ghost_s@[i].1,
        forall|i: int| 0 <= i < keyed@.len() ==> (#[trigger] keyed@[i]).0 < len,
    ensures
        r@ == placed(ghost_s@, ghost_names@, len as nat),
{
    let mut r: Vec<usize> = Vec::new();
    let mut i: usize = 0;
    while i < len
        invariant
            0 <= i <= len,
            r@ == Seq::new(i as nat, |j: int| 0usize),
        decreases len - i,
    {
        r.push(0);
        i = i + 1;
        assert(r@ =~= Seq::new(i as nat, |j: int| 0usize));
    }
    let ghost s = ghost_s@;
    let ghost names = ghost_names@;
    assert(s.take(0) =~= Seq::<(Seq<char>, usize)>::empty());
    let mut j: usize = 0;
    while j < keyed.len()
        invariant
            0 <= j <= keyed@.len(),
            keyed@.len() == s.len(),
            s == ghost_s@,
            names == ghost_names@,
            forall|i: int| 0 <= i < keyed@.len() ==> (#[trigger] keyed@[i]).0 == first_index(names, s[i].0) && keyed@[i].1 == s[i].1,
            forall|i: int| 0 <= i < keyed@.len() ==> (#[trigger] keyed@[i]).0 < len,
            r@ == placed(s.take(j as int), names, len as nat),
            r@.len() == len,
        decreases keyed@.len() - j,
    {
        let (pos, value) = keyed[j];
        proof {
            assert(s.take(j as int + 1).drop_last() =~= s.take(j as int));
            assert(s.take(j as int + 1).last() == s[j as int]);
            assert(keyed@[j as int].0 == pos);
        }
        r.set(pos, value);
        j = j + 1;
    }
    assert(s.take(j as int) =~= s);
    r
}

/// The position of `name` in `names`.
pub(crate) fn position(names: &[String], name: &String) -> (p: usize)
    ensures
        p == first_index(crate::table::strings_view(names@), name@),
{
    let ghost nv = crate::table::strings_view(names@);
    assert(nv.skip(0) =~= nv);
    let mut i: usize = 0;
    while i < names.len() && !(names[i] == *name)
        invariant
            0 <= i <= names@.len(),
            nv == crate::table::strings_view(names@),
            first_index(nv, name@) == i + first_index(nv.skip(i as int), name@),
        decreases names@.len() - i,
    {
        assert(nv.skip(i as int).drop_first() =~= nv.skip(i as int + 1));
        assert(nv.skip(i as int)[0] == nv[i as int]);
        i = i + 1;
    }
    if i < names.len() {
        assert(nv.skip(i as int)[0] == nv[i as int]);
    } else {
        assert(nv.skip(i as int).len() == 0);
    }
    i
}

/// The spec result of placing `s` by `names` and taking the shares.
pub open spec fn placed_percentages(s: Entries<usize>, names: Seq<Seq<char>>) -> Option<Seq<usize>> {
    percentages(placed(s, names, s.len()))
}

fn placed_shares(keyed: &Vec<(usize, usize)>, ghost_names: Ghost<Seq<Seq<char>>>, ghost_s: Ghost<Entries<usize>>) -> (r: Option<Vec<usize>>)
    requires
        keyed@.len() == ghost_s@.len(),
        forall|i: int| 0 <= i < keyed@.len() ==> (#[trigger] keyed@[i]).0 == first_index(ghost_names@, ghost_s@[i].0) && keyed@[i].1 == ghost_s@[i].1,
        forall|i: int| 0 <= i < keyed@.len() ==> (#[trigger] keyed@[i]).0 < keyed@.len(),
        seq_sum(values_of(ghost_s@)) <= usize::MAX,
    ensures
        r matches Some(v) ==> placed_percentages(ghost_s@, ghost_names@) == Some(v@),
        r is None ==> placed_percentages(ghost_s@, ghost_names@) is None,
{
    let arr = place(keyed, keyed.len(), ghost_names, ghost_s);
    proof {
        assert forall|i: int| 0 <= i < ghost_s@.len() implies first_index(ghost_names@, #[trigger] ghost_s@[i].0) < ghost_s@.len() by {
            assert(keyed@[i].0 < keyed@.len());
        }
        lemma_placed_sum(ghost_s@, ghost_names@, ghost_s@.len());
    }
    get_percentages(arr.as_slice())
}

/// The names of a map with the given values, one per entry.
pub open spec fn with_values<T>(s: Entries<T>, values: Seq<usize>) -> Entries<usize> {
    Seq::new(s.len(), |i: int| (s[i].0, values[i]))
}

/// The shares of `values`, one per entry of `map`, each at the position of
/// the entry's name in `names`.
fn shares_by_name<T>(map: &LanguageMap<T>, values: Vec<usize>, names: &[String]) -> (r: Option<Vec<usize>>)
    requires
        values@.len() == map@.len(),
        names_cover(map@, strings_view(names@)),
        seq_sum(values@) <= usize::MAX,
    ensures
        r matches Some(v) ==> placed_percentages(with_values(map@, values@), strings_view(names@)) == Some(v@),
        r is None ==> placed_percentages(with_values(map@, values@), strings_view(names@)) is None,
{
    let ghost m = map@;
    let ghost nv = strings_view(names@);
    let ghost s = with_values(m, values@);
    let n = map.len();
    let mut keyed: Vec<(usize, usize)> = Vec::new();
    let mut i: usize = 0;
    while i < n
        invariant
            0 <= i <= n,
            n == m.len(),
            map@ == m,
            values@.len() == n,
            nv == strings_view(names@),
            s == with_values(m, values@),
            names_cover(m, nv),
            keyed@.len() == i,
            forall|j: int| 0 <= j < i ==> (#[trigger] keyed@[j]).0 == first_index(nv, s[j].0) && keyed@[j].1 == s[j].1,
            forall|j: int| 0 <= j < i ==> (#[trigger] keyed@[j]).0 < n,
        decreases n - i,
    {
        let pos = position(names, map.key_at(i));
        assert(s[i as int].0 == m[i as int].0);
        assert(pos < n);
        keyed.push((pos, values[i]));
        i = i + 1;
    }
    assert(values_of(s) =~= values@);
    placed_shares(&keyed, Ghost(nv), Ghost(s))
}

/// The share of each language in all files, at the position of its name in
/// `sorted_language_names`.
pub fn get_files_percentages(
    languages_metadata_map: &LanguageMap<LanguageMetadata>,
    sorted_language_names: &[String],
) -> (r: Option<Vec<usize>>)
    requires
        names_cover(languages_metadata_map@, strings_view(sorted_language_names@)),
        seq_sum(files_seq(languages_metadata_map@)) <= usize::MAX,
    ensures
        r matches Some(v) ==> placed_percentages(keyed_files(languages_metadata_map@), strings_view(sorted_language_names@)) == Some(v@),
        r is None ==> placed_percentages(keyed_files(languages_metadata_map@), strings_view(sorted_language_names@)) is None,
{
    let values = files_vec(languages_metadata_map);
    assert(with_values(languages_metadata_map@, values@) =~= keyed_files(languages_metadata_map@));
    shares_by_name(languages_metadata_map, values, sorted_language_names)
}

/// The share of each language in all bytes, at the position of its name in
/// `languages_name`.
pub fn get_sizes_percentages(
    languages_metadata_map: &LanguageMap<LanguageMetadata>,
    languages_name: &[String],
) -> (r: Option<Vec<usize>>)
    requires
        names_cover(languages_metadata_map@, strings_view(languages_name@)),
        seq_sum(bytes_seq(languages_metadata_map@)) <= usize::MAX,
    ensures
        r matches Some(v) ==> placed_percentages(keyed_bytes(languages_metadata_map@), strings_view(languages_name@)) == Some(v@),
        r is None ==> placed_percentages(keyed_bytes(languages_metadata_map@), strings_view(languages_name@)) is None,
{
    let values = bytes_vec(languages_metadata_map);
    assert(with_values(languages_metadata_map@, values@) =~= keyed_bytes(languages_metadata_map@));
    shares_by_name(languages_metadata_map, values, languages_name)
}

/// The share of each language in all lines, at the position of its name in
/// `languages_name`.
pub fn get_lines_percentages(
    content_info_map: &LanguageMap<LanguageContentInfo>,
    languages_name: &[String],
) -> (r: Option<Vec<usize>>)
    requires
        names_cover(content_info_map@, strings_view(languages_name@)),
        seq_sum(lines_seq(content_info_map@)) <= usize::MAX,
    ensures
        r matches Some(v) ==> placed_percentages(keyed_lines(content_info_map@), strings_view(languages_name@)) == Some(v@),
        r is None ==> placed_percentages(keyed_lines(content_info_map@), strings_view(languages_name@)) is None,
{
    let values = lines_vec(content_info_map);
    assert(with_values(content_info_map@, values@) =~= keyed_lines(content_info_map@));
    shares_by_name(content_info_map, values, languages_name)
}

} // verus!
