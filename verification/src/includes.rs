//! The include extractor: scans translation-unit lines for the include
//! marker, pulls out the quoted or angle-bracketed target text, and collects
//! the results into one deduplicated reference set. Also collects the
//! exclusion entries that a leading exclude comment declares.

use vstd::prelude::*;
use crate::paths::{
    views_of, first_index_of, last_index_of, lemma_first_index_of, lemma_last_index_of, find_byte,
    rfind_byte, copy_range, copy_bytes, contains_bytes, starts_with, bytes_starts_with,
};

verus! {

/// The set of byte strings a list holds.
pub open spec fn set_of(s: Seq<Seq<u8>>) -> Set<Seq<u8>>
    decreases s.len(),
{
    if s.len() == 0 {
        Set::empty()
    } else {
        set_of(s.drop_last()).insert(s.last())
    }
}

pub proof fn lemma_set_of(s: Seq<Seq<u8>>)
    ensures
        set_of(s).finite(),
        forall|x: Seq<u8>| #[trigger] set_of(s).contains(x) <==> s.contains(x),
    decreases s.len(),
{
    if s.len() > 0 {
        lemma_set_of(s.drop_last());
        assert forall|x: Seq<u8>| #[trigger] set_of(s).contains(x) implies s.contains(x) by {
            if x == s.last() {
                assert(s[s.len() - 1] == x);
            } else {
                assert(s.drop_last().contains(x));
                let j = choose|j: int| 0 <= j < s.drop_last().len() && s.drop_last()[j] == x;
                assert(s[j] == x);
            }
        }
        assert forall|x: Seq<u8>| #[trigger] s.contains(x) implies set_of(s).contains(x) by {
            let i = choose|i: int| 0 <= i < s.len() && s[i] == x;
            if i < s.len() - 1 {
                assert(s.drop_last()[i] == x);
                assert(s.drop_last().contains(x));
            }
        }
    }
}

/// The marker that makes a line an include directive.
pub open spec fn include_marker() -> Seq<u8> {
    seq![
        '#' as u8,
        'i' as u8,
        'n' as u8,
        'c' as u8,
        'l' as u8,
        'u' as u8,
        'd' as u8,
        'e' as u8,
        ' ' as u8,
    ]
}

/// Builds the include marker as a byte string.
pub fn include_marker_bytes() -> (r: Vec<u8>)
    ensures
        r@ == include_marker(),
{
    let mut r: Vec<u8> = Vec::new();
    r.push('#' as u8);
    r.push('i' as u8);
    r.push('n' as u8);
    r.push('c' as u8);
    r.push('l' as u8);
    r.push('u' as u8);
    r.push('d' as u8);
    r.push('e' as u8);
    r.push(' ' as u8);
    proof {
        assert(r@ =~= include_marker());
    }
    r
}

/// Whether `pat` occurs in `s` starting at index `i`.
pub open spec fn has_sub_at(s: Seq<u8>, pat: Seq<u8>, i: int) -> bool {
    0 <= i && i + pat.len() <= s.len() && s.subrange(i, i + pat.len()) == pat
}

/// Whether `pat` occurs anywhere in `s`.
pub open spec fn contains_sub(s: Seq<u8>, pat: Seq<u8>) -> bool {
    exists|i: int| has_sub_at(s, pat, i)
}

/// Whether `pat` occurs as a contiguous run of bytes in `s`.
pub fn find_sub(s: &Vec<u8>, pat: &Vec<u8>) -> (r: bool)
    ensures
        r == contains_sub(s@, pat@),
{
    let n = s.len();
    let m = pat.len();
    if m > n {
        proof {
            if contains_sub(s@, pat@) {
                let i = choose|i: int| has_sub_at(s@, pat@, i);
            }
        }
        return false;
    }
    let mut i: usize = 0;
    while i <= n - m
        invariant
            m <= n,
            n == s@.len(),
            m == pat@.len(),
            i <= n - m + 1,
            forall|k: int| 0 <= k < i ==> !has_sub_at(s@, pat@, k),
        decreases n - m + 1 - i,
    {
        let mut j: usize = 0;
        while j < m && s[i + j] == pat[j]
            invariant
                m <= n,
                n == s@.len(),
                m == pat@.len(),
                i + m <= n,
                j <= m,
                forall|t: int| 0 <= t < j ==> s@[i + t] == pat@[t],
            decreases m - j,
        {
            j = j + 1;
        }
        if j == m {
            proof {
                assert(s@.subrange(i as int, i + m) =~= pat@);
                assert(has_sub_at(s@, pat@, i as int));
            }
            return true;
        }
        proof {
            assert(s@[i + j] != pat@[j as int]);
            if has_sub_at(s@, pat@, i as int) {
                assert(s@.subrange(i as int, i + m)[j as int] == pat@[j as int]);
            }
        }
        i = i + 1;
    }
    proof {
        if contains_sub(s@, pat@) {
            let k = choose|k: int| has_sub_at(s@, pat@, k);
            assert(k + m <= n);
            assert(k < i);
        }
    }
    false
}

/// The reference text an include-marker line declares: the span between the
/// first and last double quote; absent quotes, the span between the first
/// `<` and the last `>`; unbalanced or missing delimiters yield nothing.
pub open spec fn extract_include(line: Seq<u8>) -> Option<Seq<u8>> {
    let q1 = first_index_of(line, '"' as u8);
    let q2 = last_index_of(line, '"' as u8);
    let b1 = first_index_of(line, '<' as u8);
    let b2 = last_index_of(line, '>' as u8);
    if q1 >= 0 {
        if q1 < q2 {
            Some(line.subrange(q1 + 1, q2))
        } else {
            None
        }
    } else {
        if b1 >= 0 && 0 <= b2 && b1 < b2 {
            Some(line.subrange(b1 + 1, b2))
        } else {
            None
        }
    }
}

/// Extracts the reference text of one include-marker line, if its delimiters
/// are balanced.
pub fn extract_include_ref(line: &Vec<u8>) -> (r: Option<Vec<u8>>)
    ensures
        match r {
            Some(t) => extract_include(line@) == Some(t@),
            None => extract_include(line@) is None,
        },
{
    proof {
        lemma_first_index_of(line@, '"' as u8);
        lemma_last_index_of(line@, '"' as u8);
        lemma_first_index_of(line@, '<' as u8);
        lemma_last_index_of(line@, '>' as u8);
    }
    match find_byte(line, '"' as u8) {
        Some(q1) => {
            match rfind_byte(line, '"' as u8) {
                Some(q2) => {
                    if q1 < q2 {
                        Some(copy_range(line, q1 + 1, q2))
                    } else {
                        None
                    }
                },
                None => {
                    proof {
                        assert(line@[q1 as int] == '"' as u8);
                        assert(false);
                    }
                    None
                },
            }
        },
        None => {
            match find_byte(line, '<' as u8) {
                Some(b1) => {
                    match rfind_byte(line, '>' as u8) {
                        Some(b2) => {
                            if b1 < b2 {
                                Some(copy_range(line, b1 + 1, b2))
                            } else {
                                None
                            }
                        },
                        None => None,
                    }
                },
                None => None,
            }
        },
    }
}

/// The deduplicated set of include references, keyed by literal text.
pub struct IncludeSet {
    pub items: Vec<Vec<u8>>,
}

impl IncludeSet {
    /// The set never holds the same reference text twice.
    pub open spec fn inv(&self) -> bool {
        views_of(self.items@).no_duplicates()
    }

    /// The mathematical set of reference texts held.
    pub open spec fn set_view(&self) -> Set<Seq<u8>> {
        set_of(views_of(self.items@))
    }

    pub fn new() -> (r: Self)
        ensures
            r.inv(),
            r.set_view() == Set::<Seq<u8>>::empty(),
            r.items@.len() == 0,
    {
        IncludeSet { items: Vec::new() }
    }

    /// Inserts a reference unless an equal one is already held.
    pub fn insert(&mut self, x: Vec<u8>)
        requires
            old(self).inv(),
        ensures
            final(self).inv(),
            views_of(final(self).items@) == (if views_of(old(self).items@).contains(x@) {
                views_of(old(self).items@)
            } else {
                views_of(old(self).items@).push(x@)
            }),
            final(self).set_view() == old(self).set_view().insert(x@),
    {
        let ghost vs = views_of(self.items@);
        proof {
            lemma_set_of(vs);
        }
        if !contains_bytes(&self.items, &x) {
            let ghost xv = x@;
            self.items.push(x);
            proof {
                assert(views_of(self.items@) =~= vs.push(xv));
                assert(vs.push(xv).drop_last() =~= vs);
                assert(vs.push(xv).no_duplicates()) by {
                    assert(forall|j: int| 0 <= j < vs.len() ==> vs.push(xv)[j] == vs[j]);
                    assert(forall|j: int|
                        0 <= j < vs.len() && vs[j] == xv ==> vs.contains(xv));
                }
            }
        } else {
            proof {
                assert(self.set_view().insert(x@) =~= self.set_view());
            }
        }
    }

    /// Whether a reference with this text is held.
    pub fn contains_ref(&self, x: &Vec<u8>) -> (r: bool)
        ensures
            r == self.set_view().contains(x@),
    {
        proof {
            lemma_set_of(views_of(self.items@));
        }
        contains_bytes(&self.items, x)
    }
}

/// One translation unit's text, as lines of bytes.
pub struct SourceText {
    pub lines: Vec<Vec<u8>>,
}

/// The lines of one translation unit.
pub open spec fn text_view(f: SourceText) -> Seq<Seq<u8>> {
    views_of(f.lines@)
}

/// The lines of each translation unit in a list.
pub open spec fn texts_view(files: Seq<SourceText>) -> Seq<Seq<Seq<u8>>> {
    files.map_values(|f: SourceText| text_view(f))
}

/// The reference a line contributes: only include-marker lines with balanced
/// delimiters contribute.
pub open spec fn line_ref(l: Seq<u8>) -> Option<Seq<u8>> {
    if contains_sub(l, include_marker()) {
        extract_include(l)
    } else {
        None
    }
}

/// A reference set after one line is taken in.
pub open spec fn after_line(s: Set<Seq<u8>>, l: Seq<u8>) -> Set<Seq<u8>> {
    match line_ref(l) {
        Some(t) => s.insert(t),
        None => s,
    }
}

/// The references declared by a sequence of lines.
pub open spec fn refs_of_lines(lines: Seq<Seq<u8>>) -> Set<Seq<u8>>
    decreases lines.len(),
{
    if lines.len() == 0 {
        Set::empty()
    } else {
        after_line(refs_of_lines(lines.drop_last()), lines.last())
    }
}

/// The references declared by a set of translation units.
pub open spec fn refs_of_files(files: Seq<Seq<Seq<u8>>>) -> Set<Seq<u8>>
    decreases files.len(),
{
    if files.len() == 0 {
        Set::empty()
    } else {
        refs_of_files(files.drop_last()).union(refs_of_lines(files.last()))
    }
}

/// Takes one include-marker line into the shared reference set.
pub fn put_library(line: &Vec<u8>, unique_library_files: &mut IncludeSet)
    requires
        old(unique_library_files).inv(),
    ensures
        final(unique_library_files).inv(),
        final(unique_library_files).set_view() == (match extract_include(line@) {
            Some(t) => old(unique_library_files).set_view().insert(t),
            None => old(unique_library_files).set_view(),
        }),
{
    match extract_include_ref(line) {
        Some(t) => unique_library_files.insert(t),
        None => {},
    }
}

/// Scans every translation unit for include-marker lines and collects the
/// deduplicated reference set. The units are independent: the result is the
/// same whatever order they are processed in (`lemma_extract_order_independent`).
pub fn update_library_list(c_files: &Vec<SourceText>) -> (r: IncludeSet)
    ensures
        r.inv(),
        r.set_view() == refs_of_files(texts_view(c_files@)),
{
    let marker = include_marker_bytes();
    let mut set = IncludeSet::new();
    let ghost fs = texts_view(c_files@);
    let mut i: usize = 0;
    proof {
        assert(refs_of_files(fs.subrange(0, 0)) =~= Set::<Seq<u8>>::empty()) by {
            assert(fs.subrange(0, 0) =~= Seq::<Seq<Seq<u8>>>::empty());
        }
        assert(set.set_view() =~= refs_of_files(fs.subrange(0, 0)));
    }
    while i < c_files.len()
        invariant
            i <= c_files@.len(),
            fs == texts_view(c_files@),
            fs.len() == c_files@.len(),
            marker@ == include_marker(),
            set.inv(),
            set.set_view() == refs_of_files(fs.subrange(0, i as int)),
        decreases c_files@.len() - i,
    {
        let ghost before = refs_of_files(fs.subrange(0, i as int));
        let ghost lines = fs[i as int];
        proof {
            assert(fs[i as int] == text_view(c_files@[i as int]));
        }
        let file = &c_files[i];
        let mut j: usize = 0;
        proof {
            assert(refs_of_lines(lines.subrange(0, 0)) =~= Set::<Seq<u8>>::empty()) by {
                assert(lines.subrange(0, 0) =~= Seq::<Seq<u8>>::empty());
            }
            assert(set.set_view() =~= before.union(refs_of_lines(lines.subrange(0, 0))));
        }
        while j < file.lines.len()
            invariant
                j <= file.lines@.len(),
                lines == text_view(*file),
                lines.len() == file.lines@.len(),
                marker@ == include_marker(),
                set.inv(),
                set.set_view() == before.union(refs_of_lines(lines.subrange(0, j as int))),
            decreases file.lines@.len() - j,
        {
            let ghost sofar = refs_of_lines(lines.subrange(0, j as int));
            proof {
                assert(lines.subrange(0, j + 1).drop_last() =~= lines.subrange(0, j as int));
                assert(lines.subrange(0, j + 1).last() == lines[j as int]);
                assert(lines[j as int] == file.lines@[j as int]@);
            }
            let line = &file.lines[j];
            if find_sub(line, &marker) {
                put_library(line, &mut set);
                proof {
                    assert(line_ref(line@) == extract_include(line@));
                    if extract_include(line@) is Some {
                        let t = extract_include(line@)->Some_0;
                        assert(before.union(sofar).insert(t) =~= before.union(sofar.insert(t)));
                    }
                    assert(set.set_view() == before.union(
                        refs_of_lines(lines.subrange(0, j + 1)),
                    ));
                }
            } else {
                proof {
                    assert(line_ref(line@) is None);
                    assert(refs_of_lines(lines.subrange(0, j + 1)) == sofar);
                }
            }
            j = j + 1;
        }
        proof {
            assert(lines.subrange(0, lines.len() as int) =~= lines);
            assert(fs.subrange(0, i + 1).drop_last() =~= fs.subrange(0, i as int));
            assert(fs.subrange(0, i + 1).last() == lines);
        }
        i = i + 1;
    }
    proof {
        assert(fs.subrange(0, fs.len() as int) =~= fs);
    }
    set
}

/// A reference belongs to a unit list exactly when one of its units declares
/// it.
pub proof fn lemma_refs_of_files_membership(files: Seq<Seq<Seq<u8>>>)
    ensures
        forall|x: Seq<u8>|
            #[trigger] refs_of_files(files).contains(x) <==> exists|i: int|
                0 <= i < files.len() && #[trigger] refs_of_lines(files[i]).contains(x),
    decreases files.len(),
{
    if files.len() > 0 {
        let pre = files.drop_last();
        lemma_refs_of_files_membership(pre);
        assert forall|x: Seq<u8>| #[trigger] refs_of_files(files).contains(x) implies exists|i: int|
            0 <= i < files.len() && #[trigger] refs_of_lines(files[i]).contains(x) by {
            if refs_of_files(pre).contains(x) {
                let i = choose|i: int|
                    0 <= i < pre.len() && #[trigger] refs_of_lines(pre[i]).contains(x);
                assert(files[i] == pre[i]);
                assert(refs_of_lines(files[i]).contains(x));
            } else {
                assert(refs_of_lines(files.last()).contains(x));
                assert(refs_of_lines(files[files.len() - 1]).contains(x));
            }
        }
        assert forall|x: Seq<u8>, i: int|
            0 <= i < files.len() && #[trigger] refs_of_lines(files[i]).contains(
                x,
            ) implies refs_of_files(files).contains(x) by {
            if i < files.len() - 1 {
                assert(pre[i] == files[i]);
                assert(refs_of_files(pre).contains(x));
            } else {
                assert(refs_of_lines(files.last()).contains(x));
            }
        }
    }
}

/// Include extraction is order-independent: two unit lists holding the same
/// units (as a multiset, however ordered) declare the same reference set.
pub proof fn lemma_extract_order_independent(f1: Seq<Seq<Seq<u8>>>, f2: Seq<Seq<Seq<u8>>>)
    requires
        f1.to_multiset() == f2.to_multiset(),
    ensures
        refs_of_files(f1) == refs_of_files(f2),
{
    broadcast use vstd::seq_lib::group_to_multiset_ensures;

    lemma_refs_of_files_membership(f1);
    lemma_refs_of_files_membership(f2);
    assert forall|x: Seq<u8>| #[trigger] refs_of_files(f1).contains(x) implies refs_of_files(
        f2,
    ).contains(x) by {
        let i = choose|i: int| 0 <= i < f1.len() && #[trigger] refs_of_lines(f1[i]).contains(x);
        assert(f1.contains(f1[i]));
        assert(f1.to_multiset().count(f1[i]) > 0);
        assert(f2.to_multiset().count(f1[i]) > 0);
        assert(f2.contains(f1[i]));
        let j = choose|j: int| 0 <= j < f2.len() && f2[j] == f1[i];
        assert(refs_of_lines(f2[j]).contains(x));
    }
    assert forall|x: Seq<u8>| #[trigger] refs_of_files(f2).contains(x) implies refs_of_files(
        f1,
    ).contains(x) by {
        let i = choose|i: int| 0 <= i < f2.len() && #[trigger] refs_of_lines(f2[i]).contains(x);
        assert(f2.contains(f2[i]));
        assert(f2.to_multiset().count(f2[i]) > 0);
        assert(f1.to_multiset().count(f2[i]) > 0);
        assert(f1.contains(f2[i]));
        let j = choose|j: int| 0 <= j < f1.len() && f1[j] == f2[i];
        assert(refs_of_lines(f1[j]).contains(x));
    }
    assert(refs_of_files(f1) =~= refs_of_files(f2));
}

/// The comment marker that declares an exclusion entry.
pub open spec fn exclude_marker() -> Seq<u8> {
    seq![
        '/' as u8,
        '/' as u8,
        ' ' as u8,
        'E' as u8,
        'X' as u8,
        'C' as u8,
        'L' as u8,
        'U' as u8,
        'D' as u8,
        'E' as u8,
        ':' as u8,
    ]
}

/// Builds the exclusion marker as a byte string.
pub fn exclude_marker_bytes() -> (r: Vec<u8>)
    ensures
        r@ == exclude_marker(),
{
    let mut r: Vec<u8> = Vec::new();
    r.push('/' as u8);
    r.push('/' as u8);
    r.push(' ' as u8);
    r.push('E' as u8);
    r.push('X' as u8);
    r.push('C' as u8);
    r.push('L' as u8);
    r.push('U' as u8);
    r.push('D' as u8);
    r.push('E' as u8);
    r.push(':' as u8);
    proof {
        assert(r@ =~= exclude_marker());
    }
    r
}

/// ASCII whitespace.
pub open spec fn is_space(b: u8) -> bool {
    b == 9 || b == 10 || b == 11 || b == 12 || b == 13 || b == 32
}

/// The line with every leading run of the exclusion marker removed.
pub open spec fn strip_exclude_prefix(s: Seq<u8>) -> Seq<u8>
    decreases s.len(),
{
    if starts_with(s, exclude_marker()) {
        strip_exclude_prefix(s.subrange(11, s.len() as int))
    } else {
        s
    }
}

/// The string without leading ASCII whitespace.
pub open spec fn trim_start_spec(s: Seq<u8>) -> Seq<u8>
    decreases s.len(),
{
    if s.len() > 0 && is_space(s[0]) {
        trim_start_spec(s.drop_first())
    } else {
        s
    }
}

/// The string without trailing ASCII whitespace.
pub open spec fn trim_end_spec(s: Seq<u8>) -> Seq<u8>
    decreases s.len(),
{
    if s.len() > 0 && is_space(s[s.len() - 1]) {
        trim_end_spec(s.drop_last())
    } else {
        s
    }
}

/// The string without leading or trailing ASCII whitespace.
pub open spec fn trim_spec(s: Seq<u8>) -> Seq<u8> {
    trim_end_spec(trim_start_spec(s))
}

fn is_space_byte(b: u8) -> (r: bool)
    ensures
        r == is_space(b),
{
    b == 9 || b == 10 || b == 11 || b == 12 || b == 13 || b == 32
}

/// Removes leading and trailing ASCII whitespace.
pub fn trim_bytes(v: &Vec<u8>) -> (r: Vec<u8>)
    ensures
        r@ == trim_spec(v@),
{
    let n = v.len();
    proof {
        assert(v@.subrange(0, n as int) =~= v@);
    }
    let mut a: usize = 0;
    while a < n && is_space_byte(v[a])
        invariant
            a <= n,
            n == v@.len(),
            trim_start_spec(v@) == trim_start_spec(v@.subrange(a as int, n as int)),
        decreases n - a,
    {
        proof {
            let sub = v@.subrange(a as int, n as int);
            assert(sub.len() > 0 && is_space(sub[0]));
            assert(sub.drop_first() =~= v@.subrange(a + 1, n as int));
        }
        a = a + 1;
    }
    proof {
        let sub = v@.subrange(a as int, n as int);
        if a == n {
            assert(sub =~= Seq::<u8>::empty());
        } else {
            assert(sub[0] == v@[a as int]);
        }
        assert(trim_start_spec(sub) == sub);
        assert(trim_start_spec(v@) == v@.subrange(a as int, n as int));
    }
    let mut b: usize = n;
    while b > a && is_space_byte(v[b - 1])
        invariant
            a <= b <= n,
            n == v@.len(),
            trim_start_spec(v@) == v@.subrange(a as int, n as int),
            trim_end_spec(v@.subrange(a as int, n as int)) == trim_end_spec(
                v@.subrange(a as int, b as int),
            ),
        decreases b,
    {
        proof {
            let sub = v@.subrange(a as int, b as int);
            assert(sub.len() > 0 && is_space(sub[sub.len() - 1]));
            assert(sub.drop_last() =~= v@.subrange(a as int, b - 1));
        }
        b = b - 1;
    }
    proof {
        let sub = v@.subrange(a as int, b as int);
        if b == a {
            assert(sub =~= Seq::<u8>::empty());
        } else {
            assert(sub[sub.len() - 1] == v@[b - 1]);
        }
        assert(trim_end_spec(sub) == sub);
    }
    copy_range(v, a, b)
}

/// Removes every leading run of the exclusion marker from a line.
pub fn strip_exclude_marker(line: &Vec<u8>) -> (r: Vec<u8>)
    ensures
        r@ == strip_exclude_prefix(line@),
{
    let marker = exclude_marker_bytes();
    let mut cur = copy_bytes(line);
    let mut go = bytes_starts_with(&cur, &marker);
    while go
        invariant
            marker@ == exclude_marker(),
            go == starts_with(cur@, marker@),
            strip_exclude_prefix(line@) == strip_exclude_prefix(cur@),
        decreases cur@.len(),
    {
        let next = copy_range(&cur, 11, cur.len());
        proof {
            assert(next@ =~= cur@.subrange(11, cur@.len() as int));
        }
        cur = next;
        go = bytes_starts_with(&cur, &marker);
    }
    cur
}

/// The exclusion entry a line declares: for a line led by the exclusion
/// marker, the text after the marker runs, trimmed of whitespace.
pub open spec fn exclude_entry(l: Seq<u8>) -> Option<Seq<u8>> {
    if starts_with(l, exclude_marker()) {
        Some(trim_spec(strip_exclude_prefix(l)))
    } else {
        None
    }
}

/// The exclusion entries a sequence of lines declares, in order.
pub open spec fn excludes_of_lines(lines: Seq<Seq<u8>>) -> Seq<Seq<u8>>
    decreases lines.len(),
{
    if lines.len() == 0 {
        Seq::empty()
    } else {
        let rest = excludes_of_lines(lines.drop_last());
        match exclude_entry(lines.last()) {
            Some(e) => rest.push(e),
            None => rest,
        }
    }
}

/// The exclusion entries a list of translation units declares, in order.
pub open spec fn excludes_of_files(files: Seq<Seq<Seq<u8>>>) -> Seq<Seq<u8>>
    decreases files.len(),
{
    if files.len() == 0 {
        Seq::empty()
    } else {
        excludes_of_files(files.drop_last()) + excludes_of_lines(files.last())
    }
}

/// Collects the exclusion entries declared across the translation units, in
/// file and line order.
pub fn get_exclude_list(c_files: &Vec<SourceText>) -> (r: Vec<Vec<u8>>)
    ensures
        views_of(r@) == excludes_of_files(texts_view(c_files@)),
{
    let marker = exclude_marker_bytes();
    let mut r: Vec<Vec<u8>> = Vec::new();
    let ghost fs = texts_view(c_files@);
    let mut i: usize = 0;
    proof {
        assert(fs.subrange(0, 0) =~= Seq::<Seq<Seq<u8>>>::empty());
        assert(views_of(r@) =~= excludes_of_files(fs.subrange(0, 0)));
    }
    while i < c_files.len()
        invariant
            i <= c_files@.len(),
            fs == texts_view(c_files@),
            fs.len() == c_files@.len(),
            marker@ == exclude_marker(),
            views_of(r@) == excludes_of_files(fs.subrange(0, i as int)),
        decreases c_files@.len() - i,
    {
        let ghost before = excludes_of_files(fs.subrange(0, i as int));
        let ghost lines = fs[i as int];
        proof {
            assert(fs[i as int] == text_view(c_files@[i as int]));
        }
        let file = &c_files[i];
        let mut j: usize = 0;
        proof {
            assert(lines.subrange(0, 0) =~= Seq::<Seq<u8>>::empty());
            assert(views_of(r@) =~= before + excludes_of_lines(lines.subrange(0, 0)));
        }
        while j < file.lines.len()
            invariant
                j <= file.lines@.len(),
                lines == text_view(*file),
                lines.len() == file.lines@.len(),
                marker@ == exclude_marker(),
                views_of(r@) == before + excludes_of_lines(lines.subrange(0, j as int)),
            decreases file.lines@.len() - j,
        {
            let ghost sofar = excludes_of_lines(lines.subrange(0, j as int));
            proof {
                assert(lines.subrange(0, j + 1).drop_last() =~= lines.subrange(0, j as int));
                assert(lines.subrange(0, j + 1).last() == lines[j as int]);
                assert(lines[j as int] == file.lines@[j as int]@);
            }
            let line = &file.lines[j];
            if bytes_starts_with(line, &marker) {
                let stripped = strip_exclude_marker(line);
                let entry = trim_bytes(&stripped);
                let ghost pre = views_of(r@);
                r.push(entry);
                proof {
                    assert(views_of(r@) =~= pre.push(trim_spec(strip_exclude_prefix(
                        lines[j as int],
                    ))));
                    assert(before + excludes_of_lines(lines.subrange(0, j + 1)) =~= pre.push(
                        trim_spec(strip_exclude_prefix(lines[j as int])),
                    ));
                }
            } else {
                proof {
                    assert(exclude_entry(lines[j as int]) is None);
                    assert(excludes_of_lines(lines.subrange(0, j + 1)) == sofar);
                }
            }
            j = j + 1;
        }
        proof {
            assert(lines.subrange(0, lines.len() as int) =~= lines);
            assert(fs.subrange(0, i + 1).drop_last() =~= fs.subrange(0, i as int));
            assert(fs.subrange(0, i + 1).last() == lines);
        }
        i = i + 1;
    }
    proof {
        assert(fs.subrange(0, fs.len() as int) =~= fs);
    }
    r
}

/// Include extraction is idempotent: running it again over an unchanged unit
/// list yields the identical reference set.
pub proof fn lemma_extract_idempotent(
    files: Seq<Seq<Seq<u8>>>,
    r1: Set<Seq<u8>>,
    r2: Set<Seq<u8>>,
)
    requires
        r1 == refs_of_files(files),
        r2 == refs_of_files(files),
    ensures
        r1 == r2,
{
}

} // verus!
