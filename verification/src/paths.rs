//! Byte-string path helpers: locating separator bytes, splitting a path into
//! parent, file name and extension, lowercasing, and deduplicated projections
//! over path lists. Paths are kept as byte strings; no filesystem is touched.

use vstd::prelude::*;

verus! {

/// The sequence views of a list of byte strings.
pub open spec fn views_of(s: Seq<Vec<u8>>) -> Seq<Seq<u8>> {
    s.map_values(|v: Vec<u8>| v@)
}

/// ASCII lowercase of one byte; bytes outside `A`..`Z` are unchanged.
pub open spec fn to_lower_byte(b: u8) -> u8 {
    if 'A' as u8 <= b <= 'Z' as u8 {
        (b + 32) as u8
    } else {
        b
    }
}

/// ASCII lowercase of a byte string.
pub open spec fn lower_seq(s: Seq<u8>) -> Seq<u8> {
    s.map_values(|b: u8| to_lower_byte(b))
}

/// Index of the last occurrence of `c` in `s`, or -1 if `c` does not occur.
pub open spec fn last_index_of(s: Seq<u8>, c: u8) -> int
    decreases s.len(),
{
    if s.len() == 0 {
        -1
    } else if s[s.len() - 1] == c {
        s.len() - 1
    } else {
        last_index_of(s.drop_last(), c)
    }
}

/// Index of the first occurrence of `c` in `s`, or -1 if `c` does not occur.
pub open spec fn first_index_of(s: Seq<u8>, c: u8) -> int
    decreases s.len(),
{
    if s.len() == 0 {
        -1
    } else if s[0] == c {
        0
    } else {
        let r = first_index_of(s.subrange(1, s.len() as int), c);
        if r < 0 {
            -1
        } else {
            r + 1
        }
    }
}

pub proof fn lemma_last_index_of(s: Seq<u8>, c: u8)
    ensures
        -1 <= last_index_of(s, c) < s.len(),
        last_index_of(s, c) >= 0 ==> s[last_index_of(s, c)] == c,
        forall|j: int| last_index_of(s, c) < j < s.len() ==> s[j] != c,
    decreases s.len(),
{
    if s.len() > 0 && s[s.len() - 1] != c {
        lemma_last_index_of(s.drop_last(), c);
        assert(forall|j: int| 0 <= j < s.len() - 1 ==> s.drop_last()[j] == s[j]);
    }
}

pub proof fn lemma_first_index_of(s: Seq<u8>, c: u8)
    ensures
        -1 <= first_index_of(s, c) < s.len(),
        first_index_of(s, c) >= 0 ==> s[first_index_of(s, c)] == c,
        forall|j: int| 0 <= j < first_index_of(s, c) ==> s[j] != c,
        first_index_of(s, c) == -1 ==> forall|j: int| 0 <= j < s.len() ==> s[j] != c,
    decreases s.len(),
{
    if s.len() > 0 && s[0] != c {
        let tail = s.subrange(1, s.len() as int);
        lemma_first_index_of(tail, c);
        let r = first_index_of(tail, c);
        if r >= 0 {
            assert(s[r + 1] == tail[r]);
            assert forall|j: int| 0 <= j < r + 1 implies s[j] != c by {
                if j >= 1 {
                    assert(tail[j - 1] == s[j]);
                }
            }
        } else {
            assert forall|j: int| 0 <= j < s.len() implies s[j] != c by {
                if j >= 1 {
                    assert(tail[j - 1] == s[j]);
                }
            }
        }
    }
}

/// Finds the index of the last occurrence of `c` in `v`, scanning backwards.
pub fn rfind_byte(v: &Vec<u8>, c: u8) -> (r: Option<usize>)
    ensures
        match r {
            Some(i) => last_index_of(v@, c) == i as int,
            None => last_index_of(v@, c) == -1,
        },
{
    proof {
        assert(v@.subrange(0, v@.len() as int) =~= v@);
    }
    let mut i: usize = v.len();
    while i > 0
        invariant
            i <= v@.len(),
            last_index_of(v@, c) == last_index_of(v@.subrange(0, i as int), c),
        decreases i,
    {
        i = i - 1;
        if v[i] == c {
            proof {
                let sub = v@.subrange(0, i + 1);
                assert(sub[sub.len() - 1] == c);
                assert(last_index_of(sub, c) == i as int);
            }
            return Some(i);
        }
        proof {
            let sub = v@.subrange(0, i + 1);
            assert(sub[sub.len() - 1] != c);
            assert(sub.drop_last() =~= v@.subrange(0, i as int));
        }
    }
    proof {
        assert(v@.subrange(0, 0) =~= Seq::<u8>::empty());
        assert(v@.subrange(0, v@.len() as int) =~= v@);
    }
    None
}

/// Finds the index of the first occurrence of `c` in `v`.
pub fn find_byte(v: &Vec<u8>, c: u8) -> (r: Option<usize>)
    ensures
        match r {
            Some(i) => first_index_of(v@, c) == i as int,
            None => first_index_of(v@, c) == -1,
        },
{
    let mut i: usize = 0;
    while i < v.len()
        invariant
            i <= v@.len(),
            forall|j: int| 0 <= j < i ==> v@[j] != c,
        decreases v@.len() - i,
    {
        if v[i] == c {
            proof {
                lemma_first_index_of(v@, c);
                let f = first_index_of(v@, c);
                assert(f != -1);
                assert(!(f < i)) by {
                    if 0 <= f < i {
                        assert(v@[f] != c);
                    }
                }
                assert(!(f > i));
            }
            return Some(i);
        }
        i = i + 1;
    }
    proof {
        lemma_first_index_of(v@, c);
        let f = first_index_of(v@, c);
        if f >= 0 {
            assert(v@[f] != c);
        }
    }
    None
}

/// Copies `v[from..to]` into a fresh byte string.
pub fn copy_range(v: &Vec<u8>, from: usize, to: usize) -> (r: Vec<u8>)
    requires
        from <= to <= v@.len(),
    ensures
        r@ == v@.subrange(from as int, to as int),
{
    let mut r: Vec<u8> = Vec::new();
    let mut i: usize = from;
    while i < to
        invariant
            from <= i <= to <= v@.len(),
            r@ == v@.subrange(from as int, i as int),
        decreases to - i,
    {
        r.push(v[i]);
        proof {
            assert(v@.subrange(from as int, i + 1) =~= v@.subrange(from as int, i as int).push(
                v@[i as int],
            ));
        }
        i = i + 1;
    }
    r
}

/// Copies a whole byte string.
pub fn copy_bytes(v: &Vec<u8>) -> (r: Vec<u8>)
    ensures
        r@ == v@,
{
    let r = copy_range(v, 0, v.len());
    proof {
        assert(v@.subrange(0, v@.len() as int) =~= v@);
    }
    r
}

/// Appends a copy of `src` to `dst`.
pub fn append_bytes(dst: &mut Vec<u8>, src: &Vec<u8>)
    ensures
        final(dst)@ == old(dst)@ + src@,
{
    let mut i: usize = 0;
    while i < src.len()
        invariant
            i <= src@.len(),
            dst@ == old(dst)@ + src@.subrange(0, i as int),
        decreases src@.len() - i,
    {
        dst.push(src[i]);
        proof {
            assert(old(dst)@ + src@.subrange(0, i + 1) =~= (old(dst)@ + src@.subrange(
                0,
                i as int,
            )).push(src@[i as int]));
        }
        i = i + 1;
    }
    proof {
        assert(src@.subrange(0, src@.len() as int) =~= src@);
    }
}

/// Compares two byte strings for equality of contents.
pub fn bytes_eq(a: &Vec<u8>, b: &Vec<u8>) -> (r: bool)
    ensures
        r == (a@ == b@),
{
    if a.len() != b.len() {
        proof {
            if a@ == b@ {
                assert(a@.len() == b@.len());
            }
        }
        return false;
    }
    let mut i: usize = 0;
    while i < a.len()
        invariant
            i <= a@.len(),
            a@.len() == b@.len(),
            forall|j: int| 0 <= j < i ==> a@[j] == b@[j],
        decreases a@.len() - i,
    {
        if a[i] != b[i] {
            return false;
        }
        i = i + 1;
    }
    proof {
        assert(a@ =~= b@);
    }
    true
}

/// ASCII-lowercases a byte string.
pub fn to_lowercase_bytes(v: &Vec<u8>) -> (r: Vec<u8>)
    ensures
        r@ == lower_seq(v@),
{
    let mut r: Vec<u8> = Vec::new();
    let mut i: usize = 0;
    while i < v.len()
        invariant
            i <= v@.len(),
            r@ == lower_seq(v@.subrange(0, i as int)),
        decreases v@.len() - i,
    {
        let b = v[i];
        if 'A' as u8 <= b && b <= 'Z' as u8 {
            r.push(b + 32);
        } else {
            r.push(b);
        }
        proof {
            assert(lower_seq(v@.subrange(0, i + 1)) =~= lower_seq(v@.subrange(0, i as int)).push(
                to_lower_byte(v@[i as int]),
            ));
        }
        i = i + 1;
    }
    proof {
        assert(v@.subrange(0, v@.len() as int) =~= v@);
    }
    r
}

/// Whether `s` begins with `p`.
pub open spec fn starts_with(s: Seq<u8>, p: Seq<u8>) -> bool {
    s.len() >= p.len() && s.subrange(0, p.len() as int) == p
}

/// Whether `s` ends with `p`.
pub open spec fn ends_with(s: Seq<u8>, p: Seq<u8>) -> bool {
    s.len() >= p.len() && s.subrange(s.len() - p.len(), s.len() as int) == p
}

/// Decides whether `v` begins with `p`.
pub fn bytes_starts_with(v: &Vec<u8>, p: &Vec<u8>) -> (r: bool)
    ensures
        r == starts_with(v@, p@),
{
    if v.len() < p.len() {
        return false;
    }
    let mut i: usize = 0;
    while i < p.len()
        invariant
            i <= p@.len() <= v@.len(),
            forall|j: int| 0 <= j < i ==> v@[j] == p@[j],
        decreases p@.len() - i,
    {
        if v[i] != p[i] {
            proof {
                if starts_with(v@, p@) {
                    assert(v@.subrange(0, p@.len() as int)[i as int] == p@[i as int]);
                }
            }
            return false;
        }
        i = i + 1;
    }
    proof {
        assert(v@.subrange(0, p@.len() as int) =~= p@);
    }
    true
}

/// Decides whether `v` ends with `p`.
pub fn bytes_ends_with(v: &Vec<u8>, p: &Vec<u8>) -> (r: bool)
    ensures
        r == ends_with(v@, p@),
{
    if v.len() < p.len() {
        return false;
    }
    let off = v.len() - p.len();
    let mut i: usize = 0;
    while i < p.len()
        invariant
            i <= p@.len() <= v@.len(),
            v@.len() <= usize::MAX,
            off == v@.len() - p@.len(),
            forall|j: int| 0 <= j < i ==> v@[off + j] == p@[j],
        decreases p@.len() - i,
    {
        if v[off + i] != p[i] {
            proof {
                if ends_with(v@, p@) {
                    assert(v@.subrange(v@.len() - p@.len(), v@.len() as int)[i as int] == p@[
                        i as int]);
                }
            }
            return false;
        }
        i = i + 1;
    }
    proof {
        assert(v@.subrange(v@.len() - p@.len(), v@.len() as int) =~= p@);
    }
    true
}

/// The path with every backslash replaced by a forward slash.
pub open spec fn slashed(s: Seq<u8>) -> Seq<u8> {
    s.map_values(|b: u8| if b == '\\' as u8 { '/' as u8 } else { b })
}

/// Replaces every backslash in a path by a forward slash.
pub fn slashed_bytes(v: &Vec<u8>) -> (r: Vec<u8>)
    ensures
        r@ == slashed(v@),
{
    let mut r: Vec<u8> = Vec::new();
    let mut i: usize = 0;
    while i < v.len()
        invariant
            i <= v@.len(),
            r@ == slashed(v@.subrange(0, i as int)),
        decreases v@.len() - i,
    {
        let b = v[i];
        if b == '\\' as u8 {
            r.push('/' as u8);
        } else {
            r.push(b);
        }
        proof {
            assert(slashed(v@.subrange(0, i + 1)) =~= slashed(v@.subrange(0, i as int)).push(
                if v@[i as int] == '\\' as u8 {
                    '/' as u8
                } else {
                    v@[i as int]
                },
            ));
        }
        i = i + 1;
    }
    proof {
        assert(v@.subrange(0, v@.len() as int) =~= v@);
    }
    r
}

/// The file-name component of a path: everything after the last separator,
/// or the whole path when it holds no separator.
pub open spec fn file_name_of(p: Seq<u8>) -> Seq<u8> {
    p.subrange(last_index_of(p, '/' as u8) + 1, p.len() as int)
}

/// The parent of a path: everything before the last separator; the lone
/// separator when it leads the path; empty when the path has no separator.
pub open spec fn parent_of(p: Seq<u8>) -> Seq<u8> {
    let i = last_index_of(p, '/' as u8);
    if i < 0 {
        Seq::empty()
    } else if i == 0 {
        seq!['/' as u8]
    } else {
        p.subrange(0, i)
    }
}

/// The extension of a path: the part of the file name after its last dot.
/// A file name without a dot, or whose only dot leads it, has none.
pub open spec fn extension_of(p: Seq<u8>) -> Option<Seq<u8>> {
    let name = file_name_of(p);
    let d = last_index_of(name, '.' as u8);
    if d <= 0 {
        None
    } else {
        Some(name.subrange(d + 1, name.len() as int))
    }
}

/// Extracts the file-name component of a path.
pub fn file_name_of_path(p: &Vec<u8>) -> (r: Vec<u8>)
    ensures
        r@ == file_name_of(p@),
{
    proof {
        lemma_last_index_of(p@, '/' as u8);
    }
    let n = p.len();
    match rfind_byte(p, '/' as u8) {
        Some(i) => {
            proof {
                assert(i < n);
            }
            copy_range(p, i + 1, n)
        },
        None => copy_range(p, 0, n),
    }
}

/// Extracts the parent component of a path.
pub fn parent_of_path(p: &Vec<u8>) -> (r: Vec<u8>)
    ensures
        r@ == parent_of(p@),
{
    proof {
        lemma_last_index_of(p@, '/' as u8);
    }
    match rfind_byte(p, '/' as u8) {
        Some(i) => {
            if i == 0 {
                let mut r: Vec<u8> = Vec::new();
                r.push('/' as u8);
                proof {
                    assert(r@ =~= seq!['/' as u8]);
                }
                r
            } else {
                copy_range(p, 0, i)
            }
        },
        None => Vec::new(),
    }
}

/// Extracts the extension of a path, if it has one.
pub fn extension_of_path(p: &Vec<u8>) -> (r: Option<Vec<u8>>)
    ensures
        match r {
            Some(e) => extension_of(p@) == Some(e@),
            None => extension_of(p@) is None,
        },
{
    let name = file_name_of_path(p);
    proof {
        lemma_last_index_of(name@, '.' as u8);
    }
    match rfind_byte(&name, '.' as u8) {
        Some(d) => {
            if d == 0 {
                None
            } else {
                Some(copy_range(&name, d + 1, name.len()))
            }
        },
        None => None,
    }
}

/// Keeps the first occurrence of each byte string, in order of appearance.
pub open spec fn dedup_firsts(s: Seq<Seq<u8>>) -> Seq<Seq<u8>>
    decreases s.len(),
{
    if s.len() == 0 {
        Seq::empty()
    } else {
        let rest = dedup_firsts(s.drop_last());
        if rest.contains(s.last()) {
            rest
        } else {
            rest.push(s.last())
        }
    }
}

/// Deduplication keeps exactly the members of the input and never repeats one.
pub proof fn lemma_dedup_firsts(s: Seq<Seq<u8>>)
    ensures
        dedup_firsts(s).no_duplicates(),
        forall|x: Seq<u8>| #[trigger] dedup_firsts(s).contains(x) <==> s.contains(x),
    decreases s.len(),
{
    if s.len() > 0 {
        let pre = s.drop_last();
        let d = dedup_firsts(pre);
        let whole = dedup_firsts(s);
        lemma_dedup_firsts(pre);
        assert forall|x: Seq<u8>| #[trigger] s.contains(x) implies whole.contains(x) by {
            let i = choose|i: int| 0 <= i < s.len() && s[i] == x;
            if i < s.len() - 1 {
                assert(pre[i] == x);
                assert(pre.contains(x));
                assert(d.contains(x));
                if d.contains(s.last())  {
                    assert(whole == d);
                } else {
                    let k = choose|k: int| 0 <= k < d.len() && d[k] == x;
                    assert(whole == d.push(s.last()));
                    assert(whole[k] == x);
                }
            } else {
                assert(x == s.last());
                if d.contains(x) {
                    assert(whole == d);
                } else {
                    assert(whole == d.push(s.last()));
                    assert(whole[d.len() as int] == x);
                }
            }
        }
        assert forall|x: Seq<u8>| #[trigger] whole.contains(x) implies s.contains(x) by {
            if d.contains(s.last()) {
                assert(whole == d);
                assert(d.contains(x));
                assert(pre.contains(x));
            } else {
                assert(whole == d.push(s.last()));
                let i = choose|i: int| 0 <= i < whole.len() && whole[i] == x;
                if i < d.len() {
                    assert(d[i] == x);
                    assert(d.contains(x));
                    assert(pre.contains(x));
                } else {
                    assert(x == s.last());
                }
            }
            if pre.contains(x) {
                let j = choose|j: int| 0 <= j < pre.len() && pre[j] == x;
                assert(s[j] == x);
            } else {
                assert(x == s.last());
                assert(s[s.len() - 1] == x);
            }
        }
        if !d.contains(s.last()) {
            assert(whole == d.push(s.last()));
            assert forall|i: int, j: int|
                0 <= i < whole.len() && 0 <= j < whole.len() && i != j implies whole[i]
                != whole[j] by {
                if i < d.len() && j < d.len() {
                    assert(d[i] == whole[i] && d[j] == whole[j]);
                } else if i < d.len() {
                    assert(whole[j] == s.last());
                    if d[i] == s.last() {
                        assert(d.contains(s.last()));
                    }
                } else if j < d.len() {
                    assert(whole[i] == s.last());
                    if d[j] == s.last() {
                        assert(d.contains(s.last()));
                    }
                }
            }
        }
    }
}

/// Whether a list of byte strings holds one equal to `x`.
pub fn contains_bytes(v: &Vec<Vec<u8>>, x: &Vec<u8>) -> (r: bool)
    ensures
        r == views_of(v@).contains(x@),
{
    let mut i: usize = 0;
    while i < v.len()
        invariant
            i <= v@.len(),
            forall|j: int| 0 <= j < i ==> views_of(v@)[j] != x@,
        decreases v@.len() - i,
    {
        if bytes_eq(&v[i], x) {
            proof {
                assert(views_of(v@)[i as int] == x@);
            }
            return true;
        }
        i = i + 1;
    }
    proof {
        if views_of(v@).contains(x@) {
            let j = choose|j: int| 0 <= j < views_of(v@).len() && views_of(v@)[j] == x@;
            assert(views_of(v@)[j] != x@);
        }
    }
    false
}

/// The parents of each path in a list, in order.
pub open spec fn parents_of(s: Seq<Seq<u8>>) -> Seq<Seq<u8>> {
    s.map_values(|p: Seq<u8>| parent_of(p))
}

/// The non-empty file names of each path in a list, in order.
pub open spec fn file_names_of(s: Seq<Seq<u8>>) -> Seq<Seq<u8>>
    decreases s.len(),
{
    if s.len() == 0 {
        Seq::empty()
    } else {
        let rest = file_names_of(s.drop_last());
        let n = file_name_of(s.last());
        if n.len() == 0 {
            rest
        } else {
            rest.push(n)
        }
    }
}

/// Collects the distinct parent directories of the given paths, keeping the
/// first occurrence of each.
pub fn extract_unique_paths(paths: &Vec<Vec<u8>>) -> (r: Vec<Vec<u8>>)
    ensures
        views_of(r@) == dedup_firsts(parents_of(views_of(paths@))),
{
    let mut r: Vec<Vec<u8>> = Vec::new();
    let mut i: usize = 0;
    while i < paths.len()
        invariant
            i <= paths@.len(),
            views_of(r@) == dedup_firsts(parents_of(views_of(paths@).subrange(0, i as int))),
        decreases paths@.len() - i,
    {
        let ghost prefix = parents_of(views_of(paths@).subrange(0, i as int));
        let ghost next = parents_of(views_of(paths@).subrange(0, i + 1));
        proof {
            assert(next =~= prefix.push(parent_of(views_of(paths@)[i as int])));
            assert(next.drop_last() =~= prefix);
            assert(views_of(paths@)[i as int] == paths@[i as int]@);
        }
        let parent = parent_of_path(&paths[i]);
        if !contains_bytes(&r, &parent) {
            r.push(parent);
            proof {
                assert(views_of(r@) =~= dedup_firsts(prefix).push(next.last()));
            }
        }
        i = i + 1;
    }
    proof {
        assert(views_of(paths@).subrange(0, paths@.len() as int) =~= views_of(paths@));
    }
    r
}

/// Collects the distinct file names of the given paths, keeping the first
/// occurrence of each; paths without a file-name component are passed over.
pub fn extract_unique_file_names(paths: &Vec<Vec<u8>>) -> (r: Vec<Vec<u8>>)
    ensures
        views_of(r@) == dedup_firsts(file_names_of(views_of(paths@))),
{
    let mut r: Vec<Vec<u8>> = Vec::new();
    let mut i: usize = 0;
    while i < paths.len()
        invariant
            i <= paths@.len(),
            views_of(r@) == dedup_firsts(file_names_of(views_of(paths@).subrange(0, i as int))),
        decreases paths@.len() - i,
    {
        let ghost prefix = views_of(paths@).subrange(0, i as int);
        let ghost next = views_of(paths@).subrange(0, i + 1);
        proof {
            assert(next.drop_last() =~= prefix);
            assert(next.last() == views_of(paths@)[i as int]);
            assert(views_of(paths@)[i as int] == paths@[i as int]@);
        }
        let name = file_name_of_path(&paths[i]);
        if name.len() > 0 {
            proof {
                assert(file_names_of(next) == file_names_of(prefix).push(name@));
                assert(file_names_of(next).drop_last() =~= file_names_of(prefix));
            }
            if !contains_bytes(&r, &name) {
                r.push(name);
                proof {
                    assert(views_of(r@) =~= dedup_firsts(file_names_of(prefix)).push(
                        file_names_of(next).last(),
                    ));
                }
            }
        }
        i = i + 1;
    }
    proof {
        assert(views_of(paths@).subrange(0, paths@.len() as int) =~= views_of(paths@));
    }
    r
}

} // verus!
