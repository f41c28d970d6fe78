//! Byte-string searching, splitting and replacing.

use vstd::prelude::*;

verus! {

/// `pat` occurs in `s` starting at index `i`.
pub open spec fn occurs_at(s: Seq<u8>, pat: Seq<u8>, i: int) -> bool {
    &&& 0 <= i
    &&& i + pat.len() <= s.len()
    &&& s.subrange(i, i + pat.len()) == pat
}

/// Whether `pat` occurs at index `i` of `s`.
pub fn matches_at(s: &Vec<u8>, pat: &Vec<u8>, i: usize) -> (r: bool)
    ensures
        r == occurs_at(s@, pat@, i as int),
{
    if i > s.len() || pat.len() > s.len() - i {
        return false;
    }
    let mut j: usize = 0;
    while j < pat.len()
        invariant
            i + pat.len() <= s.len(),
            j <= pat.len(),
            forall|k: int| 0 <= k < j ==> s@[i + k] == pat@[k],
        decreases pat.len() - j,
    {
        if s[i + j] != pat[j] {
            assert(s@.subrange(i as int, i + pat.len())[j as int] != pat@[j as int]);
            return false;
        }
        j = j + 1;
    }
    assert(s@.subrange(i as int, i + pat.len()) =~= pat@);
    true
}


/// The first index at or after `i` where `pat` occurs in `s`.
pub open spec fn find_from(s: Seq<u8>, pat: Seq<u8>, i: int) -> Option<int>
    decreases s.len() + 1 - i,
{
    if i < 0 || i + pat.len() > s.len() {
        None
    } else if occurs_at(s, pat, i) {
        Some(i)
    } else {
        find_from(s, pat, i + 1)
    }
}

/// The first index where `pat` occurs in `s`.
pub open spec fn find(s: Seq<u8>, pat: Seq<u8>) -> Option<int> {
    find_from(s, pat, 0)
}

/// What `find_from` returns is the earliest occurrence at or after `i`.
pub proof fn lemma_find_from(s: Seq<u8>, pat: Seq<u8>, i: int)
    requires
        0 <= i,
    ensures
        match find_from(s, pat, i) {
            Some(j) => i <= j && occurs_at(s, pat, j) && forall|k: int|
                i <= k < j ==> !occurs_at(s, pat, k),
            None => forall|k: int| i <= k ==> !occurs_at(s, pat, k),
        },
    decreases s.len() + 1 - i,
{
    if i + pat.len() > s.len() {
    } else if occurs_at(s, pat, i) {
    } else {
        lemma_find_from(s, pat, i + 1);
    }
}

/// The first index at or after `from` where `pat` occurs in `s`.
pub fn find_bytes(s: &Vec<u8>, pat: &Vec<u8>, from: usize) -> (r: Option<usize>)
    ensures
        match r {
            Some(j) => find_from(s@, pat@, from as int) == Some(j as int),
            None => find_from(s@, pat@, from as int) is None,
        },
{
    if pat.len() > s.len() {
        return None;
    }
    if pat.len() == 0 {
        if from <= s.len() {
            assert(s@.subrange(from as int, from as int) =~= pat@);
            return Some(from);
        } else {
            return None;
        }
    }
    let mut i = from;
    while i <= s.len() - pat.len()
        invariant
            from <= i,
            0 < pat.len() <= s.len(),
            find_from(s@, pat@, from as int) == find_from(s@, pat@, i as int),
        decreases s.len() - i,
    {
        if matches_at(s, pat, i) {
            return Some(i);
        }
        i = i + 1;
    }
    None
}

/// Whether `pat` occurs anywhere in `s`.
pub open spec fn contains_seq(s: Seq<u8>, pat: Seq<u8>) -> bool {
    find(s, pat) is Some
}

/// The first index of byte `b` in `s` at or after `i`.
pub open spec fn index_of_from(s: Seq<u8>, b: u8, i: int) -> Option<int>
    decreases s.len() - i,
{
    if i < 0 || i >= s.len() {
        None
    } else if s[i] == b {
        Some(i)
    } else {
        index_of_from(s, b, i + 1)
    }
}

/// The last index of byte `b` in `s` before `i`.
pub open spec fn last_index_of_before(s: Seq<u8>, b: u8, i: int) -> Option<int>
    decreases i,
{
    if i <= 0 || i > s.len() {
        None
    } else if s[i - 1] == b {
        Some(i - 1)
    } else {
        last_index_of_before(s, b, i - 1)
    }
}

/// The last index of byte `b` in `s`.
pub open spec fn last_index_of(s: Seq<u8>, b: u8) -> Option<int> {
    last_index_of_before(s, b, s.len() as int)
}

/// The first index of byte `b` in `s` at or after `from`.
pub fn index_of_byte(s: &Vec<u8>, b: u8, from: usize) -> (r: Option<usize>)
    ensures
        match r {
            Some(j) => index_of_from(s@, b, from as int) == Some(j as int),
            None => index_of_from(s@, b, from as int) is None,
        },
{
    let mut i = from;
    while i < s.len()
        invariant
            from <= i,
            index_of_from(s@, b, from as int) == index_of_from(s@, b, i as int),
        decreases s.len() - i,
    {
        if s[i] == b {
            return Some(i);
        }
        i = i + 1;
    }
    None
}

/// The last index of byte `b` in `s`.
pub fn last_index_of_byte(s: &Vec<u8>, b: u8) -> (r: Option<usize>)
    ensures
        match r {
            Some(j) => last_index_of(s@, b) == Some(j as int),
            None => last_index_of(s@, b) is None,
        },
{
    let mut i = s.len();
    while i > 0
        invariant
            i <= s.len(),
            last_index_of(s@, b) == last_index_of_before(s@, b, i as int),
        decreases i,
    {
        if s[i - 1] == b {
            return Some(i - 1);
        }
        i = i - 1;
    }
    None
}

/// The bytes of `s` from `start` up to `end`.
pub fn slice_bytes(s: &Vec<u8>, start: usize, end: usize) -> (r: Vec<u8>)
    requires
        start <= end <= s.len(),
    ensures
        r@ == s@.subrange(start as int, end as int),
{
    let mut r: Vec<u8> = Vec::new();
    let mut i = start;
    while i < end
        invariant
            start <= i <= end <= s.len(),
            r@ == s@.subrange(start as int, i as int),
        decreases end - i,
    {
        r.push(s[i]);
        i = i + 1;
        assert(r@ =~= s@.subrange(start as int, i as int));
    }
    r
}

/// `a` followed by `b`.
pub fn concat(a: &Vec<u8>, b: &Vec<u8>) -> (r: Vec<u8>)
    ensures
        r@ == a@ + b@,
{
    let mut r = a.clone();
    assert(r@ =~= a@);
    let mut i: usize = 0;
    while i < b.len()
        invariant
            i <= b.len(),
            r@ == a@ + b@.subrange(0, i as int),
        decreases b.len() - i,
    {
        r.push(b[i]);
        i = i + 1;
        assert(r@ =~= a@ + b@.subrange(0, i as int));
    }
    assert(b@.subrange(0, b.len() as int) =~= b@);
    r
}

/// Appends `b` to `r`.
pub fn append_bytes(r: &mut Vec<u8>, b: &Vec<u8>)
    ensures
        final(r)@ == old(r)@ + b@,
{
    let mut i: usize = 0;
    while i < b.len()
        invariant
            i <= b.len(),
            r@ == old(r)@ + b@.subrange(0, i as int),
        decreases b.len() - i,
    {
        r.push(b[i]);
        i = i + 1;
        assert(r@ =~= old(r)@ + b@.subrange(0, i as int));
    }
    assert(b@.subrange(0, b.len() as int) =~= b@);
}

/// Whether `a` and `b` hold the same bytes.
pub fn bytes_eq(a: &Vec<u8>, b: &Vec<u8>) -> (r: bool)
    ensures
        r == (a@ == b@),
{
    if a.len() != b.len() {
        return false;
    }
    let mut i: usize = 0;
    while i < a.len()
        invariant
            a.len() == b.len(),
            i <= a.len(),
            forall|k: int| 0 <= k < i ==> a@[k] == b@[k],
        decreases a.len() - i,
    {
        if a[i] != b[i] {
            return false;
        }
        i = i + 1;
    }
    assert(a@ =~= b@);
    true
}


/// `s` from index `i` on, with every occurrence of `pat` replaced by `rep`,
/// scanning left to right and resuming after each replaced occurrence.
/// An empty `pat` replaces nothing.
pub open spec fn replace_from(s: Seq<u8>, pat: Seq<u8>, rep: Seq<u8>, i: int) -> Seq<u8>
    decreases s.len() - i,
{
    if i < 0 || i >= s.len() {
        Seq::empty()
    } else if pat.len() > 0 && occurs_at(s, pat, i) {
        rep + replace_from(s, pat, rep, i + pat.len())
    } else {
        seq![s[i]] + replace_from(s, pat, rep, i + 1)
    }
}

/// `s` with every non-overlapping occurrence of `pat` replaced by `rep`.
pub open spec fn replace_all(s: Seq<u8>, pat: Seq<u8>, rep: Seq<u8>) -> Seq<u8> {
    replace_from(s, pat, rep, 0)
}

/// `s` with every non-overlapping occurrence of `pat` replaced by `rep`.
pub fn replace_all_bytes(s: &Vec<u8>, pat: &Vec<u8>, rep: &Vec<u8>) -> (r: Vec<u8>)
    ensures
        r@ == replace_all(s@, pat@, rep@),
{
    let mut out: Vec<u8> = Vec::new();
    let mut i: usize = 0;
    while i < s.len()
        invariant
            i <= s.len(),
            out@ + replace_from(s@, pat@, rep@, i as int) == replace_all(s@, pat@, rep@),
        decreases s.len() - i,
    {
        let ghost before = out@;
        if pat.len() > 0 && matches_at(s, pat, i) {
            append_bytes(&mut out, rep);
            assert(before + replace_from(s@, pat@, rep@, i as int) =~= out@ + replace_from(
                s@,
                pat@,
                rep@,
                i + pat.len(),
            ));
            i = i + pat.len();
        } else {
            out.push(s[i]);
            assert(before + replace_from(s@, pat@, rep@, i as int) =~= out@ + replace_from(
                s@,
                pat@,
                rep@,
                i + 1,
            ));
            i = i + 1;
        }
    }
    assert(out@ + replace_from(s@, pat@, rep@, i as int) =~= out@);
    out
}

proof fn lemma_replace_from_unchanged(s: Seq<u8>, pat: Seq<u8>, rep: Seq<u8>, i: int)
    requires
        0 <= i <= s.len(),
        rep == pat || forall|k: int| i <= k ==> !occurs_at(s, pat, k),
    ensures
        replace_from(s, pat, rep, i) == s.subrange(i, s.len() as int),
    decreases s.len() - i,
{
    if i == s.len() {
        assert(s.subrange(i, s.len() as int) =~= Seq::<u8>::empty());
    } else if pat.len() > 0 && occurs_at(s, pat, i) {
        lemma_replace_from_unchanged(s, pat, rep, i + pat.len());
        assert(s.subrange(i, s.len() as int) =~= s.subrange(i, i + pat.len()) + s.subrange(
            i + pat.len(),
            s.len() as int,
        ));
    } else {
        lemma_replace_from_unchanged(s, pat, rep, i + 1);
        assert(s.subrange(i, s.len() as int) =~= seq![s[i]] + s.subrange(i + 1, s.len() as int));
    }
}

/// Replacing a pattern by itself leaves the text unchanged.
pub proof fn law_replace_by_itself(s: Seq<u8>, pat: Seq<u8>)
    ensures
        replace_all(s, pat, pat) == s,
{
    lemma_replace_from_unchanged(s, pat, pat, 0);
    assert(s.subrange(0, s.len() as int) =~= s);
}

/// Replacing a pattern that does not occur leaves the text unchanged.
pub proof fn law_replace_absent(s: Seq<u8>, pat: Seq<u8>, rep: Seq<u8>)
    requires
        !contains_seq(s, pat),
    ensures
        replace_all(s, pat, rep) == s,
{
    lemma_find_from(s, pat, 0);
    lemma_replace_from_unchanged(s, pat, rep, 0);
    assert(s.subrange(0, s.len() as int) =~= s);
}


/// What `index_of_from` returns is an index at or after `i` holding `b`.
pub proof fn lemma_index_of_from(s: Seq<u8>, b: u8, i: int)
    requires
        0 <= i,
    ensures
        match index_of_from(s, b, i) {
            Some(j) => i <= j < s.len() && s[j] == b && forall|k: int| i <= k < j ==> s[k] != b,
            None => forall|k: int| i <= k < s.len() ==> s[k] != b,
        },
    decreases s.len() - i,
{
    if 0 <= i < s.len() && s[i] != b {
        lemma_index_of_from(s, b, i + 1);
    }
}

/// What `last_index_of_before` returns is an index before `i` holding `b`.
pub proof fn lemma_last_index_of_before(s: Seq<u8>, b: u8, i: int)
    requires
        0 <= i <= s.len(),
    ensures
        match last_index_of_before(s, b, i) {
            Some(j) => 0 <= j < i && s[j] == b && forall|k: int| j < k < i ==> s[k] != b,
            None => forall|k: int| 0 <= k < i ==> s[k] != b,
        },
    decreases i,
{
    if i > 0 && s[i - 1] != b {
        lemma_last_index_of_before(s, b, i - 1);
    }
}

} // verus!
