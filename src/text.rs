use vstd::prelude::*;

verus! {

/// Relies on `String::push`: appends one character at the end.
pub assume_specification[ String::push ](s: &mut String, ch: char)
    ensures
        final(s)@ == old(s)@.push(ch),
;

/// The characters of `s`, in order.
pub fn chars_of(s: &str) -> (r: Vec<char>)
    ensures
        r@ == s@,
{
    let mut out: Vec<char> = Vec::new();
    for c in it: s.chars()
        invariant
            it.seq() == s@,
            out@ == s@.take(it.index() as int),
    {
        out.push(c);
    }
    assert(out@ =~= s@);
    out
}

/// A string holding the characters `v[lo..hi]`.
pub fn string_of(v: &Vec<char>, lo: usize, hi: usize) -> (r: String)
    requires
        lo <= hi <= v@.len(),
    ensures
        r@ == v@.subrange(lo as int, hi as int),
{
    let mut r = String::new();
    let mut i = lo;
    while i < hi
        invariant
            lo <= i <= hi <= v@.len(),
            r@ == v@.subrange(lo as int, i as int),
        decreases hi - i,
    {
        r.push(v[i]);
        i += 1;
        assert(r@ =~= v@.subrange(lo as int, i as int));
    }
    r
}

/// Whether `v[lo..hi]` spells `lit`.
pub fn slice_is(v: &Vec<char>, lo: usize, hi: usize, lit: &str) -> (r: bool)
    requires
        lo <= hi <= v@.len(),
    ensures
        r == (v@.subrange(lo as int, hi as int) == lit@),
{
    let n = lit.unicode_len();
    if hi - lo != n {
        return false;
    }
    let mut k: usize = 0;
    while k < n
        invariant
            k <= n == hi - lo,
            lo <= hi <= v@.len(),
            n == lit@.len(),
            forall|j: int| 0 <= j < k ==> v@[lo + j] == lit@[j],
        decreases n - k,
    {
        if v[lo + k] != lit.get_char(k) {
            assert(v@.subrange(lo as int, hi as int)[k as int] != lit@[k as int]);
            return false;
        }
        k += 1;
    }
    assert(v@.subrange(lo as int, hi as int) =~= lit@);
    true
}

/// The first index at or after `i` where `sep` occurs in `s`, or -1.
pub open spec fn find_from(s: Seq<char>, sep: Seq<char>, i: int) -> int
    decreases s.len() + 1 - i,
{
    if i < 0 || i + sep.len() > s.len() {
        -1
    } else if s.subrange(i, i + sep.len()) == sep {
        i
    } else {
        find_from(s, sep, i + 1)
    }
}

/// The pieces of `s[start..]` between occurrences of `sep`, leftmost first.
pub open spec fn split_from(s: Seq<char>, sep: Seq<char>, start: int) -> Seq<Seq<char>>
    recommends
        sep.len() > 0,
    decreases s.len() - start
        via split_from_decreases
{
    let k = find_from(s, sep, start);
    if start < 0 || start > s.len() || sep.len() == 0 || k < 0 {
        seq![s.subrange(start, s.len() as int)]
    } else {
        seq![s.subrange(start, k)] + split_from(s, sep, k + sep.len())
    }
}

/// `s` cut at every occurrence of `sep`, as `str::split` does.
pub open spec fn split(s: Seq<char>, sep: Seq<char>) -> Seq<Seq<char>> {
    split_from(s, sep, 0)
}

#[via_fn]
proof fn split_from_decreases(s: Seq<char>, sep: Seq<char>, start: int) {
    if sep.len() > 0 {
        lemma_find_bounds(s, sep, start);
    }
}

proof fn lemma_find_bounds(s: Seq<char>, sep: Seq<char>, i: int)
    requires
        sep.len() > 0,
    ensures
        find_from(s, sep, i) == -1 || (i <= find_from(s, sep, i) && find_from(s, sep, i)
            + sep.len() <= s.len()),
    decreases s.len() - i,
{
    if !(i < 0 || i + sep.len() > s.len()) && s.subrange(i, i + sep.len()) != sep {
        lemma_find_bounds(s, sep, i + 1);
    }
}

/// Cuts `v` at every occurrence of the non-empty `sep`.
pub fn split_chars(v: &Vec<char>, sep: &Vec<char>) -> (r: Vec<Vec<char>>)
    requires
        sep@.len() > 0,
    ensures
        r@.map_values(|p: Vec<char>| p@) == split(v@, sep@),
{
    let n = v.len();
    let m = sep.len();
    let mut out: Vec<Vec<char>> = Vec::new();
    let mut start: usize = 0;
    let mut i: usize = 0;
    while i < n
        invariant
            n == v@.len(),
            m == sep@.len() > 0,
            start <= i <= n,
            find_from(v@, sep@, start as int) == find_from(v@, sep@, i as int),
            out@.map_values(|p: Vec<char>| p@) + split_from(v@, sep@, start as int) == split(
                v@,
                sep@,
            ),
        decreases n - i, n - start,
    {
        let hit = occurs_at(v, sep, i);
        if hit {
            let piece = v_slice(v, start, i);
            proof {
                lemma_find_bounds(v@, sep@, i as int);
                assert(split_from(v@, sep@, start as int) == seq![v@.subrange(start as int, i as int)]
                    + split_from(v@, sep@, i + m));
                assert(out@.push(piece).map_values(|p: Vec<char>| p@) =~= out@.map_values(
                    |p: Vec<char>| p@,
                ).push(piece@));
                assert(out@.map_values(|p: Vec<char>| p@).push(piece@) + split_from(
                    v@,
                    sep@,
                    i + m,
                ) =~= out@.map_values(|p: Vec<char>| p@) + split_from(v@, sep@, start as int));
            }
            out.push(piece);
            start = i + m;
            i = i + m;
        } else {
            i += 1;
        }
    }
    let last = v_slice(v, start, n);
    proof {
        assert(find_from(v@, sep@, n as int) == -1);
        assert(out@.push(last).map_values(|p: Vec<char>| p@) =~= out@.map_values(
            |p: Vec<char>| p@,
        ).push(last@));
        assert(out@.map_values(|p: Vec<char>| p@).push(last@) =~= out@.map_values(
            |p: Vec<char>| p@,
        ) + split_from(v@, sep@, start as int));
    }
    out.push(last);
    out
}

/// Whether `sep` occurs in `v` at index `i`.
pub fn occurs_at(v: &Vec<char>, sep: &Vec<char>, i: usize) -> (r: bool)
    requires
        i <= v@.len(),
    ensures
        r == (i + sep@.len() <= v@.len() && v@.subrange(i as int, i + sep@.len()) == sep@),
{
    let m = sep.len();
    let n = v.len();
    if m > n - i {
        return false;
    }
    let mut k: usize = 0;
    while k < m
        invariant
            k <= m == sep@.len(),
            n == v@.len(),
            i + m <= n,
            forall|j: int| 0 <= j < k ==> v@[i + j] == sep@[j],
        decreases m - k,
    {
        if v[i + k] != sep[k] {
            assert(v@.subrange(i as int, i + m)[k as int] != sep@[k as int]);
            return false;
        }
        k += 1;
    }
    assert(v@.subrange(i as int, i + m) =~= sep@);
    true
}

/// A copy of `v[lo..hi]`.
pub fn v_slice(v: &Vec<char>, lo: usize, hi: usize) -> (r: Vec<char>)
    requires
        lo <= hi <= v@.len(),
    ensures
        r@ == v@.subrange(lo as int, hi as int),
{
    let mut r: Vec<char> = Vec::new();
    let mut i = lo;
    while i < hi
        invariant
            lo <= i <= hi <= v@.len(),
            r@ == v@.subrange(lo as int, i as int),
        decreases hi - i,
    {
        r.push(v[i]);
        i += 1;
        assert(r@ =~= v@.subrange(lo as int, i as int));
    }
    r
}

/// `s` with later repeats of an element dropped; first occurrences keep their order.
pub open spec fn dedup(s: Seq<Seq<char>>) -> Seq<Seq<char>>
    decreases s.len(),
{
    if s.len() == 0 {
        s
    } else {
        let d = dedup(s.drop_last());
        if d.contains(s.last()) {
            d
        } else {
            d.push(s.last())
        }
    }
}

/// Whether `v` holds a string equal to `s`.
pub fn contains_string(v: &Vec<String>, s: &String) -> (r: bool)
    ensures
        r == v.deep_view().contains(s@),
{
    let mut i: usize = 0;
    while i < v.len()
        invariant
            i <= v@.len(),
            forall|j: int| 0 <= j < i ==> v@[j]@ != s@,
        decreases v@.len() - i,
    {
        if v[i] == *s {
            assert(v.deep_view()[i as int] == s@);
            return true;
        }
        i += 1;
    }
    proof {
        if v.deep_view().contains(s@) {
            let j = choose|j: int| 0 <= j < v.deep_view().len() && v.deep_view()[j] == s@;
            assert(v@[j]@ == s@);
        }
    }
    false
}

} // verus!
