use vstd::prelude::*;

verus! {

/// Index of the first occurrence of `c` in `s`, or `s.len()` when there is none.
pub open spec fn first_index(s: Seq<char>, c: char) -> nat
    decreases s.len(),
{
    if s.len() == 0 {
        0
    } else if s[0] == c {
        0
    } else {
        1 + first_index(s.drop_first(), c)
    }
}

/// The text before the first `c` and the text after it; the whole text and
/// nothing when `c` does not occur.
pub open spec fn split_once(s: Seq<char>, c: char) -> (Seq<char>, Seq<char>) {
    let i = first_index(s, c);
    if i < s.len() {
        (s.take(i as int), s.skip((i + 1) as int))
    } else {
        (s, Seq::empty())
    }
}

/// The pieces of `s` between the occurrences of `c` (always at least one).
pub open spec fn split(s: Seq<char>, c: char) -> Seq<Seq<char>>
    decreases s.len(),
{
    let i = first_index(s, c);
    if i < s.len() {
        seq![s.take(i as int)] + split(s.skip((i + 1) as int), c)
    } else {
        seq![s]
    }
}

pub open spec fn slice_of(s: Seq<char>, lo: int, hi: int) -> Seq<char> {
    s.subrange(lo, hi)
}

pub proof fn lemma_first_index_bound(s: Seq<char>, c: char)
    ensures
        first_index(s, c) <= s.len(),
        first_index(s, c) < s.len() ==> s[first_index(s, c) as int] == c,
        forall|k: int| 0 <= k < first_index(s, c) ==> s[k] != c,
    decreases s.len(),
{
    if s.len() > 0 && s[0] != c {
        lemma_first_index_bound(s.drop_first(), c);
        assert forall|k: int| 0 <= k < first_index(s, c) implies s[k] != c by {
            if k > 0 {
                assert(s[k] == s.drop_first()[k - 1]);
            }
        }
    }
}

pub proof fn lemma_first_index(s: Seq<char>, c: char, j: int)
    requires
        0 <= j <= s.len(),
        forall|k: int| 0 <= k < j ==> s[k] != c,
        j == s.len() || s[j] == c,
    ensures
        first_index(s, c) == j,
    decreases j,
{
    if j > 0 {
        lemma_first_index(s.drop_first(), c, j - 1);
    }
}

/// Whether `a` and `b` hold the same characters.
pub fn same_text(a: &str, b: &str) -> (r: bool)
    ensures
        r == (a@ == b@),
{
    let n = a.unicode_len();
    if n != b.unicode_len() {
        return false;
    }
    let mut i: usize = 0;
    while i < n
        invariant
            n == a@.len(),
            n == b@.len(),
            i <= n,
            forall|k: int| 0 <= k < i ==> a@[k] == b@[k],
        decreases n - i,
    {
        if a.get_char(i) != b.get_char(i) {
            return false;
        }
        i += 1;
    }
    assert(a@ =~= b@);
    true
}

/// Relies on `String::push`: the character is appended at the end.
#[verifier::external_body]
pub(crate) fn push_char(s: &mut String, c: char)
    ensures
        final(s)@ == old(s)@.push(c),
{
    s.push(c);
}

/// The characters of `s`, in order.
pub fn chars_of(s: &str) -> (r: Vec<char>)
    ensures
        r@ == s@,
{
    let n = s.unicode_len();
    let mut out: Vec<char> = Vec::new();
    let mut i: usize = 0;
    while i < n
        invariant
            n == s@.len(),
            i <= n,
            out@ == s@.take(i as int),
        decreases n - i,
    {
        out.push(s.get_char(i));
        i += 1;
        assert(out@ =~= s@.take(i as int));
    }
    assert(out@ =~= s@);
    out
}

/// The characters of `s` from `lo` up to `hi` as a string.
pub fn string_of(s: &Vec<char>, lo: usize, hi: usize) -> (r: String)
    requires
        lo <= hi <= s.len(),
    ensures
        r@ == slice_of(s@, lo as int, hi as int),
{
    let mut out = String::new();
    let mut i: usize = lo;
    while i < hi
        invariant
            lo <= i <= hi <= s.len(),
            out@ == slice_of(s@, lo as int, i as int),
        decreases hi - i,
    {
        push_char(&mut out, s[i]);
        i += 1;
        assert(out@ =~= slice_of(s@, lo as int, i as int));
    }
    out
}

/// Whether the characters of `s` from `lo` up to `hi` spell `w`.
pub fn range_is(s: &Vec<char>, lo: usize, hi: usize, w: &str) -> (r: bool)
    requires
        lo <= hi <= s.len(),
    ensures
        r == (slice_of(s@, lo as int, hi as int) == w@),
{
    let n = w.unicode_len();
    if hi - lo != n {
        assert(slice_of(s@, lo as int, hi as int).len() != w@.len());
        return false;
    }
    let mut i: usize = 0;
    while i < n
        invariant
            n == w@.len(),
            hi - lo == n,
            lo <= hi <= s.len(),
            i <= n,
            forall|k: int| 0 <= k < i ==> s@[lo + k] == w@[k],
        decreases n - i,
    {
        if s[lo + i] != w.get_char(i) {
            assert(slice_of(s@, lo as int, hi as int)[i as int] != w@[i as int]);
            return false;
        }
        i += 1;
    }
    assert(slice_of(s@, lo as int, hi as int) =~= w@);
    true
}

/// The first index at or after `lo`, and before `hi`, that holds `c`; `hi` when there is none.
pub fn find_char(s: &Vec<char>, lo: usize, hi: usize, c: char) -> (r: usize)
    requires
        lo <= hi <= s.len(),
    ensures
        lo <= r <= hi,
        r - lo == first_index(slice_of(s@, lo as int, hi as int), c),
{
    let mut j: usize = lo;
    while j < hi && s[j] != c
        invariant
            lo <= j <= hi <= s.len(),
            forall|k: int| lo <= k < j ==> s@[k] != c,
        decreases hi - j,
    {
        j += 1;
    }
    proof {
        lemma_first_index(slice_of(s@, lo as int, hi as int), c, j - lo);
    }
    j
}

/// The pieces of the characters from `lo` up to `hi` between the occurrences
/// of `c`, each given by its start and end.
pub fn split_ranges(s: &Vec<char>, lo: usize, hi: usize, c: char) -> (r: Vec<(usize, usize)>)
    requires
        lo <= hi <= s.len(),
    ensures
        r@.len() == split(slice_of(s@, lo as int, hi as int), c).len(),
        forall|i: int|
            0 <= i < r@.len() ==> lo <= #[trigger] r@[i].0 <= r@[i].1 <= hi && slice_of(
                s@,
                r@[i].0 as int,
                r@[i].1 as int,
            ) == split(slice_of(s@, lo as int, hi as int), c)[i],
{
    let mut out: Vec<(usize, usize)> = Vec::new();
    let mut start: usize = lo;
    let ghost mut done: Seq<Seq<char>> = Seq::empty();
    loop
        invariant
            lo <= start <= hi <= s.len(),
            out@.len() == done.len(),
            forall|i: int|
                0 <= i < out@.len() ==> lo <= #[trigger] out@[i].0 <= out@[i].1 <= hi && slice_of(
                    s@,
                    out@[i].0 as int,
                    out@[i].1 as int,
                ) == done[i],
            done + split(slice_of(s@, start as int, hi as int), c) == split(
                slice_of(s@, lo as int, hi as int),
                c,
            ),
        decreases hi - start,
    {
        let j = find_char(s, start, hi, c);
        let ghost rest = slice_of(s@, start as int, hi as int);
        if j < hi {
            proof {
                assert(rest.take(j - start) =~= slice_of(s@, start as int, j as int));
                assert(rest.skip(j - start + 1) =~= slice_of(s@, j + 1, hi as int));
                assert(split(rest, c) == seq![slice_of(s@, start as int, j as int)] + split(
                    slice_of(s@, j + 1, hi as int),
                    c,
                ));
                assert(done.push(slice_of(s@, start as int, j as int)) + split(
                    slice_of(s@, j + 1, hi as int),
                    c,
                ) =~= done + split(rest, c));
                done = done.push(slice_of(s@, start as int, j as int));
            }
            out.push((start, j));
            start = j + 1;
        } else {
            proof {
                assert(split(rest, c) == seq![rest]);
                assert(done.push(rest) =~= done + split(rest, c));
                done = done.push(rest);
            }
            out.push((start, hi));
            return out;
        }
    }
}

} // verus!
