//! Byte-level scanning primitives.
//!
//! The spec functions describe the position of delimiters inside a byte
//! sequence; the exec functions locate them in a slice and prove that the
//! position they return is the one the spec functions denote.

use vstd::prelude::*;

verus! {

/// Position of the first occurrence of `b` in `s`, if any.
pub open spec fn find_first(s: Seq<u8>, b: u8) -> Option<int>
    decreases s.len(),
{
    if s.len() == 0 {
        None
    } else if s[0] == b {
        Some(0int)
    } else {
        match find_first(s.drop_first(), b) {
            Some(i) => Some(i + 1),
            None => None,
        }
    }
}

pub proof fn lemma_find_first(s: Seq<u8>, b: u8)
    ensures
        match find_first(s, b) {
            Some(i) => 0 <= i < s.len() && s[i] == b && (forall|j: int| 0 <= j < i ==> s[j] != b),
            None => forall|j: int| 0 <= j < s.len() ==> s[j] != b,
        },
    decreases s.len(),
{
    if s.len() > 0 && s[0] != b {
        lemma_find_first(s.drop_first(), b);
        match find_first(s.drop_first(), b) {
            Some(i) => {
                assert(s.drop_first()[i] == s[i + 1]);
                assert forall|j: int| 0 <= j < i + 1 implies s[j] != b by {
                    if j >= 1 {
                        assert(s.drop_first()[j - 1] != b);
                    }
                }
            }
            None => {
                assert forall|j: int| 0 <= j < s.len() implies s[j] != b by {
                    if j >= 1 {
                        assert(s.drop_first()[j - 1] != b);
                    }
                }
            }
        }
    }
}

/// `find_first` returns exactly the index that carries `b` with no earlier one.
pub proof fn lemma_find_first_is(s: Seq<u8>, b: u8, i: int)
    requires
        0 <= i < s.len(),
        s[i] == b,
        forall|j: int| 0 <= j < i ==> s[j] != b,
    ensures
        find_first(s, b) == Some(i),
{
    lemma_find_first(s, b);
    match find_first(s, b) {
        Some(k) => {
            if k < i {
                assert(s[k] != b);
            } else if k > i {
                assert(s[i] != b);
            }
        }
        None => {
            assert(s[i] != b);
        }
    }
}

pub proof fn lemma_find_first_none(s: Seq<u8>, b: u8)
    requires
        forall|j: int| 0 <= j < s.len() ==> s[j] != b,
    ensures
        find_first(s, b) is None,
{
    lemma_find_first(s, b);
    match find_first(s, b) {
        Some(k) => {
            assert(s[k] != b);
        }
        None => {}
    }
}

/// Position of the last occurrence of `b` in `s`, if any.
pub open spec fn find_last(s: Seq<u8>, b: u8) -> Option<int>
    decreases s.len(),
{
    if s.len() == 0 {
        None
    } else if s[s.len() - 1] == b {
        Some(s.len() - 1)
    } else {
        find_last(s.drop_last(), b)
    }
}

pub proof fn lemma_find_last(s: Seq<u8>, b: u8)
    ensures
        match find_last(s, b) {
            Some(i) => 0 <= i < s.len() && s[i] == b && (forall|j: int| i < j < s.len() ==> s[j] != b),
            None => forall|j: int| 0 <= j < s.len() ==> s[j] != b,
        },
    decreases s.len(),
{
    if s.len() > 0 && s[s.len() - 1] != b {
        lemma_find_last(s.drop_last(), b);
        let t = s.drop_last();
        match find_last(t, b) {
            Some(i) => {
                assert(t[i] == s[i]);
                assert forall|j: int| i < j < s.len() implies s[j] != b by {
                    if j < s.len() - 1 {
                        assert(t[j] != b);
                    }
                }
            }
            None => {
                assert forall|j: int| 0 <= j < s.len() implies s[j] != b by {
                    if j < s.len() - 1 {
                        assert(t[j] != b);
                    }
                }
            }
        }
    }
}

pub proof fn lemma_find_last_is(s: Seq<u8>, b: u8, i: int)
    requires
        0 <= i < s.len(),
        s[i] == b,
        forall|j: int| i < j < s.len() ==> s[j] != b,
    ensures
        find_last(s, b) == Some(i),
{
    lemma_find_last(s, b);
    match find_last(s, b) {
        Some(k) => {
            if k < i {
                assert(s[i] != b);
            } else if k > i {
                assert(s[k] != b);
            }
        }
        None => {
            assert(s[i] != b);
        }
    }
}

pub proof fn lemma_find_last_none(s: Seq<u8>, b: u8)
    requires
        forall|j: int| 0 <= j < s.len() ==> s[j] != b,
    ensures
        find_last(s, b) is None,
{
    lemma_find_last(s, b);
    match find_last(s, b) {
        Some(k) => {
            assert(s[k] != b);
        }
        None => {}
    }
}

/// A colon immediately followed by a space, starting at index `i`.
pub open spec fn colon_space_at(s: Seq<u8>, i: int) -> bool {
    &&& 0 <= i
    &&& i + 2 <= s.len()
    &&& s[i] == 58u8
    &&& s[i + 1] == 32u8
}

/// Position of the last `": "` pair in `s`, if any.
pub open spec fn find_last_colon_space(s: Seq<u8>) -> Option<int>
    decreases s.len(),
{
    if s.len() < 2 {
        None
    } else if s[s.len() - 2] == 58u8 && s[s.len() - 1] == 32u8 {
        Some(s.len() - 2)
    } else {
        find_last_colon_space(s.drop_last())
    }
}

pub proof fn lemma_find_last_colon_space(s: Seq<u8>)
    ensures
        match find_last_colon_space(s) {
            Some(i) => colon_space_at(s, i) && (forall|j: int| i < j ==> !colon_space_at(s, j)),
            None => forall|j: int| !colon_space_at(s, j),
        },
    decreases s.len(),
{
    if s.len() < 2 {
    } else if s[s.len() - 2] == 58u8 && s[s.len() - 1] == 32u8 {
        assert forall|j: int| s.len() - 2 < j implies !colon_space_at(s, j) by {}
    } else {
        lemma_find_last_colon_space(s.drop_last());
        let t = s.drop_last();
        assert forall|j: int| 0 <= j && j + 2 <= t.len() implies (colon_space_at(t, j)
            <==> colon_space_at(s, j)) by {
            assert(t[j] == s[j]);
            assert(t[j + 1] == s[j + 1]);
        }
        match find_last_colon_space(t) {
            Some(i) => {
                assert(colon_space_at(s, i));
                assert forall|j: int| i < j implies !colon_space_at(s, j) by {
                    if colon_space_at(s, j) {
                        if j + 2 <= t.len() {
                            assert(colon_space_at(t, j));
                        } else {
                            assert(j == s.len() - 2);
                        }
                    }
                }
            }
            None => {
                assert forall|j: int| !colon_space_at(s, j) by {
                    if colon_space_at(s, j) {
                        if j + 2 <= t.len() {
                            assert(colon_space_at(t, j));
                        } else {
                            assert(j == s.len() - 2);
                        }
                    }
                }
            }
        }
    }
}

pub proof fn lemma_find_last_colon_space_is(s: Seq<u8>, i: int)
    requires
        colon_space_at(s, i),
        forall|j: int| i < j ==> !colon_space_at(s, j),
    ensures
        find_last_colon_space(s) == Some(i),
{
    lemma_find_last_colon_space(s);
    match find_last_colon_space(s) {
        Some(k) => {
            if k < i {
                assert(!colon_space_at(s, i));
            } else if k > i {
                assert(!colon_space_at(s, k));
            }
        }
        None => {
            assert(!colon_space_at(s, i));
        }
    }
}

pub proof fn lemma_find_last_colon_space_none(s: Seq<u8>)
    requires
        forall|j: int| !colon_space_at(s, j),
    ensures
        find_last_colon_space(s) is None,
{
    lemma_find_last_colon_space(s);
    match find_last_colon_space(s) {
        Some(k) => {
            assert(!colon_space_at(s, k));
        }
        None => {}
    }
}

/// First index at or after `i` that does not carry a space, or the end of `s`.
pub open spec fn skip_spaces(s: Seq<u8>, i: int) -> int
    decreases s.len() - i,
{
    if i < s.len() && 0 <= i && s[i] == 32u8 {
        skip_spaces(s, i + 1)
    } else {
        i
    }
}

pub proof fn lemma_skip_spaces_is(s: Seq<u8>, i: int, q: int)
    requires
        0 <= i <= q <= s.len(),
        forall|j: int| i <= j < q ==> s[j] == 32u8,
        q == s.len() || s[q] != 32u8,
    ensures
        skip_spaces(s, i) == q,
    decreases q - i,
{
    if i < q {
        assert(s[i] == 32u8);
        lemma_skip_spaces_is(s, i + 1, q);
    }
}

/// A `"\r\n\r\n"` separator starting at index `i`.
pub open spec fn separator_at(s: Seq<u8>, i: int) -> bool {
    &&& 0 <= i
    &&& i + 4 <= s.len()
    &&& s[i] == 13u8
    &&& s[i + 1] == 10u8
    &&& s[i + 2] == 13u8
    &&& s[i + 3] == 10u8
}

/// Position of the first `"\r\n\r\n"` in `s`, if any.
pub open spec fn find_separator(s: Seq<u8>) -> Option<int>
    decreases s.len(),
{
    if s.len() < 4 {
        None
    } else if separator_at(s, 0) {
        Some(0int)
    } else {
        match find_separator(s.drop_first()) {
            Some(i) => Some(i + 1),
            None => None,
        }
    }
}

pub proof fn lemma_find_separator(s: Seq<u8>)
    ensures
        match find_separator(s) {
            Some(i) => separator_at(s, i) && (forall|j: int| 0 <= j < i ==> !separator_at(s, j)),
            None => forall|j: int| !separator_at(s, j),
        },
    decreases s.len(),
{
    if s.len() < 4 {
    } else if separator_at(s, 0) {
    } else {
        lemma_find_separator(s.drop_first());
        let t = s.drop_first();
        assert forall|j: int| 0 <= j && j + 4 <= t.len() implies (separator_at(t, j)
            <==> separator_at(s, j + 1)) by {
            assert(t[j] == s[j + 1]);
            assert(t[j + 1] == s[j + 2]);
            assert(t[j + 2] == s[j + 3]);
            assert(t[j + 3] == s[j + 4]);
        }
        match find_separator(t) {
            Some(i) => {
                assert(separator_at(s, i + 1));
                assert forall|j: int| 0 <= j < i + 1 implies !separator_at(s, j) by {
                    if j >= 1 && separator_at(s, j) {
                        assert(separator_at(t, j - 1));
                    }
                }
            }
            None => {
                assert forall|j: int| !separator_at(s, j) by {
                    if j >= 1 && separator_at(s, j) {
                        assert(separator_at(t, j - 1));
                    }
                }
            }
        }
    }
}

pub proof fn lemma_find_separator_is(s: Seq<u8>, i: int)
    requires
        separator_at(s, i),
        forall|j: int| 0 <= j < i ==> !separator_at(s, j),
    ensures
        find_separator(s) == Some(i),
{
    lemma_find_separator(s);
    match find_separator(s) {
        Some(k) => {
            if k < i {
                assert(!separator_at(s, k));
            } else if k > i {
                assert(!separator_at(s, i));
            }
        }
        None => {
            assert(!separator_at(s, i));
        }
    }
}

pub proof fn lemma_find_separator_none(s: Seq<u8>)
    requires
        forall|j: int| !separator_at(s, j),
    ensures
        find_separator(s) is None,
{
    lemma_find_separator(s);
    match find_separator(s) {
        Some(k) => {
            assert(!separator_at(s, k));
        }
        None => {}
    }
}

/// Locates the first occurrence of `b` at or after `from`.
pub fn seek_byte(buf: &[u8], from: usize, b: u8) -> (r: Option<usize>)
    requires
        from <= buf@.len(),
    ensures
        match r {
            Some(i) => from <= i < buf@.len() && buf@[i as int] == b && find_first(
                buf@.skip(from as int),
                b,
            ) == Some(i - from),
            None => find_first(buf@.skip(from as int), b) is None,
        },
{
    let mut i = from;
    while i < buf.len()
        invariant
            from <= i <= buf@.len(),
            forall|j: int| from <= j < i ==> buf@[j] != b,
        decreases buf@.len() - i,
    {
        if buf[i] == b {
            proof {
                let s = buf@.skip(from as int);
                assert(s[i - from] == b);
                assert forall|j: int| 0 <= j < i - from implies s[j] != b by {
                    assert(buf@[from + j] != b);
                }
                lemma_find_first_is(s, b, i - from);
            }
            return Some(i);
        }
        i = i + 1;
    }
    proof {
        let s = buf@.skip(from as int);
        assert forall|j: int| 0 <= j < s.len() implies s[j] != b by {
            assert(buf@[from + j] != b);
        }
        lemma_find_first_none(s, b);
    }
    None
}

/// Locates the last `": "` pair inside `buf[start..end]`.
pub fn seek_last_colon_space(buf: &[u8], start: usize, end: usize) -> (r: Option<usize>)
    requires
        start <= end <= buf@.len(),
    ensures
        ({
            let line = buf@.subrange(start as int, end as int);
            match r {
                Some(c) => start <= c && c + 2 <= end && buf@[c as int] == 58u8 && buf@[c as int
                    + 1] == 32u8 && find_last_colon_space(line) == Some(c - start),
                None => find_last_colon_space(line) is None,
            }
        }),
{
    let ghost line = buf@.subrange(start as int, end as int);
    if end - start < 2 {
        proof {
            lemma_find_last_colon_space_none(line);
        }
        return None;
    }
    let mut c = end - 1;
    while c > start
        invariant
            start <= c <= end - 1,
            end <= buf@.len(),
            forall|d: int|
                c <= d && d + 2 <= end ==> !(#[trigger] buf@[d] == 58u8 && buf@[d + 1] == 32u8),
        decreases c,
    {
        c = c - 1;
        if buf[c] == 58u8 && buf[c + 1] == 32u8 {
            proof {
                let cur = buf@.subrange(start as int, end as int);
                assert(cur[c - start] == buf@[c as int]);
                assert(cur[c - start + 1] == buf@[c as int + 1]);
                assert forall|j: int| c - start < j implies !colon_space_at(cur, j) by {
                    if colon_space_at(cur, j) {
                        assert(cur[j] == buf@[start + j]);
                        assert(cur[j + 1] == buf@[start + j + 1]);
                    }
                }
                lemma_find_last_colon_space_is(cur, c - start);
            }
            return Some(c);
        }
    }
    proof {
        assert forall|j: int| !colon_space_at(line, j) by {
            if colon_space_at(line, j) {
                assert(line[j] == buf@[start + j]);
                assert(line[j + 1] == buf@[start + j + 1]);
            }
        }
        lemma_find_last_colon_space_none(line);
    }
    None
}

/// Advances past the spaces of `buf[from..end]`.
pub fn seek_past_spaces(buf: &[u8], start: usize, end: usize, from: usize) -> (r: usize)
    requires
        start <= from <= end <= buf@.len(),
    ensures
        from <= r <= end,
        r - start == skip_spaces(buf@.subrange(start as int, end as int), from - start),
{
    let ghost line = buf@.subrange(start as int, end as int);
    let mut p = from;
    while p < end && buf[p] == 32u8
        invariant
            from <= p <= end,
            end <= buf@.len(),
            forall|j: int| from <= j < p ==> buf@[j] == 32u8,
        decreases end - p,
    {
        p = p + 1;
    }
    proof {
        assert forall|j: int| from - start <= j < p - start implies line[j] == 32u8 by {
            assert(buf@[start + j] == 32u8);
        }
        if p < end {
            assert(line[p - start] == buf@[p as int]);
        }
        lemma_skip_spaces_is(line, from - start, p - start);
    }
    p
}

/// Locates the last occurrence of `b` strictly before `end`.
pub fn seek_last_byte_before(buf: &[u8], end: usize, b: u8) -> (r: Option<usize>)
    requires
        end <= buf@.len(),
    ensures
        match r {
            Some(i) => i < end && buf@[i as int] == b && find_last(buf@.take(end as int), b)
                == Some(i as int),
            None => find_last(buf@.take(end as int), b) is None,
        },
{
    let mut i = end;
    while i > 0
        invariant
            i <= end <= buf@.len(),
            forall|j: int| i <= j < end ==> buf@[j] != b,
        decreases i,
    {
        i = i - 1;
        if buf[i] == b {
            proof {
                let s = buf@.take(end as int);
                assert(s[i as int] == b);
                assert forall|j: int| i < j < s.len() implies s[j] != b by {
                    assert(buf@[j] != b);
                }
                lemma_find_last_is(s, b, i as int);
            }
            return Some(i);
        }
    }
    proof {
        let s = buf@.take(end as int);
        assert forall|j: int| 0 <= j < s.len() implies s[j] != b by {
            assert(buf@[j] != b);
        }
        lemma_find_last_none(s, b);
    }
    None
}

} // verus!

