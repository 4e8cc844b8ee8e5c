//! The run-length filter for stream content.
//!
//! Encoded data is a sequence of runs. A length byte `n` below 128 is
//! followed by `n + 1` bytes that stand for themselves; a length byte above
//! 128 is followed by one byte that stands for `257 - n` copies of itself;
//! the length byte 128 ends the data.

use vstd::prelude::*;

verus! {

/// The longest run that one length byte can describe.
pub const MAX_RUN: usize = 128;

/// The length byte that ends the data.
pub const END_OF_DATA: u8 = 128;

/// `n` copies of `b`.
pub open spec fn repeated(b: u8, n: int) -> Seq<u8> {
    Seq::new(n as nat, |i: int| b)
}

/// What `s` decodes to, or `None` where a run is cut short.
pub open spec fn decoded(s: Seq<u8>) -> Option<Seq<u8>>
    decreases s.len(),
{
    if s.len() == 0 {
        Some(Seq::empty())
    } else if s[0] == 128 {
        Some(Seq::empty())
    } else if s[0] < 128 {
        let n = s[0] as int + 1;
        if s.len() < 1 + n {
            None
        } else {
            match decoded(s.skip(1 + n)) {
                Some(rest) => Some(s.subrange(1, 1 + n) + rest),
                None => None,
            }
        }
    } else {
        let n = 257 - s[0] as int;
        if s.len() < 2 {
            None
        } else {
            match decoded(s.skip(2)) {
                Some(rest) => Some(repeated(s[1], n) + rest),
                None => None,
            }
        }
    }
}

/// How many bytes at the start of `s` equal the first, up to 128.
pub open spec fn run_len(s: Seq<u8>) -> int
    decreases s.len(),
{
    if s.len() <= 1 {
        s.len() as int
    } else if s[1] != s[0] {
        1
    } else {
        let r = run_len(s.skip(1));
        if r >= 128 {
            128
        } else {
            r + 1
        }
    }
}

/// How many bytes at the start of `s` come before the first two equal
/// neighbours, up to 128.
pub open spec fn literal_len(s: Seq<u8>) -> int
    decreases s.len(),
{
    if s.len() <= 1 {
        s.len() as int
    } else if s[1] == s[0] {
        0
    } else {
        let l = literal_len(s.skip(1));
        if l >= 127 {
            128
        } else {
            l + 1
        }
    }
}

/// What `s` encodes to: runs of two or more equal bytes as a length and
/// the byte, the bytes between them as they are behind their count, and the
/// end mark.
pub open spec fn encoded(s: Seq<u8>) -> Seq<u8>
    decreases s.len(),
{
    if s.len() == 0 {
        seq![128u8]
    } else if run_len(s) >= 2 {
        let r = run_len(s);
        if r <= s.len() {
            seq![(257 - r) as u8, s[0]] + encoded(s.skip(r))
        } else {
            seq![128u8]
        }
    } else {
        let l = literal_len(s);
        if 1 <= l <= s.len() {
            seq![(l - 1) as u8] + s.take(l) + encoded(s.skip(l))
        } else {
            seq![128u8]
        }
    }
}

/// A run is as long as `run_len` says: its bytes are equal, and it ends at
/// 128 bytes, at the end of the data or before another byte.
pub proof fn lemma_run_len(s: Seq<u8>)
    requires
        s.len() > 0,
    ensures
        1 <= run_len(s) <= 128,
        run_len(s) <= s.len(),
        forall|j: int| 0 <= j < run_len(s) ==> #[trigger] s[j] == s[0],
        run_len(s) == 128 || run_len(s) == s.len() || s[run_len(s)] != s[0],
    decreases s.len(),
{
    if s.len() > 1 && s[1] == s[0] {
        let t = s.skip(1);
        lemma_run_len(t);
        let r = run_len(t);
        assert forall|j: int| 0 <= j < run_len(s) implies #[trigger] s[j] == s[0] by {
            if j > 0 {
                assert(t[j - 1] == t[0]);
            }
        }
        if r < 128 && r < t.len() {
            assert(t[r] == s[r + 1]);
        }
    }
}

/// The only length with the properties of a run is `run_len`.
pub proof fn lemma_run_len_is(s: Seq<u8>, r: int)
    requires
        1 <= r <= 128,
        r <= s.len(),
        forall|j: int| 0 <= j < r ==> #[trigger] s[j] == s[0],
        r == 128 || r == s.len() || s[r] != s[0],
    ensures
        run_len(s) == r,
{
    lemma_run_len(s);
    let q = run_len(s);
    if q < r {
        assert(s[q] == s[0]);
    } else if r < q {
        assert(s[r] == s[0]);
    }
}

/// A literal stretch is as long as `literal_len` says: no byte of it equals
/// the byte behind it, and it ends at 128 bytes, at the end of the data or
/// before two equal bytes.
pub proof fn lemma_literal_len(s: Seq<u8>)
    requires
        s.len() > 0,
        s.len() == 1 || s[1] != s[0],
    ensures
        1 <= literal_len(s) <= 128,
        literal_len(s) <= s.len(),
        forall|j: int| 0 <= j < literal_len(s) && j + 1 < s.len() ==> #[trigger] s[j] != s[j + 1],
        literal_len(s) == 128 || literal_len(s) == s.len() || (literal_len(s) + 1 < s.len()
            && s[literal_len(s)] == s[literal_len(s) + 1]),
    decreases s.len(),
{
    if s.len() > 1 {
        let t = s.skip(1);
        if t.len() == 1 || t[1] != t[0] {
            lemma_literal_len(t);
            let l = literal_len(t);
            assert forall|j: int| 0 <= j < literal_len(s) && j + 1 < s.len() implies #[trigger] s[j]
                != s[j + 1] by {
                if j > 0 {
                    assert(t[j - 1] != t[j - 1 + 1]);
                }
            }
            if l < 127 && l + 1 < t.len() {
                assert(t[l] == s[l + 1]);
                assert(t[l + 1] == s[l + 2]);
            }
        } else {
            assert(t[0] == s[1] && t[1] == s[2]);
        }
    }
}

/// The only length with the properties of a literal stretch is
/// `literal_len`.
pub proof fn lemma_literal_len_is(s: Seq<u8>, l: int)
    requires
        1 <= l <= 128,
        l <= s.len(),
        forall|j: int| 0 <= j < l && j + 1 < s.len() ==> #[trigger] s[j] != s[j + 1],
        l == 128 || l == s.len() || (l + 1 < s.len() && s[l] == s[l + 1]),
    ensures
        literal_len(s) == l,
{
    if s.len() > 1 {
        assert(s[0int] != s[0int + 1]);
    }
    lemma_literal_len(s);
    let q = literal_len(s);
    if q < l {
        assert(s[q] != s[q + 1]);
    } else if l < q {
        assert(s[l] != s[l + 1]);
    }
}

/// Decoding what was encoded gives the data back.
pub proof fn lemma_round_trip(s: Seq<u8>)
    ensures
        decoded(encoded(s)) == Some(s),
    decreases s.len(),
{
    if s.len() == 0 {
        assert(encoded(s)[0] == 128u8);
    } else {
        lemma_run_len(s);
        let r = run_len(s);
        if r >= 2 {
            let rest = s.skip(r);
            lemma_round_trip(rest);
            let e = encoded(s);
            let head = seq![(257 - r) as u8, s[0]];
            assert(e == head + encoded(rest));
            assert(e[0] == (257 - r) as u8);
            assert(e[1] == s[0]);
            assert(e.skip(2) =~= encoded(rest));
            assert(repeated(s[0], r) + rest =~= s);
        } else {
            lemma_literal_len(s);
            let l = literal_len(s);
            let rest = s.skip(l);
            lemma_round_trip(rest);
            let e = encoded(s);
            assert(e == seq![(l - 1) as u8] + s.take(l) + encoded(rest));
            assert(e[0] == (l - 1) as u8);
            assert(e.skip(1 + l) =~= encoded(rest));
            assert(e.subrange(1, 1 + l) =~= s.take(l));
            assert(s.take(l) + rest =~= s);
        }
    }
}

/// How many bytes from place `i` on equal the one at `i`, up to 128.
fn run_at(data: &[u8], i: usize) -> (r: usize)
    requires
        i < data@.len(),
    ensures
        r == run_len(data@.skip(i as int)),
        1 <= r <= 128,
        i + r <= data@.len(),
{
    let n = data.len();
    let mut r: usize = 1;
    while r < MAX_RUN && i + r < n && data[i + r] == data[i]
        invariant
            1 <= r <= 128,
            i + r <= n,
            i < n,
            n == data@.len(),
            forall|j: int| i <= j < i + r ==> #[trigger] data@[j] == data@[i as int],
        decreases n - i - r,
    {
        r += 1;
    }
    proof {
        let tail = data@.skip(i as int);
        assert forall|j: int| 0 <= j < r implies #[trigger] tail[j] == tail[0] by {
            assert(data@[i + j] == data@[i as int]);
        }
        lemma_run_len_is(tail, r as int);
    }
    r
}

/// How many bytes from place `i` on come before two equal neighbours, up
/// to 128.
fn literal_at(data: &[u8], i: usize) -> (l: usize)
    requires
        i < data@.len(),
        i + 1 == data@.len() || data@[i + 1] != data@[i as int],
    ensures
        l == literal_len(data@.skip(i as int)),
        1 <= l <= 128,
        i + l <= data@.len(),
{
    let n = data.len();
    let mut l: usize = 1;
    while l < MAX_RUN && i + l < n && !(i + l + 1 < n && data[i + l] == data[i + l + 1])
        invariant
            1 <= l <= 128,
            i + l <= n,
            i < n,
            n == data@.len(),
            i + 1 == n || data@[i + 1] != data@[i as int],
            forall|j: int| i <= j < i + l && j + 1 < n ==> #[trigger] data@[j] != data@[j + 1],
        decreases n - i - l,
    {
        l += 1;
    }
    proof {
        let tail = data@.skip(i as int);
        assert forall|j: int| 0 <= j < l && j + 1 < tail.len() implies #[trigger] tail[j] != tail[j
            + 1] by {
            assert(data@[i + j] != data@[i + j + 1]);
        }
        lemma_literal_len_is(tail, l as int);
    }
    l
}

/// Adds to `out` the `count` bytes of `data` from place `from` on.
fn push_range(out: &mut Vec<u8>, data: &[u8], from: usize, count: usize)
    requires
        from + count <= data@.len(),
    ensures
        final(out)@ == old(out)@ + data@.subrange(from as int, from + count),
{
    let n = data.len();
    let mut k: usize = 0;
    proof {
        assert(out@ =~= old(out)@ + data@.subrange(from as int, from as int));
    }
    while k < count
        invariant
            k <= count,
            n == data@.len(),
            from + count <= n,
            out@ == old(out)@ + data@.subrange(from as int, from + k),
        decreases count - k,
    {
        out.push(data[from + k]);
        proof {
            assert(out@ =~= old(out)@ + data@.subrange(from as int, from + k + 1));
        }
        k += 1;
    }
}

/// Adds `count` copies of `b` to `out`.
fn push_repeated(out: &mut Vec<u8>, b: u8, count: usize)
    ensures
        final(out)@ == old(out)@ + repeated(b, count as int),
{
    let mut k: usize = 0;
    proof {
        assert(out@ =~= old(out)@ + repeated(b, 0));
    }
    while k < count
        invariant
            k <= count,
            out@ == old(out)@ + repeated(b, k as int),
        decreases count - k,
    {
        out.push(b);
        proof {
            assert(out@ =~= old(out)@ + repeated(b, k + 1));
        }
        k += 1;
    }
}

/// Encodes `data`.
pub fn encode(data: &[u8]) -> (out: Vec<u8>)
    ensures
        out@ == encoded(data@),
{
    let n = data.len();
    let mut out: Vec<u8> = Vec::new();
    let mut i: usize = 0;
    proof {
        assert(data@.skip(0) =~= data@);
        assert(out@ + encoded(data@) =~= encoded(data@));
    }
    while i < n
        invariant
            i <= n,
            n == data@.len(),
            encoded(data@) == out@ + encoded(data@.skip(i as int)),
        decreases n - i,
    {
        let ghost tail = data@.skip(i as int);
        let ghost before = out@;
        let r = run_at(data, i);
        if r >= 2 {
            out.push((257 - r) as u8);
            out.push(data[i]);
            proof {
                assert(tail.skip(r as int) =~= data@.skip(i + r));
                assert(out@ + encoded(data@.skip(i + r)) =~= before + (seq![
                    (257 - r) as u8,
                    tail[0],
                ] + encoded(tail.skip(r as int))));
            }
            i += r;
        } else {
            proof {
                lemma_run_len(tail);
                if i + 1 < n {
                    assert(tail[1] == data@[i + 1]);
                }
            }
            let l = literal_at(data, i);
            out.push((l - 1) as u8);
            push_range(&mut out, data, i, l);
            proof {
                assert(tail.skip(l as int) =~= data@.skip(i + l));
                assert(data@.subrange(i as int, i + l) =~= tail.take(l as int));
                assert(out@ + encoded(data@.skip(i + l)) =~= before + (seq![(l - 1) as u8]
                    + tail.take(l as int) + encoded(tail.skip(l as int))));
            }
            i += l;
        }
    }
    proof {
        assert(data@.skip(n as int) =~= Seq::<u8>::empty());
    }
    let ghost before = out@;
    out.push(END_OF_DATA);
    proof {
        assert(out@ =~= before + seq![128u8]);
    }
    out
}

/// Decodes `data`, or returns `None` where a run is cut short.
pub fn decode(data: &[u8]) -> (r: Option<Vec<u8>>)
    ensures
        match r {
            Some(v) => decoded(data@) == Some(v@),
            None => decoded(data@).is_none(),
        },
{
    let n = data.len();
    let mut out: Vec<u8> = Vec::new();
    let mut i: usize = 0;
    proof {
        assert(data@.skip(0) =~= data@);
    }
    while i < n
        invariant
            i <= n,
            n == data@.len(),
            decoded(data@) == match decoded(data@.skip(i as int)) {
                Some(rest) => Some(out@ + rest),
                None => None,
            },
        decreases n - i,
    {
        let ghost tail = data@.skip(i as int);
        let ghost before = out@;
        let b = data[i];
        proof {
            assert(tail[0] == b);
        }
        if b == END_OF_DATA {
            proof {
                assert(out@ + Seq::<u8>::empty() =~= out@);
            }
            return Some(out);
        } else if b < END_OF_DATA {
            let count: usize = b as usize + 1;
            if n - i < 1 + count {
                return None;
            }
            push_range(&mut out, data, i + 1, count);
            proof {
                assert(data@.subrange(i + 1, i + 1 + count) =~= tail.subrange(1, 1 + count));
                assert(tail.skip(1 + count) =~= data@.skip(i + 1 + count));
                match decoded(tail.skip(1 + count)) {
                    Some(rest) => {
                        assert(before + (tail.subrange(1, 1 + count) + rest) =~= out@ + rest);
                    },
                    None => {},
                }
            }
            i += 1 + count;
        } else {
            let count: usize = 257 - b as usize;
            if n - i < 2 {
                return None;
            }
            let v = data[i + 1];
            push_repeated(&mut out, v, count);
            proof {
                assert(tail[1] == v);
                assert(tail.skip(2) =~= data@.skip(i + 2));
                match decoded(tail.skip(2)) {
                    Some(rest) => {
                        assert(before + (repeated(v, count as int) + rest) =~= out@ + rest);
                    },
                    None => {},
                }
            }
            i += 2;
        }
    }
    proof {
        assert(data@.skip(n as int) =~= Seq::<u8>::empty());
        assert(out@ + Seq::<u8>::empty() =~= out@);
    }
    Some(out)
}

} // verus!
