//! Byte-level helpers shared by the record codecs: locating bytes in a
//! buffer, lower-case hex rendering and decimal rendering of checksums.

use vstd::prelude::*;

verus! {

/// Index of the first occurrence of `b` in `s`, if any.
pub open spec fn find_byte(s: Seq<u8>, b: u8) -> Option<int>
    decreases s.len(),
{
    if s.len() == 0 {
        None
    } else if s[0] == b {
        Some(0int)
    } else {
        match find_byte(s.skip(1), b) {
            Some(j) => Some(j + 1),
            None => None,
        }
    }
}

/// Index of the last occurrence of `b` in `s`, if any.
pub open spec fn rfind_byte(s: Seq<u8>, b: u8) -> Option<int>
    decreases s.len(),
{
    if s.len() == 0 {
        None
    } else if s[s.len() - 1] == b {
        Some(s.len() - 1)
    } else {
        rfind_byte(s.drop_last(), b)
    }
}

pub proof fn lemma_find_byte(s: Seq<u8>, b: u8)
    ensures
        match find_byte(s, b) {
            Some(j) => 0 <= j < s.len() && s[j] == b && (forall|i: int| 0 <= i < j ==> s[i] != b),
            None => forall|i: int| 0 <= i < s.len() ==> s[i] != b,
        },
    decreases s.len(),
{
    if s.len() != 0 && s[0] != b {
        lemma_find_byte(s.skip(1), b);
        match find_byte(s.skip(1), b) {
            Some(j) => {
                assert(s[j + 1] == s.skip(1)[j]);
                assert forall|i: int| 0 <= i < j + 1 implies s[i] != b by {
                    if i > 0 {
                        assert(s.skip(1)[i - 1] != b);
                    }
                }
            },
            None => {
                assert forall|i: int| 0 <= i < s.len() implies s[i] != b by {
                    if i > 0 {
                        assert(s.skip(1)[i - 1] != b);
                    }
                }
            },
        }
    }
}

pub proof fn lemma_rfind_byte(s: Seq<u8>, b: u8)
    ensures
        match rfind_byte(s, b) {
            Some(j) => 0 <= j < s.len() && s[j] == b && (forall|i: int| j < i < s.len() ==> s[i] != b),
            None => forall|i: int| 0 <= i < s.len() ==> s[i] != b,
        },
    decreases s.len(),
{
    if s.len() != 0 && s[s.len() - 1] != b {
        lemma_rfind_byte(s.drop_last(), b);
        match rfind_byte(s.drop_last(), b) {
            Some(j) => {
                assert(s.drop_last()[j] == s[j]);
                assert forall|i: int| j < i < s.len() implies s[i] != b by {
                    if i < s.len() - 1 {
                        assert(s.drop_last()[i] != b);
                    }
                }
            },
            None => {
                assert forall|i: int| 0 <= i < s.len() implies s[i] != b by {
                    if i < s.len() - 1 {
                        assert(s.drop_last()[i] != b);
                    }
                }
            },
        }
    }
}

/// First occurrence of `b` in `s` at or after `from`.
pub fn find_byte_from(s: &[u8], from: usize, b: u8) -> (r: Option<usize>)
    requires
        from <= s@.len(),
    ensures
        r == match find_byte(s@.skip(from as int), b) {
            Some(j) => Some((from + j) as usize),
            None => None::<usize>,
        },
{
    let ghost tail = s@.skip(from as int);
    let mut i: usize = from;
    while i < s.len()
        invariant
            from <= i <= s@.len(),
            tail == s@.skip(from as int),
            forall|j: int| from <= j < i ==> s@[j] != b,
        decreases s@.len() - i,
    {
        if s[i] == b {
            proof {
                lemma_find_byte(tail, b);
                assert(tail[i - from] == b);
                if let Some(j) = find_byte(tail, b) {
                    if j < i - from {
                        assert(tail[j] == s@[from + j]);
                        assert(false);
                    }
                } else {
                    assert(false);
                }
            }
            return Some(i);
        }
        i += 1;
    }
    proof {
        lemma_find_byte(tail, b);
        if let Some(j) = find_byte(tail, b) {
            assert(tail[j] == s@[from + j]);
            assert(false);
        }
    }
    None
}

/// Last occurrence of `b` within `from..to`, as an absolute index.
pub fn rfind_byte_range(s: &[u8], from: usize, to: usize, b: u8) -> (r: Option<usize>)
    requires
        from <= to <= s@.len(),
    ensures
        r == match rfind_byte(s@.subrange(from as int, to as int), b) {
            Some(j) => Some((from + j) as usize),
            None => None::<usize>,
        },
{
    let ghost head = s@.subrange(from as int, to as int);
    let mut i: usize = to;
    while i > from
        invariant
            from <= i <= to <= s@.len(),
            head == s@.subrange(from as int, to as int),
            forall|j: int| i <= j < to ==> s@[j] != b,
        decreases i,
    {
        i -= 1;
        if s[i] == b {
            proof {
                lemma_rfind_byte(head, b);
                assert(head[i - from] == b);
                if let Some(j) = rfind_byte(head, b) {
                    if j > i - from {
                        assert(head[j] == s@[from + j]);
                        assert(false);
                    } else if j < i - from {
                        assert(head[i - from] != b);
                        assert(false);
                    }
                } else {
                    assert(false);
                }
            }
            return Some(i);
        }
    }
    proof {
        lemma_rfind_byte(head, b);
        if let Some(j) = rfind_byte(head, b) {
            assert(head[j] == s@[from + j]);
            assert(false);
        }
    }
    None
}

/// Byte-wise equality of two buffers.
pub fn bytes_eq(a: &[u8], b: &[u8]) -> (r: bool)
    ensures
        r == (a@ == b@),
{
    if a.len() != b.len() {
        return false;
    }
    let mut i: usize = 0;
    while i < a.len()
        invariant
            i <= a@.len(),
            a@.len() == b@.len(),
            forall|j: int| 0 <= j < i ==> a@[j] == b@[j],
        decreases a@.len() - i,
    {
        if a[i] != b[i] {
            return false;
        }
        i += 1;
    }
    proof {
        assert(a@ =~= b@);
    }
    true
}

/// Copy of the bytes of `s` from `from` (inclusive) to `to` (exclusive).
pub fn subvec(s: &[u8], from: usize, to: usize) -> (r: Vec<u8>)
    requires
        from <= to <= s@.len(),
    ensures
        r@ == s@.subrange(from as int, to as int),
{
    let mut r: Vec<u8> = Vec::new();
    let mut i: usize = from;
    while i < to
        invariant
            from <= i <= to <= s@.len(),
            r@ == s@.subrange(from as int, i as int),
        decreases to - i,
    {
        r.push(s[i]);
        i += 1;
        proof {
            assert(r@ =~= s@.subrange(from as int, i as int));
        }
    }
    r
}

/// An ASCII whitespace byte: what trimming a tag's end removes.
pub open spec fn is_ws_byte(b: u8) -> bool {
    b == 9u8 || b == 10u8 || b == 11u8 || b == 12u8 || b == 13u8 || b == 32u8
}

/// The byte string without its trailing ASCII whitespace.
pub open spec fn trim_ws(s: Seq<u8>) -> Seq<u8>
    decreases s.len(),
{
    if s.len() > 0 && is_ws_byte(s.last()) {
        trim_ws(s.drop_last())
    } else {
        s
    }
}

/// The end of the range `from..to` of `s` once trailing ASCII whitespace
/// is dropped.
pub fn trim_ws_end(s: &[u8], from: usize, to: usize) -> (r: usize)
    requires
        from <= to <= s@.len(),
    ensures
        from <= r <= to,
        s@.subrange(from as int, r as int) == trim_ws(s@.subrange(from as int, to as int)),
{
    let mut e = to;
    while e > from
        invariant
            from <= e <= to <= s@.len(),
            trim_ws(s@.subrange(from as int, to as int)) == trim_ws(
                s@.subrange(from as int, e as int),
            ),
        decreases e,
    {
        let b = s[e - 1];
        if !(b == 9 || b == 10 || b == 11 || b == 12 || b == 13 || b == 32) {
            proof {
                let cur = s@.subrange(from as int, e as int);
                assert(cur.last() == b);
                assert(trim_ws(cur) == cur);
            }
            return e;
        }
        proof {
            let cur = s@.subrange(from as int, e as int);
            assert(cur.last() == b);
            assert(cur.drop_last() =~= s@.subrange(from as int, e as int - 1));
        }
        e -= 1;
    }
    proof {
        assert(s@.subrange(from as int, from as int) =~= Seq::<u8>::empty());
        assert(trim_ws(s@.subrange(from as int, from as int)) == s@.subrange(
            from as int,
            from as int,
        ));
    }
    from
}

/// The lower-case hex digit for a value below sixteen.
pub open spec fn hex_digit(d: u8) -> u8 {
    if d < 10 {
        (48 + d) as u8
    } else {
        (87 + d) as u8
    }
}

/// Lower-case hex rendering of a byte string, two digits per byte.
pub open spec fn spec_hex(s: Seq<u8>) -> Seq<u8> {
    Seq::new(
        2 * s.len(),
        |i: int| if i % 2 == 0 {
            hex_digit(s[i / 2] / 16)
        } else {
            hex_digit(s[i / 2] % 16)
        },
    )
}

/// Every byte of a hex rendering is a digit or a lower-case letter,
/// in particular neither a space nor a newline.
pub proof fn lemma_hex_bytes(s: Seq<u8>)
    ensures
        forall|i: int|
            0 <= i < spec_hex(s).len() ==> 48 <= #[trigger] spec_hex(s)[i] <= 102,
{
    assert forall|i: int| 0 <= i < spec_hex(s).len() implies 48 <= #[trigger] spec_hex(s)[i]
        <= 102 by {
        let d = if i % 2 == 0 {
            s[i / 2] / 16
        } else {
            s[i / 2] % 16
        };
        assert(d < 16);
    }
}

/// Lower-case hex encoding of a byte buffer.
pub fn hex_encode(s: &[u8]) -> (r: Vec<u8>)
    ensures
        r@ == spec_hex(s@),
{
    let mut r: Vec<u8> = Vec::new();
    let mut i: usize = 0;
    while i < s.len()
        invariant
            i <= s@.len(),
            r@ == spec_hex(s@.take(i as int)),
        decreases s@.len() - i,
    {
        let hi = s[i] / 16;
        let lo = s[i] % 16;
        r.push(if hi < 10 { 48 + hi } else { 87 + hi });
        r.push(if lo < 10 { 48 + lo } else { 87 + lo });
        i += 1;
        proof {
            assert(r@ =~= spec_hex(s@.take(i as int)));
        }
    }
    proof {
        assert(s@.take(s@.len() as int) =~= s@);
    }
    r
}

/// Decimal rendering of a non-negative integer, most significant digit first.
pub open spec fn spec_dec(n: int) -> Seq<u8>
    decreases n,
{
    if n < 0 {
        Seq::empty()
    } else if n < 10 {
        seq![(48 + n) as u8]
    } else {
        spec_dec(n / 10).push((48 + n % 10) as u8)
    }
}

/// Every byte of a decimal rendering is an ASCII digit.
pub proof fn lemma_dec_bytes(n: int)
    requires
        n >= 0,
    ensures
        forall|i: int| 0 <= i < spec_dec(n).len() ==> 48 <= #[trigger] spec_dec(n)[i] <= 57,
    decreases n,
{
    if n < 10 {
        assert(spec_dec(n) == seq![(48 + n) as u8]);
        assert(spec_dec(n)[0] == (48 + n) as u8);
    } else {
        lemma_dec_bytes(n / 10);
        assert forall|i: int| 0 <= i < spec_dec(n).len() implies 48 <= #[trigger] spec_dec(n)[i]
            <= 57 by {
            if i < spec_dec(n).len() - 1 {
                assert(spec_dec(n)[i] == spec_dec(n / 10)[i]);
            }
        }
    }
}

/// Decimal rendering of a 64-bit number.
pub fn u64_to_dec(n: u64) -> (r: Vec<u8>)
    ensures
        r@ == spec_dec(n as int),
    decreases n,
{
    if n < 10 {
        let mut r: Vec<u8> = Vec::new();
        r.push(48 + (n as u8));
        proof {
            assert(r@ =~= spec_dec(n as int));
        }
        r
    } else {
        let mut r = u64_to_dec(n / 10);
        r.push(48 + ((n % 10) as u8));
        r
    }
}

} // verus!
