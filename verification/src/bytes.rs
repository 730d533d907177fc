use vstd::prelude::*;

verus! {

// ---------------------------------------------------------------------------
// Byte-sequence comparison and search
// ---------------------------------------------------------------------------

/// Compare two byte slices for equality.
pub fn eq_bytes(a: &[u8], b: &[u8]) -> (r: bool)
    ensures
        r == (a@ == b@),
{
    if a.len() != b.len() {
        return false;
    }
    let mut i: usize = 0;
    while i < a.len()
        invariant
            i <= a.len(),
            a@.len() == b@.len(),
            forall|j: int| 0 <= j < i ==> a@[j] == b@[j],
        decreases a.len() - i,
    {
        if a[i] != b[i] {
            return false;
        }
        i += 1;
    }
    proof {
        assert(a@ =~= b@);
    }
    true
}

/// Find the first occurrence of a byte in a slice.
pub fn find_byte(s: &[u8], b: u8) -> (r: Option<usize>)
    ensures
        match r {
            Some(i) => i < s@.len() && s@[i as int] == b && (forall|j: int|
                0 <= j < i ==> s@[j] != b),
            None => forall|j: int| 0 <= j < s@.len() ==> s@[j] != b,
        },
{
    let mut i: usize = 0;
    while i < s.len()
        invariant
            i <= s.len(),
            forall|j: int| 0 <= j < i ==> s@[j] != b,
        decreases s.len() - i,
    {
        if s[i] == b {
            return Some(i);
        }
        i += 1;
    }
    None
}

// ---------------------------------------------------------------------------
// Splitting a sequence at the first occurrence of a separator
// ---------------------------------------------------------------------------

/// Split a sequence at the first occurrence of `sep`: the part before it and,
/// when the separator occurs at all, the part after it.
pub open spec fn split2(s: Seq<u8>, sep: u8) -> (Seq<u8>, Option<Seq<u8>>)
    decreases s.len(),
{
    if s.len() == 0 {
        (s, None)
    } else if s[0] == sep {
        (Seq::empty(), Some(s.subrange(1, s.len() as int)))
    } else {
        let r = split2(s.subrange(1, s.len() as int), sep);
        (seq![s[0]] + r.0, r.1)
    }
}

pub proof fn lemma_split2_at(s: Seq<u8>, sep: u8, i: int)
    requires
        0 <= i < s.len(),
        s[i] == sep,
        forall|j: int| 0 <= j < i ==> s[j] != sep,
    ensures
        split2(s, sep) == (s.subrange(0, i), Some(s.subrange(i + 1, s.len() as int))),
    decreases i,
{
    if i == 0 {
        assert(s.subrange(0, 0) =~= Seq::<u8>::empty());
    } else {
        let t = s.subrange(1, s.len() as int);
        lemma_split2_at(t, sep, i - 1);
        assert(t.subrange(0, i - 1) =~= s.subrange(1, i));
        assert(t.subrange(i, t.len() as int) =~= s.subrange(i + 1, s.len() as int));
        assert(seq![s[0]] + s.subrange(1, i) =~= s.subrange(0, i));
    }
}

pub proof fn lemma_split2_none(s: Seq<u8>, sep: u8)
    requires
        forall|j: int| 0 <= j < s.len() ==> s[j] != sep,
    ensures
        split2(s, sep) == (s, None::<Seq<u8>>),
    decreases s.len(),
{
    if s.len() > 0 {
        let t = s.subrange(1, s.len() as int);
        lemma_split2_none(t, sep);
        assert(seq![s[0]] + t =~= s);
    }
}

/// When a separator was found, the head is shorter than the whole and head,
/// separator and tail account for every byte.
pub proof fn lemma_split2_some_lens(s: Seq<u8>, sep: u8)
    requires
        split2(s, sep).1 is Some,
    ensures
        split2(s, sep).0.len() < s.len(),
        split2(s, sep).0.len() + 1 + split2(s, sep).1.unwrap().len() == s.len(),
    decreases s.len(),
{
    if s.len() == 0 {
    } else if s[0] == sep {
    } else {
        let t = s.subrange(1, s.len() as int);
        lemma_split2_some_lens(t, sep);
    }
}

/// Splitting a sequence built as `head + [sep] + tail`, with no separator in
/// the head, recovers the two parts.
pub proof fn lemma_split2_glue(head: Seq<u8>, tail: Seq<u8>, sep: u8)
    requires
        forall|j: int| 0 <= j < head.len() ==> head[j] != sep,
    ensures
        split2(head + seq![sep] + tail, sep) == (head, Some(tail)),
{
    let s = head + seq![sep] + tail;
    let i = head.len() as int;
    assert(s[i] == sep);
    lemma_split2_at(s, sep, i);
    assert(s.subrange(0, i) =~= head);
    assert(s.subrange(i + 1, s.len() as int) =~= tail);
}

// ---------------------------------------------------------------------------
// Trimming
// ---------------------------------------------------------------------------

pub open spec fn is_ascii_ws(b: u8) -> bool {
    b == 32 || (9 <= b && b <= 13)
}

pub open spec fn trim_front(s: Seq<u8>, ws: bool) -> Seq<u8>
    decreases s.len(),
{
    if s.len() > 0 && (if ws {
        is_ascii_ws(s[0])
    } else {
        s[0] == 34
    }) {
        trim_front(s.subrange(1, s.len() as int), ws)
    } else {
        s
    }
}

pub open spec fn trim_back(s: Seq<u8>, ws: bool) -> Seq<u8>
    decreases s.len(),
{
    if s.len() > 0 && (if ws {
        is_ascii_ws(s.last())
    } else {
        s.last() == 34
    }) {
        trim_back(s.drop_last(), ws)
    } else {
        s
    }
}

/// Strip leading and trailing bytes of one class: ASCII whitespace when `ws`
/// is true, double quotes otherwise.
pub open spec fn trim(s: Seq<u8>, ws: bool) -> Seq<u8> {
    trim_back(trim_front(s, ws), ws)
}

fn byte_in_class(b: u8, ws: bool) -> (r: bool)
    ensures
        r == (if ws {
            is_ascii_ws(b)
        } else {
            b == 34
        }),
{
    if ws {
        b == 32 || (9 <= b && b <= 13)
    } else {
        b == 34
    }
}

/// Trim leading and trailing bytes of the given class from a slice.
pub fn trim_slice<'a>(s: &'a [u8], ws: bool) -> (r: &'a [u8])
    ensures
        r@ == trim(s@, ws),
{
    proof {
        assert(s@.subrange(0, s@.len() as int) =~= s@);
    }
    let mut lo: usize = 0;
    while lo < s.len() && byte_in_class(s[lo], ws)
        invariant
            lo <= s.len(),
            trim_front(s@, ws) == trim_front(s@.subrange(lo as int, s@.len() as int), ws),
        decreases s.len() - lo,
    {
        proof {
            let cur = s@.subrange(lo as int, s@.len() as int);
            assert(cur.subrange(1, cur.len() as int) =~= s@.subrange(
                lo as int + 1,
                s@.len() as int,
            ));
        }
        lo += 1;
    }
    proof {
        let cur = s@.subrange(lo as int, s@.len() as int);
        assert(trim_front(cur, ws) == cur);
    }
    let mut hi: usize = s.len();
    while hi > lo && byte_in_class(s[hi - 1], ws)
        invariant
            lo <= hi <= s.len(),
            trim_front(s@, ws) == s@.subrange(lo as int, s@.len() as int),
            trim_back(s@.subrange(lo as int, s@.len() as int), ws) == trim_back(
                s@.subrange(lo as int, hi as int),
                ws,
            ),
        decreases hi,
    {
        proof {
            let cur = s@.subrange(lo as int, hi as int);
            assert(cur.last() == s@[hi - 1]);
            assert(cur.drop_last() =~= s@.subrange(lo as int, hi as int - 1));
        }
        hi -= 1;
    }
    proof {
        let cur = s@.subrange(lo as int, hi as int);
        assert(trim_back(cur, ws) == cur);
    }
    vstd::slice::slice_subrange(s, lo, hi)
}

// ---------------------------------------------------------------------------
// Decimal numerals
// ---------------------------------------------------------------------------

pub open spec fn is_dec_digit(b: u8) -> bool {
    48 <= b && b <= 57
}

pub open spec fn all_dec_digits(s: Seq<u8>) -> bool {
    forall|i: int| 0 <= i < s.len() ==> is_dec_digit(s[i])
}

/// The value of a run of decimal digit bytes, most significant first.
pub open spec fn digits_val(s: Seq<u8>) -> int
    decreases s.len(),
{
    if s.len() == 0 {
        0
    } else {
        digits_val(s.drop_last()) * 10 + (s.last() - 48)
    }
}

/// The value of a decimal numeral as `str::parse` for unsigned integers reads
/// it: an optional leading plus sign, then at least one digit; no other form.
pub open spec fn dec_value(s: Seq<u8>) -> Option<int> {
    let body = if s.len() > 0 && s[0] == 43 {
        s.subrange(1, s.len() as int)
    } else {
        s
    };
    if body.len() > 0 && all_dec_digits(body) {
        Some(digits_val(body))
    } else {
        None
    }
}

pub proof fn lemma_digits_val_step(s: Seq<u8>, i: int)
    requires
        0 <= i < s.len(),
    ensures
        digits_val(s.subrange(0, i + 1)) == digits_val(s.subrange(0, i)) * 10 + (s[i] - 48),
{
    let p = s.subrange(0, i + 1);
    assert(p.drop_last() =~= s.subrange(0, i));
    assert(p.last() == s[i]);
}

pub proof fn lemma_digits_val_nonneg(s: Seq<u8>)
    requires
        all_dec_digits(s),
    ensures
        digits_val(s) >= 0,
    decreases s.len(),
{
    if s.len() > 0 {
        assert(all_dec_digits(s.drop_last())) by {
            assert(forall|i: int|
                0 <= i < s.drop_last().len() ==> s.drop_last()[i] == s[i]);
        }
        lemma_digits_val_nonneg(s.drop_last());
    }
}

/// A prefix of a digit run never exceeds the value of the whole run.
pub proof fn lemma_digits_val_prefix_le(s: Seq<u8>, i: int)
    requires
        0 <= i <= s.len(),
        all_dec_digits(s),
    ensures
        digits_val(s.subrange(0, i)) <= digits_val(s),
    decreases s.len() - i,
{
    if i == s.len() {
        assert(s.subrange(0, i) =~= s);
    } else {
        lemma_digits_val_step(s, i);
        assert(all_dec_digits(s.subrange(0, i))) by {
            assert(forall|j: int|
                0 <= j < i ==> s.subrange(0, i)[j] == s[j]);
        }
        lemma_digits_val_nonneg(s.subrange(0, i));
        lemma_digits_val_prefix_le(s, i + 1);
    }
}

/// Parse a decimal numeral, rejecting anything `str::parse` would reject for
/// an unsigned integer: an empty body, a stray character, or a value above
/// the limit.
pub fn parse_dec_u64(s: &[u8]) -> (r: Option<u64>)
    ensures
        match dec_value(s@) {
            Some(v) => 0 <= v && (if v > u64::MAX {
                r is None
            } else {
                r == Some(v as u64)
            }),
            None => r is None,
        },
{
    proof {
        let b0 = if s@.len() > 0 && s@[0] == 43 {
            s@.subrange(1, s@.len() as int)
        } else {
            s@
        };
        if b0.len() > 0 && all_dec_digits(b0) {
            lemma_digits_val_nonneg(b0);
        }
    }
    let start: usize = if s.len() > 0 && s[0] == 43 {
        1
    } else {
        0
    };
    let ghost body = if s@.len() > 0 && s@[0] == 43 {
        s@.subrange(1, s@.len() as int)
    } else {
        s@
    };
    proof {
        assert(body =~= s@.subrange(start as int, s@.len() as int));
    }
    if s.len() == start {
        return None;
    }
    let mut acc: u64 = 0;
    let mut i: usize = start;
    while i < s.len()
        invariant
            start <= i <= s@.len(),
            start as int == (if s@.len() > 0 && s@[0] == 43 {
                1int
            } else {
                0int
            }),
            body == s@.subrange(start as int, s@.len() as int),
            body == (if s@.len() > 0 && s@[0] == 43 {
                s@.subrange(1, s@.len() as int)
            } else {
                s@
            }),
            forall|j: int| start <= j < i ==> is_dec_digit(s@[j]),
            acc == digits_val(s@.subrange(start as int, i as int)),
        decreases s.len() - i,
    {
        let b = s[i];
        if b < 48 || b > 57 {
            proof {
                assert(!is_dec_digit(body[i - start as int]));
            }
            return None;
        }
        let d = (b - 48) as u64;
        if acc > (u64::MAX - d) / 10 {
            proof {
                if body.len() > 0 && all_dec_digits(body) {
                    let p = s@.subrange(start as int, i as int + 1);
                    lemma_digits_val_step_offset(s@, start as int, i as int);
                    assert(digits_val(p) == acc * 10 + d);
                    assert(acc * 10 + d > u64::MAX) by (nonlinear_arith)
                        requires
                            acc > (u64::MAX - d) / 10,
                            d < 10,
                    ;
                    assert(p =~= body.subrange(0, i - start as int + 1));
                    lemma_digits_val_prefix_le(body, i - start as int + 1);
                    assert(digits_val(body) > u64::MAX);
                    assert(dec_value(s@) == Some(digits_val(body)));
                } else {
                    assert(dec_value(s@) is None);
                }
            }
            return None;
        }
        proof {
            lemma_digits_val_step_offset(s@, start as int, i as int);
        }
        acc = acc * 10 + d;
        i += 1;
    }
    proof {
        assert(body =~= s@.subrange(start as int, s@.len() as int));
        assert(all_dec_digits(body)) by {
            assert(forall|j: int|
                0 <= j < body.len() ==> body[j] == s@[j + start]);
        }
        assert(digits_val(body) == acc);
    }
    Some(acc)
}

proof fn lemma_digits_val_step_offset(s: Seq<u8>, start: int, i: int)
    requires
        0 <= start <= i < s.len(),
    ensures
        digits_val(s.subrange(start, i + 1)) == digits_val(s.subrange(start, i)) * 10 + (s[i]
            - 48),
{
    let p = s.subrange(start, i + 1);
    assert(p.drop_last() =~= s.subrange(start, i));
    assert(p.last() == s[i]);
}

/// The decimal numeral of a natural number, most significant digit first.
pub open spec fn dec_digits(n: nat) -> Seq<u8>
    decreases n,
{
    if n < 10 {
        seq![(48 + n) as u8]
    } else {
        dec_digits(n / 10) + seq![(48 + n % 10) as u8]
    }
}

/// Render a number as decimal digit bytes.
pub fn u64_to_dec(n: u64) -> (v: Vec<u8>)
    ensures
        v@ == dec_digits(n as nat),
    decreases n,
{
    if n < 10 {
        let mut v: Vec<u8> = Vec::new();
        v.push(48 + (n as u8));
        proof {
            assert(v@ =~= dec_digits(n as nat));
        }
        v
    } else {
        let mut v = u64_to_dec(n / 10);
        v.push(48 + ((n % 10) as u8));
        proof {
            assert(v@ =~= dec_digits(n as nat));
        }
        v
    }
}

// ---------------------------------------------------------------------------
// Big-endian 32-bit words
// ---------------------------------------------------------------------------

pub open spec fn be_bytes_of_u32(x: u32) -> Seq<u8> {
    seq![(x >> 24) as u8, (x >> 16) as u8, (x >> 8) as u8, x as u8]
}

pub open spec fn u32_of_be_bytes(s: Seq<u8>) -> u32
    recommends
        s.len() == 4,
{
    (((s[0] as u32) << 24) | ((s[1] as u32) << 16) | ((s[2] as u32) << 8) | (s[3] as u32)) as u32
}

/// Encoding a word big-endian and reading it back is the identity.
pub proof fn lemma_be32_roundtrip(x: u32)
    ensures
        u32_of_be_bytes(be_bytes_of_u32(x)) == x,
{
    let s = be_bytes_of_u32(x);
    assert(((((x >> 24) as u8) as u32) << 24 | (((x >> 16) as u8) as u32) << 16 | (((x
        >> 8) as u8) as u32) << 8 | ((x as u8) as u32)) == x) by (bit_vector);
}

/// Reading four bytes as a big-endian word and encoding it again restores
/// the bytes.
pub proof fn lemma_be32_bytes_roundtrip(s: Seq<u8>)
    requires
        s.len() == 4,
    ensures
        be_bytes_of_u32(u32_of_be_bytes(s)) =~= s,
{
    let b0 = s[0];
    let b1 = s[1];
    let b2 = s[2];
    let b3 = s[3];
    let y = (((b0 as u32) << 24) | ((b1 as u32) << 16) | ((b2 as u32) << 8) | (b3 as u32)) as u32;
    assert((y >> 24) as u8 == b0 && (y >> 16) as u8 == b1 && (y >> 8) as u8 == b2 && y as u8
        == b3) by (bit_vector)
        requires
            y == (((b0 as u32) << 24) | ((b1 as u32) << 16) | ((b2 as u32) << 8) | (b3 as u32))
                as u32,
    ;
}

pub fn u32_from_be(b: &[u8]) -> (r: u32)
    requires
        b@.len() == 4,
    ensures
        r == u32_of_be_bytes(b@),
{
    ((b[0] as u32) << 24) | ((b[1] as u32) << 16) | ((b[2] as u32) << 8) | (b[3] as u32)
}

pub fn u32_to_be(x: u32) -> (r: [u8; 4])
    ensures
        r@ =~= be_bytes_of_u32(x),
{
    [(x >> 24) as u8, (x >> 16) as u8, (x >> 8) as u8, x as u8]
}

// ---------------------------------------------------------------------------
// Queue plumbing
// ---------------------------------------------------------------------------

/// Remove and return the first `n` bytes of a vector.
pub fn split_off_front(v: &mut Vec<u8>, n: usize) -> (front: Vec<u8>)
    requires
        n <= old(v)@.len(),
    ensures
        front@ == old(v)@.subrange(0, n as int),
        final(v)@ == old(v)@.subrange(n as int, old(v)@.len() as int),
{
    let mut front: Vec<u8> = Vec::new();
    let mut i: usize = 0;
    while i < n
        invariant
            i <= n <= v@.len(),
            v@ == old(v)@,
            front@ == old(v)@.subrange(0, i as int),
        decreases n - i,
    {
        front.push(v[i]);
        proof {
            assert(front@ =~= old(v)@.subrange(0, i as int + 1));
        }
        i += 1;
    }
    let mut rest: Vec<u8> = Vec::new();
    let mut j: usize = n;
    while j < v.len()
        invariant
            n <= j <= v@.len(),
            v@ == old(v)@,
            rest@ == old(v)@.subrange(n as int, j as int),
        decreases v@.len() - j,
    {
        rest.push(v[j]);
        proof {
            assert(rest@ =~= old(v)@.subrange(n as int, j as int + 1));
        }
        j += 1;
    }
    proof {
        assert(rest@ =~= old(v)@.subrange(n as int, old(v)@.len() as int));
    }
    *v = rest;
    front
}

/// Append all bytes of a slice to a vector.
pub fn extend_from(v: &mut Vec<u8>, more: &[u8])
    ensures
        final(v)@ == old(v)@ + more@,
{
    let mut i: usize = 0;
    while i < more.len()
        invariant
            i <= more@.len(),
            v@ == old(v)@ + more@.subrange(0, i as int),
        decreases more.len() - i,
    {
        v.push(more[i]);
        proof {
            assert(old(v)@ + more@.subrange(0, i as int) + seq![more@[i as int]] =~= old(v)@
                + more@.subrange(0, i as int + 1));
        }
        i += 1;
    }
    proof {
        assert(more@.subrange(0, more@.len() as int) =~= more@);
    }
}

} // verus!
