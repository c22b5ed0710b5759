//! Byte-string order, zero padding, and little-endian integer layout.

use vstd::prelude::*;

verus! {

/// Lexicographic "less than or equal" on byte strings: the order of the
/// padded keys stored in the index, and of `Vec<u8>` in ordinary Rust.
pub open spec fn lex_le(a: Seq<u8>, b: Seq<u8>) -> bool
    decreases a.len(),
{
    if a.len() == 0 {
        true
    } else if b.len() == 0 {
        false
    } else if a[0] < b[0] {
        true
    } else if a[0] > b[0] {
        false
    } else {
        lex_le(a.skip(1), b.skip(1))
    }
}

/// Strict lexicographic order.
pub open spec fn lex_lt(a: Seq<u8>, b: Seq<u8>) -> bool {
    !lex_le(b, a)
}

pub proof fn lemma_lex_le_refl(a: Seq<u8>)
    ensures
        lex_le(a, a),
    decreases a.len(),
{
    if a.len() > 0 {
        lemma_lex_le_refl(a.skip(1));
    }
}

pub proof fn lemma_lex_le_total(a: Seq<u8>, b: Seq<u8>)
    ensures
        lex_le(a, b) || lex_le(b, a),
    decreases a.len(),
{
    if a.len() > 0 && b.len() > 0 && a[0] == b[0] {
        lemma_lex_le_total(a.skip(1), b.skip(1));
    }
}

pub proof fn lemma_lex_le_antisym(a: Seq<u8>, b: Seq<u8>)
    requires
        lex_le(a, b),
        lex_le(b, a),
    ensures
        a == b,
    decreases a.len(),
{
    if a.len() == 0 {
        assert(b.len() == 0);
        assert(a =~= b);
    } else {
        assert(a[0] == b[0]);
        lemma_lex_le_antisym(a.skip(1), b.skip(1));
        assert(a =~= b) by {
            assert(forall|i: int| 1 <= i < a.len() ==> a[i] == a.skip(1)[i - 1]);
            assert(forall|i: int| 1 <= i < b.len() ==> b[i] == b.skip(1)[i - 1]);
        }
    }
}

pub proof fn lemma_lex_le_trans(a: Seq<u8>, b: Seq<u8>, c: Seq<u8>)
    requires
        lex_le(a, b),
        lex_le(b, c),
    ensures
        lex_le(a, c),
    decreases a.len(),
{
    if a.len() > 0 && b.len() > 0 && c.len() > 0 && a[0] == b[0] && b[0] == c[0] {
        lemma_lex_le_trans(a.skip(1), b.skip(1), c.skip(1));
    }
}

/// `s` right-padded with zero bytes to width `w`; longer inputs are truncated.
pub open spec fn pad_spec(s: Seq<u8>, w: nat) -> Seq<u8> {
    Seq::new(w, |i: int| if i < s.len() { s[i] } else { 0u8 })
}

/// Right-pad `s` with zero bytes to exactly `w` bytes (truncating if longer).
pub fn pad_bytes(s: &Vec<u8>, w: usize) -> (r: Vec<u8>)
    ensures
        r@ == pad_spec(s@, w as nat),
{
    let mut r: Vec<u8> = Vec::new();
    let mut i: usize = 0;
    while i < w
        invariant
            i <= w,
            r@.len() == i as int,
            forall|j: int| 0 <= j < i ==> r@[j] == (if j < s@.len() { s@[j] } else { 0u8 }),
        decreases w - i,
    {
        if i < s.len() {
            let b = s[i];
            r.push(b);
        } else {
            r.push(0u8);
        }
        i = i + 1;
    }
    proof {
        assert(r@ =~= pad_spec(s@, w as nat));
    }
    r
}

/// `lex_le(a@, b@)`, decided by one pass over the bytes.
pub fn bytes_le(a: &Vec<u8>, b: &Vec<u8>) -> (r: bool)
    ensures
        r == lex_le(a@, b@),
{
    let mut i: usize = 0;
    proof {
        assert(a@.skip(0) =~= a@);
        assert(b@.skip(0) =~= b@);
    }
    loop
        invariant
            i <= a@.len(),
            i <= b@.len(),
            lex_le(a@, b@) == lex_le(a@.skip(i as int), b@.skip(i as int)),
        decreases a@.len() - i,
    {
        if i >= a.len() {
            return true;
        }
        if i >= b.len() {
            return false;
        }
        let x = a[i];
        let y = b[i];
        if x < y {
            return true;
        }
        if x > y {
            return false;
        }
        proof {
            assert(a@.skip(i as int).skip(1) =~= a@.skip(i as int + 1));
            assert(b@.skip(i as int).skip(1) =~= b@.skip(i as int + 1));
        }
        i = i + 1;
    }
}

/// Byte-for-byte equality of two byte strings.
pub fn bytes_eq(a: &Vec<u8>, b: &Vec<u8>) -> (r: bool)
    ensures
        r == (a@ == b@),
{
    if a.len() != b.len() {
        return false;
    }
    let mut i: usize = 0;
    while i < a.len()
        invariant
            a@.len() == b@.len(),
            i <= a@.len(),
            forall|j: int| 0 <= j < i ==> a@[j] == b@[j],
        decreases a@.len() - i,
    {
        if a[i] != b[i] {
            return false;
        }
        i = i + 1;
    }
    proof {
        assert(a@ =~= b@);
    }
    true
}

/// Padding a string already at the target width changes nothing.
pub proof fn lemma_pad_exact(s: Seq<u8>, w: nat)
    requires
        s.len() == w,
    ensures
        pad_spec(s, w) == s,
{
    assert(pad_spec(s, w) =~= s);
}

/// An owned copy of bytes `from..to` of `src`.
pub fn sub_bytes(src: &Vec<u8>, from: usize, to: usize) -> (r: Vec<u8>)
    requires
        from <= to <= src@.len(),
    ensures
        r@ == src@.subrange(from as int, to as int),
{
    let mut r: Vec<u8> = Vec::new();
    let mut i: usize = from;
    while i < to
        invariant
            from <= i <= to <= src@.len(),
            r@ == src@.subrange(from as int, i as int),
        decreases to - i,
    {
        let b = src[i];
        r.push(b);
        proof {
            assert(r@ =~= src@.subrange(from as int, i + 1));
        }
        i = i + 1;
    }
    r
}

/// Whether bytes `from..to` of `src` are all zero.
pub fn is_zero_range(src: &Vec<u8>, from: usize, to: usize) -> (r: bool)
    requires
        from <= to <= src@.len(),
    ensures
        r == (forall|i: int| from <= i < to ==> src@[i] == 0u8),
{
    let mut i: usize = from;
    while i < to
        invariant
            from <= i <= to <= src@.len(),
            forall|j: int| from <= j < i ==> src@[j] == 0u8,
        decreases to - i,
    {
        if src[i] != 0 {
            return false;
        }
        i = i + 1;
    }
    true
}

/// Append all of `src` to `dst`.
pub fn append_bytes(dst: &mut Vec<u8>, src: &Vec<u8>)
    ensures
        final(dst)@ == old(dst)@ + src@,
{
    let mut i: usize = 0;
    let n = src.len();
    while i < n
        invariant
            i <= n,
            n == src@.len(),
            dst@ == old(dst)@ + src@.subrange(0, i as int),
        decreases n - i,
    {
        let b = src[i];
        dst.push(b);
        proof {
            assert(old(dst)@ + src@.subrange(0, i + 1) =~= (old(dst)@ + src@.subrange(
                0,
                i as int,
            )).push(b));
        }
        i = i + 1;
    }
    proof {
        assert(src@.subrange(0, n as int) =~= src@);
    }
}

/// Overwrite `dst[at..at+src.len()]` with `src`, leaving the rest unchanged.
pub fn overwrite_at(dst: &mut Vec<u8>, at: usize, src: &Vec<u8>)
    requires
        at + src@.len() <= old(dst)@.len(),
    ensures
        final(dst)@.len() == old(dst)@.len(),
        final(dst)@.subrange(0, at as int) == old(dst)@.subrange(0, at as int),
        final(dst)@.subrange(at as int, at as int + src@.len() as int) == src@,
        final(dst)@.subrange(at as int + src@.len() as int, old(dst)@.len() as int) == old(
            dst,
        )@.subrange(at as int + src@.len() as int, old(dst)@.len() as int),
{
    let mut i: usize = 0;
    let n = src.len();
    let dlen = dst.len();
    while i < n
        invariant
            i <= n,
            n == src@.len(),
            at + n <= dlen,
            dlen == dst@.len(),
            dst@.len() == old(dst)@.len(),
            forall|j: int| 0 <= j < i ==> #[trigger] dst@[at + j] == src@[j],
            forall|j: int| 0 <= j < dst@.len() && !(at <= j < at + i) ==> dst@[j] == old(dst)@[j],
        decreases n - i,
    {
        let b = src[i];
        dst.set(at + i, b);
        i = i + 1;
    }
    proof {
        assert(dst@.subrange(0, at as int) =~= old(dst)@.subrange(0, at as int));
        assert forall|q: int|
            0 <= q < src@.len() implies dst@.subrange(
            at as int,
            at as int + src@.len() as int,
        )[q] == src@[q] by {
            assert(dst@[at + q] == src@[q]);
        }
        assert(dst@.subrange(at as int, at as int + src@.len() as int) =~= src@);
        assert(dst@.subrange(at as int + src@.len() as int, old(dst)@.len() as int)
            =~= old(dst)@.subrange(at as int + src@.len() as int, old(dst)@.len() as int));
    }
}

/// The value `v` written as `n` little-endian bytes (low byte first).
pub open spec fn le_bytes(v: nat, n: nat) -> Seq<u8>
    decreases n,
{
    if n == 0 {
        Seq::empty()
    } else {
        seq![(v % 256) as u8] + le_bytes(v / 256, (n - 1) as nat)
    }
}

/// The unsigned value of a little-endian byte string.
pub open spec fn le_val(s: Seq<u8>) -> nat
    decreases s.len(),
{
    if s.len() == 0 {
        0
    } else {
        (s[0] + 256 * le_val(s.skip(1))) as nat
    }
}

/// 256 to the power `n`: the number of values `n` bytes can hold.
pub open spec fn pow256(n: nat) -> nat
    decreases n,
{
    if n == 0 {
        1
    } else {
        256 * pow256((n - 1) as nat)
    }
}

pub proof fn lemma_le_val_bound(s: Seq<u8>)
    ensures
        le_val(s) < pow256(s.len()),
    decreases s.len(),
{
    if s.len() > 0 {
        lemma_le_val_bound(s.skip(1));
    }
}

pub proof fn lemma_le_bytes_len(v: nat, n: nat)
    ensures
        le_bytes(v, n).len() == n,
    decreases n,
{
    if n > 0 {
        lemma_le_bytes_len(v / 256, (n - 1) as nat);
    }
}

/// Decoding inverts encoding for values that fit in `n` bytes.
pub proof fn lemma_le_round_trip(v: nat, n: nat)
    requires
        v < pow256(n),
    ensures
        le_val(le_bytes(v, n)) == v,
    decreases n,
{
    if n > 0 {
        lemma_le_bytes_len(v / 256, (n - 1) as nat);
        assert(le_bytes(v, n).skip(1) =~= le_bytes(v / 256, (n - 1) as nat));
        assert(v / 256 < pow256((n - 1) as nat)) by {
            assert(v < 256 * pow256((n - 1) as nat));
        }
        lemma_le_round_trip(v / 256, (n - 1) as nat);
        assert(v == 256 * (v / 256) + v % 256);
    }
}

/// Encoding inverts decoding: a byte string is the encoding of its value.
pub proof fn lemma_le_bytes_of_val(s: Seq<u8>)
    ensures
        le_bytes(le_val(s), s.len()) == s,
    decreases s.len(),
{
    if s.len() > 0 {
        lemma_le_bytes_of_val(s.skip(1));
        assert(le_val(s) % 256 == s[0] && le_val(s) / 256 == le_val(s.skip(1))) by {
            assert(le_val(s) == s[0] + 256 * le_val(s.skip(1)));
        }
        assert(le_bytes(le_val(s), s.len()) =~= s) by {
            assert(le_bytes(le_val(s), s.len()) ==
                seq![(le_val(s) % 256) as u8] + le_bytes(le_val(s) / 256, (s.len() - 1) as nat));
        }
    }
}

/// Append `v` as `n` little-endian bytes.
pub fn push_le(out: &mut Vec<u8>, v: u64, n: usize)
    requires
        n <= 8,
        (v as nat) < pow256(n as nat),
    ensures
        final(out)@ == old(out)@ + le_bytes(v as nat, n as nat),
{
    let ghost orig = out@;
    let mut x: u64 = v;
    let mut i: usize = 0;
    while i < n
        invariant
            i <= n,
            out@.len() == orig.len() + i as int,
            out@.subrange(0, orig.len() as int) =~= orig,
            le_bytes(v as nat, n as nat) == out@.skip(orig.len() as int) + le_bytes(
                x as nat,
                (n - i) as nat,
            ),
        decreases n - i,
    {
        let b: u8 = (x % 256) as u8;
        let ghost prev = out@;
        out.push(b);
        proof {
            assert(le_bytes(x as nat, (n - i) as nat) == seq![(x as nat % 256) as u8] + le_bytes(
                x as nat / 256,
                (n - i - 1) as nat,
            ));
            assert(out@.skip(orig.len() as int) =~= prev.skip(orig.len() as int).push(b));
            assert(out@.skip(orig.len() as int) + le_bytes(x as nat / 256, (n - i - 1) as nat)
                =~= prev.skip(orig.len() as int) + le_bytes(x as nat, (n - i) as nat));
        }
        x = x / 256;
        i = i + 1;
    }
    proof {
        assert(le_bytes(x as nat, 0) =~= Seq::<u8>::empty());
        assert(out@.skip(orig.len() as int) + Seq::<u8>::empty() =~= out@.skip(orig.len() as int));
        assert(out@ =~= orig + out@.skip(orig.len() as int));
    }
}

/// Read `n` little-endian bytes at `pos` as an unsigned value.
pub fn read_le(buf: &Vec<u8>, pos: usize, n: usize) -> (v: u64)
    requires
        n <= 8,
        pos + n <= buf@.len(),
    ensures
        v as nat == le_val(buf@.subrange(pos as int, pos as int + n as int)),
{
    let mut v: u64 = 0;
    let mut i: usize = n;
    let blen = buf.len();
    proof {
        assert(buf@.subrange(pos as int + n as int, pos as int + n as int) =~= Seq::<u8>::empty());
    }
    while i > 0
        invariant
            i <= n,
            n <= 8,
            pos + n <= blen,
            blen == buf@.len(),
            v as nat == le_val(buf@.subrange(pos as int + i as int, pos as int + n as int)),
            (v as nat) < pow256((n - i) as nat),
        decreases i,
    {
        let ghost tail = buf@.subrange(pos as int + i as int, pos as int + n as int);
        i = i - 1;
        let b = buf[pos + i];
        proof {
            let s = buf@.subrange(pos as int + i as int, pos as int + n as int);
            assert(s.len() > 0);
            assert(s[0] == b);
            assert(s.skip(1) =~= tail);
            assert(le_val(s) == b + 256 * le_val(tail));
            assert(256 * le_val(tail) + b < 256 * pow256((n - i - 1) as nat)) by {
                assert(le_val(tail) < pow256((n - i - 1) as nat));
            }
            assert(pow256((n - i) as nat) == 256 * pow256((n - i - 1) as nat));
            assert(pow256((n - i) as nat) <= pow256(8)) by {
                lemma_pow256_le((n - i) as nat, 8);
            }
            lemma_pow256_8();
        }
        v = v * 256 + (b as u64);
    }
    proof {
        assert(buf@.subrange(pos as int, pos as int + n as int) =~= buf@.subrange(
            pos as int + 0,
            pos as int + n as int,
        ));
    }
    v
}

pub proof fn lemma_pow256_8()
    ensures
        pow256(8) == 0x1_0000_0000_0000_0000,
        pow256(4) == 0x1_0000_0000,
        pow256(2) == 0x1_0000,
{
    reveal_with_fuel(pow256, 9);
}

pub proof fn lemma_pow256_le(a: nat, b: nat)
    requires
        a <= b,
    ensures
        pow256(a) <= pow256(b),
    decreases b,
{
    if a < b {
        lemma_pow256_le(a, (b - 1) as nat);
        assert(pow256(b) == 256 * pow256((b - 1) as nat));
        assert(pow256((b - 1) as nat) <= 256 * pow256((b - 1) as nat)) by {
            assert(pow256((b - 1) as nat) >= 1) by {
                lemma_pow256_pos((b - 1) as nat);
            }
        }
    }
}

pub proof fn lemma_pow256_pos(n: nat)
    ensures
        pow256(n) >= 1,
    decreases n,
{
    if n > 0 {
        lemma_pow256_pos((n - 1) as nat);
    }
}

} // verus!
