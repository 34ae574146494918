use vstd::prelude::*;

verus! {

/// 256 raised to `w`.
pub open spec fn pow256(w: nat) -> nat
    decreases w,
{
    if w == 0 {
        1
    } else {
        256 * pow256((w - 1) as nat)
    }
}

/// The low `w` base-256 digits of `x`, most significant first.
pub open spec fn be_bytes(x: nat, w: nat) -> Seq<u8>
    decreases w,
{
    if w == 0 {
        Seq::empty()
    } else {
        be_bytes(x / 256, (w - 1) as nat).push((x % 256) as u8)
    }
}

/// The number whose big-endian base-256 digits are `s`.
pub open spec fn be_value(s: Seq<u8>) -> nat
    decreases s.len(),
{
    if s.len() == 0 {
        0
    } else {
        be_value(s.drop_last()) * 256 + s.last() as nat
    }
}

pub proof fn lemma_pow256_pos(w: nat)
    ensures
        pow256(w) >= 1,
    decreases w,
{
    if w > 0 {
        lemma_pow256_pos((w - 1) as nat);
    }
}

/// Digit `k` of `be_bytes(x, w)` is the matching base-256 digit of `x`.
pub proof fn lemma_be_bytes_index(x: nat, w: nat, k: nat)
    requires
        k < w,
    ensures
        be_bytes(x, w).len() == w,
        be_bytes(x, w)[k as int] == ((x / pow256((w - 1 - k) as nat)) % 256) as u8,
    decreases w,
{
    lemma_be_bytes_len(x, w);
    lemma_be_bytes_len(x / 256, (w - 1) as nat);
    if k + 1 < w {
        lemma_be_bytes_index(x / 256, (w - 1) as nat, k);
        assert(pow256((w - 1 - k) as nat) == 256 * pow256((w - 2 - k) as nat));
        lemma_pow256_pos((w - 2 - k) as nat);
        vstd::arithmetic::div_mod::lemma_div_denominator(
            x as int,
            256,
            pow256((w - 2 - k) as nat) as int,
        );
        assert(be_bytes(x, w)[k as int] == be_bytes(x / 256, (w - 1) as nat)[k as int]);
    } else {
        assert(pow256(0) == 1);
        assert(x / 1 == x);
        assert(be_bytes(x, w)[k as int] == (x % 256) as u8);
    }
}

pub proof fn lemma_be_bytes_len(x: nat, w: nat)
    ensures
        be_bytes(x, w).len() == w,
    decreases w,
{
    if w > 0 {
        lemma_be_bytes_len(x / 256, (w - 1) as nat);
    }
}

/// Appends the low `w` base-256 digits of `x` to `out`, most significant first.
pub fn push_be(out: &mut Vec<u8>, x: u64, w: usize)
    requires
        w <= 8,
    ensures
        final(out)@ == old(out)@ + be_bytes(x as nat, w as nat),
{
    let ghost start = out@;
    let mut digits: Vec<u8> = Vec::new();
    let mut cur: u64 = x;
    let mut j: usize = 0;
    assert(pow256(0) == 1);
    while j < w
        invariant
            j <= w,
            digits@.len() == j,
            cur as nat == x as nat / pow256(j as nat),
            forall|i: int|
                0 <= i < j ==> digits@[i] == ((x as nat / pow256(i as nat)) % 256) as u8,
        decreases w - j,
    {
        digits.push((cur % 256) as u8);
        proof {
            lemma_pow256_pos(j as nat);
            vstd::arithmetic::div_mod::lemma_div_denominator(
                x as int,
                pow256(j as nat) as int,
                256,
            );
            assert(pow256((j + 1) as nat) == pow256(j as nat) * 256);
        }
        cur = cur / 256;
        j = j + 1;
    }
    let mut k: usize = 0;
    proof {
        lemma_be_bytes_len(x as nat, w as nat);
    }
    while k < w
        invariant
            k <= w,
            digits@.len() == w,
            out@.len() == start.len() + k,
            out@.take(start.len() as int) == start,
            forall|i: int|
                0 <= i < w ==> digits@[i] == ((x as nat / pow256(i as nat)) % 256) as u8,
            be_bytes(x as nat, w as nat).len() == w,
            forall|i: int|
                0 <= i < k ==> out@[start.len() + i] == be_bytes(x as nat, w as nat)[i],
        decreases w - k,
    {
        let ghost before = out@;
        out.push(digits[w - 1 - k]);
        proof {
            lemma_be_bytes_index(x as nat, w as nat, k as nat);
            assert(out@.take(start.len() as int) == before.take(start.len() as int));
        }
        k = k + 1;
    }
    proof {
        lemma_be_bytes_len(x as nat, w as nat);
        assert(out@ == start + be_bytes(x as nat, w as nat)) by {
            assert forall|i: int| 0 <= i < out@.len() implies out@[i] == (start
                + be_bytes(x as nat, w as nat))[i] by {
                if i < start.len() {
                    assert(out@.take(start.len() as int)[i] == out@[i]);
                }
            }
        }
    }
}


/// Largest element size that an 8-byte size field can state; the all-ones
/// pattern above it is reserved for "size unknown".
pub const MAX_SIZE: u64 = 0xFF_FFFF_FFFF_FFFE;

/// Bytes in the minimal big-endian encoding of an unsigned integer.
pub open spec fn uint_width(v: nat) -> nat {
    if v < 0x100 {
        1
    } else if v < 0x1_0000 {
        2
    } else if v < 0x100_0000 {
        3
    } else if v < 0x1_0000_0000 {
        4
    } else if v < 0x100_0000_0000 {
        5
    } else if v < 0x1_0000_0000_0000 {
        6
    } else if v < 0x100_0000_0000_0000 {
        7
    } else {
        8
    }
}

/// The minimal big-endian encoding of an unsigned integer (zero is one byte).
pub open spec fn uint_bytes(v: nat) -> Seq<u8> {
    be_bytes(v, uint_width(v))
}

/// Bytes in the shortest size field that can state `v`.
pub open spec fn size_width(v: nat) -> nat {
    if v < 0x7F {
        1
    } else if v < 0x3FFF {
        2
    } else if v < 0x1F_FFFF {
        3
    } else if v < 0xFFF_FFFF {
        4
    } else if v < 0x7_FFFF_FFFF {
        5
    } else if v < 0x3FF_FFFF_FFFF {
        6
    } else if v < 0x1_FFFF_FFFF_FFFF {
        7
    } else {
        8
    }
}

/// The length marker bit of a variable-length integer of `w` bytes.
pub open spec fn size_marker(w: nat) -> nat {
    if w == 1 {
        0x80
    } else if w == 2 {
        0x4000
    } else if w == 3 {
        0x20_0000
    } else if w == 4 {
        0x1000_0000
    } else if w == 5 {
        0x8_0000_0000
    } else if w == 6 {
        0x400_0000_0000
    } else if w == 7 {
        0x2_0000_0000_0000
    } else {
        0x100_0000_0000_0000
    }
}

/// A size field of `w` bytes stating `v`: the marker bit, then `v`.
pub open spec fn size_bytes(v: nat, w: nat) -> Seq<u8> {
    be_bytes(size_marker(w) + v, w)
}

/// The shortest size field stating `v`.
pub open spec fn size_field(v: nat) -> Seq<u8> {
    size_bytes(v, size_width(v))
}

/// The 8-byte "size unknown" pattern: the marker bit followed by all ones.
pub open spec fn unknown_size_field() -> Seq<u8> {
    be_bytes(0x01FF_FFFF_FFFF_FFFF, 8)
}

/// Bytes of an element ID; IDs carry their own length marker.
pub open spec fn id_width(id: nat) -> nat {
    if id < 0x100 {
        1
    } else if id < 0x1_0000 {
        2
    } else if id < 0x100_0000 {
        3
    } else {
        4
    }
}

pub open spec fn id_bytes(id: nat) -> Seq<u8> {
    be_bytes(id, id_width(id))
}

/// An element: its ID, the shortest size field for the payload, the payload.
pub open spec fn element(id: nat, payload: Seq<u8>) -> Seq<u8> {
    id_bytes(id) + size_field(payload.len()) + payload
}

/// An element whose payload is a minimal unsigned integer.
pub open spec fn uint_element(id: nat, v: nat) -> Seq<u8> {
    element(id, uint_bytes(v))
}

fn uint_width_of(v: u64) -> (w: usize)
    ensures
        w == uint_width(v as nat),
        1 <= w <= 8,
{
    if v < 0x100 {
        1
    } else if v < 0x1_0000 {
        2
    } else if v < 0x100_0000 {
        3
    } else if v < 0x1_0000_0000 {
        4
    } else if v < 0x100_0000_0000 {
        5
    } else if v < 0x1_0000_0000_0000 {
        6
    } else if v < 0x100_0000_0000_0000 {
        7
    } else {
        8
    }
}

fn size_width_of(v: u64) -> (w: usize)
    ensures
        w == size_width(v as nat),
        1 <= w <= 8,
{
    if v < 0x7F {
        1
    } else if v < 0x3FFF {
        2
    } else if v < 0x1F_FFFF {
        3
    } else if v < 0xFFF_FFFF {
        4
    } else if v < 0x7_FFFF_FFFF {
        5
    } else if v < 0x3FF_FFFF_FFFF {
        6
    } else if v < 0x1_FFFF_FFFF_FFFF {
        7
    } else {
        8
    }
}

fn size_marker_of(w: usize) -> (m: u64)
    requires
        1 <= w <= 8,
    ensures
        m == size_marker(w as nat),
        m <= 0x100_0000_0000_0000,
{
    if w == 1 {
        0x80
    } else if w == 2 {
        0x4000
    } else if w == 3 {
        0x20_0000
    } else if w == 4 {
        0x1000_0000
    } else if w == 5 {
        0x8_0000_0000
    } else if w == 6 {
        0x400_0000_0000
    } else if w == 7 {
        0x2_0000_0000_0000
    } else {
        0x100_0000_0000_0000
    }
}

pub proof fn lemma_element_len(id: nat, payload: Seq<u8>)
    ensures
        element(id, payload).len() == id_width(id) + size_width(payload.len()) + payload.len(),
        1 <= id_width(id) <= 4,
        1 <= size_width(payload.len()) <= 8,
{
    lemma_be_bytes_len(id, id_width(id));
    lemma_be_bytes_len(size_marker(size_width(payload.len())) + payload.len(), size_width(payload.len()));
}

pub proof fn lemma_uint_element_len(id: nat, v: nat)
    ensures
        uint_element(id, v).len() == id_width(id) + 1 + uint_width(v),
        uint_element(id, v).len() <= 13,
{
    lemma_be_bytes_len(v, uint_width(v));
    lemma_element_len(id, uint_bytes(v));
}

/// Appends every byte of `data` to `out`.
pub fn push_all(out: &mut Vec<u8>, data: &[u8])
    ensures
        final(out)@ == old(out)@ + data@,
{
    let ghost start = out@;
    let mut i: usize = 0;
    while i < data.len()
        invariant
            i <= data@.len(),
            out@ == start + data@.take(i as int),
        decreases data@.len() - i,
    {
        out.push(data[i]);
        proof {
            assert(data@.take(i + 1) == data@.take(i as int).push(data@[i as int]));
        }
        i = i + 1;
    }
    proof {
        assert(data@.take(data@.len() as int) == data@);
    }
}

/// Appends an element ID.
pub fn push_id(out: &mut Vec<u8>, id: u32)
    ensures
        final(out)@ == old(out)@ + id_bytes(id as nat),
{
    let w: usize = if id < 0x100 {
        1
    } else if id < 0x1_0000 {
        2
    } else if id < 0x100_0000 {
        3
    } else {
        4
    };
    push_be(out, id as u64, w);
}

/// Appends the shortest size field stating `v`.
pub fn push_size(out: &mut Vec<u8>, v: u64)
    requires
        v <= MAX_SIZE,
    ensures
        final(out)@ == old(out)@ + size_field(v as nat),
{
    let w = size_width_of(v);
    let m = size_marker_of(w);
    push_be(out, m + v, w);
}

/// Appends a size field of exactly eight bytes stating `v`, the form a writer
/// reserves when it means to patch the size later.
pub fn push_size8(out: &mut Vec<u8>, v: u64)
    requires
        v <= MAX_SIZE,
    ensures
        final(out)@ == old(out)@ + size_bytes(v as nat, 8),
{
    push_be(out, 0x100_0000_0000_0000 + v, 8);
}

/// Appends the 8-byte "size unknown" pattern.
pub fn push_unknown_size(out: &mut Vec<u8>)
    ensures
        final(out)@ == old(out)@ + unknown_size_field(),
{
    push_be(out, 0x01FF_FFFF_FFFF_FFFF, 8);
}

/// Appends an element whose payload is `payload`.
pub fn push_element(out: &mut Vec<u8>, id: u32, payload: &[u8])
    requires
        payload@.len() <= MAX_SIZE,
    ensures
        final(out)@ == old(out)@ + element(id as nat, payload@),
{
    push_id(out, id);
    push_size(out, payload.len() as u64);
    push_all(out, payload);
    proof {
        assert(final(out)@ =~= old(out)@ + element(id as nat, payload@));
    }
}

/// Appends an element whose payload is the minimal encoding of `v`.
pub fn push_uint_element(out: &mut Vec<u8>, id: u32, v: u64)
    ensures
        final(out)@ == old(out)@ + uint_element(id as nat, v as nat),
{
    let w = uint_width_of(v);
    let mut payload: Vec<u8> = Vec::new();
    push_be(&mut payload, v, w);
    proof {
        lemma_be_bytes_len(v as nat, w as nat);
    }
    push_element(out, id, payload.as_slice());
}


/// 2 raised to `e`.
pub open spec fn two_pow(e: nat) -> nat
    decreases e,
{
    if e == 0 {
        1
    } else {
        2 * two_pow((e - 1) as nat)
    }
}

/// The position of the highest set bit of `n` (zero for zero and one).
pub open spec fn log2_floor(n: nat) -> nat
    decreases n,
{
    if n < 2 {
        0
    } else {
        1 + log2_floor(n / 2)
    }
}

/// The IEEE-754 double-precision bit pattern of the integer `n`, for `n`
/// below 2^53, where every such integer is exact: biased exponent over a
/// 52-bit fraction that drops the leading one.
pub open spec fn f64_bits_of_int(n: nat) -> nat {
    if n == 0 {
        0
    } else {
        let e = log2_floor(n);
        ((1023 + e) * two_pow(52) + (n - two_pow(e)) * two_pow((52 - e) as nat)) as nat
    }
}

pub proof fn lemma_two_pow_add(a: nat, b: nat)
    ensures
        two_pow(a + b) == two_pow(a) * two_pow(b),
    decreases a,
{
    if a > 0 {
        let a1 = (a - 1) as nat;
        lemma_two_pow_add(a1, b);
        assert(a + b == (a1 + b) + 1);
        assert(two_pow(a + b) == 2 * two_pow(a1 + b));
        assert(two_pow(a) == 2 * two_pow(a1));
        vstd::arithmetic::mul::lemma_mul_is_associative(2, two_pow(a1) as int, two_pow(b) as int);
    } else {
        assert(two_pow(0) == 1);
        assert(a + b == b);
    }
}

pub proof fn lemma_two_pow_52()
    ensures
        two_pow(52) == 0x10_0000_0000_0000,
        two_pow(53) == 0x20_0000_0000_0000,
{
    reveal_with_fuel(two_pow, 54);
}

pub proof fn lemma_two_pow_pos(e: nat)
    ensures
        two_pow(e) >= 1,
    decreases e,
{
    if e > 0 {
        lemma_two_pow_pos((e - 1) as nat);
    }
}

/// `n` lies between 2^log2_floor(n) and the next power of two.
pub proof fn lemma_log2_bounds(n: nat)
    requires
        n >= 1,
    ensures
        two_pow(log2_floor(n)) <= n < two_pow(log2_floor(n) + 1),
    decreases n,
{
    if n >= 2 {
        let h = n / 2;
        lemma_log2_bounds(h);
        let e1 = log2_floor(h);
        assert(log2_floor(n) == e1 + 1);
        assert(two_pow(e1 + 1) == 2 * two_pow(e1));
        assert(two_pow(e1 + 2) == 2 * two_pow(e1 + 1));
    } else {
        assert(two_pow(0) == 1);
        assert(two_pow(1) == 2 * two_pow(0));
    }
}

pub proof fn lemma_two_pow_monotone(a: nat, b: nat)
    requires
        a <= b,
    ensures
        two_pow(a) <= two_pow(b),
{
    lemma_two_pow_add(a, (b - a) as nat);
    lemma_two_pow_pos((b - a) as nat);
    lemma_two_pow_pos(a);
    vstd::arithmetic::mul::lemma_mul_increases(two_pow((b - a) as nat) as int, two_pow(a) as int);
}

/// The IEEE-754 bit pattern of `n` as a double.
pub fn f64_bits_of(n: u64) -> (r: u64)
    requires
        n < 0x20_0000_0000_0000,
    ensures
        r == f64_bits_of_int(n as nat),
{
    if n == 0 {
        return 0;
    }
    proof {
        lemma_log2_bounds(n as nat);
        lemma_two_pow_52();
        if log2_floor(n as nat) >= 53 {
            lemma_two_pow_monotone(53, log2_floor(n as nat));
        }
    }
    let ghost lg = log2_floor(n as nat);
    let mut m: u64 = n;
    let mut e: u64 = 0;
    while m >= 2
        invariant
            m >= 1,
            lg == e + log2_floor(m as nat),
            lg <= 52,
        decreases m,
    {
        m = m / 2;
        e = e + 1;
    }
    let mut p: u64 = 1;
    let mut i: u64 = 0;
    while i < e
        invariant
            i <= e <= 52,
            p == two_pow(i as nat),
            p <= 0x10_0000_0000_0000,
        decreases e - i,
    {
        proof {
            lemma_two_pow_monotone((i + 1) as nat, 52);
            lemma_two_pow_52();
        }
        p = p * 2;
        i = i + 1;
    }
    let mut q: u64 = 1;
    let mut k: u64 = 0;
    while k < 52 - e
        invariant
            k <= 52 - e,
            e <= 52,
            q == two_pow(k as nat),
            q <= 0x10_0000_0000_0000,
        decreases 52 - e - k,
    {
        proof {
            lemma_two_pow_monotone((k + 1) as nat, 52);
            lemma_two_pow_52();
        }
        q = q * 2;
        k = k + 1;
    }
    proof {
        assert(e == lg);
        lemma_two_pow_add(e as nat, (52 - e) as nat);
        lemma_two_pow_pos(k as nat);
        lemma_two_pow_52();
        assert(two_pow(lg + 1) == 2 * two_pow(lg));
        assert(p == two_pow(lg));
        assert(n < 2 * p);
        assert((n - p) * q < p * q) by (nonlinear_arith)
            requires
                n - p < p,
                q >= 1,
        ;
    }
    (1023 + e) * 0x10_0000_0000_0000 + (n - p) * q
}

/// Appends an 8-byte float element holding the integer `n`.
pub fn push_float_element(out: &mut Vec<u8>, id: u32, n: u64)
    requires
        n < 0x20_0000_0000_0000,
    ensures
        final(out)@ == old(out)@ + element(id as nat, be_bytes(f64_bits_of_int(n as nat), 8)),
{
    let bits = f64_bits_of(n);
    let mut payload: Vec<u8> = Vec::new();
    push_be(&mut payload, bits, 8);
    proof {
        lemma_be_bytes_len(bits as nat, 8);
    }
    push_element(out, id, payload.as_slice());
}


/// Width of a variable-length integer, read from its first byte: one more
/// than the count of leading zero bits; zero where the byte is zero, which
/// no valid integer starts with.
pub open spec fn vint_width(b: u8) -> nat {
    if b >= 0x80 {
        1
    } else if b >= 0x40 {
        2
    } else if b >= 0x20 {
        3
    } else if b >= 0x10 {
        4
    } else if b >= 0x08 {
        5
    } else if b >= 0x04 {
        6
    } else if b >= 0x02 {
        7
    } else if b >= 0x01 {
        8
    } else {
        0
    }
}

/// The value of a variable-length integer's bytes: the bytes as a
/// big-endian number, less the length marker bit.
pub open spec fn vint_value(s: Seq<u8>) -> int {
    be_value(s) - size_marker(s.len())
}

pub proof fn lemma_be_value_bounds(s: Seq<u8>)
    requires
        s.len() >= 1,
    ensures
        s[0] as nat * pow256((s.len() - 1) as nat) <= be_value(s),
        be_value(s) < (s[0] as nat + 1) * pow256((s.len() - 1) as nat),
    decreases s.len(),
{
    if s.len() == 1 {
        assert(s.drop_last().len() == 0);
        assert(be_value(s.drop_last()) == 0);
        assert(s.last() == s[0]);
        assert(pow256(0) == 1);
        assert(be_value(s) == s[0] as nat);
    } else {
        let t = s.drop_last();
        lemma_be_value_bounds(t);
        assert(t[0] == s[0]);
        let p = pow256((t.len() - 1) as nat);
        assert(pow256((s.len() - 1) as nat) == 256 * p);
        assert(be_value(s) == be_value(t) * 256 + s.last() as nat);
        assert(s[0] as nat * (256 * p) <= be_value(t) * 256 + s.last() as nat) by (nonlinear_arith)
            requires
                s[0] as nat * p <= be_value(t),
        ;
        assert(be_value(t) * 256 + (s.last() as nat) < (s[0] as nat + 1) * (256 * p)) by (nonlinear_arith)
            requires
                be_value(t) < (s[0] as nat + 1) * p,
                s.last() < 256,
        ;
    }
}

/// Reading the big-endian digits back gives the number.
pub proof fn lemma_be_value_of_bytes(x: nat, w: nat)
    requires
        x < pow256(w),
    ensures
        be_value(be_bytes(x, w)) == x,
    decreases w,
{
    if w == 0 {
        assert(pow256(0) == 1);
    } else {
        lemma_be_bytes_len(x, w);
        let w1 = (w - 1) as nat;
        assert(x / 256 < pow256(w1)) by {
            vstd::arithmetic::div_mod::lemma_div_by_multiple_is_strongly_ordered(
                x as int, (256 * pow256(w1)) as int, pow256(w1) as int, 256);
        }
        lemma_be_value_of_bytes(x / 256, w1);
        assert(be_bytes(x, w).drop_last() == be_bytes(x / 256, w1));
    }
}

/// The marker bit of each width, as it stands in the first byte.
pub open spec fn marker_byte(w: nat) -> nat {
    if w == 1 {
        0x80
    } else if w == 2 {
        0x40
    } else if w == 3 {
        0x20
    } else if w == 4 {
        0x10
    } else if w == 5 {
        0x08
    } else if w == 6 {
        0x04
    } else if w == 7 {
        0x02
    } else {
        0x01
    }
}

pub proof fn lemma_marker_byte(w: nat)
    requires
        1 <= w <= 8,
    ensures
        marker_byte(w) * pow256((w - 1) as nat) == size_marker(w),
        2 * size_marker(w) <= pow256(w),
{
    reveal_with_fuel(pow256, 9);
}

/// Reads the variable-length integer at `pos`: its value and its width.
/// Refused where `pos` is past the end, where the first byte is zero (no
/// length bit), or where the integer runs past the end of `buf`.
pub fn read_vint(buf: &[u8], pos: usize) -> (r: Option<(u64, usize)>)
    ensures
        r is Some <==> pos < buf@.len() && vint_width(buf@[pos as int]) >= 1 && pos + vint_width(
            buf@[pos as int],
        ) <= buf@.len(),
        r matches Some((v, w)) ==> w == vint_width(buf@[pos as int]) && v == vint_value(
            buf@.subrange(pos as int, pos + w),
        ),
{
    if pos >= buf.len() {
        return None;
    }
    let first = buf[pos];
    let w: usize = if first >= 0x80 {
        1
    } else if first >= 0x40 {
        2
    } else if first >= 0x20 {
        3
    } else if first >= 0x10 {
        4
    } else if first >= 0x08 {
        5
    } else if first >= 0x04 {
        6
    } else if first >= 0x02 {
        7
    } else if first >= 0x01 {
        8
    } else {
        return None;
    };
    if w > buf.len() - pos {
        return None;
    }
    let mut full: u64 = first as u64;
    let end: usize = pos + w;
    let mut i: usize = pos + 1;
    proof {
        assert(buf@.subrange(pos as int, pos + 1) =~= seq![first]);
        assert(seq![first].drop_last() =~= Seq::<u8>::empty());
        assert(be_value(Seq::<u8>::empty()) == 0);
        assert(seq![first].last() == first);
        assert(be_value(seq![first]) == first as nat);
        assert(pow256(1) == 256) by {
            assert(pow256(0) == 1);
        }
    }
    while i < end
        invariant
            end == pos + w,
            pos < i <= pos + w,
            w <= 8,
            pos + w <= buf@.len(),
            full as nat == be_value(buf@.subrange(pos as int, i as int)),
            full < pow256((i - pos) as nat),
        decreases end - i,
    {
        let ghost k = (i - pos) as nat;
        proof {
            assert(buf@.subrange(pos as int, i + 1).drop_last() =~= buf@.subrange(pos as int, i as int));
            reveal_with_fuel(pow256, 9);
            assert(pow256(k + 1) == 256 * pow256(k));
            assert(k < 8);
            assert(pow256(k) <= pow256(7));
            assert(full * 256 + buf@[i as int] < 256 * pow256(k)) by (nonlinear_arith)
                requires
                    full < pow256(k),
                    buf@[i as int] < 256,
            ;
        }
        full = full * 256 + buf[i] as u64;
        i = i + 1;
    }
    let m = size_marker_of(w);
    proof {
        let s = buf@.subrange(pos as int, pos + w);
        lemma_be_value_bounds(s);
        lemma_marker_byte(w as nat);
        assert(s[0] == first);
        let mb = marker_byte(w as nat);
        assert(mb <= first);
        assert(mb * pow256((w - 1) as nat) <= first as nat * pow256((w - 1) as nat)) by (nonlinear_arith)
            requires
                mb <= first,
        ;
    }
    Some((full - m, w))
}


/// A size field of `w` bytes reads back, as a variable-length integer, as
/// `w` bytes wide and stating `v`.
pub proof fn lemma_size_bytes_round_trip(v: nat, w: nat)
    requires
        1 <= w <= 8,
        v < size_marker(w),
    ensures
        size_bytes(v, w).len() == w,
        vint_width(size_bytes(v, w)[0]) == w,
        vint_value(size_bytes(v, w)) == v,
{
    let x = size_marker(w) + v;
    let p = pow256((w - 1) as nat);
    let mb = marker_byte(w);
    lemma_marker_byte(w);
    lemma_pow256_pos((w - 1) as nat);
    lemma_be_bytes_len(x, w);
    lemma_be_value_of_bytes(x, w);
    lemma_be_bytes_index(x, w, 0);
    assert(mb * p <= x);
    assert(x < (2 * mb) * p) by (nonlinear_arith)
        requires
            x < 2 * (mb * p),
    ;
    vstd::arithmetic::div_mod::lemma_div_is_ordered((mb * p) as int, x as int, p as int);
    vstd::arithmetic::div_mod::lemma_div_by_multiple(mb as int, p as int);
    vstd::arithmetic::div_mod::lemma_div_by_multiple_is_strongly_ordered(
        x as int,
        ((2 * mb) * p) as int,
        (2 * mb) as int,
        p as int,
    );
    vstd::arithmetic::div_mod::lemma_div_by_multiple((2 * mb) as int, p as int);
    assert(mb <= x / p < 2 * mb);
    assert((x / p) % 256 == x / p);
}


/// The shortest size field stating `v` reads back as `v`.
pub proof fn lemma_size_field_round_trip(v: nat)
    requires
        v <= MAX_SIZE,
    ensures
        size_field(v).len() == size_width(v),
        vint_width(size_field(v)[0]) == size_width(v),
        vint_value(size_field(v)) == v,
{
    assert(v < size_marker(size_width(v)));
    lemma_size_bytes_round_trip(v, size_width(v));
}

/// The head of an element as read: its ID (marker bit kept), the bytes the
/// ID and size field take, and the payload size, `None` where the size is
/// the reserved "unknown" pattern.
#[derive(PartialEq, Eq, Structural, Clone, Copy, Debug)]
pub struct ElementHeader {
    pub id: u64,
    pub header_len: usize,
    pub size: Option<u64>,
}

/// Whether the element head at `pos` is well formed inside a parent ending
/// at `end`: an ID of one to four bytes whose value bits are not all zero,
/// a size field with a length bit, both inside the parent, and a known size
/// that does not run past the parent.
pub open spec fn element_header_ok(buf: Seq<u8>, pos: int, end: int) -> bool {
    let iw = vint_width(buf[pos]) as int;
    let sw = vint_width(buf[pos + iw]) as int;
    let size = vint_value(buf.subrange(pos + iw, pos + iw + sw));
    &&& pos < end
    &&& 1 <= iw <= 4
    &&& pos + iw < end
    &&& vint_value(buf.subrange(pos, pos + iw)) != 0
    &&& sw >= 1
    &&& pos + iw + sw <= end
    &&& size != size_marker(sw as nat) - 1 ==> pos + iw + sw + size <= end
}

/// Reads the element head at `pos` inside a parent ending at `end`; `None`
/// exactly where it is not well formed.
pub fn read_element_header(buf: &[u8], pos: usize, end: usize) -> (r: Option<ElementHeader>)
    requires
        end <= buf@.len(),
    ensures
        r is Some <==> element_header_ok(buf@, pos as int, end as int),
        r is Some ==> {
            let h = r->0;
            let iw = vint_width(buf@[pos as int]) as int;
            let sw = vint_width(buf@[pos + iw]) as int;
            let size = vint_value(buf@.subrange(pos + iw, pos + iw + sw));
            &&& h.id == be_value(buf@.subrange(pos as int, pos + iw))
            &&& h.header_len == iw + sw
            &&& h.size == if size == size_marker(sw as nat) - 1 {
                None::<u64>
            } else {
                Some(size as u64)
            }
        },
{
    if pos >= end {
        return None;
    }
    let (idv, iw) = match read_vint(buf, pos) {
        None => {
            return None;
        },
        Some(x) => x,
    };
    if iw > 4 || iw >= end - pos || idv == 0 {
        return None;
    }
    let (size, sw) = match read_vint(buf, pos + iw) {
        None => {
            return None;
        },
        Some(x) => x,
    };
    if sw > end - pos - iw {
        return None;
    }
    let m = size_marker_of(sw);
    proof {
        let ids = buf@.subrange(pos as int, pos + iw);
        lemma_be_value_bounds(ids);
        reveal_with_fuel(pow256, 4);
        assert(be_value(ids) < (ids[0] as nat + 1) * pow256((iw - 1) as nat));
        assert((ids[0] as nat + 1) * pow256((iw - 1) as nat) <= 256 * pow256(3)) by (nonlinear_arith)
            requires
                ids[0] < 256,
                pow256((iw - 1) as nat) <= pow256(3),
        ;
    }
    let id = idv + size_marker_of(iw);
    if size == m - 1 {
        return Some(ElementHeader { id, header_len: iw + sw, size: None });
    }
    if size > (end - pos - iw - sw) as u64 {
        return None;
    }
    Some(ElementHeader { id, header_len: iw + sw, size: Some(size) })
}

} // verus!
