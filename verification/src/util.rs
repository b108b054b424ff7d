//! Byte-level helpers shared by the frame codec and the body decoder:
//! searching for delimiter bytes, whitespace trimming, and the numeric
//! representations (hexadecimal and decimal) used on the wire.

use vstd::prelude::*;

verus! {

/// Line feed, the frame line terminator.
pub open spec fn lf() -> u8 {
    10
}

/// Carriage return, tolerated before a line feed.
pub open spec fn cr() -> u8 {
    13
}

/// The header separator byte `:`.
pub open spec fn colon() -> u8 {
    58
}

/// The NUL byte that terminates a frame body on the wire.
pub open spec fn nul() -> u8 {
    0
}

/// Index of the first occurrence of `b` in `s`, or `s.len()` if absent.
pub open spec fn find_byte(s: Seq<u8>, b: u8) -> int
    decreases s.len(),
{
    if s.len() == 0 {
        0
    } else if s[0] == b {
        0
    } else {
        1 + find_byte(s.subrange(1, s.len() as int), b)
    }
}

pub proof fn lemma_find_byte(s: Seq<u8>, b: u8)
    ensures
        0 <= find_byte(s, b) <= s.len(),
        find_byte(s, b) < s.len() ==> s[find_byte(s, b)] == b,
        forall|i: int| 0 <= i < find_byte(s, b) ==> s[i] != b,
    decreases s.len(),
{
    if s.len() == 0 {
    } else if s[0] == b {
    } else {
        let t = s.subrange(1, s.len() as int);
        lemma_find_byte(t, b);
        assert forall|i: int| 0 <= i < find_byte(s, b) implies s[i] != b by {
            if i >= 1 {
                assert(s[i] == t[i - 1]);
            }
        }
    }
}

/// Locate `b` in `v[from..to]`; returns `from` plus the offset of the first
/// occurrence, which is `to` itself when `b` is absent from the range.
pub fn scan_byte(v: &[u8], from: usize, to: usize, b: u8) -> (r: usize)
    requires
        from <= to <= v@.len(),
    ensures
        r == from + find_byte(v@.subrange(from as int, to as int), b),
        from <= r <= to,
        r < to ==> v@[r as int] == b,
        forall|j: int| from <= j < r ==> v@[j] != b,
{
    let mut i: usize = from;
    while i < to
        invariant
            from <= i <= to <= v@.len(),
            forall|j: int| from <= j < i ==> v@[j] != b,
        decreases to - i,
    {
        if v[i] == b {
            proof {
                lemma_find_byte_at(v@.subrange(from as int, to as int), b, i - from);
            }
            return i;
        }
        i += 1;
    }
    proof {
        lemma_find_byte_absent(v@.subrange(from as int, to as int), b);
    }
    i
}

/// If `s` has no `b` before `k` and `s[k] == b`, then `find_byte(s, b) == k`.
pub proof fn lemma_find_byte_at(s: Seq<u8>, b: u8, k: int)
    requires
        0 <= k < s.len(),
        s[k] == b,
        forall|j: int| 0 <= j < k ==> s[j] != b,
    ensures
        find_byte(s, b) == k,
    decreases s.len(),
{
    if k == 0 {
    } else {
        lemma_find_byte_at(s.subrange(1, s.len() as int), b, k - 1);
    }
}

/// If `b` occurs nowhere in `s`, then `find_byte(s, b) == s.len()`.
pub proof fn lemma_find_byte_absent(s: Seq<u8>, b: u8)
    requires
        forall|j: int| 0 <= j < s.len() ==> s[j] != b,
    ensures
        find_byte(s, b) == s.len(),
    decreases s.len(),
{
    if s.len() == 0 {
    } else {
        lemma_find_byte_absent(s.subrange(1, s.len() as int), b);
    }
}

/// Bytes treated as surrounding whitespace when header keys and values are
/// trimmed: space, horizontal tab and carriage return.
pub open spec fn is_ws(b: u8) -> bool {
    b == 32 || b == 9 || b == 13
}

/// `s` without its leading whitespace bytes.
pub open spec fn trim_front(s: Seq<u8>) -> Seq<u8>
    decreases s.len(),
{
    if s.len() > 0 && is_ws(s[0]) {
        trim_front(s.subrange(1, s.len() as int))
    } else {
        s
    }
}

/// `s` without its trailing whitespace bytes.
pub open spec fn trim_back(s: Seq<u8>) -> Seq<u8>
    decreases s.len(),
{
    if s.len() > 0 && is_ws(s[s.len() - 1]) {
        trim_back(s.subrange(0, s.len() - 1))
    } else {
        s
    }
}

/// `s` without surrounding whitespace.
pub open spec fn trim_bytes(s: Seq<u8>) -> Seq<u8> {
    trim_back(trim_front(s))
}

/// When the first `i` bytes are whitespace and byte `i` is not (or `i` is the
/// end), trimming the front drops exactly those `i` bytes.
pub proof fn lemma_trim_front_at(s: Seq<u8>, i: int)
    requires
        0 <= i <= s.len(),
        forall|j: int| 0 <= j < i ==> is_ws(s[j]),
        i < s.len() ==> !is_ws(s[i]),
    ensures
        trim_front(s) == s.subrange(i, s.len() as int),
    decreases s.len(),
{
    if i == 0 {
        assert(s.subrange(0, s.len() as int) =~= s);
    } else {
        let t = s.subrange(1, s.len() as int);
        lemma_trim_front_at(t, i - 1);
        assert(t.subrange(i - 1, t.len() as int) =~= s.subrange(i, s.len() as int));
    }
}

/// When the bytes from `j` on are whitespace and byte `j - 1` is not (or `j`
/// is 0), trimming the back keeps exactly the first `j` bytes.
pub proof fn lemma_trim_back_at(s: Seq<u8>, j: int)
    requires
        0 <= j <= s.len(),
        forall|k: int| j <= k < s.len() ==> is_ws(s[k]),
        j > 0 ==> !is_ws(s[j - 1]),
    ensures
        trim_back(s) == s.subrange(0, j),
    decreases s.len(),
{
    if j == s.len() {
        assert(s.subrange(0, s.len() as int) =~= s);
    } else {
        let t = s.subrange(0, s.len() - 1);
        lemma_trim_back_at(t, j);
        assert(t.subrange(0, j) =~= s.subrange(0, j));
    }
}

/// A sequence with no whitespace at either end is unchanged by trimming.
pub proof fn lemma_trim_stable(s: Seq<u8>)
    requires
        s.len() > 0 ==> !is_ws(s[0]) && !is_ws(s[s.len() - 1]),
    ensures
        trim_bytes(s) == s,
{
    lemma_trim_front_at(s, 0);
    lemma_trim_back_at(s, s.len() as int);
    assert(s.subrange(0, s.len() as int) =~= s);
}

/// Copy of `v[from..to]` with surrounding whitespace removed.
pub fn trim_range(v: &[u8], from: usize, to: usize) -> (r: Vec<u8>)
    requires
        from <= to <= v@.len(),
    ensures
        r@ == trim_bytes(v@.subrange(from as int, to as int)),
{
    let ghost s = v@.subrange(from as int, to as int);
    let mut lo: usize = from;
    while lo < to && is_ws_byte(v[lo])
        invariant
            from <= lo <= to <= v@.len(),
            forall|j: int| from <= j < lo ==> is_ws(v@[j]),
        decreases to - lo,
    {
        lo += 1;
    }
    let mut hi: usize = to;
    while hi > lo && is_ws_byte(v[hi - 1])
        invariant
            from <= lo <= hi <= to <= v@.len(),
            forall|j: int| from <= j < lo ==> is_ws(v@[j]),
            forall|j: int| hi <= j < to ==> is_ws(v@[j]),
        decreases hi - lo,
    {
        hi -= 1;
    }
    proof {
        lemma_trim_front_at(s, lo - from);
        let t = s.subrange(lo - from, s.len() as int);
        lemma_trim_back_at(t, hi - lo);
        assert(t.subrange(0, hi - lo) =~= v@.subrange(lo as int, hi as int));
    }
    copy_range(v, lo, hi)
}

/// Whether `b` counts as surrounding whitespace.
pub fn is_ws_byte(b: u8) -> (r: bool)
    ensures
        r == is_ws(b),
{
    b == 32 || b == 9 || b == 13
}

/// Copy of `v[from..to]` as a fresh vector.
pub fn copy_range(v: &[u8], from: usize, to: usize) -> (r: Vec<u8>)
    requires
        from <= to <= v@.len(),
    ensures
        r@ == v@.subrange(from as int, to as int),
{
    let mut out: Vec<u8> = Vec::new();
    let mut i: usize = from;
    while i < to
        invariant
            from <= i <= to <= v@.len(),
            out@ == v@.subrange(from as int, i as int),
        decreases to - i,
    {
        out.push(v[i]);
        i += 1;
        proof {
            assert(out@ =~= v@.subrange(from as int, i as int));
        }
    }
    out
}

/// Append every byte of `v` to `out`.
pub fn push_bytes(out: &mut Vec<u8>, v: &[u8])
    ensures
        final(out)@ == old(out)@ + v@,
{
    let mut i: usize = 0;
    while i < v.len()
        invariant
            0 <= i <= v@.len(),
            out@ == old(out)@ + v@.subrange(0, i as int),
        decreases v@.len() - i,
    {
        out.push(v[i]);
        i += 1;
        proof {
            assert(out@ =~= old(out)@ + v@.subrange(0, i as int));
        }
    }
    proof {
        assert(old(out)@ + v@.subrange(0, v@.len() as int) =~= old(out)@ + v@);
    }
}

/// Whether two byte slices hold the same bytes.
pub fn bytes_eq(a: &[u8], b: &[u8]) -> (r: bool)
    ensures
        r == (a@ == b@),
{
    if a.len() != b.len() {
        return false;
    }
    let mut i: usize = 0;
    while i < a.len()
        invariant
            0 <= i <= a@.len(),
            a@.len() == b@.len(),
            forall|j: int| 0 <= j < i ==> a@[j] == b@[j],
        decreases a@.len() - i,
    {
        if a[i] != b[i] {
            return false;
        }
        i += 1;
    }
    proof {
        assert(a@ =~= b@);
    }
    true
}

/// The characters of a byte sequence, each byte read as one character.
pub open spec fn bytes_as_chars(s: Seq<u8>) -> Seq<char> {
    s.map_values(|b: u8| b as char)
}

/// Relies on `String::push`: appends exactly the given character.
#[verifier::external_body]
fn push_char(s: &mut String, c: char)
    ensures
        final(s)@ == old(s)@.push(c),
{
    s.push(c);
}

/// The text whose characters are the bytes of `v`, byte for byte.
pub fn bytes_to_text(v: &[u8]) -> (r: String)
    ensures
        r@ == bytes_as_chars(v@),
{
    let mut out = String::new();
    let mut i: usize = 0;
    while i < v.len()
        invariant
            0 <= i <= v@.len(),
            out@ == bytes_as_chars(v@.subrange(0, i as int)),
        decreases v@.len() - i,
    {
        push_char(&mut out, v[i] as char);
        i += 1;
        proof {
            assert(out@ =~= bytes_as_chars(v@.subrange(0, i as int)));
        }
    }
    proof {
        assert(v@.subrange(0, v@.len() as int) =~= v@);
    }
    out
}

/// Whether `b` is an ASCII hexadecimal digit.
pub open spec fn is_hex_digit(b: u8) -> bool {
    (48 <= b <= 57) || (97 <= b <= 102) || (65 <= b <= 70)
}

/// Numeric value of a hexadecimal digit byte.
pub open spec fn hex_digit_value(b: u8) -> nat {
    if 48 <= b <= 57 {
        (b - 48) as nat
    } else if 97 <= b <= 102 {
        (b - 87) as nat
    } else if 65 <= b <= 70 {
        (b - 55) as nat
    } else {
        0
    }
}

/// Value of a most-significant-first sequence of hexadecimal digit bytes.
pub open spec fn hex_value(s: Seq<u8>) -> nat
    decreases s.len(),
{
    if s.len() == 0 {
        0
    } else {
        hex_value(s.drop_last()) * 16 + hex_digit_value(s.last())
    }
}

/// Lower-case digit byte for a value below 16.
pub open spec fn hex_digit_byte(d: nat) -> u8 {
    if d < 10 {
        (48 + d) as u8
    } else {
        (87 + d) as u8
    }
}

/// Shortest lower-case hexadecimal rendering of `n`.
pub open spec fn hex_repr(n: nat) -> Seq<u8>
    decreases n,
{
    if n < 16 {
        seq![hex_digit_byte(n)]
    } else {
        hex_repr(n / 16).push(hex_digit_byte(n % 16))
    }
}

/// 16 to the power `k`.
pub open spec fn pow16(k: nat) -> nat
    decreases k,
{
    if k == 0 {
        1
    } else {
        16 * pow16((k - 1) as nat)
    }
}

/// The rendering of `n` consists of hexadecimal digits, is never empty, and
/// reads back as `n`.
pub proof fn lemma_hex_repr(n: nat)
    ensures
        hex_repr(n).len() >= 1,
        forall|i: int| 0 <= i < hex_repr(n).len() ==> is_hex_digit(#[trigger] hex_repr(n)[i]),
        hex_value(hex_repr(n)) == n,
    decreases n,
{
    if n < 16 {
        let s = hex_repr(n);
        assert(s.drop_last() =~= Seq::<u8>::empty());
        assert(hex_value(Seq::<u8>::empty()) == 0);
        assert(hex_value(s) == hex_digit_value(hex_digit_byte(n)));
    } else {
        lemma_hex_repr(n / 16);
        let s = hex_repr(n);
        assert(s.drop_last() =~= hex_repr(n / 16));
        assert(hex_value(s) == (n / 16) * 16 + n % 16);
        assert((n / 16) * 16 + n % 16 == n) by (nonlinear_arith);
        assert forall|i: int| 0 <= i < s.len() implies is_hex_digit(#[trigger] s[i]) by {
            if i < s.len() - 1 {
                assert(s[i] == hex_repr(n / 16)[i]);
            }
        }
    }
}

/// A value below `pow16(k)` renders in at most `k` digits.
pub proof fn lemma_hex_repr_len(n: nat, k: nat)
    requires
        k >= 1,
        n < pow16(k),
    ensures
        hex_repr(n).len() <= k,
    decreases n,
{
    if n >= 16 {
        assert(pow16(k) == 16 * pow16((k - 1) as nat));
        assert(n / 16 < pow16((k - 1) as nat)) by (nonlinear_arith)
            requires
                n < 16 * pow16((k - 1) as nat),
        ;
        lemma_hex_repr_len(n / 16, (k - 1) as nat);
    }
}

/// A sequence of at most `k` hexadecimal digits reads back below `pow16(k)`.
pub proof fn lemma_hex_value_bound(s: Seq<u8>)
    ensures
        hex_value(s) < pow16(s.len()),
    decreases s.len(),
{
    if s.len() == 0 {
    } else {
        lemma_hex_value_bound(s.drop_last());
        assert(hex_value(s.drop_last()) * 16 + 15 < pow16(s.len())) by (nonlinear_arith)
            requires
                hex_value(s.drop_last()) < pow16((s.len() - 1) as nat),
                pow16(s.len()) == 16 * pow16((s.len() - 1) as nat),
        ;
        assert(hex_digit_value(s.last()) <= 15);
    }
}

/// `pow16(16)` is one past the largest `u64`.
pub proof fn lemma_pow16_16()
    ensures
        pow16(16) == 0x1_0000_0000_0000_0000,
{
    reveal_with_fuel(pow16, 17);
}

/// Value of the hexadecimal digits in `v`, which must number at most 16.
pub fn parse_hex(v: &Vec<u8>) -> (r: u64)
    requires
        1 <= v@.len() <= 16,
        forall|i: int| 0 <= i < v@.len() ==> is_hex_digit(v@[i]),
    ensures
        r == hex_value(v@),
{
    proof {
        lemma_pow16_16();
    }
    let mut acc: u64 = 0;
    let mut i: usize = 0;
    while i < v.len()
        invariant
            0 <= i <= v@.len() <= 16,
            forall|j: int| 0 <= j < v@.len() ==> is_hex_digit(v@[j]),
            acc == hex_value(v@.subrange(0, i as int)),
            pow16(16) == 0x1_0000_0000_0000_0000,
        decreases v@.len() - i,
    {
        let b = v[i];
        let d: u64 = if 48 <= b && b <= 57 {
            (b - 48) as u64
        } else if 97 <= b && b <= 102 {
            (b - 87) as u64
        } else {
            (b - 55) as u64
        };
        proof {
            let p = v@.subrange(0, i as int);
            lemma_hex_value_bound(p);
            lemma_pow16_mono(p.len(), 15);
            assert(hex_value(p) < pow16(15));
            assert(16 * pow16(15) == pow16(16));
            assert(acc * 16 + d < 0x1_0000_0000_0000_0000) by (nonlinear_arith)
                requires
                    acc < pow16(15),
                    d <= 15,
                    16 * pow16(15) == 0x1_0000_0000_0000_0000,
            ;
            assert(v@.subrange(0, i + 1).drop_last() =~= p);
        }
        acc = acc * 16 + d;
        i += 1;
    }
    proof {
        assert(v@.subrange(0, v@.len() as int) =~= v@);
    }
    acc
}

/// `pow16` grows with its exponent.
pub proof fn lemma_pow16_mono(a: nat, b: nat)
    requires
        a <= b,
    ensures
        pow16(a) <= pow16(b),
    decreases b,
{
    if a < b {
        lemma_pow16_mono(a, (b - 1) as nat);
        assert(pow16(b) == 16 * pow16((b - 1) as nat));
    }
}

/// Whether `b` is an ASCII decimal digit.
pub open spec fn is_dec_digit(b: u8) -> bool {
    48 <= b <= 57
}

/// Value of a most-significant-first sequence of decimal digit bytes.
pub open spec fn dec_value(s: Seq<u8>) -> nat
    decreases s.len(),
{
    if s.len() == 0 {
        0
    } else {
        dec_value(s.drop_last()) * 10 + (if is_dec_digit(s.last()) {
            (s.last() - 48) as nat
        } else {
            0
        })
    }
}

/// Shortest decimal rendering of `n`.
pub open spec fn dec_repr(n: nat) -> Seq<u8>
    decreases n,
{
    if n < 10 {
        seq![(48 + n) as u8]
    } else {
        dec_repr(n / 10).push((48 + n % 10) as u8)
    }
}

/// What parsing a decimal byte sequence yields: the value when every byte is
/// a digit, there is at least one, and the value fits in a `u64`.
pub open spec fn spec_parse_dec(s: Seq<u8>) -> Option<u64> {
    if s.len() >= 1 && (forall|i: int| 0 <= i < s.len() ==> is_dec_digit(s[i])) && dec_value(s)
        <= u64::MAX {
        Some(dec_value(s) as u64)
    } else {
        None
    }
}

/// Appending digits never lowers the value.
proof fn lemma_dec_value_prefix(s: Seq<u8>, i: int)
    requires
        0 <= i <= s.len(),
    ensures
        dec_value(s.subrange(0, i)) <= dec_value(s),
    decreases s.len() - i,
{
    if i == s.len() {
        assert(s.subrange(0, i) =~= s);
    } else {
        lemma_dec_value_prefix(s, i + 1);
        let p = s.subrange(0, i + 1);
        assert(p.drop_last() =~= s.subrange(0, i));
        assert(dec_value(p) == dec_value(s.subrange(0, i)) * 10 + (if is_dec_digit(p.last()) {
            (p.last() - 48) as nat
        } else {
            0
        }));
        assert(dec_value(s.subrange(0, i)) <= dec_value(s.subrange(0, i)) * 10) by (nonlinear_arith);
    }
}

/// Parse `v` as an unsigned decimal number, rejecting junk and overflow.
pub fn parse_dec(v: &[u8]) -> (r: Option<u64>)
    ensures
        r == spec_parse_dec(v@),
{
    if v.len() == 0 {
        return None;
    }
    let mut acc: u64 = 0;
    let mut i: usize = 0;
    while i < v.len()
        invariant
            0 <= i <= v@.len(),
            v@.len() >= 1,
            forall|j: int| 0 <= j < i ==> is_dec_digit(v@[j]),
            acc == dec_value(v@.subrange(0, i as int)),
        decreases v@.len() - i,
    {
        let b = v[i];
        if !(48 <= b && b <= 57) {
            return None;
        }
        let d: u64 = (b - 48) as u64;
        if acc > (u64::MAX - d) / 10 {
            proof {
                let p = v@.subrange(0, i + 1);
                assert(p.drop_last() =~= v@.subrange(0, i as int));
                assert(dec_value(p) == acc * 10 + d);
                assert(acc * 10 + d > u64::MAX) by (nonlinear_arith)
                    requires
                        acc > (u64::MAX - d) / 10,
                        d <= 9,
                ;
                lemma_dec_value_prefix(v@, i + 1);
            }
            return None;
        }
        proof {
            let p = v@.subrange(0, i + 1);
            assert(p.drop_last() =~= v@.subrange(0, i as int));
            assert(acc * 10 + d <= u64::MAX) by (nonlinear_arith)
                requires
                    acc <= (u64::MAX - d) / 10,
                    d <= 9,
            ;
        }
        acc = acc * 10 + d;
        i += 1;
    }
    proof {
        assert(v@.subrange(0, v@.len() as int) =~= v@);
    }
    Some(acc)
}

/// Decimal rendering of `n`, appended to `out`.
pub fn push_dec_repr(out: &mut Vec<u8>, n: u64)
    ensures
        final(out)@ == old(out)@ + dec_repr(n as nat),
    decreases n,
{
    if n < 10 {
        out.push((48 + n) as u8);
    } else {
        push_dec_repr(out, n / 10);
        out.push((48 + n % 10) as u8);
        proof {
            assert(old(out)@ + dec_repr(n as nat) =~= (old(out)@ + dec_repr((n / 10) as nat)).push(
                (48 + n % 10) as u8,
            ));
        }
    }
}

/// Hexadecimal rendering of `n`, appended to `out`.
pub fn push_hex_repr(out: &mut Vec<u8>, n: u64)
    ensures
        final(out)@ == old(out)@ + hex_repr(n as nat),
    decreases n,
{
    if n < 16 {
        let d = n as u8;
        out.push(if d < 10 { 48 + d } else { 87 + d });
    } else {
        push_hex_repr(out, n / 16);
        let d = (n % 16) as u8;
        out.push(if d < 10 { 48 + d } else { 87 + d });
        proof {
            assert(old(out)@ + hex_repr(n as nat) =~= (old(out)@ + hex_repr((n / 16) as nat)).push(
                hex_digit_byte((n % 16) as nat),
            ));
        }
    }
}

/// ASCII lower-casing of one byte.
pub open spec fn lower_byte(b: u8) -> u8 {
    if 65 <= b <= 90 {
        (b + 32) as u8
    } else {
        b
    }
}

/// ASCII lower-casing of a byte sequence.
pub open spec fn lower_bytes(s: Seq<u8>) -> Seq<u8> {
    s.map_values(|b: u8| lower_byte(b))
}

/// The ASCII lower-case copy of `v`.
pub fn lower_vec(v: &[u8]) -> (r: Vec<u8>)
    ensures
        r@ == lower_bytes(v@),
{
    let mut out: Vec<u8> = Vec::new();
    let mut i: usize = 0;
    while i < v.len()
        invariant
            0 <= i <= v@.len(),
            out@.len() == i,
            forall|j: int| 0 <= j < i ==> out@[j] == lower_byte(v@[j]),
        decreases v@.len() - i,
    {
        let b = v[i];
        out.push(if 65 <= b && b <= 90 { b + 32 } else { b });
        i += 1;
    }
    proof {
        assert(out@ =~= lower_bytes(v@));
    }
    out
}

/// Whether two byte slices are equal up to ASCII case.
pub fn eq_ignore_case(a: &[u8], b: &[u8]) -> (r: bool)
    ensures
        r == (lower_bytes(a@) == lower_bytes(b@)),
{
    if a.len() != b.len() {
        assert(lower_bytes(a@).len() != lower_bytes(b@).len());
        return false;
    }
    let mut i: usize = 0;
    while i < a.len()
        invariant
            0 <= i <= a@.len(),
            a@.len() == b@.len(),
            forall|j: int| 0 <= j < i ==> lower_byte(a@[j]) == lower_byte(b@[j]),
        decreases a@.len() - i,
    {
        let la = if 65 <= a[i] && a[i] <= 90 { a[i] + 32 } else { a[i] };
        let lb = if 65 <= b[i] && b[i] <= 90 { b[i] + 32 } else { b[i] };
        if la != lb {
            assert(lower_bytes(a@)[i as int] != lower_bytes(b@)[i as int]);
            return false;
        }
        i += 1;
    }
    proof {
        assert(lower_bytes(a@) =~= lower_bytes(b@));
    }
    true
}

} // verus!
