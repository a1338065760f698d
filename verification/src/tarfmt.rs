//! The tar archive format: headers, octal fields, checksums, and the
//! byte-exact reading and writing of whole archives held in memory.
//!
//! An archive is a sequence of entries; each entry is a 512-byte header
//! block, the payload, and zero padding up to the next block boundary; the
//! archive ends at an all-zero block (or at the end of the bytes), and a
//! written archive is terminated by two all-zero blocks.

use crate::RewriteError;
use vstd::arithmetic::div_mod::lemma_div_denominator;
use vstd::prelude::*;
use vstd::slice::{slice_index_get, slice_subrange, slice_to_vec, SliceAdditionalExecFns};

verus! {

broadcast use crate::json::lemma_vec_deep_view;

// ---------------------------------------------------------------------------
// Octal fields
// ---------------------------------------------------------------------------
pub open spec fn is_octal_digit(b: u8) -> bool {
    48 <= b <= 55
}

/// The value of a sequence of octal digit bytes, most significant first.
pub open spec fn oct_val(s: Seq<u8>) -> int
    decreases s.len(),
{
    if s.len() == 0 {
        0
    } else {
        oct_val(s.drop_last()) * 8 + (s.last() - 48)
    }
}

pub open spec fn pow8(n: nat) -> nat
    decreases n,
{
    if n == 0 {
        1
    } else {
        8 * pow8((n - 1) as nat)
    }
}

/// The `w` octal digit bytes of `v`, most significant first.
pub open spec fn octal_digits(v: nat, w: nat) -> Seq<u8>
    decreases w,
{
    if w == 0 {
        Seq::empty()
    } else {
        octal_digits(v / 8, (w - 1) as nat).push((48 + (v % 8)) as u8)
    }
}

pub open spec fn all_octal(s: Seq<u8>) -> bool {
    forall|i: int| 0 <= i < s.len() ==> is_octal_digit(#[trigger] s[i])
}

/// The first position at or after `i` that is not a space.
pub open spec fn skip_spaces(s: Seq<u8>, i: int) -> int
    decreases s.len() - i,
{
    if 0 <= i < s.len() && s[i] == 32 {
        skip_spaces(s, i + 1)
    } else {
        i
    }
}

/// The first position at or after `i` that is not an octal digit.
pub open spec fn digits_end(s: Seq<u8>, i: int) -> int
    decreases s.len() - i,
{
    if 0 <= i < s.len() && is_octal_digit(s[i]) {
        digits_end(s, i + 1)
    } else {
        i
    }
}

/// How a numeric tar header field reads: leading spaces, then at least one
/// octal digit, then only NUL or space filler to the end of the field.
pub open spec fn parse_octal(s: Seq<u8>) -> Option<nat> {
    let st = skip_spaces(s, 0);
    let en = digits_end(s, st);
    if en > st && (forall|k: int| en <= k < s.len() ==> s[k] == 0 || s[k] == 32) {
        Some(oct_val(s.subrange(st, en)) as nat)
    } else {
        None
    }
}

pub proof fn lemma_pow8_pos(n: nat)
    ensures
        pow8(n) >= 1,
    decreases n,
{
    if n > 0 {
        lemma_pow8_pos((n - 1) as nat);
    }
}

/// Octal digit sequences are all digits and carry the value back.
pub proof fn lemma_octal_digits_val(v: nat, w: nat)
    requires
        v < pow8(w),
    ensures
        octal_digits(v, w).len() == w,
        all_octal(octal_digits(v, w)),
        oct_val(octal_digits(v, w)) == v,
    decreases w,
{
    if w > 0 {
        lemma_pow8_pos((w - 1) as nat);
        assert(v / 8 < pow8((w - 1) as nat)) by {
            if v / 8 >= pow8((w - 1) as nat) {
                assert(v >= 8 * pow8((w - 1) as nat));
            }
        }
        lemma_octal_digits_val(v / 8, (w - 1) as nat);
        let s = octal_digits(v, w);
        assert(s.drop_last() =~= octal_digits(v / 8, (w - 1) as nat));
        assert(s.last() == (48 + (v % 8)) as u8);
        assert(oct_val(s) == (v / 8) * 8 + v % 8);
    }
}

/// Each digit of `octal_digits` is the corresponding power-of-eight digit.
pub proof fn lemma_octal_digit_at(v: nat, w: nat, j: int)
    requires
        0 <= j < w,
    ensures
        octal_digits(v, w)[j] == (48 + (v / pow8((w - 1 - j) as nat)) % 8) as u8,
    decreases w,
{
    let s = octal_digits(v, w);
    assert(s.len() == w) by {
        lemma_octal_digits_len(v, w);
    }
    if j == w - 1 {
        assert(s[j] == (48 + (v % 8)) as u8);
        assert(pow8(0) == 1);
        assert(v / 1 == v);
    } else {
        lemma_octal_digit_at(v / 8, (w - 1) as nat, j);
        assert(s[j] == octal_digits(v / 8, (w - 1) as nat)[j]);
        let k = (w - 2 - j) as nat;
        lemma_pow8_pos(k);
        lemma_div_denominator(v as int, 8, pow8(k) as int);
        assert(8 * pow8(k) == pow8((w - 1 - j) as nat));
    }
}

pub proof fn lemma_octal_digits_len(v: nat, w: nat)
    ensures
        octal_digits(v, w).len() == w,
    decreases w,
{
    if w > 0 {
        lemma_octal_digits_len(v / 8, (w - 1) as nat);
    }
}

/// Reads a numeric header field.
pub fn parse_octal_field(field: &[u8]) -> (r: Option<u64>)
    requires
        field@.len() <= 12,
    ensures
        match r {
            Some(v) => parse_octal(field@) == Some(v as nat),
            None => parse_octal(field@) is None,
        },
{
    let n = field.len();
    let mut i: usize = 0;
    while i < n && *slice_index_get(field, i) == 32
        invariant
            0 <= i <= n,
            n == field@.len(),
            skip_spaces(field@, 0) == skip_spaces(field@, i as int),
        decreases n - i,
    {
        i = i + 1;
    }
    proof {
        assert(skip_spaces(field@, i as int) == i);
    }
    let st = i;
    let mut val: u64 = 0;
    while i < n && 48 <= *slice_index_get(field, i) && *slice_index_get(field, i) <= 55
        invariant
            st <= i <= n,
            n == field@.len() <= 12,
            st == skip_spaces(field@, 0),
            digits_end(field@, st as int) == digits_end(field@, i as int),
            all_octal(field@.subrange(st as int, i as int)),
            val == oct_val(field@.subrange(st as int, i as int)),
            val < pow8((i - st) as nat),
        decreases n - i,
    {
        let d = *slice_index_get(field, i);
        proof {
            lemma_pow8_pos((i - st) as nat);
            assert(pow8(((i + 1) - st) as nat) == 8 * pow8((i - st) as nat));
            assert(pow8(12 as nat) == 0x1000000000) by {
                reveal_with_fuel(pow8, 13);
            }
            lemma_pow8_mono((i + 1 - st) as nat, 12);
        }
        val = val * 8 + (d - 48) as u64;
        proof {
            assert(field@.subrange(st as int, (i + 1) as int).drop_last() =~= field@.subrange(
                st as int,
                i as int,
            ));
        }
        i = i + 1;
    }
    proof {
        assert(digits_end(field@, i as int) == i);
    }
    let en = i;
    if en == st {
        proof {
            assert(parse_octal(field@) is None);
        }
        return None;
    }
    while i < n
        invariant
            en <= i <= n,
            n == field@.len(),
            st == skip_spaces(field@, 0),
            en == digits_end(field@, st as int),
            st < en,
            val == oct_val(field@.subrange(st as int, en as int)),
            forall|k: int| en <= k < i ==> field@[k] == 0 || field@[k] == 32,
        decreases n - i,
    {
        let b = *slice_index_get(field, i);
        if b != 0 && b != 32 {
            proof {
                assert(parse_octal(field@) is None);
            }
            return None;
        }
        i = i + 1;
    }
    Some(val)
}

pub proof fn lemma_pow8_mono(a: nat, b: nat)
    requires
        a <= b,
    ensures
        pow8(a) <= pow8(b),
    decreases b,
{
    if a < b {
        lemma_pow8_pos(a);
        lemma_pow8_mono(a, (b - 1) as nat);
    }
}

// ---------------------------------------------------------------------------
// Header fields
// ---------------------------------------------------------------------------
/// `s` with the bytes at `off ..` replaced by `repl`.
pub open spec fn splice(s: Seq<u8>, off: int, repl: Seq<u8>) -> Seq<u8> {
    Seq::new(
        s.len(),
        |i: int|
            if off <= i < off + repl.len() {
                repl[i - off]
            } else {
                s[i]
            },
    )
}

/// Writes the `w`-digit octal form of `v` at `off`.
fn write_octal(h: &mut Vec<u8>, off: usize, w: usize, v: u64)
    requires
        off + w <= old(h)@.len(),
        v < pow8(w as nat),
    ensures
        final(h)@ == splice(old(h)@, off as int, octal_digits(v as nat, w as nat)),
{
    proof {
        lemma_octal_digits_len(v as nat, w as nat);
    }
    let hlen = h.len();
    proof {
        assert(pow8(0) == 1);
        assert(v as nat / 1 == v as nat);
    }
    let mut cur: u64 = v;
    let mut k: usize = 0;
    while k < w
        invariant
            0 <= k <= w,
            off + w <= hlen,
            hlen == h@.len(),
            h@.len() == old(h)@.len(),
            cur == v as nat / pow8(k as nat),
            forall|t: int|
                0 <= t < k ==> #[trigger] h@[off + w - 1 - t] == octal_digits(
                    v as nat,
                    w as nat,
                )[w - 1 - t],
            forall|i: int|
                0 <= i < h@.len() && !(off <= i < off + w) ==> h@[i] == old(h)@[i],
            forall|i: int| off <= i < off + w - k ==> h@[i] == old(h)@[i],
        decreases w - k,
    {
        let d: u8 = 48 + (cur % 8) as u8;
        proof {
            lemma_octal_digit_at(v as nat, w as nat, w - 1 - k);
            lemma_pow8_pos(k as nat);
            lemma_div_denominator(v as int, pow8(k as nat) as int, 8);
            assert(pow8((k + 1) as nat) == 8 * pow8(k as nat)) by {
                lemma_pow8_unfold((k + 1) as nat);
            }
            assert(pow8(k as nat) * 8 == 8 * pow8(k as nat));
        }
        h[off + w - 1 - k] = d;
        cur = cur / 8;
        k = k + 1;
    }
    proof {
        let digits = octal_digits(v as nat, w as nat);
        assert forall|i2: int| 0 <= i2 < h@.len() implies h@[i2] == splice(
            old(h)@,
            off as int,
            digits,
        )[i2] by {
            if off <= i2 < off + w {
                let t = off + w - 1 - i2;
                assert(h@[off + w - 1 - t] == digits[w - 1 - t]);
            }
        }
        assert(h@ =~= splice(old(h)@, off as int, digits));
    }
}

proof fn lemma_pow8_unfold(n: nat)
    requires
        n >= 1,
    ensures
        pow8(n) == 8 * pow8((n - 1) as nat),
{
}

// ---------------------------------------------------------------------------
// Checksums
// ---------------------------------------------------------------------------
/// One byte's contribution to a header checksum: the checksum field itself
/// counts as spaces.
pub open spec fn cksum_byte(h: Seq<u8>, i: int) -> int {
    if 148 <= i < 156 {
        32
    } else {
        h[i] as int
    }
}

pub open spec fn cksum_sum(h: Seq<u8>, n: int) -> int
    decreases n,
{
    if n <= 0 {
        0
    } else {
        cksum_sum(h, n - 1) + cksum_byte(h, n - 1)
    }
}

/// The checksum of a 512-byte header block.
pub open spec fn checksum_of(h: Seq<u8>) -> int {
    cksum_sum(h, 512)
}

pub proof fn lemma_cksum_sum_bounds(h: Seq<u8>, n: int)
    requires
        n <= h.len(),
    ensures
        0 <= cksum_sum(h, n) <= 255 * (if n >= 0 {
            n
        } else {
            0
        }),
    decreases n,
{
    if n > 0 {
        lemma_cksum_sum_bounds(h, n - 1);
    }
}

/// Computes the checksum of a 512-byte header block.
fn compute_checksum(h: &Vec<u8>) -> (r: u64)
    requires
        h@.len() == 512,
    ensures
        r == checksum_of(h@),
        r <= 130560,
{
    let mut sum: u64 = 0;
    let mut i: usize = 0;
    while i < 512
        invariant
            0 <= i <= 512,
            h@.len() == 512,
            sum == cksum_sum(h@, i as int),
            sum <= 255 * i,
        decreases 512 - i,
    {
        let b: u64 = if i >= 148 && i < 156 {
            32
        } else {
            h[i] as u64
        };
        sum = sum + b;
        i = i + 1;
    }
    sum
}

/// The checksum field written into a header: six octal digits, a NUL and a
/// space.
pub open spec fn cksum_field_bytes(ck: int) -> Seq<u8> {
    octal_digits(ck as nat, 6) + seq![0u8, 32u8]
}

/// A header with its checksum field filled in.
pub open spec fn with_cksum(h: Seq<u8>) -> Seq<u8> {
    splice(h, 148, cksum_field_bytes(checksum_of(h)))
}

/// Recomputes and writes the checksum field of a 512-byte header.
pub fn set_cksum(h: &mut Vec<u8>)
    requires
        old(h)@.len() == 512,
    ensures
        final(h)@ == with_cksum(old(h)@),
{
    let ck = compute_checksum(h);
    proof {
        assert(pow8(6) == 262144) by {
            reveal_with_fuel(pow8, 7);
        }
        lemma_cksum_sum_bounds(h@, 512);
    }
    write_octal(h, 148, 6, ck);
    h[154] = 0;
    h[155] = 32;
    proof {
        lemma_octal_digits_len(ck as nat, 6);
        assert(h@ =~= with_cksum(old(h)@));
    }
}

/// The size field of a header: eleven octal digits and a NUL.
pub open spec fn size_field_bytes(n: nat) -> Seq<u8> {
    octal_digits(n, 11).push(0u8)
}

/// A header with its size field replaced by `n`.
pub open spec fn with_size(h: Seq<u8>, n: nat) -> Seq<u8> {
    splice(h, 124, size_field_bytes(n))
}

/// The bound above which a payload no longer fits an eleven-digit size
/// field.
pub open spec fn size_limit() -> nat {
    pow8(11)
}

/// Writes the size field of a 512-byte header.
pub fn set_size(h: &mut Vec<u8>, n: usize)
    requires
        old(h)@.len() == 512,
        n < size_limit(),
    ensures
        final(h)@ == with_size(old(h)@, n as nat),
{
    proof {
        assert(pow8(11) == 0x200000000) by {
            reveal_with_fuel(pow8, 12);
        }
    }
    write_octal(h, 124, 11, n as u64);
    h[135] = 0;
    proof {
        lemma_octal_digits_len(n as nat, 11);
        assert(h@ =~= with_size(old(h)@, n as nat));
    }
}

/// A freshly written size field parses back to the size it was written
/// from.
pub proof fn lemma_size_field_roundtrip(n: nat)
    requires
        n < size_limit(),
    ensures
        parse_octal(size_field_bytes(n)) == Some(n),
{
    let s = size_field_bytes(n);
    lemma_octal_digits_val(n, 11);
    let d = octal_digits(n, 11);
    assert(s.len() == 12);
    assert(forall|i: int| 0 <= i < 11 ==> s[i] == d[i]);
    assert(s[11] == 0);
    assert(!is_octal_digit(0u8));
    assert(s[0] != 32);
    assert(skip_spaces(s, 0) == 0);
    lemma_digits_prefix_end(s, 0, 11);
    assert(digits_end(s, 0) == 11);
    assert(s.subrange(0, 11) =~= d);
}

/// In a field whose first `en` bytes are digits and whose byte at `en` is
/// not, the digit run read from `i` ends at `en`.
proof fn lemma_digits_prefix_end(s: Seq<u8>, i: int, en: int)
    requires
        0 <= i <= en < s.len(),
        forall|k: int| 0 <= k < en ==> is_octal_digit(#[trigger] s[k]),
        !is_octal_digit(s[en]),
    ensures
        digits_end(s, i) == en,
    decreases en - i,
{
    if i < en {
        lemma_digits_prefix_end(s, i + 1, en);
    }
}

// ---------------------------------------------------------------------------
// Entries
// ---------------------------------------------------------------------------
/// One archive entry: its raw 512-byte header, its normalized path, and its
/// payload.
#[derive(Debug)]
pub struct TarEntry {
    pub header: Vec<u8>,
    pub path: Vec<u8>,
    pub data: Vec<u8>,
}

/// The mathematical model of an entry.
pub struct TarEntryV {
    pub header: Seq<u8>,
    pub path: Seq<u8>,
    pub data: Seq<u8>,
}

impl DeepView for TarEntry {
    type V = TarEntryV;

    open spec fn deep_view(&self) -> TarEntryV {
        TarEntryV { header: self.header@, path: self.path@, data: self.data@ }
    }
}

pub open spec fn size_field(h: Seq<u8>) -> Seq<u8> {
    h.subrange(124, 136)
}

/// A well-formed entry: a full header block whose size field names the
/// payload's length, and whose recorded path is the one the header carries.
pub open spec fn entry_wf(e: TarEntryV) -> bool {
    &&& e.header.len() == 512
    &&& parse_octal(size_field(e.header)) == Some(e.data.len())
    &&& e.path == entry_path(e.header)
}

/// The first position of a NUL byte at or after `i`.
pub open spec fn nul_end(s: Seq<u8>, i: int) -> int
    decreases s.len() - i,
{
    if 0 <= i < s.len() && s[i] != 0 {
        nul_end(s, i + 1)
    } else {
        i
    }
}

/// The bytes of a NUL-terminated field, up to the terminator.
pub open spec fn cstr(f: Seq<u8>) -> Seq<u8> {
    f.subrange(0, nul_end(f, 0))
}

/// Path normalization: backslashes become the canonical separator.
pub open spec fn norm_byte(b: u8) -> u8 {
    if b == 92 {
        47
    } else {
        b
    }
}

pub open spec fn normalize(s: Seq<u8>) -> Seq<u8> {
    s.map_values(|b: u8| norm_byte(b))
}

/// Whether a header carries the POSIX magic, under which the prefix field
/// extends the path.
pub open spec fn is_ustar(h: Seq<u8>) -> bool {
    h[257] == 117 && h[258] == 115 && h[259] == 116 && h[260] == 97 && h[261] == 114 && h[262]
        == 0
}

pub open spec fn raw_path(h: Seq<u8>) -> Seq<u8> {
    let name = cstr(h.subrange(0, 100));
    if is_ustar(h) && h[345] != 0 {
        cstr(h.subrange(345, 500)) + seq![47u8] + name
    } else {
        name
    }
}

/// The normalized path a header names an entry by.
pub open spec fn entry_path(h: Seq<u8>) -> Seq<u8> {
    normalize(raw_path(h))
}

/// Rewriting the size field does not change the path a header carries.
pub proof fn lemma_entry_path_with_size(h: Seq<u8>, n: nat)
    requires
        h.len() == 512,
    ensures
        entry_path(with_size(h, n)) == entry_path(h),
{
    let h2 = with_size(h, n);
    lemma_octal_digits_len(n, 11);
    assert(h2.subrange(0, 100) =~= h.subrange(0, 100));
    assert(h2.subrange(345, 500) =~= h.subrange(345, 500));
    assert(h2[257] == h[257] && h2[258] == h[258] && h2[259] == h[259] && h2[260] == h[260]
        && h2[261] == h[261] && h2[262] == h[262] && h2[345] == h[345]);
}

/// Appends the normalized bytes of the NUL-terminated field `h[a..b]`.
fn append_cstr_norm(out: &mut Vec<u8>, h: &Vec<u8>, a: usize, b: usize)
    requires
        a <= b <= h@.len(),
    ensures
        final(out)@ == old(out)@ + normalize(cstr(h@.subrange(a as int, b as int))),
{
    let ghost f = h@.subrange(a as int, b as int);
    let mut j: usize = a;
    while j < b && h[j] != 0
        invariant
            a <= j,
            j <= b <= h@.len(),
            f == h@.subrange(a as int, b as int),
            nul_end(f, 0) == nul_end(f, j - a),
            forall|k: int| 0 <= k < j - a ==> f[k] != 0,
        decreases b - j,
    {
        proof {
            assert(f[j - a] == h@[j as int]);
        }
        j = j + 1;
    }
    proof {
        assert(nul_end(f, j - a) == j - a);
    }
    let ghost base = out@;
    let mut k: usize = a;
    while k < j
        invariant
            a <= k <= j <= b <= h@.len(),
            f == h@.subrange(a as int, b as int),
            j - a == nul_end(f, 0),
            out@ == base + normalize(f.subrange(0, k - a)),
        decreases j - k,
    {
        let byte = h[k];
        let nb: u8 = if byte == 92 {
            47
        } else {
            byte
        };
        out.push(nb);
        proof {
            assert(f.subrange(0, k + 1 - a).drop_last() =~= f.subrange(0, k - a));
            assert(f.subrange(0, k + 1 - a).last() == h@[k as int]);
            assert(normalize(f.subrange(0, k + 1 - a)) =~= normalize(f.subrange(0, k - a)).push(
                norm_byte(h@[k as int]),
            ));
        }
        k = k + 1;
    }
    proof {
        assert(f.subrange(0, nul_end(f, 0)) =~= cstr(f));
        assert(out@ =~= base + normalize(cstr(f)));
    }
}

/// Reads the normalized path a 512-byte header names its entry by.
pub fn entry_path_of(h: &Vec<u8>) -> (r: Vec<u8>)
    requires
        h@.len() == 512,
    ensures
        r@ == entry_path(h@),
{
    let mut out: Vec<u8> = Vec::new();
    let ustar = h[257] == 117 && h[258] == 115 && h[259] == 116 && h[260] == 97 && h[261] == 114
        && h[262] == 0;
    if ustar && h[345] != 0 {
        append_cstr_norm(&mut out, h, 345, 500);
        out.push(47);
        let ghost mid = out@;
        append_cstr_norm(&mut out, h, 0, 100);
        proof {
            assert(norm_byte(47) == 47);
            assert(out@ =~= normalize(raw_path(h@)));
        }
    } else {
        append_cstr_norm(&mut out, h, 0, 100);
        proof {
            assert(out@ =~= normalize(raw_path(h@)));
        }
    }
    out
}

// ---------------------------------------------------------------------------
// Reading an archive
// ---------------------------------------------------------------------------
/// The payload length rounded up to a whole number of 512-byte blocks.
pub open spec fn pad512(n: nat) -> nat {
    (n + ((512 - (n % 512)) % 512)) as nat
}

pub open spec fn zero_block(s: Seq<u8>) -> bool {
    s.len() == 512 && forall|i: int| 0 <= i < 512 ==> s[i] == 0
}

/// The entries of the archive bytes from offset `o` on: the empty sequence
/// at the end of the bytes or at an all-zero block; `None` on a truncated
/// or unreadable stream.
pub open spec fn entries_from(s: Seq<u8>, o: int) -> Option<Seq<TarEntryV>>
    decreases s.len() - o,
{
    if o == s.len() {
        Some(Seq::empty())
    } else if o < 0 || o + 512 > s.len() {
        None
    } else if zero_block(s.subrange(o, o + 512)) {
        Some(Seq::empty())
    } else {
        let h = s.subrange(o, o + 512);
        match parse_octal(size_field(h)) {
            None => None,
            Some(sz) => {
                if o + 512 + pad512(sz) > s.len() {
                    None
                } else {
                    let e = TarEntryV {
                        header: h,
                        path: entry_path(h),
                        data: s.subrange(o + 512, o + 512 + sz),
                    };
                    match entries_from(s, o + 512 + pad512(sz)) {
                        None => None,
                        Some(rest) => Some(seq![e] + rest),
                    }
                }
            },
        }
    }
}

pub open spec fn join_entries(a: Seq<TarEntryV>, r: Option<Seq<TarEntryV>>) -> Option<
    Seq<TarEntryV>,
> {
    match r {
        None => None,
        Some(t) => Some(a + t),
    }
}

/// Whether the 512 bytes at `o` are all zero.
fn all_zero_block(bytes: &[u8], o: usize) -> (r: bool)
    requires
        o + 512 <= bytes@.len(),
    ensures
        r == zero_block(bytes@.subrange(o as int, o + 512)),
{
    let ghost blk = bytes@.subrange(o as int, o + 512);
    let n = bytes.len();
    let mut z: usize = 0;
    while z < 512
        invariant
            0 <= z <= 512,
            o + 512 <= n,
            n == bytes@.len(),
            blk == bytes@.subrange(o as int, o + 512),
            forall|k: int| 0 <= k < z ==> #[trigger] blk[k] == 0,
        decreases 512 - z,
    {
        if *slice_index_get(bytes, o + z) != 0 {
            proof {
                assert(blk[z as int] != 0);
            }
            return false;
        }
        z = z + 1;
    }
    true
}

/// Reads a whole archive into its entries.  `Err` exactly when the bytes
/// are not a well-formed tar stream.
pub fn parse_archive(bytes: &[u8]) -> (r: Result<Vec<TarEntry>, RewriteError>)
    ensures
        match r {
            Ok(es) => entries_from(bytes@, 0) == Some(es.deep_view()) && forall|i: int|
                0 <= i < es.deep_view().len() ==> entry_wf(#[trigger] es.deep_view()[i]),
            Err(e) => e == RewriteError::BadArchive && entries_from(bytes@, 0) is None,
        },
{
    let n = bytes.len();
    let mut o: usize = 0;
    let mut acc: Vec<TarEntry> = Vec::new();
    loop
        invariant
            o <= n,
            n == bytes@.len(),
            entries_from(bytes@, 0) == join_entries(
                acc.deep_view(),
                entries_from(bytes@, o as int),
            ),
            forall|i: int|
                0 <= i < acc.deep_view().len() ==> entry_wf(#[trigger] acc.deep_view()[i]),
        decreases n - o,
    {
        let ghost s = bytes@;
        if o == n {
            proof {
                assert(entries_from(s, o as int) == Some(Seq::<TarEntryV>::empty()));
                assert(acc.deep_view() + Seq::<TarEntryV>::empty() =~= acc.deep_view());
            }
            return Ok(acc);
        }
        if n - o < 512 {
            proof {
                assert(entries_from(s, o as int) is None);
            }
            return Err(RewriteError::BadArchive);
        }
        // an all-zero block terminates the archive
        if all_zero_block(bytes, o) {
            proof {
                assert(entries_from(s, o as int) == Some(Seq::<TarEntryV>::empty()));
                assert(acc.deep_view() + Seq::<TarEntryV>::empty() =~= acc.deep_view());
            }
            return Ok(acc);
        }
        let ghost h = s.subrange(o as int, o + 512);
        let size_f = slice_subrange(bytes, o + 124, o + 136);
        proof {
            assert(size_f@ =~= size_field(h));
        }
        let sz64 = match parse_octal_field(size_f) {
            Some(v) => v,
            None => {
                proof {
                    assert(entries_from(s, o as int) is None);
                }
                return Err(RewriteError::BadArchive);
            },
        };
        let rem = n - o - 512;
        if sz64 > rem as u64 {
            proof {
                assert(pad512(sz64 as nat) >= sz64 as nat);
                assert(entries_from(s, o as int) is None);
            }
            return Err(RewriteError::BadArchive);
        }
        let sz = sz64 as usize;
        let pad: usize = if sz % 512 == 0 {
            0
        } else {
            512 - sz % 512
        };
        proof {
            assert(pad512(sz as nat) == sz + pad);
        }
        if pad > rem - sz {
            proof {
                assert(entries_from(s, o as int) is None);
            }
            return Err(RewriteError::BadArchive);
        }
        let header = slice_to_vec(slice_subrange(bytes, o, o + 512));
        let data = slice_to_vec(slice_subrange(bytes, o + 512, o + 512 + sz));
        let path = entry_path_of(&header);
        let e = TarEntry { header, path, data };
        let ghost ev = e.deep_view();
        let ghost acc_pre = acc.deep_view();
        acc.push(e);
        let ghost o2 = o + 512 + pad512(sz as nat);
        proof {
            assert(ev == (TarEntryV { header: h, path: entry_path(h), data: s.subrange(o + 512, o + 512 + sz as int) }));
            assert(entries_from(s, o as int) == match entries_from(s, o2) {
                None => None::<Seq<TarEntryV>>,
                Some(rest) => Some(seq![ev] + rest),
            });
            assert(acc.deep_view() =~= acc_pre.push(ev));
            match entries_from(s, o2) {
                None => {
                    assert(entries_from(s, o as int) is None);
                },
                Some(rest) => {
                    assert(acc_pre + (seq![ev] + rest) =~= acc_pre.push(ev) + rest);
                },
            }
            assert(entry_wf(ev));
            assert forall|i: int| 0 <= i < acc.deep_view().len() implies entry_wf(
                #[trigger] acc.deep_view()[i],
            ) by {
                if i < acc_pre.len() {
                    assert(acc.deep_view()[i] == acc_pre[i]);
                }
            }
        }
        o = o + 512 + sz + pad;
    }
}

// ---------------------------------------------------------------------------
// Writing an archive
// ---------------------------------------------------------------------------
pub open spec fn zeros(n: nat) -> Seq<u8> {
    Seq::new(n, |i: int| 0u8)
}

/// One entry as written out: the header with a fresh checksum, the payload,
/// and zero padding to the block boundary.
pub open spec fn encode_entry(e: TarEntryV) -> Seq<u8> {
    with_cksum(e.header) + e.data + zeros((pad512(e.data.len()) - e.data.len()) as nat)
}

pub open spec fn encode_entries(es: Seq<TarEntryV>) -> Seq<u8>
    decreases es.len(),
{
    if es.len() == 0 {
        Seq::empty()
    } else {
        encode_entry(es[0]) + encode_entries(es.drop_first())
    }
}

/// A whole archive as written out: every entry in order, then two all-zero
/// terminator blocks.
pub open spec fn encode_archive(es: Seq<TarEntryV>) -> Seq<u8> {
    encode_entries(es) + zeros(1024)
}

proof fn lemma_encode_entries_push(a: Seq<TarEntryV>, e: TarEntryV)
    ensures
        encode_entries(a.push(e)) == encode_entries(a) + encode_entry(e),
    decreases a.len(),
{
    if a.len() == 0 {
        assert(a.push(e)[0] == e);
        assert(a.push(e).drop_first() =~= a);
        assert(encode_entries(a) + encode_entry(e) =~= encode_entry(e) + Seq::<u8>::empty());
        assert(encode_entry(e) + encode_entries(Seq::<TarEntryV>::empty()) =~= encode_entry(e)
            + Seq::<u8>::empty());
    } else {
        lemma_encode_entries_push(a.drop_first(), e);
        assert(a.push(e).drop_first() =~= a.drop_first().push(e));
        assert(a.push(e)[0] == a[0]);
        assert(encode_entry(a[0]) + (encode_entries(a.drop_first()) + encode_entry(e))
            =~= (encode_entry(a[0]) + encode_entries(a.drop_first())) + encode_entry(e));
    }
}

/// An entry as it reads back after being written: the header carries the
/// fresh checksum; the path and the payload are unchanged.
pub open spec fn written_entry(e: TarEntryV) -> TarEntryV {
    TarEntryV { header: with_cksum(e.header), path: e.path, data: e.data }
}

/// Rewriting the checksum field does not change the path a header carries.
pub proof fn lemma_entry_path_with_cksum(h: Seq<u8>)
    requires
        h.len() == 512,
    ensures
        entry_path(with_cksum(h)) == entry_path(h),
{
    let h2 = with_cksum(h);
    lemma_octal_digits_len(checksum_of(h) as nat, 6);
    assert(h2.subrange(0, 100) =~= h.subrange(0, 100));
    assert(h2.subrange(345, 500) =~= h.subrange(345, 500));
    assert(h2[257] == h[257] && h2[258] == h[258] && h2[259] == h[259] && h2[260] == h[260]
        && h2[261] == h[261] && h2[262] == h[262] && h2[345] == h[345]);
}

/// Reading at an offset past a prefix is reading the suffix.
proof fn lemma_entries_from_shift(pre: Seq<u8>, tail: Seq<u8>, o: int)
    requires
        0 <= o <= tail.len(),
    ensures
        entries_from(pre + tail, pre.len() + o) == entries_from(tail, o),
    decreases tail.len() - o,
{
    let s = pre + tail;
    let po = pre.len() + o;
    if o == tail.len() {
    } else if o + 512 > tail.len() {
    } else {
        assert(s.subrange(po, po + 512) =~= tail.subrange(o, o + 512));
        let h = tail.subrange(o, o + 512);
        if !zero_block(h) {
            match parse_octal(size_field(h)) {
                None => {},
                Some(sz) => {
                    if o + 512 + pad512(sz) <= tail.len() {
                        assert(s.subrange(po + 512, po + 512 + sz) =~= tail.subrange(
                            o + 512,
                            o + 512 + sz,
                        ));
                        lemma_entries_from_shift(pre, tail, o + 512 + pad512(sz));
                    }
                },
            }
        }
    }
}

/// Law: a written archive reads back as the same entries: each with its
/// checksum refreshed, its path and its payload byte-for-byte unchanged.
pub proof fn lemma_encode_parse_roundtrip(es: Seq<TarEntryV>)
    requires
        forall|i: int| 0 <= i < es.len() ==> entry_wf(#[trigger] es[i]),
    ensures
        entries_from(encode_archive(es), 0) == Some(
            Seq::new(es.len(), |i: int| written_entry(es[i])),
        ),
    decreases es.len(),
{
    let s = encode_archive(es);
    if es.len() == 0 {
        assert(s =~= zeros(1024));
        assert(zero_block(s.subrange(0, 512))) by {
            assert(forall|i: int| 0 <= i < 512 ==> #[trigger] s.subrange(0, 512)[i] == 0);
        }
        assert(Seq::new(0, |i: int| written_entry(es[i])) =~= Seq::<TarEntryV>::empty());
    } else {
        let e0 = es[0];
        let d = e0.data;
        let h2 = with_cksum(e0.header);
        lemma_cksum_sum_bounds(e0.header, 512);
        lemma_octal_digits_len(checksum_of(e0.header) as nat, 6);
        assert(h2.len() == 512);
        assert(h2[155] == 32);
        assert(!zero_block(h2));
        assert(size_field(h2) =~= size_field(e0.header));
        lemma_entry_path_with_cksum(e0.header);
        let tail = encode_archive(es.drop_first());
        assert(s =~= encode_entry(e0) + tail) by {
            assert(encode_entries(es) == encode_entry(e0) + encode_entries(es.drop_first()));
        }
        let pad = (pad512(d.len()) - d.len()) as nat;
        assert(encode_entry(e0).len() == 512 + d.len() + pad);
        assert(s.subrange(0, 512) =~= h2);
        assert(s.subrange(512, 512 + d.len() as int) =~= d);
        assert(tail.len() >= 1024) by {
            lemma_encode_entries_len(es.drop_first());
        }
        assert(0 + 512 + pad512(d.len()) <= s.len());
        assert(forall|i: int|
            0 <= i < es.drop_first().len() ==> entry_wf(#[trigger] es.drop_first()[i]));
        lemma_encode_parse_roundtrip(es.drop_first());
        lemma_entries_from_shift(encode_entry(e0), tail, 0);
        assert(entries_from(s, 512 + pad512(d.len()) as int) == entries_from(tail, 0));
        let parsed0 = TarEntryV {
            header: s.subrange(0, 512),
            path: entry_path(s.subrange(0, 512)),
            data: s.subrange(512, 512 + d.len() as int),
        };
        assert(parsed0 == written_entry(e0));
        assert(seq![written_entry(e0)] + Seq::new(
            es.drop_first().len(),
            |i: int| written_entry(es.drop_first()[i]),
        ) =~= Seq::new(es.len(), |i: int| written_entry(es[i])));
    }
}

proof fn lemma_encode_entries_len(es: Seq<TarEntryV>)
    ensures
        encode_archive(es).len() >= 1024,
{
}

/// Appends the bytes of a slice.
fn push_bytes(dst: &mut Vec<u8>, src: &[u8])
    ensures
        final(dst)@ == old(dst)@ + src@,
{
    let mut i: usize = 0;
    while i < src.len()
        invariant
            0 <= i <= src@.len(),
            dst@ == old(dst)@ + src@.subrange(0, i as int),
        decreases src@.len() - i,
    {
        dst.push(*slice_index_get(src, i));
        proof {
            assert(old(dst)@ + src@.subrange(0, i + 1) =~= (old(dst)@ + src@.subrange(
                0,
                i as int,
            )).push(src@[i as int]));
        }
        i = i + 1;
    }
    proof {
        assert(src@.subrange(0, src@.len() as int) =~= src@);
    }
}

/// Appends `n` zero bytes.
fn push_zeros(dst: &mut Vec<u8>, n: usize)
    ensures
        final(dst)@ == old(dst)@ + zeros(n as nat),
{
    let mut i: usize = 0;
    while i < n
        invariant
            0 <= i <= n,
            dst@ == old(dst)@ + zeros(i as nat),
        decreases n - i,
    {
        dst.push(0);
        proof {
            assert(old(dst)@ + zeros((i + 1) as nat) =~= (old(dst)@ + zeros(i as nat)).push(0u8));
        }
        i = i + 1;
    }
}

/// Writes the entries out as one archive, recomputing every header's
/// checksum.
pub fn build_archive(entries: &Vec<TarEntry>) -> (r: Vec<u8>)
    requires
        forall|i: int|
            0 <= i < entries.deep_view().len() ==> (#[trigger] entries.deep_view()[i]).header.len()
                == 512,
    ensures
        r@ == encode_archive(entries.deep_view()),
{
    let ghost dv = entries.deep_view();
    let mut out: Vec<u8> = Vec::new();
    let mut idx: usize = 0;
    while idx < entries.len()
        invariant
            0 <= idx <= entries@.len(),
            dv == entries.deep_view(),
            dv.len() == entries@.len(),
            forall|i: int| 0 <= i < dv.len() ==> (#[trigger] dv[i]).header.len() == 512,
            out@ == encode_entries(dv.subrange(0, idx as int)),
        decreases entries@.len() - idx,
    {
        let entry = &entries[idx];
        proof {
            assert(entry.deep_view() == dv[idx as int]);
        }
        let mut hc = slice_to_vec(entry.header.as_slice());
        set_cksum(&mut hc);
        push_bytes(&mut out, hc.as_slice());
        push_bytes(&mut out, entry.data.as_slice());
        let dl = entry.data.len();
        let pad: usize = if dl % 512 == 0 {
            0
        } else {
            512 - dl % 512
        };
        proof {
            assert(pad512(dl as nat) == dl + pad);
        }
        push_zeros(&mut out, pad);
        proof {
            lemma_encode_entries_push(dv.subrange(0, idx as int), dv[idx as int]);
            assert(dv.subrange(0, idx as int).push(dv[idx as int]) =~= dv.subrange(
                0,
                idx + 1,
            ));
            assert(out@ =~= encode_entries(dv.subrange(0, idx as int)) + encode_entry(
                dv[idx as int],
            ));
        }
        idx = idx + 1;
    }
    push_zeros(&mut out, 1024);
    proof {
        assert(dv.subrange(0, dv.len() as int) =~= dv);
    }
    out
}


} // verus!
