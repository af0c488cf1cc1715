//! The loader configuration: line-oriented text, `key=value` per line.
//!
//! Blank lines and lines starting with `#` are ignored. Unknown keys are
//! ignored too — never fatal. Numeric values are decimal, or hexadecimal
//! with a `0x` prefix; the resolution is `WxH` in decimal.

use vstd::prelude::*;

verus! {

/// Configuration for the loader.
#[derive(Debug)]
pub struct Config {
    /// The address at which the kernel stack is placed.
    pub kernel_stack_address: u64,
    /// The size of the kernel stack, in number of 4 KiB pages.
    pub kernel_stack_size: u64,
    /// The offset into the virtual address space where physical memory is
    /// mapped.
    pub physical_memory_offset: u64,
    /// The path of the kernel executable.
    pub kernel_path: Vec<u8>,
    /// The requested resolution of the graphic output.
    pub resolution: Option<(usize, usize)>,
    /// The path of the initial ramdisk, if any.
    pub initramfs: Option<Vec<u8>>,
    /// The kernel command line.
    pub cmdline: Vec<u8>,
}

/// The mathematical value of a configuration.
pub struct ConfigView {
    pub kernel_stack_address: u64,
    pub kernel_stack_size: u64,
    pub physical_memory_offset: u64,
    pub kernel_path: Seq<u8>,
    pub resolution: Option<(usize, usize)>,
    pub initramfs: Option<Seq<u8>>,
    pub cmdline: Seq<u8>,
}

impl View for Config {
    type V = ConfigView;

    open spec fn view(&self) -> ConfigView {
        ConfigView {
            kernel_stack_address: self.kernel_stack_address,
            kernel_stack_size: self.kernel_stack_size,
            physical_memory_offset: self.physical_memory_offset,
            kernel_path: self.kernel_path@,
            resolution: self.resolution,
            initramfs: match self.initramfs {
                Some(ref v) => Some(v@),
                None => None,
            },
            cmdline: self.cmdline@,
        }
    }
}

/// The configuration the loader starts from before reading the file.
pub open spec fn spec_default_config() -> ConfigView {
    ConfigView {
        kernel_stack_address: 0xFFFF_FF01_0000_0000,
        kernel_stack_size: 512,
        physical_memory_offset: 0xFFFF_8000_0000_0000,
        kernel_path: default_kernel_path(),
        resolution: None,
        initramfs: None,
        cmdline: Seq::empty(),
    }
}

/// The default kernel path, `\EFI\rCore\kernel.elf`, as bytes.
pub open spec fn default_kernel_path() -> Seq<u8> {
    seq![
        92u8,
        69u8,
        70u8,
        73u8,
        92u8,
        114u8,
        67u8,
        111u8,
        114u8,
        101u8,
        92u8,
        107u8,
        101u8,
        114u8,
        110u8,
        101u8,
        108u8,
        46u8,
        101u8,
        108u8,
        102u8,
    ]
}

/// ASCII whitespace, as trimming understands it.
pub open spec fn is_space(b: u8) -> bool {
    b == 0x20 || (0x09 <= b <= 0x0D)
}

/// Drop leading whitespace.
pub open spec fn trim_front(s: Seq<u8>) -> Seq<u8>
    decreases s.len(),
{
    if s.len() > 0 && is_space(s[0]) {
        trim_front(s.skip(1))
    } else {
        s
    }
}

/// Drop trailing whitespace.
pub open spec fn trim_back(s: Seq<u8>) -> Seq<u8>
    decreases s.len(),
{
    if s.len() > 0 && is_space(s.last()) {
        trim_back(s.drop_last())
    } else {
        s
    }
}

/// Drop whitespace on both sides.
pub open spec fn spec_trim(s: Seq<u8>) -> Seq<u8> {
    trim_back(trim_front(s))
}

/// Index of the first occurrence of `b` in `s`, or `-1`.
pub open spec fn find_byte(s: Seq<u8>, b: u8) -> int
    decreases s.len(),
{
    if s.len() == 0 {
        -1
    } else if s[0] == b {
        0
    } else {
        let r = find_byte(s.skip(1), b);
        if r < 0 {
            -1
        } else {
            r + 1
        }
    }
}

/// Is `b` an ASCII decimal digit?
pub open spec fn is_digit(b: u8) -> bool {
    0x30 <= b <= 0x39
}

/// Is `b` an ASCII hexadecimal digit?
pub open spec fn is_hex_digit(b: u8) -> bool {
    is_digit(b) || (0x61 <= b <= 0x66) || (0x41 <= b <= 0x46)
}

/// Value of one hexadecimal digit.
pub open spec fn hex_digit_val(b: u8) -> int {
    if is_digit(b) {
        b - 0x30
    } else if 0x61 <= b <= 0x66 {
        b - 0x61 + 10
    } else {
        b - 0x41 + 10
    }
}

/// The number the decimal digit string `s` denotes.
pub open spec fn dec_val(s: Seq<u8>) -> int
    decreases s.len(),
{
    if s.len() == 0 {
        0
    } else {
        dec_val(s.drop_last()) * 10 + (s.last() - 0x30)
    }
}

/// The number the hexadecimal digit string `s` denotes.
pub open spec fn hex_val(s: Seq<u8>) -> int
    decreases s.len(),
{
    if s.len() == 0 {
        0
    } else {
        hex_val(s.drop_last()) * 16 + hex_digit_val(s.last())
    }
}

/// A non-empty all-decimal-digit string whose value is at most `max`.
pub open spec fn dec_valid(s: Seq<u8>, max: int) -> bool {
    s.len() > 0 && (forall|i: int| 0 <= i < s.len() ==> is_digit(#[trigger] s[i])) && dec_val(s)
        <= max
}

/// A `0x`-prefixed hexadecimal value that fits in 64 bits.
pub open spec fn hex_valid(s: Seq<u8>) -> bool {
    s.len() > 2 && s[0] == 0x30 && s[1] == 0x78 && (forall|i: int|
        2 <= i < s.len() ==> is_hex_digit(#[trigger] s[i])) && hex_val(s.skip(2)) <= u64::MAX
}

/// The two decimal digit strings of a `WxH` resolution value: the text
/// before the first `x`, and from there to the next `x` or the end.
pub open spec fn resolution_parts(s: Seq<u8>) -> (Seq<u8>, Seq<u8>) {
    let i = find_byte(s, 0x78);
    let rest = s.skip(i + 1);
    let j = find_byte(rest, 0x78);
    (s.take(i), if j < 0 { rest } else { rest.take(j) })
}

/// A resolution value both of whose parts are valid decimal numbers.
pub open spec fn resolution_valid(s: Seq<u8>) -> bool {
    find_byte(s, 0x78) >= 0 && dec_valid(resolution_parts(s).0, usize::MAX as int) && dec_valid(
        resolution_parts(s).1,
        usize::MAX as int,
    )
}

/// What one recognized `key=value` pair does to the configuration.
/// Unrecognized keys change nothing.
pub open spec fn spec_process(c: ConfigView, key: Seq<u8>, value: Seq<u8>) -> ConfigView {
    if key == chars_to_bytes("kernel_stack_address"@) {
        ConfigView { kernel_stack_address: hex_val(value.skip(2)) as u64, ..c }
    } else if key == chars_to_bytes("kernel_stack_size"@) {
        ConfigView { kernel_stack_size: dec_val(value) as u64, ..c }
    } else if key == chars_to_bytes("physical_memory_offset"@) {
        ConfigView { physical_memory_offset: hex_val(value.skip(2)) as u64, ..c }
    } else if key == chars_to_bytes("kernel_path"@) {
        ConfigView { kernel_path: value, ..c }
    } else if key == chars_to_bytes("resolution"@) {
        ConfigView {
            resolution: Some(
                (
                    dec_val(resolution_parts(value).0) as usize,
                    dec_val(resolution_parts(value).1) as usize,
                ),
            ),
            ..c
        }
    } else if key == chars_to_bytes("initramfs"@) {
        ConfigView { initramfs: Some(value), ..c }
    } else if key == chars_to_bytes("cmdline"@) {
        ConfigView { cmdline: value, ..c }
    } else {
        c
    }
}

/// The values a recognized key accepts; unknown keys accept anything.
pub open spec fn value_valid(key: Seq<u8>, value: Seq<u8>) -> bool {
    if key == chars_to_bytes("kernel_stack_address"@) {
        hex_valid(value)
    } else if key == chars_to_bytes("kernel_stack_size"@) {
        dec_valid(value, u64::MAX as int)
    } else if key == chars_to_bytes("physical_memory_offset"@) {
        hex_valid(value)
    } else if key == chars_to_bytes("resolution"@) {
        resolution_valid(value)
    } else {
        true
    }
}

/// What one whole line does: trim, skip blank and comment lines, split at
/// the first `=`.
pub open spec fn spec_process_line(c: ConfigView, line: Seq<u8>) -> ConfigView {
    let t = spec_trim(line);
    if t.len() == 0 || t[0] == 0x23 {
        c
    } else {
        let e = find_byte(t, 0x3D);
        if e < 0 {
            c
        } else {
            spec_process(c, t.take(e), t.skip(e + 1))
        }
    }
}

/// A line the parser accepts: blank, comment, or `key=value` with a valid
/// value for its key.
pub open spec fn line_valid(line: Seq<u8>) -> bool {
    let t = spec_trim(line);
    if t.len() == 0 || t[0] == 0x23 {
        true
    } else {
        let e = find_byte(t, 0x3D);
        e >= 0 && value_valid(t.take(e), t.skip(e + 1))
    }
}

/// Parsing from `c` through the remaining text `s`, line by line.
pub open spec fn spec_parse_from(c: ConfigView, s: Seq<u8>) -> ConfigView
    decreases s.len(),
{
    if s.len() == 0 {
        c
    } else {
        let i = find_byte(s, 0x0A);
        if !(0 <= i < s.len()) {
            spec_process_line(c, s)
        } else {
            spec_parse_from(spec_process_line(c, s.take(i)), s.skip(i + 1))
        }
    }
}

/// The configuration the whole text denotes.
pub open spec fn spec_parse(s: Seq<u8>) -> ConfigView {
    spec_parse_from(spec_default_config(), s)
}

/// Every line of the text is acceptable.
pub open spec fn config_wf(s: Seq<u8>) -> bool
    decreases s.len(),
{
    if s.len() == 0 {
        true
    } else {
        let i = find_byte(s, 0x0A);
        if !(0 <= i < s.len()) {
            line_valid(s)
        } else {
            line_valid(s.take(i)) && config_wf(s.skip(i + 1))
        }
    }
}


/// The bytes of an ASCII character sequence.
pub open spec fn chars_to_bytes(s: Seq<char>) -> Seq<u8> {
    Seq::new(s.len(), |i: int| s[i] as u8)
}


/// Is the byte ASCII whitespace?
fn is_space_b(b: u8) -> (r: bool)
    ensures
        r == is_space(b),
{
    b == 0x20 || (b >= 0x09 && b <= 0x0D)
}

/// Does the byte string equal the ASCII string literal?
fn key_is(key: &[u8], lit: &str) -> (r: bool)
    requires
        lit.is_ascii(),
    ensures
        r == (key@ == chars_to_bytes(lit@)),
{
    let b = lit.as_bytes();
    proof {
        vstd::string::is_ascii_spec_bytes(lit);
        assert(b@ =~= chars_to_bytes(lit@));
    }
    if key.len() != b.len() {
        return false;
    }
    let n = key.len();
    let mut i: usize = 0;
    while i < n
        invariant
            n == key@.len(),
            n == b@.len(),
            b@ == chars_to_bytes(lit@),
            0 <= i <= n,
            forall|j: int| 0 <= j < i ==> key@[j] == b@[j],
        decreases n - i,
    {
        if key[i] != b[i] {
            return false;
        }
        i = i + 1;
    }
    proof {
        assert(key@ =~= b@);
    }
    true
}

/// A decimal digit string denotes a non-negative number.
proof fn lemma_dec_nonneg(s: Seq<u8>)
    requires
        forall|i: int| 0 <= i < s.len() ==> is_digit(#[trigger] s[i]),
    ensures
        dec_val(s) >= 0,
    decreases s.len(),
{
    if s.len() > 0 {
        lemma_dec_nonneg(s.drop_last());
    }
}

/// For a digit string, the number a prefix denotes is no larger.
proof fn lemma_dec_prefix_le(s: Seq<u8>, k: int)
    requires
        0 <= k <= s.len(),
        forall|i: int| 0 <= i < s.len() ==> is_digit(#[trigger] s[i]),
    ensures
        dec_val(s.take(k)) <= dec_val(s),
    decreases s.len() - k,
{
    if k == s.len() {
        assert(s.take(k) =~= s);
    } else {
        assert(s.take(k + 1).drop_last() =~= s.take(k));
        assert(forall|i: int| 0 <= i < s.take(k).len() ==> is_digit(#[trigger] s.take(k)[i]));
        lemma_dec_nonneg(s.take(k));
        assert(dec_val(s.take(k + 1)) == dec_val(s.take(k)) * 10 + (s[k] - 0x30));
        lemma_dec_prefix_le(s, k + 1);
    }
}

/// A hexadecimal digit string denotes a non-negative number.
proof fn lemma_hex_nonneg(s: Seq<u8>)
    requires
        forall|i: int| 0 <= i < s.len() ==> is_hex_digit(#[trigger] s[i]),
    ensures
        hex_val(s) >= 0,
    decreases s.len(),
{
    if s.len() > 0 {
        lemma_hex_nonneg(s.drop_last());
    }
}

/// For a hexadecimal digit string, the number a prefix denotes is no
/// larger.
proof fn lemma_hex_prefix_le(s: Seq<u8>, k: int)
    requires
        0 <= k <= s.len(),
        forall|i: int| 0 <= i < s.len() ==> is_hex_digit(#[trigger] s[i]),
    ensures
        hex_val(s.take(k)) <= hex_val(s),
    decreases s.len() - k,
{
    if k == s.len() {
        assert(s.take(k) =~= s);
    } else {
        assert(s.take(k + 1).drop_last() =~= s.take(k));
        assert(forall|i: int| 0 <= i < s.take(k).len() ==> is_hex_digit(#[trigger] s.take(k)[i]));
        lemma_hex_nonneg(s.take(k));
        assert(hex_val(s.take(k + 1)) == hex_val(s.take(k)) * 16 + hex_digit_val(s[k]));
        lemma_hex_prefix_le(s, k + 1);
    }
}

/// Parse the decimal digits `s[start..end]`; reject anything else, and any
/// value over `max`.
fn parse_dec_range(s: &[u8], start: usize, end: usize, max: u64) -> (r: Option<u64>)
    requires
        start <= end <= s@.len(),
    ensures
        r is Some <==> dec_valid(s@.subrange(start as int, end as int), max as int),
        r matches Some(v) ==> v == dec_val(s@.subrange(start as int, end as int)) && v <= max,
{
    let ghost d = s@.subrange(start as int, end as int);
    if start == end {
        return None;
    }
    let mut acc: u64 = 0;
    let mut i: usize = start;
    while i < end
        invariant
            start <= i <= end <= s@.len(),
            d == s@.subrange(start as int, end as int),
            forall|j: int| 0 <= j < i - start ==> is_digit(#[trigger] d[j]),
            acc == dec_val(d.take(i - start)),
            acc <= max,
        decreases end - i,
    {
        let b = s[i];
        proof {
            assert(d[i - start] == b);
        }
        if !(b >= 0x30 && b <= 0x39) {
            return None;
        }
        let v: u64 = (b - 0x30) as u64;
        if acc > max / 10 || (acc == max / 10 && v > max % 10) {
            proof {
                if dec_valid(d, max as int) {
                    assert(d.take(i - start + 1).drop_last() =~= d.take(i - start));
                    assert(dec_val(d.take(i - start + 1)) == acc * 10 + v);
                    assert(acc * 10 + v > max) by (nonlinear_arith)
                        requires
                            acc > max / 10 || (acc == max / 10 && v > max % 10),
                            acc >= 0,
                            v >= 0,
                            max >= 0,
                    ;
                    lemma_dec_prefix_le(d, i - start + 1);
                    assert(false);
                }
            }
            return None;
        }
        proof {
            assert(acc * 10 + v <= max) by (nonlinear_arith)
                requires
                    !(acc > max / 10 || (acc == max / 10 && v > max % 10)),
                    acc >= 0,
                    v <= 9,
                    max >= 0,
            ;
            assert(d.take(i - start + 1).drop_last() =~= d.take(i - start));
        }
        acc = acc * 10 + v;
        i = i + 1;
    }
    proof {
        assert(d.take(end - start) =~= d);
    }
    Some(acc)
}

/// Parse the hexadecimal digits `s[start..end]`; reject anything else, and
/// overflow past 64 bits.
fn parse_hex_range(s: &[u8], start: usize, end: usize) -> (r: Option<u64>)
    requires
        start <= end <= s@.len(),
    ensures
        r is Some <==> (end > start && (forall|j: int|
            0 <= j < end - start ==> is_hex_digit(
                #[trigger] s@.subrange(start as int, end as int)[j],
            )) && hex_val(s@.subrange(start as int, end as int)) <= u64::MAX),
        r matches Some(v) ==> v == hex_val(s@.subrange(start as int, end as int)),
{
    let ghost d = s@.subrange(start as int, end as int);
    if start == end {
        return None;
    }
    let mut acc: u64 = 0;
    let mut i: usize = start;
    while i < end
        invariant
            start <= i <= end <= s@.len(),
            d == s@.subrange(start as int, end as int),
            forall|j: int| 0 <= j < i - start ==> is_hex_digit(#[trigger] d[j]),
            acc == hex_val(d.take(i - start)),
        decreases end - i,
    {
        let b = s[i];
        proof {
            assert(d[i - start] == b);
        }
        let v: u64 = if b >= 0x30 && b <= 0x39 {
            (b - 0x30) as u64
        } else if b >= 0x61 && b <= 0x66 {
            (b - 0x61 + 10) as u64
        } else if b >= 0x41 && b <= 0x46 {
            (b - 0x41 + 10) as u64
        } else {
            return None;
        };
        proof {
            assert(v == hex_digit_val(b));
        }
        if acc > u64::MAX / 16 || (acc == u64::MAX / 16 && v > u64::MAX % 16) {
            proof {
                if hex_val(d) <= u64::MAX && (forall|j: int|
                    0 <= j < d.len() ==> is_hex_digit(#[trigger] d[j])) {
                    assert(d.take(i - start + 1).drop_last() =~= d.take(i - start));
                    assert(hex_val(d.take(i - start + 1)) == acc * 16 + v);
                    assert(acc * 16 + v > u64::MAX) by (nonlinear_arith)
                        requires
                            acc > u64::MAX / 16 || (acc == u64::MAX / 16 && v > u64::MAX % 16),
                            acc >= 0,
                            v >= 0,
                    ;
                    lemma_hex_prefix_le(d, i - start + 1);
                    assert(false);
                }
            }
            return None;
        }
        proof {
            assert(acc * 16 + v <= u64::MAX) by (nonlinear_arith)
                requires
                    !(acc > u64::MAX / 16 || (acc == u64::MAX / 16 && v > u64::MAX % 16)),
                    acc >= 0,
                    v <= 15,
            ;
            assert(d.take(i - start + 1).drop_last() =~= d.take(i - start));
        }
        acc = acc * 16 + v;
        i = i + 1;
    }
    proof {
        assert(d.take(end - start) =~= d);
    }
    Some(acc)
}

/// `find_byte` finds the first occurrence.
proof fn lemma_find_byte_at(s: Seq<u8>, b: u8, k: int)
    requires
        0 <= k < s.len(),
        s[k] == b,
        forall|j: int| 0 <= j < k ==> s[j] != b,
    ensures
        find_byte(s, b) == k,
    decreases k,
{
    if k > 0 {
        lemma_find_byte_at(s.skip(1), b, k - 1);
    }
}

/// `find_byte` reports absence.
proof fn lemma_find_byte_none(s: Seq<u8>, b: u8)
    requires
        forall|j: int| 0 <= j < s.len() ==> s[j] != b,
    ensures
        find_byte(s, b) == -1,
    decreases s.len(),
{
    if s.len() > 0 {
        lemma_find_byte_none(s.skip(1), b);
    }
}

/// Find the first occurrence of `b` in `s[start..end]`.
fn find_in_range(s: &[u8], start: usize, end: usize, b: u8) -> (r: Option<usize>)
    requires
        start <= end <= s@.len(),
    ensures
        r matches Some(k) ==> start <= k < end && s@[k as int] == b && (forall|j: int|
            start <= j < k ==> s@[j] != b) && find_byte(s@.subrange(start as int, end as int), b)
            == k - start,
        r is None ==> (forall|j: int| start <= j < end ==> s@[j] != b) && find_byte(
            s@.subrange(start as int, end as int),
            b,
        ) == -1,
{
    let ghost d = s@.subrange(start as int, end as int);
    let mut i: usize = start;
    while i < end
        invariant
            start <= i <= end <= s@.len(),
            d == s@.subrange(start as int, end as int),
            forall|j: int| start <= j < i ==> s@[j] != b,
        decreases end - i,
    {
        if s[i] == b {
            proof {
                lemma_find_byte_at(d, b, i - start);
            }
            return Some(i);
        }
        i = i + 1;
    }
    proof {
        lemma_find_byte_none(d, b);
    }
    None
}

/// Trimming the front removes exactly the leading whitespace.
proof fn lemma_trim_front_at(s: Seq<u8>, i: int)
    requires
        0 <= i <= s.len(),
        forall|j: int| 0 <= j < i ==> is_space(#[trigger] s[j]),
        i < s.len() ==> !is_space(s[i]),
    ensures
        trim_front(s) == s.skip(i),
    decreases i,
{
    if i == 0 {
        assert(s.skip(0) =~= s);
    } else {
        assert(is_space(s[0]));
        lemma_trim_front_at(s.skip(1), i - 1);
        assert(s.skip(1).skip(i - 1) =~= s.skip(i));
    }
}

/// Trimming the back removes exactly the trailing whitespace.
proof fn lemma_trim_back_at(s: Seq<u8>, b: int)
    requires
        0 <= b <= s.len(),
        forall|j: int| b <= j < s.len() ==> is_space(#[trigger] s[j]),
        b > 0 ==> !is_space(s[b - 1]),
    ensures
        trim_back(s) == s.take(b),
    decreases s.len() - b,
{
    if b == s.len() {
        assert(s.take(b) =~= s);
    } else {
        assert(is_space(s.last()));
        lemma_trim_back_at(s.drop_last(), b);
        assert(s.drop_last().take(b) =~= s.take(b));
    }
}

/// Copy `s[start..end]` into an owned byte vector.
fn copy_range(s: &[u8], start: usize, end: usize) -> (v: Vec<u8>)
    requires
        start <= end <= s@.len(),
    ensures
        v@ == s@.subrange(start as int, end as int),
{
    let mut v: Vec<u8> = Vec::new();
    let mut i: usize = start;
    while i < end
        invariant
            start <= i <= end <= s@.len(),
            v@ =~= s@.subrange(start as int, i as int),
        decreases end - i,
    {
        v.push(s[i]);
        proof {
            assert(v@ =~= s@.subrange(start as int, i + 1));
        }
        i = i + 1;
    }
    v
}

/// The default kernel path as an owned value.
fn default_kernel_path_vec() -> (v: Vec<u8>)
    ensures
        v@ == default_kernel_path(),
{
    let mut v: Vec<u8> = Vec::new();
    v.push(92);
    v.push(69);
    v.push(70);
    v.push(73);
    v.push(92);
    v.push(114);
    v.push(67);
    v.push(111);
    v.push(114);
    v.push(101);
    v.push(92);
    v.push(107);
    v.push(101);
    v.push(114);
    v.push(110);
    v.push(101);
    v.push(108);
    v.push(46);
    v.push(101);
    v.push(108);
    v.push(102);
    proof {
        assert(v@ =~= default_kernel_path());
    }
    v
}

impl Default for Config {
    /// The configuration used before, and where, the file says nothing.
    fn default() -> (c: Config)
        ensures
            c@ == spec_default_config(),
    {
        let c = Config {
            kernel_stack_address: 0xFFFF_FF01_0000_0000,
            kernel_stack_size: 512,
            physical_memory_offset: 0xFFFF_8000_0000_0000,
            kernel_path: default_kernel_path_vec(),
            resolution: None,
            initramfs: None,
            cmdline: Vec::new(),
        };
        proof {
            assert(c@.cmdline =~= spec_default_config().cmdline);
        }
        c
    }
}

impl Config {
    /// Apply one `key=value` pair. Recognized keys set their field;
    /// unknown keys change nothing.
    pub fn process(&mut self, key: &[u8], value: &[u8])
        requires
            value_valid(key@, value@),
        ensures
            final(self)@ == spec_process(old(self)@, key@, value@),
    {
        proof {
            reveal_strlit("kernel_stack_address");
            reveal_strlit("kernel_stack_size");
            reveal_strlit("physical_memory_offset");
            reveal_strlit("kernel_path");
            reveal_strlit("resolution");
            reveal_strlit("initramfs");
            reveal_strlit("cmdline");
        }
        if key_is(key, "kernel_stack_address") {
            match parse_hex_range(value, 2, value.len()) {
                Some(v) => {
                    proof {
                        assert(value@.subrange(2, value@.len() as int) =~= value@.skip(2));
                    }
                    self.kernel_stack_address = v;
                },
                None => {
                    proof {
                        assert(value@.subrange(2, value@.len() as int) =~= value@.skip(2));
                        assert(false);
                    }
                },
            }
        } else if key_is(key, "kernel_stack_size") {
            match parse_dec_range(value, 0, value.len(), u64::MAX) {
                Some(v) => {
                    proof {
                        assert(value@.subrange(0, value@.len() as int) =~= value@);
                    }
                    self.kernel_stack_size = v;
                },
                None => {
                    proof {
                        assert(value@.subrange(0, value@.len() as int) =~= value@);
                        assert(false);
                    }
                },
            }
        } else if key_is(key, "physical_memory_offset") {
            match parse_hex_range(value, 2, value.len()) {
                Some(v) => {
                    proof {
                        assert(value@.subrange(2, value@.len() as int) =~= value@.skip(2));
                    }
                    self.physical_memory_offset = v;
                },
                None => {
                    proof {
                        assert(value@.subrange(2, value@.len() as int) =~= value@.skip(2));
                        assert(false);
                    }
                },
            }
        } else if key_is(key, "kernel_path") {
            self.kernel_path = copy_range(value, 0, value.len());
            proof {
                assert(value@.subrange(0, value@.len() as int) =~= value@);
            }
        } else if key_is(key, "resolution") {
            let ghost parts = resolution_parts(value@);
            match find_in_range(value, 0, value.len(), 0x78) {
                Some(i) => {
                    proof {
                        assert(value@.subrange(0, value@.len() as int) =~= value@);
                    }
                    let second_end: usize = match find_in_range(value, i + 1, value.len(), 0x78) {
                        Some(j) => j,
                        None => value.len(),
                    };
                    proof {
                        assert(value@.skip(i + 1) =~= value@.subrange(
                            i + 1,
                            value@.len() as int,
                        ));
                        assert(parts.0 =~= value@.subrange(0, i as int));
                        assert(parts.1 =~= value@.subrange(i + 1, second_end as int));
                    }
                    let x = match parse_dec_range(value, 0, i, usize::MAX as u64) {
                        Some(x) => x,
                        None => {
                            proof {
                                assert(false);
                            }
                            0
                        },
                    };
                    let y = match parse_dec_range(value, i + 1, second_end, usize::MAX as u64) {
                        Some(y) => y,
                        None => {
                            proof {
                                assert(false);
                            }
                            0
                        },
                    };
                    self.resolution = Some((x as usize, y as usize));
                },
                None => {
                    proof {
                        assert(value@.subrange(0, value@.len() as int) =~= value@);
                        assert(false);
                    }
                },
            }
        } else if key_is(key, "initramfs") {
            self.initramfs = Some(copy_range(value, 0, value.len()));
            proof {
                assert(value@.subrange(0, value@.len() as int) =~= value@);
            }
        } else if key_is(key, "cmdline") {
            self.cmdline = copy_range(value, 0, value.len());
            proof {
                assert(value@.subrange(0, value@.len() as int) =~= value@);
            }
        }
    }

    /// Apply the line `content[start..end]`: trim it, skip it if blank or
    /// a comment, else split at the first `=` and process the pair.
    fn process_line(&mut self, content: &[u8], start: usize, end: usize)
        requires
            start <= end <= content@.len(),
            line_valid(content@.subrange(start as int, end as int)),
        ensures
            final(self)@ == spec_process_line(
                old(self)@,
                content@.subrange(start as int, end as int),
            ),
    {
        let ghost line = content@.subrange(start as int, end as int);
        let (a, b) = trim_in(content, start, end);
        if a == b {
            return ;
        }
        if content[a] == 0x23 {
            return ;
        }
        let ghost t = spec_trim(line);
        match find_in_range(content, a, b, 0x3D) {
            None => {
                proof {
                    assert(find_byte(t, 0x3D) == -1);
                }
            },
            Some(e) => {
                proof {
                    assert(find_byte(t, 0x3D) == e - a);
                    assert(t.take(e - a) =~= content@.subrange(a as int, e as int));
                    assert(t.skip(e - a + 1) =~= content@.subrange(e + 1, b as int));
                }
                let key = copy_range(content, a, e);
                let value = copy_range(content, e + 1, b);
                self.process(key.as_slice(), value.as_slice());
            },
        }
    }

    /// Parse the whole configuration text, line by line, starting from the
    /// default configuration.
    pub fn parse(content: &[u8]) -> (c: Config)
        requires
            config_wf(content@),
        ensures
            c@ == spec_parse(content@),
    {
        let mut config = Config::default();
        let n = content.len();
        let mut pos: usize = 0;
        proof {
            assert(content@.skip(0) =~= content@);
        }
        while pos < n
            invariant
                0 <= pos <= n,
                n == content@.len(),
                config_wf(content@.skip(pos as int)),
                spec_parse_from(config@, content@.skip(pos as int)) == spec_parse(content@),
            decreases n - pos,
        {
            let ghost rest = content@.skip(pos as int);
            match find_in_range(content, pos, n, 0x0A) {
                Some(nl) => {
                    proof {
                        assert(content@.subrange(pos as int, n as int) =~= rest);
                        assert(find_byte(rest, 0x0A) == nl - pos);
                        assert(rest.take(nl - pos) =~= content@.subrange(pos as int, nl as int));
                        assert(rest.skip(nl - pos + 1) =~= content@.skip(nl + 1));
                    }
                    self_process_line(&mut config, content, pos, nl);
                    pos = nl + 1;
                },
                None => {
                    proof {
                        assert(content@.subrange(pos as int, n as int) =~= rest);
                        assert(find_byte(rest, 0x0A) == -1);
                        assert(content@.skip(n as int) =~= Seq::<u8>::empty());
                    }
                    self_process_line(&mut config, content, pos, n);
                    pos = n;
                },
            }
        }
        proof {
            assert(content@.skip(n as int) =~= Seq::<u8>::empty());
        }
        config
    }
}


/// Indices of the trimmed part of the line `content[start..end]`.
fn trim_in(content: &[u8], start: usize, end: usize) -> (r: (usize, usize))
    requires
        start <= end <= content@.len(),
    ensures
        start <= r.0 <= r.1 <= end,
        spec_trim(content@.subrange(start as int, end as int)) == content@.subrange(
            r.0 as int,
            r.1 as int,
        ),
{
    let ghost line = content@.subrange(start as int, end as int);
    let mut a = start;
    while a < end && is_space_b(content[a])
        invariant
            start <= a <= end <= content@.len(),
            forall|j: int| start <= j < a ==> is_space(#[trigger] content@[j]),
        decreases end - a,
    {
        a = a + 1;
    }
    let mut b = end;
    while b > a && is_space_b(content[b - 1])
        invariant
            a <= b <= end <= content@.len(),
            forall|j: int| b <= j < end ==> is_space(#[trigger] content@[j]),
        decreases b,
    {
        b = b - 1;
    }
    proof {
        lemma_trim_front_at(line, a - start);
        assert(line.skip(a - start) =~= content@.subrange(a as int, end as int));
        lemma_trim_back_at(content@.subrange(a as int, end as int), b - a);
        assert(content@.subrange(a as int, end as int).take(b - a) =~= content@.subrange(
            a as int,
            b as int,
        ));
        assert(spec_trim(line) == content@.subrange(a as int, b as int));
    }
    (a, b)
}


/// Is the value acceptable for its key? `content[ks..ke]` is the key and
/// `content[vs..ve]` the value. Unknown keys accept anything.
fn value_ok(content: &[u8], ks: usize, ke: usize, vs: usize, ve: usize) -> (r: bool)
    requires
        ks <= ke <= content@.len(),
        vs <= ve <= content@.len(),
    ensures
        r == value_valid(
            content@.subrange(ks as int, ke as int),
            content@.subrange(vs as int, ve as int),
        ),
{
    proof {
        reveal_strlit("kernel_stack_address");
        reveal_strlit("kernel_stack_size");
        reveal_strlit("physical_memory_offset");
        reveal_strlit("resolution");
    }
    let key = copy_range(content, ks, ke);
    let key = key.as_slice();
    let ghost value = content@.subrange(vs as int, ve as int);
    if key_is(key, "kernel_stack_address") || key_is(key, "physical_memory_offset") {
        let r = ve - vs > 2 && content[vs] == 0x30 && content[vs + 1] == 0x78
            && parse_hex_range(content, vs + 2, ve).is_some();
        proof {
            if ve - vs > 2 {
                assert(content@.subrange(vs + 2, ve as int) =~= value.skip(2));
                if r {
                    assert forall|i: int| 2 <= i < value.len() implies is_hex_digit(
                        #[trigger] value[i],
                    ) by {
                        assert(value[i] == value.skip(2)[i - 2]);
                    }
                    assert(hex_valid(value));
                }
                if hex_valid(value) {
                    assert forall|j: int|
                        0 <= j < ve - (vs + 2) implies is_hex_digit(
                        #[trigger] content@.subrange(vs + 2, ve as int)[j],
                    ) by {
                        assert(content@.subrange(vs + 2, ve as int)[j] == value[j + 2]);
                    }
                    assert(r);
                }
            } else {
                assert(!hex_valid(value));
            }
            assert(key@ == content@.subrange(ks as int, ke as int));
            assert(r == hex_valid(value));
            assert(chars_to_bytes("kernel_stack_size"@).len() == 17);
            assert(chars_to_bytes("physical_memory_offset"@).len() == 22);
            assert(r == value_valid(key@, value));
        }
        r
    } else if key_is(key, "kernel_stack_size") {
        let r = parse_dec_range(content, vs, ve, u64::MAX).is_some();
        proof {
            assert(content@.subrange(vs as int, ve as int) =~= value);
        }
        r
    } else if key_is(key, "resolution") {
        match find_in_range(content, vs, ve, 0x78) {
            None => {
                proof {
                    assert(content@.subrange(vs as int, ve as int) =~= value);
                }
                false
            },
            Some(i) => {
                proof {
                    assert(content@.subrange(vs as int, ve as int) =~= value);
                }
                let second_end: usize = match find_in_range(content, i + 1, ve, 0x78) {
                    Some(j) => j,
                    None => ve,
                };
                proof {
                    assert(value.skip(i - vs + 1) =~= content@.subrange(i + 1, ve as int));
                    assert(resolution_parts(value).0 =~= content@.subrange(vs as int, i as int));
                    assert(resolution_parts(value).1 =~= content@.subrange(
                        i + 1,
                        second_end as int,
                    ));
                }
                let x_ok = parse_dec_range(content, vs, i, usize::MAX as u64).is_some();
                let y_ok = parse_dec_range(content, i + 1, second_end, usize::MAX as u64)
                    .is_some();
                x_ok && y_ok
            },
        }
    } else {
        true
    }
}

/// Is the line `content[start..end]` acceptable: blank, a comment, or
/// `key=value` with a value its key accepts?
fn line_ok(content: &[u8], start: usize, end: usize) -> (r: bool)
    requires
        start <= end <= content@.len(),
    ensures
        r == line_valid(content@.subrange(start as int, end as int)),
{
    let ghost line = content@.subrange(start as int, end as int);
    let ghost t = spec_trim(line);
    let (a, b) = trim_in(content, start, end);
    if a == b {
        return true;
    }
    if content[a] == 0x23 {
        return true;
    }
    match find_in_range(content, a, b, 0x3D) {
        None => {
            proof {
                assert(find_byte(t, 0x3D) == -1);
            }
            false
        },
        Some(e) => {
            proof {
                assert(find_byte(t, 0x3D) == e - a);
                assert(t.take(e - a) =~= content@.subrange(a as int, e as int));
                assert(t.skip(e - a + 1) =~= content@.subrange(e + 1, b as int));
            }
            value_ok(content, a, e, e + 1, b)
        },
    }
}

/// Does the whole text parse without a fatal condition? `parse` owes its
/// result exactly to the texts this accepts, so a caller that cannot trust
/// its input checks here first and treats a refusal as the fatal condition
/// the malformed line is.
pub fn check_config(content: &[u8]) -> (r: bool)
    ensures
        r == config_wf(content@),
{
    let n = content.len();
    let mut pos: usize = 0;
    proof {
        assert(content@.skip(0) =~= content@);
    }
    while pos < n
        invariant
            0 <= pos <= n,
            n == content@.len(),
            config_wf(content@) == config_wf(content@.skip(pos as int)),
        decreases n - pos,
    {
        let ghost rest = content@.skip(pos as int);
        match find_in_range(content, pos, n, 0x0A) {
            Some(nl) => {
                proof {
                    assert(content@.subrange(pos as int, n as int) =~= rest);
                    assert(find_byte(rest, 0x0A) == nl - pos);
                    assert(rest.take(nl - pos) =~= content@.subrange(pos as int, nl as int));
                    assert(rest.skip(nl - pos + 1) =~= content@.skip(nl + 1));
                }
                if !line_ok(content, pos, nl) {
                    return false;
                }
                pos = nl + 1;
            },
            None => {
                proof {
                    assert(content@.subrange(pos as int, n as int) =~= rest);
                    assert(find_byte(rest, 0x0A) == -1);
                }
                let r = line_ok(content, pos, n);
                return r;
            },
        }
    }
    proof {
        assert(content@.skip(n as int) =~= Seq::<u8>::empty());
    }
    true
}

/// Apply one line to a configuration being built.
fn self_process_line(config: &mut Config, content: &[u8], start: usize, end: usize)
    requires
        start <= end <= content@.len(),
        line_valid(content@.subrange(start as int, end as int)),
    ensures
        final(config)@ == spec_process_line(
            old(config)@,
            content@.subrange(start as int, end as int),
        ),
{
    config.process_line(content, start, end)
}

} // verus!
