//! What the commands say.

use crate::git::EMBED_REF;
use crate::index::EmbedIndex;
use crate::text::{concat, decimal, digit, push_decimal, push_signed_decimal, signed_decimal};
use vstd::arithmetic::div_mod::lemma_fundamental_div_mod;
use vstd::prelude::*;

verus! {

// ---------------------------------------------------------------------------
// Numbers of bytes
// ---------------------------------------------------------------------------

/// The quotient rounded to the nearest integer, and to the even one of two that are
/// equally near.
pub open spec fn rounded(n: int, d: int) -> int {
    if 2 * (n % d) < d || (2 * (n % d) == d && (n / d) % 2 == 0) {
        n / d
    } else {
        n / d + 1
    }
}

/// The distance of neighbouring IEEE 754 doubles around an integer, for integers that are
/// wider than a significand of 53 bits, and one for the others.
pub open spec fn double_step(n: int) -> int
    decreases n,
{
    if n < 0x20_0000_0000_0000 {
        1
    } else {
        2 * double_step(n / 2)
    }
}

/// The IEEE 754 double nearest to an integer.
pub open spec fn nearest_double(n: int) -> int {
    rounded(n, double_step(n)) * double_step(n)
}

/// A number of hundredths in decimal notation.
pub open spec fn hundredths(h: nat) -> Seq<char> {
    decimal(h / 100).push('.').push(digit((h / 10) % 10)).push(digit(h % 10))
}

/// A number of tenths in decimal notation.
pub open spec fn tenths(t: nat) -> Seq<char> {
    decimal(t / 10).push('.').push(digit(t % 10))
}

/// A number of bytes for people to read, in the largest unit of which there is at least
/// one. The number passes through an IEEE 754 double.
pub open spec fn bytes_text(bytes: int) -> Seq<char> {
    let n = nearest_double(bytes);
    if bytes >= 0x4000_0000 {
        hundredths(rounded(100 * n, 0x4000_0000) as nat) + " GiB"@
    } else if bytes >= 0x10_0000 {
        hundredths(rounded(100 * n, 0x10_0000) as nat) + " MiB"@
    } else if bytes >= 0x400 {
        tenths(rounded(10 * n, 0x400) as nat) + " KiB"@
    } else {
        decimal(bytes as nat) + " B"@
    }
}

fn round(n: u128, d: u128) -> (r: u128)
    requires
        0 < d < 0x1_0000_0000,
        n < u128::MAX,
    ensures
        r == rounded(n as int, d as int),
{
    let q: u128 = n / d;
    let m: u128 = n % d;
    assert(q <= n) by (nonlinear_arith)
        requires
            q == n / d,
            d > 0,
    ;
    if 2 * m < d || (2 * m == d && q % 2 == 0) {
        q
    } else {
        q + 1
    }
}

/// The IEEE 754 double nearest to an integer.
fn to_double(n: u64) -> (r: u128)
    ensures
        r == nearest_double(n as int),
        r <= 0x2_0000_0000_0000_0000,
{
    let mut m: u64 = n;
    let mut step: u64 = 1;
    while m >= 0x20_0000_0000_0000
        invariant
            1 <= step <= 0x1000,
            step * m <= n,
            n < step * (m + 1),
            double_step(n as int) == step * double_step(m as int),
        decreases m,
    {
        let half: u64 = m / 2;
        assert(step <= 0x800) by (nonlinear_arith)
            requires
                step * m <= n,
                m >= 0x20_0000_0000_0000,
                n <= u64::MAX,
        ;
        assert((2 * step) * half <= n && n < (2 * step) * (half + 1)) by (nonlinear_arith)
            requires
                step * m <= n,
                n < step * (m + 1),
                half == m / 2,
        ;
        let ghost rest = double_step(half as int);
        assert(step * (2 * rest) == (2 * step) * rest) by (nonlinear_arith);
        m = half;
        step = 2 * step;
    }
    let q: u128 = round(n as u128, step as u128);
    let ghost d = step as int;
    assert(q * d <= n + d) by (nonlinear_arith)
        requires
            q <= n as int / d + 1,
            d >= 1,
            n >= 0,
    ;
    q * (step as u128)
}

/// A number of bytes for people to read.
pub fn fmt_bytes(bytes: u64) -> (r: String)
    ensures
        r@ == bytes_text(bytes as int),
{
    let mut r: String = String::new();
    if bytes < 0x400 {
        push_decimal(&mut r, bytes);
        r.push_str(" B");
        assert(r@ =~= bytes_text(bytes as int));
        return r;
    }
    let n: u128 = to_double(bytes);
    if bytes >= 0x4000_0000 {
        push_hundredths(&mut r, round(100 * n, 0x4000_0000));
        r.push_str(" GiB");
    } else if bytes >= 0x10_0000 {
        push_hundredths(&mut r, round(100 * n, 0x10_0000));
        r.push_str(" MiB");
    } else {
        push_tenths(&mut r, round(10 * n, 0x400));
        r.push_str(" KiB");
    }
    assert(r@ =~= bytes_text(bytes as int));
    r
}

/// Appends the character of a decimal digit.
fn push_digit(s: &mut String, d: u128)
    requires
        d < 10,
    ensures
        final(s)@ == old(s)@.push(digit(d as nat)),
{
    s.push((48u8 + d as u8) as char);
}

/// Appends a number of hundredths in decimal notation.
fn push_hundredths(s: &mut String, h: u128)
    requires
        h <= u64::MAX,
    ensures
        final(s)@ == old(s)@ + hundredths(h as nat),
{
    push_decimal(s, (h / 100) as u64);
    s.push('.');
    push_digit(s, (h / 10) % 10);
    push_digit(s, h % 10);
    assert(s@ =~= old(s)@ + hundredths(h as nat));
}

/// Appends a number of tenths in decimal notation.
fn push_tenths(s: &mut String, t: u128)
    requires
        t <= u64::MAX,
    ensures
        final(s)@ == old(s)@ + tenths(t as nat),
{
    push_decimal(s, (t / 10) as u64);
    s.push('.');
    push_digit(s, t % 10);
    assert(s@ =~= old(s)@ + tenths(t as nat));
}

/// The line about the memory that a command took.
pub fn memory_line(peak: u64, total: u64, count: u64) -> (r: String)
    ensures
        r@ == "Memory: "@ + bytes_text(peak as int) + " peak, "@ + bytes_text(total as int)
            + " total across "@ + decimal(count as nat) + " allocations"@,
{
    let mut r: String = concat("Memory: ", fmt_bytes(peak).as_str());
    r.push_str(" peak, ");
    r.push_str(fmt_bytes(total).as_str());
    r.push_str(" total across ");
    push_decimal(&mut r, count);
    r.push_str(" allocations");
    r
}

// ---------------------------------------------------------------------------
// Commands
// ---------------------------------------------------------------------------

/// A number between two texts.
fn counted(before: &str, n: usize, after: &str) -> (r: String)
    ensures
        r@ == before@ + decimal(n as nat) + after@,
{
    let mut r: String = before.to_string();
    push_decimal(&mut r, n as u64);
    r.push_str(after);
    r
}

/// What an update that finds nothing to do says.
pub fn current_line() -> (r: &'static str)
    ensures
        r@ == "Index is current, nothing to update."@,
{
    "Index is current, nothing to update."
}

/// What an update says about the embeddings that it dropped.
pub fn stale_line(pruned: usize) -> (r: String)
    ensures
        r@ == "Pruned "@ + decimal(pruned as nat) + " stale embeddings"@,
{
    counted("Pruned ", pruned, " stale embeddings")
}

/// What an update says before it embeds.
pub fn indexing_line(total: usize) -> (r: String)
    ensures
        r@ == "Indexing "@ + decimal(total as nat) + " new blobs"@,
{
    counted("Indexing ", total, " new blobs")
}

/// What an update says about the blobs that it leaves out.
pub fn skipping_line(skipped: usize) -> (r: String)
    ensures
        r@ == "Skipping "@ + decimal(skipped as nat) + " blobs (empty or >100KB)"@,
{
    counted("Skipping ", skipped, " blobs (empty or >100KB)")
}

/// What an update says that only dropped embeddings.
pub fn saved_line(size: usize) -> (r: String)
    ensures
        r@ == "Index updated: "@ + decimal(size as nat) + " embeddings"@,
{
    counted("Index updated: ", size, " embeddings")
}

/// What an update says at its end.
pub fn updated_line(size: usize, added: usize, pruned: usize) -> (r: String)
    ensures
        r@ == "Index updated: "@ + decimal(size as nat) + " embeddings (+"@ + decimal(added as nat)
            + ", -"@ + decimal(pruned as nat) + ")"@,
{
    let mut r: String = counted("Index updated: ", size, " embeddings (+");
    push_decimal(&mut r, added as u64);
    r.push_str(", -");
    push_decimal(&mut r, pruned as u64);
    r.push_str(")");
    r
}

/// What a garbage collection says.
pub fn pruned_line(pruned: usize) -> (r: String)
    ensures
        r@ == "Pruned "@ + decimal(pruned as nat) + " unreferenced embeddings"@,
{
    counted("Pruned ", pruned, " unreferenced embeddings")
}

/// What clearing the index says, given whether there was one.
pub fn cleared_line(deleted: bool) -> (r: &'static str)
    ensures
        r@ == (if deleted {
            "Index cleared."@
        } else {
            "No index found."@
        }),
{
    if deleted {
        "Index cleared."
    } else {
        "No index found."
    }
}

/// The status of the index, for a tree with `total` blobs.
pub fn status_text(index: &EmbedIndex, total: usize) -> (r: String)
    ensures
        r@ == "Model:   "@ + index@.model + "\nIndexed: "@ + decimal(index@.entries.len())
            + " / "@ + decimal(total as nat) + " blobs\nDims:    "@ + signed_decimal(
            index@.dims as int,
        ) + "\nRef:     "@ + EMBED_REF@,
{
    let mut r: String = concat("Model:   ", index.model.as_str());
    r.push_str("\nIndexed: ");
    push_decimal(&mut r, index.embeddings.len() as u64);
    r.push_str(" / ");
    push_decimal(&mut r, total as u64);
    r.push_str(" blobs\nDims:    ");
    push_signed_decimal(&mut r, index.dims);
    r.push_str("\nRef:     ");
    r.push_str(EMBED_REF);
    r
}

// ---------------------------------------------------------------------------
// Laws
// ---------------------------------------------------------------------------

/// The distance of two numbers.
pub open spec fn distance(a: int, b: int) -> int {
    if a < b {
        b - a
    } else {
        a - b
    }
}

/// A rounded quotient is not further from the quotient than a half, and even where two are
/// equally near.
pub proof fn law_rounded(n: int, d: int)
    requires
        0 <= n,
        0 < d,
    ensures
        rounded(n, d) >= 0,
        2 * distance(rounded(n, d) * d, n) <= d,
        2 * distance(rounded(n, d) * d, n) == d ==> rounded(n, d) % 2 == 0,
{
    let q = n / d;
    let m = n % d;
    lemma_fundamental_div_mod(n, d);
    assert(0 <= m < d) by (nonlinear_arith)
        requires
            m == n % d,
            d > 0,
    ;
    assert(0 <= q) by (nonlinear_arith)
        requires
            q == n / d,
            d > 0,
            n >= 0,
    ;
    assert(q * d == d * q) by (nonlinear_arith);
    assert((q + 1) * d == d * q + d) by (nonlinear_arith);
}

/// The IEEE 754 double nearest to an integer below 2^53 is that integer, and for wider integers
/// of 64 bits it is at most 1024 away.
pub proof fn law_nearest_double(n: int)
    requires
        0 <= n <= u64::MAX,
    ensures
        n < 0x20_0000_0000_0000 ==> nearest_double(n) == n,
        nearest_double(n) >= 0,
        distance(nearest_double(n), n) <= 1024,
{
    let step = double_step(n);
    assert(1 <= step <= 2048) by {
        reveal_with_fuel(double_step, 13);
    }
    law_rounded(n, step);
    let q = rounded(n, step);
    assert(q * step >= 0) by (nonlinear_arith)
        requires
            q >= 0,
            step >= 1,
    ;
    if n < 0x20_0000_0000_0000 {
        assert(step == 1);
        assert(n / 1 == n && n % 1 == 0);
    }
}

/// A number of bytes for people to read. Below 1 KiB it is the number itself. Above, it is the
/// number of tenths of KiB, or of hundredths of MiB or GiB, that is nearest to it, and even
/// where two are equally near; numbers of 2^53 bytes and more are first rounded by 1024 bytes
/// at most.
pub proof fn law_fmt_bytes(bytes: u64, r: String) -> (h: int)
    requires
        call_ensures(fmt_bytes, (bytes,), r),
    ensures
        h >= 0,
        bytes < 1024 ==> r@ == decimal(bytes as nat) + " B"@,
        1024 <= bytes < 1048576 ==> {
            &&& r@ == decimal((h / 10) as nat) + seq!['.', digit((h % 10) as nat)] + " KiB"@
            &&& 2 * distance(1024 * h, 10 * bytes) <= 1024
            &&& 2 * distance(1024 * h, 10 * bytes) == 1024 ==> h % 2 == 0
        },
        1048576 <= bytes ==> r@ == decimal((h / 100) as nat) + seq![
            '.',
            digit((h / 10 % 10) as nat),
            digit((h % 10) as nat),
        ] + (if bytes < 1073741824 {
            " MiB"@
        } else {
            " GiB"@
        }),
        1048576 <= bytes < 1073741824 ==> {
            &&& 2 * distance(1048576 * h, 100 * bytes) <= 1048576
            &&& 2 * distance(1048576 * h, 100 * bytes) == 1048576 ==> h % 2 == 0
        },
        1073741824 <= bytes < 0x20_0000_0000_0000 ==> {
            &&& 2 * distance(1073741824 * h, 100 * bytes) <= 1073741824
            &&& 2 * distance(1073741824 * h, 100 * bytes) == 1073741824 ==> h % 2 == 0
        },
        0x20_0000_0000_0000 <= bytes ==> 2 * distance(1073741824 * h, 100 * bytes) <= 1073741824
            + 200 * 1024,
{
    let n = nearest_double(bytes as int);
    law_nearest_double(bytes as int);
    if bytes < 1024 {
        0
    } else if bytes < 1048576 {
        law_rounded(10 * n, 1024);
        let h = rounded(10 * n, 1024);
        assert(tenths(h as nat) =~= decimal((h / 10) as nat) + seq!['.', digit((h % 10) as nat)]);
        h
    } else {
        let unit: int = if bytes < 1073741824 {
            1048576
        } else {
            1073741824
        };
        law_rounded(100 * n, unit);
        let h = rounded(100 * n, unit);
        assert(hundredths(h as nat) =~= decimal((h / 100) as nat) + seq![
            '.',
            digit((h / 10 % 10) as nat),
            digit((h % 10) as nat),
        ]);
        assert(h * unit == unit * h) by (nonlinear_arith);
        h
    }
}

} // verus!
