//! The persisted form of a route cache: one line per entry, every field a
//! fixed-width zero-padded decimal, so each value has exactly one written
//! form. Encoding is exact and injective, and decoding accepts precisely the
//! canonical encodings; persisting a cache and reloading it therefore yields
//! the original.

use vstd::prelude::*;

use crate::model::{all_digits, digits_val, is_digit_char, lemma_digits_val_nonneg,
    lemma_digits_val_prefix, StopId};
use crate::precache::RouteCache;
use crate::time::TimeCost;

verus! {

/// The decimal digit character of `d`.
pub open spec fn digit_of(d: int) -> char {
    if d == 0 {
        '0'
    } else if d == 1 {
        '1'
    } else if d == 2 {
        '2'
    } else if d == 3 {
        '3'
    } else if d == 4 {
        '4'
    } else if d == 5 {
        '5'
    } else if d == 6 {
        '6'
    } else if d == 7 {
        '7'
    } else if d == 8 {
        '8'
    } else {
        '9'
    }
}

/// `n` written as exactly `w` decimal digits, zero-padded.
pub open spec fn fixed_digits(n: int, w: nat) -> Seq<char>
    decreases w,
{
    if w == 0 {
        Seq::empty()
    } else {
        fixed_digits(n / 10, (w - 1) as nat).push(digit_of(n % 10))
    }
}

/// One encoded cache entry: identifier, the three durations and the boarding
/// count, space-separated, newline-terminated.
pub open spec fn enc_entry(e: (StopId, TimeCost)) -> Seq<char> {
    fixed_digits(e.0.0 as int, 10) + seq![' '] + fixed_digits(e.1.walk_time as int, 20) + seq![' ']
        + fixed_digits(e.1.bus_time as int, 20) + seq![' '] + fixed_digits(
        e.1.wait_time as int,
        20,
    ) + seq![' '] + fixed_digits(e.1.transfers as int, 10) + seq!['\n']
}

/// The encoded cache: its entries' lines in order.
pub open spec fn enc_cache(es: Seq<(StopId, TimeCost)>) -> Seq<char>
    decreases es.len(),
{
    if es.len() == 0 {
        Seq::empty()
    } else {
        enc_entry(es[0]) + enc_cache(es.drop_first())
    }
}

/// The length of one encoded entry.
pub const ENTRY_LEN: usize = 85;

proof fn lemma_digit_of_props(d: int)
    requires
        0 <= d <= 9,
    ensures
        is_digit_char(digit_of(d)),
        digit_of(d) as u32 == 48 + d,
{
}

proof fn lemma_digit_of_inverse(c: char)
    requires
        is_digit_char(c),
    ensures
        digit_of(c as u32 - 48) == c,
{
    let d = c as u32 - 48;
    lemma_digit_of_props(d as int);
    assert(digit_of(d as int) as u32 == c as u32);
}

/// Fixed-width digits: length and digit-hood.
proof fn lemma_fixed_digits_props(n: int, w: nat)
    requires
        n >= 0,
    ensures
        fixed_digits(n, w).len() == w,
        all_digits(fixed_digits(n, w)),
    decreases w,
{
    if w > 0 {
        lemma_fixed_digits_props(n / 10, (w - 1) as nat);
        lemma_digit_of_props(n % 10);
        let s = fixed_digits(n, w);
        assert forall|i: int| 0 <= i < s.len() implies is_digit_char(#[trigger] s[i]) by {
            if i < w - 1 {
                assert(s[i] == fixed_digits(n / 10, (w - 1) as nat)[i]);
            }
        }
    }
}

/// Ten to the `w`.
pub open spec fn pow10(w: nat) -> int
    decreases w,
{
    if w == 0 {
        1
    } else {
        10 * pow10((w - 1) as nat)
    }
}

/// Reading back fixed-width digits yields the written number.
proof fn lemma_fixed_digits_val(n: int, w: nat)
    requires
        0 <= n < pow10(w),
    ensures
        digits_val(fixed_digits(n, w)) == n,
    decreases w,
{
    if w == 0 {
    } else {
        assert(n / 10 < pow10((w - 1) as nat)) by (nonlinear_arith)
            requires n < 10 * pow10((w - 1) as nat), n >= 0;
        lemma_fixed_digits_val(n / 10, (w - 1) as nat);
        lemma_digit_of_props(n % 10);
        let s = fixed_digits(n, w);
        assert(s.drop_last() =~= fixed_digits(n / 10, (w - 1) as nat));
        assert(s.last() == digit_of(n % 10));
    }
}

/// Any `w` digits are the fixed-width form of their own number.
proof fn lemma_fixed_digits_complete(s: Seq<char>, w: nat)
    requires
        s.len() == w,
        all_digits(s),
    ensures
        fixed_digits(digits_val(s), w) == s,
    decreases w,
{
    if w == 0 {
        assert(fixed_digits(digits_val(s), w) =~= s);
    } else {
        let dl = s.drop_last();
        assert(all_digits(dl)) by {
            assert(forall|i: int| 0 <= i < dl.len() ==> #[trigger] dl[i] == s[i]);
        }
        lemma_digits_val_nonneg(dl);
        assert(is_digit_char(s.last()));
        let d = s.last() as u32 - 48;
        let v = digits_val(s);
        assert(v == digits_val(dl) * 10 + d);
        assert(v / 10 == digits_val(dl) && v % 10 == d) by (nonlinear_arith)
            requires v == digits_val(dl) * 10 + d, 0 <= d <= 9, digits_val(dl) >= 0;
        lemma_fixed_digits_complete(dl, (w - 1) as nat);
        lemma_digit_of_inverse(s.last());
        assert(fixed_digits(v, w) =~= s);
    }
}

/// An encoded entry is 85 characters long.
proof fn lemma_enc_entry_len(e: (StopId, TimeCost))
    ensures
        enc_entry(e).len() == 85,
{
    lemma_fixed_digits_props(e.0.0 as int, 10);
    lemma_fixed_digits_props(e.1.walk_time as int, 20);
    lemma_fixed_digits_props(e.1.bus_time as int, 20);
    lemma_fixed_digits_props(e.1.wait_time as int, 20);
    lemma_fixed_digits_props(e.1.transfers as int, 10);
}

/// An encoded cache is 85 characters per entry.
proof fn lemma_enc_cache_len(es: Seq<(StopId, TimeCost)>)
    ensures
        enc_cache(es).len() == 85 * es.len(),
    decreases es.len(),
{
    if es.len() > 0 {
        lemma_enc_entry_len(es[0]);
        lemma_enc_cache_len(es.drop_first());
    }
}

/// Each entry's line stands at its fixed offset.
proof fn lemma_enc_cache_block(es: Seq<(StopId, TimeCost)>, i: int)
    requires
        0 <= i < es.len(),
    ensures
        enc_cache(es).subrange(85 * i, 85 * i + 85) == enc_entry(es[i]),
    decreases i,
{
    lemma_enc_cache_len(es);
    lemma_enc_entry_len(es[0]);
    lemma_enc_cache_len(es.drop_first());
    if i == 0 {
        assert(enc_cache(es).subrange(0, 85) =~= enc_entry(es[0]));
    } else {
        lemma_enc_cache_block(es.drop_first(), i - 1);
        assert(es.drop_first()[i - 1] == es[i]);
        assert(enc_cache(es).subrange(85 * i, 85 * i + 85) =~= enc_cache(
            es.drop_first(),
        ).subrange(85 * (i - 1), 85 * (i - 1) + 85));
    }
}

/// The encoding of a prefix is the prefix of the encoding.
proof fn lemma_enc_cache_prefix(es: Seq<(StopId, TimeCost)>, i: int)
    requires
        0 <= i <= es.len(),
    ensures
        enc_cache(es.take(i)) == enc_cache(es).take(85 * i),
    decreases i,
{
    lemma_enc_cache_len(es);
    lemma_enc_cache_len(es.take(i));
    if i == 0 {
        assert(enc_cache(es.take(0)) =~= enc_cache(es).take(0));
    } else {
        lemma_enc_cache_block(es, i - 1);
        lemma_enc_cache_prefix(es, i - 1);
        assert(es.take(i).drop_last() =~= es.take(i - 1));
        lemma_enc_cache_snoc(es.take(i - 1), es[i - 1]);
        assert(es.take(i) =~= es.take(i - 1).push(es[i - 1]));
        lemma_enc_cache_len(es.take(i - 1));
        assert(enc_cache(es.take(i)) == enc_cache(es.take(i - 1)) + enc_entry(es[i - 1]));
        assert(enc_cache(es).take(85 * i) =~= enc_cache(es).take(85 * (i - 1)) + enc_cache(
            es,
        ).subrange(85 * (i - 1), 85 * (i - 1) + 85));
    }
}

/// Appending an entry appends its line.
proof fn lemma_enc_cache_snoc(es: Seq<(StopId, TimeCost)>, e: (StopId, TimeCost))
    ensures
        enc_cache(es.push(e)) == enc_cache(es) + enc_entry(e),
    decreases es.len(),
{
    if es.len() == 0 {
        assert(es.push(e)[0] == e);
        assert(es.push(e).drop_first() =~= es);
        assert(enc_cache(es) =~= Seq::<char>::empty());
        assert(enc_cache(es.push(e)) =~= enc_entry(e));
        assert(enc_cache(es) + enc_entry(e) =~= enc_entry(e));
    } else {
        assert(es.push(e)[0] == es[0]);
        assert(es.push(e).drop_first() =~= es.drop_first().push(e));
        lemma_enc_cache_snoc(es.drop_first(), e);
        assert(enc_cache(es.push(e)) =~= enc_cache(es) + enc_entry(e));
    }
}

/// The canonical encoding is injective.
pub proof fn lemma_enc_cache_injective(es1: Seq<(StopId, TimeCost)>, es2: Seq<(StopId, TimeCost)>)
    requires
        enc_cache(es1) == enc_cache(es2),
    ensures
        es1 == es2,
    decreases es1.len(),
{
    lemma_enc_cache_len(es1);
    lemma_enc_cache_len(es2);
    if es1.len() == 0 {
        assert(es1 =~= es2);
    } else {
        lemma_enc_cache_block(es1, 0);
        lemma_enc_cache_block(es2, 0);
        lemma_enc_entry_injective(es1[0], es2[0]);
        assert(enc_cache(es1.drop_first()) =~= enc_cache(es2.drop_first())) by {
            lemma_enc_entry_len(es1[0]);
            lemma_enc_entry_len(es2[0]);
            lemma_enc_cache_len(es1.drop_first());
            lemma_enc_cache_len(es2.drop_first());
            assert(enc_cache(es1) == enc_entry(es1[0]) + enc_cache(es1.drop_first()));
            assert(enc_cache(es2) == enc_entry(es2[0]) + enc_cache(es2.drop_first()));
            assert forall|k: int|
                0 <= k < enc_cache(es1.drop_first()).len() implies #[trigger] enc_cache(
                es1.drop_first(),
            )[k] == enc_cache(es2.drop_first())[k] by {
                assert(enc_cache(es1)[85 + k] == enc_cache(es1.drop_first())[k]);
                assert(enc_cache(es2)[85 + k] == enc_cache(es2.drop_first())[k]);
            }
        }
        lemma_enc_cache_injective(es1.drop_first(), es2.drop_first());
        assert(es1.len() == es2.len());
        assert forall|k: int| 0 <= k < es1.len() implies es1[k] == es2[k] by {
            if k > 0 {
                assert(es1[k] == es1.drop_first()[k - 1]);
                assert(es2[k] == es2.drop_first()[k - 1]);
            }
        }
        assert(es1 =~= es2);
    }
}

/// Concrete powers of ten used by the field widths.
proof fn lemma_pow10_bounds()
    ensures
        pow10(10) == 10_000_000_000,
        pow10(20) == 100_000_000_000_000_000_000,
{
    reveal_with_fuel(pow10, 21);
}

/// The layout of one encoded entry: each field at its fixed offset.
proof fn lemma_enc_entry_layout(e: (StopId, TimeCost))
    ensures
        enc_entry(e).len() == 85,
        enc_entry(e).subrange(0, 10) == fixed_digits(e.0.0 as int, 10),
        enc_entry(e)[10] == ' ',
        enc_entry(e).subrange(11, 31) == fixed_digits(e.1.walk_time as int, 20),
        enc_entry(e)[31] == ' ',
        enc_entry(e).subrange(32, 52) == fixed_digits(e.1.bus_time as int, 20),
        enc_entry(e)[52] == ' ',
        enc_entry(e).subrange(53, 73) == fixed_digits(e.1.wait_time as int, 20),
        enc_entry(e)[73] == ' ',
        enc_entry(e).subrange(74, 84) == fixed_digits(e.1.transfers as int, 10),
        enc_entry(e)[84] == '\n',
{
    lemma_fixed_digits_props(e.0.0 as int, 10);
    lemma_fixed_digits_props(e.1.walk_time as int, 20);
    lemma_fixed_digits_props(e.1.bus_time as int, 20);
    lemma_fixed_digits_props(e.1.wait_time as int, 20);
    lemma_fixed_digits_props(e.1.transfers as int, 10);
    assert(enc_entry(e).subrange(0, 10) =~= fixed_digits(e.0.0 as int, 10));
    assert(enc_entry(e).subrange(11, 31) =~= fixed_digits(e.1.walk_time as int, 20));
    assert(enc_entry(e).subrange(32, 52) =~= fixed_digits(e.1.bus_time as int, 20));
    assert(enc_entry(e).subrange(53, 73) =~= fixed_digits(e.1.wait_time as int, 20));
    assert(enc_entry(e).subrange(74, 84) =~= fixed_digits(e.1.transfers as int, 10));
}

/// Two entries with the same line are the same entry.
proof fn lemma_enc_entry_injective(e1: (StopId, TimeCost), e2: (StopId, TimeCost))
    requires
        enc_entry(e1) == enc_entry(e2),
    ensures
        e1 == e2,
{
    lemma_pow10_bounds();
    lemma_enc_entry_layout(e1);
    lemma_enc_entry_layout(e2);
    lemma_fixed_digits_val(e1.0.0 as int, 10);
    lemma_fixed_digits_val(e2.0.0 as int, 10);
    lemma_fixed_digits_val(e1.1.walk_time as int, 20);
    lemma_fixed_digits_val(e2.1.walk_time as int, 20);
    lemma_fixed_digits_val(e1.1.bus_time as int, 20);
    lemma_fixed_digits_val(e2.1.bus_time as int, 20);
    lemma_fixed_digits_val(e1.1.wait_time as int, 20);
    lemma_fixed_digits_val(e2.1.wait_time as int, 20);
    lemma_fixed_digits_val(e1.1.transfers as int, 10);
    lemma_fixed_digits_val(e2.1.transfers as int, 10);
    assert(e1.0 == e2.0);
    assert(e1.1 == e2.1);
}

/// The facts decoding needs of block `i` of an encoded cache: every digit
/// group reads back as the entry's field, and the separators stand at their
/// offsets.
proof fn lemma_encoding_block(es: Seq<(StopId, TimeCost)>, text: Seq<char>, i: int)
    requires
        enc_cache(es) == text,
        0 <= i < es.len(),
    ensures
        ({
            let b = 85 * i;
            &&& text.len() == 85 * es.len()
            &&& all_digits(text.subrange(b, b + 10)) && digits_val(text.subrange(b, b + 10))
                == es[i].0.0
            &&& text[b + 10] == ' '
            &&& all_digits(text.subrange(b + 11, b + 31)) && digits_val(
                text.subrange(b + 11, b + 31),
            ) == es[i].1.walk_time
            &&& text[b + 31] == ' '
            &&& all_digits(text.subrange(b + 32, b + 52)) && digits_val(
                text.subrange(b + 32, b + 52),
            ) == es[i].1.bus_time
            &&& text[b + 52] == ' '
            &&& all_digits(text.subrange(b + 53, b + 73)) && digits_val(
                text.subrange(b + 53, b + 73),
            ) == es[i].1.wait_time
            &&& text[b + 73] == ' '
            &&& all_digits(text.subrange(b + 74, b + 84)) && digits_val(
                text.subrange(b + 74, b + 84),
            ) == es[i].1.transfers
            &&& text[b + 84] == '\n'
        }),
{
    let b = 85 * i;
    lemma_enc_cache_len(es);
    lemma_enc_cache_block(es, i);
    lemma_enc_entry_layout(es[i]);
    lemma_pow10_bounds();
    lemma_fixed_digits_props(es[i].0.0 as int, 10);
    lemma_fixed_digits_props(es[i].1.walk_time as int, 20);
    lemma_fixed_digits_props(es[i].1.bus_time as int, 20);
    lemma_fixed_digits_props(es[i].1.wait_time as int, 20);
    lemma_fixed_digits_props(es[i].1.transfers as int, 10);
    lemma_fixed_digits_val(es[i].0.0 as int, 10);
    lemma_fixed_digits_val(es[i].1.walk_time as int, 20);
    lemma_fixed_digits_val(es[i].1.bus_time as int, 20);
    lemma_fixed_digits_val(es[i].1.wait_time as int, 20);
    lemma_fixed_digits_val(es[i].1.transfers as int, 10);
    let block = text.subrange(b, b + 85);
    assert(text.subrange(b, b + 10) =~= block.subrange(0, 10));
    assert(text.subrange(b + 11, b + 31) =~= block.subrange(11, 31));
    assert(text.subrange(b + 32, b + 52) =~= block.subrange(32, 52));
    assert(text.subrange(b + 53, b + 73) =~= block.subrange(53, 73));
    assert(text.subrange(b + 74, b + 84) =~= block.subrange(74, 84));
    assert(text[b + 10] == block[10]);
    assert(text[b + 31] == block[31]);
    assert(text[b + 52] == block[52]);
    assert(text[b + 73] == block[73]);
    assert(text[b + 84] == block[84]);
}

/// Appends `n` as exactly `w` zero-padded decimal digits.
fn push_fixed(out: &mut Vec<char>, n: u64, w: usize)
    ensures
        final(out)@ == old(out)@ + fixed_digits(n as int, w as nat),
    decreases w,
{
    if w == 0 {
        proof {
            assert(final(out)@ =~= old(out)@ + fixed_digits(n as int, 0));
        }
    } else {
        push_fixed(out, n / 10, w - 1);
        let d = n % 10;
        let c: char = if d == 0 {
            '0'
        } else if d == 1 {
            '1'
        } else if d == 2 {
            '2'
        } else if d == 3 {
            '3'
        } else if d == 4 {
            '4'
        } else if d == 5 {
            '5'
        } else if d == 6 {
            '6'
        } else if d == 7 {
            '7'
        } else if d == 8 {
            '8'
        } else {
            '9'
        };
        proof {
            assert(c == digit_of(n as int % 10));
        }
        out.push(c);
        proof {
            assert(final(out)@ =~= old(out)@ + fixed_digits(n as int, w as nat));
        }
    }
}

/// Writes a cache in its canonical text form: per entry, the identifier, the
/// three durations and the boarding count as fixed-width decimals, space
/// separated, one line each.
pub fn encode_cache(cache: &RouteCache) -> (r: Vec<char>)
    ensures
        r@ == enc_cache(cache.entries@),
{
    let mut out: Vec<char> = Vec::new();
    let n = cache.entries.len();
    proof {
        assert(out@ =~= enc_cache(cache.entries@.take(0)));
    }
    for i in 0..n
        invariant
            n == cache.entries@.len(),
            out@ == enc_cache(cache.entries@.take(i as int)),
    {
        let ghost before = out@;
        let ghost e = cache.entries@[i as int];
        let (id, c) = cache.entries[i];
        push_fixed(&mut out, id.0 as u64, 10);
        out.push(' ');
        push_fixed(&mut out, c.walk_time, 20);
        out.push(' ');
        push_fixed(&mut out, c.bus_time, 20);
        out.push(' ');
        push_fixed(&mut out, c.wait_time, 20);
        out.push(' ');
        push_fixed(&mut out, c.transfers as u64, 10);
        out.push('\n');
        proof {
            assert(out@ =~= before + enc_entry(e));
            lemma_enc_cache_snoc(cache.entries@.take(i as int), e);
            assert(cache.entries@.take(i as int + 1) =~= cache.entries@.take(i as int).push(e));
        }
    }
    proof {
        assert(cache.entries@.take(n as int) =~= cache.entries@);
    }
    out
}

/// Reads `w` decimal digits as a number; `None` when a character is not a
/// digit or the value does not fit the 64-bit range.
#[verifier::loop_isolation(false)]
fn read_fixed(text: &Vec<char>, pos: usize, w: usize) -> (r: Option<u64>)
    requires
        pos + w <= text@.len(),
    ensures
        ({
            let g = text@.subrange(pos as int, pos as int + w as int);
            match r {
                Some(v) => all_digits(g) && v == digits_val(g),
                None => !(all_digits(g) && digits_val(g) <= u64::MAX),
            }
        }),
{
    let ghost g = text@.subrange(pos as int, pos as int + w as int);
    let tn = text.len();
    let mut acc: u64 = 0;
    let mut k: usize = 0;
    proof {
        assert(g.take(0) =~= Seq::<char>::empty());
    }
    while k < w
        invariant
            k <= w,
            acc == digits_val(g.take(k as int)),
            all_digits(g.take(k as int)),
        decreases w - k,
    {
        let c = text[pos + k];
        let u = c as u32;
        proof {
            assert(g[k as int] == text@[pos as int + k]);
            assert(g.take(k as int + 1).drop_last() =~= g.take(k as int));
            assert(g.take(k as int + 1).last() == g[k as int]);
        }
        if u < 48 || u > 57 {
            proof {
                assert(!is_digit_char(g[k as int]));
            }
            return None;
        }
        let d: u64 = (u - 48) as u64;
        let wide: u128 = acc as u128 * 10 + d as u128;
        proof {
            assert(acc as int * 10 + d <= u64::MAX as int * 10 + 9) by (nonlinear_arith)
                requires acc <= u64::MAX, d <= 9;
            assert(digits_val(g.take(k as int + 1)) == acc * 10 + d);
        }
        if wide > u64::MAX as u128 {
            proof {
                if all_digits(g) {
                    assert(g.take(k as int + 1) =~= g.take(k as int + 1));
                    lemma_digits_val_prefix(g, k as int + 1);
                }
            }
            return None;
        }
        acc = wide as u64;
        k += 1;
    }
    proof {
        assert(g.take(w as int) =~= g);
    }
    Some(acc)
}

/// Reads a cache back from its canonical text form. Succeeds exactly on the
/// canonical encoding of a well-formed cache, and then returns the one cache
/// that encodes to the input.
#[verifier::loop_isolation(false)]
#[verifier::rlimit(100)]
pub fn decode_cache(text: &Vec<char>) -> (r: Option<RouteCache>)
    ensures
        r matches Some(c) ==> c.wf() && enc_cache(c.entries@) == text@,
        r is None ==> forall|es: Seq<(StopId, TimeCost)>| #[trigger]
            enc_cache(es) == text@ ==> !crate::precache::entries_unique(es),
{
    let n = text.len();
    if n % ENTRY_LEN != 0 {
        proof {
            assert forall|es: Seq<(StopId, TimeCost)>| #[trigger]
                enc_cache(es) == text@ implies !crate::precache::entries_unique(es) by {
                lemma_enc_cache_len(es);
                assert((85 * es.len()) % 85 == 0) by (nonlinear_arith);
            }
        }
        return None;
    }
    let count = n / ENTRY_LEN;
    let mut cache = RouteCache::new();
    proof {
        assert(enc_cache(cache.entries@) =~= text@.take(0));
    }
    for i in 0..count
        invariant
            n == text@.len(),
            n % 85 == 0,
            count == n / 85,
            cache.wf(),
            cache.entries@.len() == i,
            enc_cache(cache.entries@) == text@.take(85 * i as int),
    {
        let b = i * ENTRY_LEN;
        proof {
            assert(b == 85 * i && b + 85 <= n) by (nonlinear_arith)
                requires b == i * 85, i < count, count == n / 85, n % 85 == 0;
        }
        let rid = read_fixed(text, b, 10);
        let rwalk = read_fixed(text, b + 11, 20);
        let rbus = read_fixed(text, b + 32, 20);
        let rwait = read_fixed(text, b + 53, 20);
        let rtr = read_fixed(text, b + 74, 10);
        let seps_ok = text[b + 10] == ' ' && text[b + 31] == ' ' && text[b + 52] == ' '
            && text[b + 73] == ' ' && text[b + 84] == '\n';
        let fields = match (rid, rwalk, rbus, rwait, rtr) {
            (Some(id), Some(wk), Some(bu), Some(wa), Some(tr)) if seps_ok && id
                <= u32::MAX as u64 && tr <= u32::MAX as u64 => Some(
                (
                    StopId(id as u32),
                    TimeCost { walk_time: wk, bus_time: bu, wait_time: wa, transfers: tr as u32 },
                ),
            ),
            _ => None,
        };
        let e = match fields {
            Some(e) => e,
            None => {
                proof {
                    assert forall|es: Seq<(StopId, TimeCost)>| #[trigger]
                        enc_cache(es) == text@ implies !crate::precache::entries_unique(es) by {
                        lemma_enc_cache_len(es);
                        assert(es.len() == count) by (nonlinear_arith)
                            requires 85 * es.len() == n, count == n / 85, n % 85 == 0;
                        lemma_encoding_block(es, text@, i as int);
                        lemma_pow10_bounds();
                    }
                }
                return None;
            },
        };
        let ghost old_entries = cache.entries@;
        let fresh = cache.insert(e.0, e.1);
        if !fresh {
            proof {
                assert forall|es: Seq<(StopId, TimeCost)>| #[trigger]
                    enc_cache(es) == text@ implies !crate::precache::entries_unique(es) by {
                    lemma_enc_cache_len(es);
                    assert(es.len() == count) by (nonlinear_arith)
                        requires 85 * es.len() == n, count == n / 85, n % 85 == 0;
                    lemma_encoding_block(es, text@, i as int);
                    lemma_enc_cache_prefix(es, i as int);
                    assert(enc_cache(es.take(i as int)) == enc_cache(cache.entries@));
                    lemma_enc_cache_injective(es.take(i as int), cache.entries@);
                    if crate::precache::entries_unique(es) {
                        assert(e.0.0 == es[i as int].0.0);
                        let k = choose|k: int|
                            0 <= k < cache.entries@.len() && (#[trigger] cache.entries@[k]).0.0
                                == e.0.0;
                        assert(es.take(i as int)[k] == es[k]);
                        assert(false);
                    }
                }
            }
            return None;
        }
        proof {
            lemma_enc_entry_layout(e);
            lemma_fixed_digits_complete(text@.subrange(b as int, b as int + 10), 10);
            lemma_fixed_digits_complete(text@.subrange(b as int + 11, b as int + 31), 20);
            lemma_fixed_digits_complete(text@.subrange(b as int + 32, b as int + 52), 20);
            lemma_fixed_digits_complete(text@.subrange(b as int + 53, b as int + 73), 20);
            lemma_fixed_digits_complete(text@.subrange(b as int + 74, b as int + 84), 10);
            let bb = b as int;
            assert(fixed_digits(e.0.0 as int, 10) == text@.subrange(bb, bb + 10));
            assert(fixed_digits(e.1.walk_time as int, 20) == text@.subrange(bb + 11, bb + 31));
            assert(fixed_digits(e.1.bus_time as int, 20) == text@.subrange(bb + 32, bb + 52));
            assert(fixed_digits(e.1.wait_time as int, 20) == text@.subrange(bb + 53, bb + 73));
            assert(fixed_digits(e.1.transfers as int, 10) == text@.subrange(bb + 74, bb + 84));
            assert forall|m: int| 0 <= m < 85 implies enc_entry(e)[m] == text@.subrange(
                bb,
                bb + 85,
            )[m] by {
                if m < 10 {
                    assert(enc_entry(e)[m] == enc_entry(e).subrange(0, 10)[m]);
                    assert(text@.subrange(bb, bb + 10)[m] == text@[bb + m]);
                } else if m == 10 || m == 31 || m == 52 || m == 73 || m == 84 {
                } else if m < 31 {
                    assert(enc_entry(e)[m] == enc_entry(e).subrange(11, 31)[m - 11]);
                    assert(text@.subrange(bb + 11, bb + 31)[m - 11] == text@[bb + m]);
                } else if m < 52 {
                    assert(enc_entry(e)[m] == enc_entry(e).subrange(32, 52)[m - 32]);
                    assert(text@.subrange(bb + 32, bb + 52)[m - 32] == text@[bb + m]);
                } else if m < 73 {
                    assert(enc_entry(e)[m] == enc_entry(e).subrange(53, 73)[m - 53]);
                    assert(text@.subrange(bb + 53, bb + 73)[m - 53] == text@[bb + m]);
                } else {
                    assert(enc_entry(e)[m] == enc_entry(e).subrange(74, 84)[m - 74]);
                    assert(text@.subrange(bb + 74, bb + 84)[m - 74] == text@[bb + m]);
                }
            }
            assert(enc_entry(e) =~= text@.subrange(bb, bb + 85));
            assert(cache.entries@ == old_entries.push((e.0, e.1)));
            lemma_enc_cache_snoc(old_entries, (e.0, e.1));
            assert(enc_cache(cache.entries@) == text@.take(85 * i as int) + text@.subrange(
                bb,
                bb + 85,
            ));
            assert(enc_cache(cache.entries@) =~= text@.take(85 * (i as int + 1)));
        }
    }
    proof {
        assert(text@.take(85 * count as int) =~= text@) by {
            assert(85 * count as int == n) by (nonlinear_arith)
                requires count == n / 85, n % 85 == 0;
        }
    }
    Some(cache)
}

} // verus!
