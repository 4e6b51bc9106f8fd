//! The on-disk atlas index: a JSON array of tile header objects, no
//! pixel payload. The writer emits one canonical form; the reader
//! accepts a file only if it re-serializes to exactly the bytes it read,
//! so whatever the reader returns stands for the file byte for byte.
//! Rebuilding the cell buckets is the reader's replay of each tile's
//! coverage hashes, through the ordinary insertion path.
//!
//! Reading and writing the actual file is I/O and stays with the program
//! around the library; the codec works on plain bytes.

use vstd::prelude::*;
use crate::atlas::{names_unique, Atlas};
use crate::errors::Error;
use crate::tile::Tile;

verus! {

/// The decimal digits of a natural number, most significant first.
pub open spec fn dec_nat(n: nat) -> Seq<u8>
    decreases n,
{
    if n < 10 {
        seq![(48 + n) as u8]
    } else {
        dec_nat((n / 10) as nat).push((48 + (n % 10)) as u8)
    }
}

/// The decimal form of an integer: a leading minus for negatives.
pub open spec fn dec_int(x: int) -> Seq<u8> {
    if x >= 0 {
        dec_nat(x as nat)
    } else {
        seq![45u8] + dec_nat((-x) as nat)
    }
}

/// `{"fname":"`
pub open spec fn lit_fname_key() -> Seq<u8> {
    seq![123u8, 34, 102, 110, 97, 109, 101, 34, 58, 34]
}

/// `","width":`
pub open spec fn lit_width_key() -> Seq<u8> {
    seq![34u8, 44, 34, 119, 105, 100, 116, 104, 34, 58]
}

/// `,"height":`
pub open spec fn lit_height_key() -> Seq<u8> {
    seq![44u8, 34, 104, 101, 105, 103, 104, 116, 34, 58]
}

/// `,"transform":{"origin_e":`
pub open spec fn lit_transform_key() -> Seq<u8> {
    seq![
        44u8, 34, 116, 114, 97, 110, 115, 102, 111, 114, 109, 34, 58, 123, 34, 111, 114, 105,
        103, 105, 110, 95, 101, 34, 58,
    ]
}

/// `,"origin_n":`
pub open spec fn lit_origin_n_key() -> Seq<u8> {
    seq![44u8, 34, 111, 114, 105, 103, 105, 110, 95, 110, 34, 58]
}

/// `,"pixel_size":`
pub open spec fn lit_pixel_key() -> Seq<u8> {
    seq![44u8, 34, 112, 105, 120, 101, 108, 95, 115, 105, 122, 101, 34, 58]
}

/// `}}`
pub open spec fn lit_record_end() -> Seq<u8> {
    seq![125u8, 125]
}

/// One tile header as the index stores it.
pub open spec fn tile_json(t: Tile) -> Seq<u8> {
    lit_fname_key() + t.fname@ + lit_width_key() + dec_int(t.width as int) + lit_height_key()
        + dec_int(t.height as int) + lit_transform_key() + dec_int(t.origin_e as int)
        + lit_origin_n_key() + dec_int(t.origin_n as int) + lit_pixel_key()
        + dec_int(t.pixel_size as int) + lit_record_end()
}

/// The comma-separated records.
pub open spec fn items_json(ts: Seq<Tile>) -> Seq<u8>
    decreases ts.len(),
{
    if ts.len() == 0 {
        Seq::empty()
    } else if ts.len() == 1 {
        tile_json(ts[0])
    } else {
        tile_json(ts[0]) + seq![44u8] + items_json(ts.drop_first())
    }
}

/// The whole index file: the records in a JSON array.
pub open spec fn index_json(ts: Seq<Tile>) -> Seq<u8> {
    seq![91u8] + items_json(ts) + seq![93u8]
}

/// Append literal bytes.
fn push_byte3(out: &mut Vec<u8>, a: u8, b: u8, c: u8)
    ensures
        final(out)@ == old(out)@ + seq![a, b, c],
{
    out.push(a);
    out.push(b);
    out.push(c);
    proof {
        assert(out@ =~= old(out)@ + seq![a, b, c]);
    }
}

/// Append the decimal form of an integer.
fn push_dec(out: &mut Vec<u8>, x: i64)
    ensures
        final(out)@ == old(out)@ + dec_int(x as int),
{
    let ghost out0 = out@;
    if x < 0 {
        out.push(45);
    }
    let mut m: u64 = if x < 0 {
        (-(x + 1)) as u64 + 1
    } else {
        x as u64
    };
    let ghost m0 = m;
    proof {
        assert(m0 == if x >= 0 { x as int } else { -(x as int) });
    }
    let mut rev: Vec<u8> = Vec::new();
    let d = (m % 10) as u8 + 48;
    rev.push(d);
    let ghost mut acc: Seq<u8> = seq![d];
    m = m / 10;
    proof {
        if m == 0 {
            assert(dec_nat(m0 as nat) =~= acc);
        } else {
            assert(dec_nat(m0 as nat) =~= dec_nat(m as nat) + acc);
        }
    }
    while m > 0
        invariant
            rev@.len() == acc.len(),
            acc.len() >= 1,
            forall|i: int| 0 <= i < rev@.len() ==> rev@[i] == acc[acc.len() - 1 - i],
            m > 0 ==> dec_nat(m0 as nat) == dec_nat(m as nat) + acc,
            m == 0 ==> dec_nat(m0 as nat) == acc,
        decreases m,
    {
        let d2 = (m % 10) as u8 + 48;
        let ghost acc_pre = acc;
        rev.push(d2);
        proof {
            acc = seq![d2] + acc;
        }
        m = m / 10;
        proof {
            assert(rev@[rev@.len() - 1] == acc[0]);
            assert forall|i: int| 0 <= i < rev@.len()
                implies rev@[i] == acc[acc.len() - 1 - i] by {
                if i < rev@.len() - 1 {
                    assert(rev@[i] == acc_pre[acc_pre.len() - 1 - i]);
                    assert(acc[acc.len() - 1 - i] == acc_pre[acc_pre.len() - 1 - i]);
                }
            }
            if m == 0 {
                assert(dec_nat((m0 as nat)) =~= acc);
            } else {
                assert(dec_nat((m as nat)).push(d2) =~= dec_nat(m as nat) + seq![d2]);
                assert(dec_nat(m0 as nat) =~= dec_nat(m as nat) + acc);
            }
        }
    }
    let ghost mid = out@;
    let mut k: usize = rev.len();
    while k > 0
        invariant
            k <= rev@.len(),
            rev@.len() == acc.len(),
            forall|i: int| 0 <= i < rev@.len() ==> rev@[i] == acc[acc.len() - 1 - i],
            out@ == mid + acc.subrange(0, acc.len() - k),
        decreases k,
    {
        let ghost out_pre = out@;
        out.push(rev[k - 1]);
        proof {
            assert(rev@[k - 1] == acc[acc.len() - k]);
            assert(out@ =~= mid + acc.subrange(0, acc.len() - (k - 1)));
        }
        k = k - 1;
    }
    proof {
        assert(acc.subrange(0, acc.len() as int) =~= acc);
        assert(dec_nat(m0 as nat) == acc);
        if x >= 0 {
            assert(out@ =~= out0 + dec_int(x as int));
        } else {
            assert(mid =~= out0 + seq![45u8]);
            assert(out@ =~= out0 + (seq![45u8] + dec_nat((-(x as int)) as nat)));
        }
    }
}

/// Append one tile header.
#[verifier::rlimit(80)]
fn push_tile(out: &mut Vec<u8>, t: &Tile)
    requires
        t.header_wf(),
    ensures
        final(out)@ == old(out)@ + tile_json(*t),
{
    let ghost out0 = out@;
    // {"fname":"
    out.push(123);
    out.push(34);
    push_byte3(out, 102, 110, 97);
    push_byte3(out, 109, 101, 34);
    out.push(58);
    out.push(34);
    proof {
        assert(out@ =~= out0 + lit_fname_key());
    }
    let ghost p1 = out@;
    let mut i: usize = 0;
    while i < t.fname.len()
        invariant
            i <= t.fname@.len(),
            out@ == p1 + t.fname@.subrange(0, i as int),
        decreases t.fname@.len() - i,
    {
        out.push(t.fname[i]);
        proof {
            assert(out@ =~= p1 + t.fname@.subrange(0, i + 1));
        }
        i = i + 1;
    }
    proof {
        assert(t.fname@.subrange(0, t.fname@.len() as int) =~= t.fname@);
    }
    let ghost p2 = out@;
    // ","width":
    out.push(34);
    out.push(44);
    out.push(34);
    push_byte3(out, 119, 105, 100);
    push_byte3(out, 116, 104, 34);
    out.push(58);
    proof {
        assert(out@ =~= p2 + lit_width_key());
    }
    push_dec(out, t.width as i64);
    let ghost p3 = out@;
    // ,"height":
    out.push(44);
    out.push(34);
    push_byte3(out, 104, 101, 105);
    push_byte3(out, 103, 104, 116);
    out.push(34);
    out.push(58);
    proof {
        assert(out@ =~= p3 + lit_height_key());
    }
    push_dec(out, t.height as i64);
    let ghost p4 = out@;
    // ,"transform":{"origin_e":
    out.push(44);
    out.push(34);
    push_byte3(out, 116, 114, 97);
    push_byte3(out, 110, 115, 102);
    push_byte3(out, 111, 114, 109);
    out.push(34);
    out.push(58);
    out.push(123);
    out.push(34);
    push_byte3(out, 111, 114, 105);
    push_byte3(out, 103, 105, 110);
    push_byte3(out, 95, 101, 34);
    out.push(58);
    proof {
        assert(out@ =~= p4 + lit_transform_key());
    }
    push_dec(out, t.origin_e);
    let ghost p5 = out@;
    // ,"origin_n":
    out.push(44);
    out.push(34);
    push_byte3(out, 111, 114, 105);
    push_byte3(out, 103, 105, 110);
    push_byte3(out, 95, 110, 34);
    out.push(58);
    proof {
        assert(out@ =~= p5 + lit_origin_n_key());
    }
    push_dec(out, t.origin_n);
    let ghost p6 = out@;
    // ,"pixel_size":
    out.push(44);
    out.push(34);
    push_byte3(out, 112, 105, 120);
    push_byte3(out, 101, 108, 95);
    push_byte3(out, 115, 105, 122);
    out.push(101);
    out.push(34);
    out.push(58);
    proof {
        assert(out@ =~= p6 + lit_pixel_key());
    }
    push_dec(out, t.pixel_size);
    out.push(125);
    out.push(125);
    proof {
        assert(out@ =~= out0 + tile_json(*t));
    }
}

impl Atlas {
    /// Serialize the tile headers (no pixel payload) as the index file's
    /// bytes. A well-formed atlas's table holds each file name once, so
    /// every distinct tile name is emitted exactly once, however many
    /// buckets list the tile.
    pub fn write_atlas(&self) -> (out: Vec<u8>)
        requires
            self.wf(),
        ensures
            out@ == index_json(self.tiles@),
    {
        let mut out: Vec<u8> = Vec::new();
        out.push(91);
        let ghost head = out@;
        let mut i: usize = 0;
        while i < self.tiles.len()
            invariant
                self.wf(),
                i <= self.tiles@.len(),
                head == seq![91u8],
                out@ == head + items_json(self.tiles@.subrange(0, i as int)),
                i < self.tiles@.len() && i > 0 ==> out@ == head + items_json(
                    self.tiles@.subrange(0, i as int),
                ),
            decreases self.tiles@.len() - i,
        {
            if i > 0 {
                out.push(44);
            }
            push_tile(&mut out, &self.tiles[i]);
            proof {
                lemma_items_snoc(self.tiles@, i as int);
                if i > 0 {
                    assert(out@ =~= head + (items_json(self.tiles@.subrange(0, i as int))
                        + seq![44u8] + tile_json(self.tiles@[i as int])));
                } else {
                    assert(self.tiles@.subrange(0, 0) =~= Seq::<Tile>::empty());
                    assert(out@ =~= head + tile_json(self.tiles@[0]));
                    assert(items_json(self.tiles@.subrange(0, 1)) == tile_json(
                        self.tiles@.subrange(0, 1)[0],
                    ));
                    assert(out@ =~= head + items_json(self.tiles@.subrange(0, 1)));
                }
            }
            i = i + 1;
        }
        out.push(93);
        proof {
            assert(self.tiles@.subrange(0, self.tiles@.len() as int) =~= self.tiles@);
            assert(out@ =~= index_json(self.tiles@));
        }
        out
    }
}

/// Where the run of decimal digits beginning at `p` ends.
pub open spec fn digit_run_end(s: Seq<u8>, p: int) -> int
    decreases s.len() - p
        when 0 <= p <= s.len()
{
    if p < s.len() && is_digit(s[p]) {
        digit_run_end(s, p + 1)
    } else {
        p
    }
}

/// The value of a digit string, most significant first.
pub open spec fn val_of(s: Seq<u8>) -> int
    decreases s.len(),
{
    if s.len() == 0 {
        0
    } else {
        val_of(s.drop_last()) * 10 + (s.last() - 48)
    }
}

/// A parseable number (optional minus, then at least one digit) begins at
/// `pos`.
pub open spec fn number_shape(s: Seq<u8>, pos: int) -> bool {
    let q = if pos < s.len() && s[pos] == 45 {
        pos + 1
    } else {
        pos
    };
    q < s.len() && is_digit(s[q])
}

/// Where the number beginning at `pos` ends.
pub open spec fn number_end(s: Seq<u8>, pos: int) -> int {
    let q = if pos < s.len() && s[pos] == 45 {
        pos + 1
    } else {
        pos
    };
    digit_run_end(s, q)
}

/// The value of the number beginning at `pos`.
pub open spec fn number_val(s: Seq<u8>, pos: int) -> int {
    if pos < s.len() && s[pos] == 45 {
        -val_of(s.subrange(pos + 1, number_end(s, pos)))
    } else {
        val_of(s.subrange(pos, number_end(s, pos)))
    }
}

/// Where the first quote at or after `p` sits; the length if none.
pub open spec fn quote_end(s: Seq<u8>, p: int) -> int
    decreases s.len() - p
        when 0 <= p <= s.len()
{
    if p < s.len() && s[p] != 34 {
        quote_end(s, p + 1)
    } else {
        p
    }
}

/// What the digit-run scan guarantees, wherever it stops.
proof fn lemma_digit_run_props(s: Seq<u8>, p: int)
    requires
        0 <= p <= s.len(),
    ensures
        p <= digit_run_end(s, p) <= s.len(),
        forall|i: int| p <= i < digit_run_end(s, p) ==> is_digit(#[trigger] s[i]),
        digit_run_end(s, p) == s.len() || !is_digit(s[digit_run_end(s, p)]),
    decreases s.len() - p,
{
    if p < s.len() && is_digit(s[p]) {
        lemma_digit_run_props(s, p + 1);
    }
}

/// What the quote scan guarantees, wherever it stops.
proof fn lemma_quote_end_props(s: Seq<u8>, p: int)
    requires
        0 <= p <= s.len(),
    ensures
        p <= quote_end(s, p) <= s.len(),
        forall|i: int| p <= i < quote_end(s, p) ==> #[trigger] s[i] != 34,
        quote_end(s, p) < s.len() ==> s[quote_end(s, p)] == 34,
    decreases s.len() - p,
{
    if p < s.len() && s[p] != 34 {
        lemma_quote_end_props(s, p + 1);
    }
}

/// The quote scan stops exactly at the first quote.
proof fn lemma_quote_end(s: Seq<u8>, p: int, e: int)
    requires
        0 <= p <= e <= s.len(),
        forall|i: int| p <= i < e ==> #[trigger] s[i] != 34,
        e == s.len() || s[e] == 34,
    ensures
        quote_end(s, p) == e,
    decreases e - p,
{
    if p < e {
        lemma_quote_end(s, p + 1, e);
    }
}

/// A digit run ends exactly where the digits stop.
proof fn lemma_digit_run(s: Seq<u8>, p: int, e: int)
    requires
        0 <= p <= e <= s.len(),
        forall|i: int| p <= i < e ==> is_digit(#[trigger] s[i]),
        e == s.len() || !is_digit(s[e]),
    ensures
        digit_run_end(s, p) == e,
    decreases e - p,
{
    if p < e {
        lemma_digit_run(s, p + 1, e);
    }
}

/// The value of a digit string is non-negative and never below the value
/// of any of its prefixes.
proof fn lemma_val_of_bounds(s: Seq<u8>, k: int)
    requires
        0 <= k <= s.len(),
        forall|i: int| 0 <= i < s.len() ==> is_digit(#[trigger] s[i]),
    ensures
        0 <= val_of(s.subrange(0, k)) <= val_of(s),
    decreases s.len(),
{
    if s.len() == 0 {
        assert(s.subrange(0, k) =~= s);
    } else {
        lemma_val_of_bounds(s.drop_last(), if k <= s.len() - 1 { k } else { k - 1 });
        if k == s.len() {
            assert(s.subrange(0, k) =~= s);
            assert(s.drop_last().subrange(0, s.len() - 1) =~= s.drop_last());
            assert(0 <= val_of(s.drop_last()));
            assert(val_of(s) == val_of(s.drop_last()) * 10 + (s.last() - 48));
            assert(48 <= s.last() <= 57);
        } else {
            assert(s.subrange(0, k) =~= s.drop_last().subrange(0, k));
            assert(val_of(s.drop_last()) * 10 + (s.last() - 48) >= val_of(s.drop_last()))
                by (nonlinear_arith)
                requires
                    val_of(s.drop_last()) >= 0,
                    s.last() >= 48,
            ;
        }
    }
}

/// Printing and scanning a natural number are inverse: the digit run of
/// `dec_nat(n)` followed by a non-digit ends after the printed digits,
/// and their value is `n`.
proof fn lemma_scan_of_print(n: nat)
    ensures
        val_of(dec_nat(n)) == n,
        forall|i: int| 0 <= i < dec_nat(n).len() ==> is_digit(#[trigger] dec_nat(n)[i]),
    decreases n,
{
    lemma_dec_nat_digits(n);
    if n < 10 {
        assert(dec_nat(n).drop_last() =~= Seq::<u8>::empty());
        assert(dec_nat(n).last() == (48 + n) as u8);
        assert(((48 + n) as u8) as int == 48 + n);
        assert(val_of(Seq::<u8>::empty()) == 0);
        assert(val_of(dec_nat(n)) == val_of(dec_nat(n).drop_last()) * 10 + (dec_nat(n).last() - 48));
        assert(val_of(dec_nat(n)) == n);
    } else {
        lemma_scan_of_print(n / 10);
        assert(dec_nat(n).drop_last() =~= dec_nat(n / 10));
        assert(dec_nat(n).last() == (48 + (n % 10)) as u8);
        assert(0 <= n % 10 < 10);
        assert(((48 + (n % 10)) as u8) as int == 48 + (n % 10));
        assert(val_of(dec_nat(n)) == val_of(dec_nat(n).drop_last()) * 10 + (dec_nat(n).last() - 48));
        assert(val_of(dec_nat(n)) == (n / 10) * 10 + (n % 10));
        vstd::arithmetic::div_mod::lemma_fundamental_div_mod(n as int, 10);
        assert(val_of(dec_nat(n)) == n);
    }
}

/// A printed integer followed by anything that is neither digit nor
/// minus scans back to exactly itself.
proof fn lemma_number_of_print(s: Seq<u8>, pos: int, x: int, rest: Seq<u8>)
    requires
        0 <= pos <= s.len(),
        s.subrange(pos, s.len() as int) == dec_int(x) + rest,
        rest.len() > 0,
        !is_digit(rest[0]),
        rest[0] != 45,
    ensures
        number_shape(s, pos),
        number_val(s, pos) == x,
        number_end(s, pos) == pos + dec_int(x).len(),
{
    let m: nat = if x >= 0 {
        x as nat
    } else {
        (-x) as nat
    };
    lemma_dec_nat_digits(m);
    lemma_scan_of_print(m);
    let tail = s.subrange(pos, s.len() as int);
    let q: int = if x < 0 {
        pos + 1
    } else {
        pos
    };
    let len = dec_nat(m).len() as int;
    assert(tail.len() == dec_int(x).len() + rest.len());
    assert(dec_int(x).len() == (q - pos) + len);
    assert(q + len < s.len());
    if x < 0 {
        assert(s[pos] == tail[0]);
        assert(tail[0] == (seq![45u8] + dec_nat(m))[0]);
        assert(s[pos] == 45);
    }
    assert forall|i: int| q <= i < q + len implies is_digit(#[trigger] s[i]) && s[i]
        == dec_nat(m)[i - q] by {
        assert(s[i] == tail[i - pos]);
        if x < 0 {
            assert(tail[i - pos] == (seq![45u8] + dec_nat(m))[i - pos]);
            assert((seq![45u8] + dec_nat(m))[i - pos] == dec_nat(m)[i - pos - 1]);
        } else {
            assert(tail[i - pos] == (dec_nat(m) + rest)[i - pos]);
            assert((dec_nat(m) + rest)[i - pos] == dec_nat(m)[i - pos]);
        }
    }
    assert(s[q + len] == tail[q - pos + len]);
    if x < 0 {
        assert(tail[q - pos + len] == (seq![45u8] + dec_nat(m) + rest)[1 + len]);
        assert(tail =~= seq![45u8] + dec_nat(m) + rest);
        assert((seq![45u8] + dec_nat(m) + rest)[1 + len] == rest[0]);
    } else {
        assert(tail[len] == (dec_nat(m) + rest)[len]);
        assert((dec_nat(m) + rest)[len] == rest[0]);
    }
    assert(s[q + len] == rest[0]);
    if x >= 0 {
        assert(s[pos] == dec_nat(m)[0 - 0]);
        assert(is_digit(s[pos]));
        assert(s[pos] != 45);
    }
    lemma_digit_run(s, q, q + len);
    assert(number_shape(s, pos));
    assert(number_end(s, pos) == q + len);
    assert(s.subrange(q, q + len) =~= dec_nat(m));
    if x < 0 {
        assert(number_val(s, pos) == -val_of(dec_nat(m)));
    } else {
        assert(number_val(s, pos) == val_of(dec_nat(m)));
    }
}

/// A printed quote-free name followed by a quote scans back to exactly
/// itself.
proof fn lemma_name_of_print(s: Seq<u8>, pos: int, name: Seq<u8>, rest: Seq<u8>)
    requires
        0 <= pos <= s.len(),
        s.subrange(pos, s.len() as int) == name + rest,
        forall|i: int| 0 <= i < name.len() ==> #[trigger] name[i] != 34,
        rest.len() > 0,
        rest[0] == 34,
    ensures
        quote_end(s, pos) == pos + name.len(),
        quote_end(s, pos) < s.len(),
        s.subrange(pos, pos + name.len()) == name,
{
    let tail = s.subrange(pos, s.len() as int);
    assert(tail.len() == name.len() + rest.len());
    assert(pos + name.len() < s.len());
    assert forall|i: int| pos <= i < pos + name.len() implies #[trigger] s[i] != 34 by {
        assert(s[i] == tail[i - pos]);
        assert(tail[i - pos] == (name + rest)[i - pos]);
        assert((name + rest)[i - pos] == name[i - pos]);
    }
    assert(s[pos + name.len()] == tail[name.len() as int]);
    assert(tail[name.len() as int] == (name + rest)[name.len() as int]);
    assert(s[pos + name.len()] == rest[0]);
    lemma_quote_end(s, pos, pos + name.len());
    assert(s.subrange(pos, pos + name.len()) =~= name);
}

/// Splitting one concatenation off the suffix of a buffer.
proof fn lemma_slice_of_concat(s: Seq<u8>, pos: int, a: Seq<u8>, b: Seq<u8>)
    requires
        0 <= pos <= s.len(),
        s.subrange(pos, s.len() as int) == a + b,
    ensures
        pos + a.len() <= s.len(),
        s.subrange(pos, pos + a.len()) == a,
        s.subrange(pos + a.len(), s.len() as int) == b,
{
    let tail = s.subrange(pos, s.len() as int);
    assert(tail.len() == a.len() + b.len());
    assert forall|i: int| 0 <= i < a.len() implies s.subrange(pos, pos + a.len())[i]
        == a[i] by {
        assert(s.subrange(pos, pos + a.len())[i] == s[pos + i]);
        assert(s[pos + i] == tail[i]);
        assert(tail[i] == (a + b)[i]);
    }
    assert(s.subrange(pos, pos + a.len()) =~= a);
    assert forall|i: int| 0 <= i < b.len() implies s.subrange(
        pos + a.len(),
        s.len() as int,
    )[i] == b[i] by {
        assert(s.subrange(pos + a.len(), s.len() as int)[i] == s[pos + a.len() + i]);
        assert(s[pos + a.len() + i] == tail[a.len() + i]);
        assert(tail[a.len() + i] == (a + b)[a.len() + i]);
    }
    assert(s.subrange(pos + a.len(), s.len() as int) =~= b);
}

/// Records of tiles with the same header are the same bytes.
proof fn lemma_tile_json_congruent(a: Tile, b: Tile)
    requires
        a.same_header(b),
    ensures
        tile_json(a) == tile_json(b),
{
    assert(dec_int(a.width as int) == dec_int(b.width as int));
    assert(tile_json(a) =~= tile_json(b));
}

/// A whole record stands at `pos`, followed by a separator or the closing
/// bracket.
pub open spec fn record_at(s: Seq<u8>, pos: int, t: Tile, rest: Seq<u8>) -> bool {
    &&& t.header_wf()
    &&& 0 <= pos <= s.len()
    &&& s.subrange(pos, s.len() as int) == tile_json(t) + rest
    &&& rest.len() > 0
    &&& (rest[0] == 44 || rest[0] == 93)
}

/// Every header in the list fits the world model.
pub open spec fn headers_ok(ts: Seq<Tile>) -> bool {
    forall|i: int| 0 <= i < ts.len() ==> (#[trigger] ts[i]).header_wf()
}

/// What follows the record of tile `i` in the file: a separator and the
/// remaining records, or the closing bracket.
pub open spec fn suffix_after(ts: Seq<Tile>, i: int) -> Seq<u8> {
    if i + 1 == ts.len() {
        seq![93u8]
    } else {
        seq![44u8] + (items_json(ts.skip(i + 1)) + seq![93u8])
    }
}

/// The file tail from record `i` on splits into that record and its
/// suffix.
proof fn lemma_items_decompose(ts: Seq<Tile>, i: int)
    requires
        0 <= i < ts.len(),
    ensures
        items_json(ts.skip(i)) + seq![93u8] == tile_json(ts[i]) + suffix_after(ts, i),
{
    let sk = ts.skip(i);
    assert(sk.len() == ts.len() - i);
    assert(sk[0] == ts[i]);
    if i + 1 == ts.len() {
        assert(items_json(sk) == tile_json(sk[0]));
        assert(items_json(ts.skip(i)) + seq![93u8] =~= tile_json(ts[i]) + suffix_after(ts, i));
    } else {
        assert(items_json(sk) == tile_json(sk[0]) + seq![44u8] + items_json(sk.drop_first()));
        assert(sk.drop_first() =~= ts.skip(i + 1));
        assert(items_json(ts.skip(i)) + seq![93u8] =~= tile_json(ts[i]) + suffix_after(ts, i));
    }
}

/// Lists of tiles with the same headers serialize to the same records.
proof fn lemma_items_congruent(a: Seq<Tile>, b: Seq<Tile>)
    requires
        a.len() == b.len(),
        forall|k: int| 0 <= k < a.len() ==> (#[trigger] a[k]).same_header(b[k]),
    ensures
        items_json(a) == items_json(b),
    decreases a.len(),
{
    if a.len() > 0 {
        lemma_tile_json_congruent(a[0], b[0]);
        if a.len() > 1 {
            assert forall|k: int| 0 <= k < a.drop_first().len()
                implies (#[trigger] a.drop_first()[k]).same_header(b.drop_first()[k]) by {
                assert(a[k + 1].same_header(b[k + 1]));
            }
            lemma_items_congruent(a.drop_first(), b.drop_first());
        }
    }
}

/// Exact byte equality of two buffers.
fn bytes_eq(a: &Vec<u8>, b: &Vec<u8>) -> (r: bool)
    ensures
        r == (a@ == b@),
{
    if a.len() != b.len() {
        proof {
            assert(a@.len() != b@.len());
        }
        return false;
    }
    let mut i: usize = 0;
    while i < a.len()
        invariant
            a@.len() == b@.len(),
            i <= a@.len(),
            forall|j: int| 0 <= j < i ==> a@[j] == b@[j],
        decreases a@.len() - i,
    {
        if a[i] != b[i] {
            return false;
        }
        i = i + 1;
    }
    proof {
        assert(a@ =~= b@);
    }
    true
}

/// Match literal bytes at a position. Succeeds exactly when the
/// (non-empty) pattern stands there.
fn expect_bytes(s: &Vec<u8>, pos: usize, pat: &Vec<u8>) -> (r: Result<usize, Error>)
    requires
        pos <= s@.len(),
        pat@.len() > 0,
    ensures
        r matches Ok(p2) ==> pos < p2 <= s@.len() && p2 == pos + pat@.len(),
        r is Ok <==> (pos + pat@.len() <= s@.len()
            && s@.subrange(pos as int, pos + pat@.len()) == pat@),
{
    if pat.len() > s.len() - pos {
        return Err(Error::Generic);
    }
    let mut i: usize = 0;
    while i < pat.len()
        invariant
            i <= pat@.len(),
            pat@.len() > 0,
            pos + pat@.len() <= s@.len(),
            s@.len() <= usize::MAX,
            forall|j: int| 0 <= j < i ==> s@[pos + j] == pat@[j],
        decreases pat@.len() - i,
    {
        if s[pos + i] != pat[i] {
            proof {
                assert(s@.subrange(pos as int, pos + pat@.len())[i as int] == s@[pos + i]);
            }
            return Err(Error::Generic);
        }
        i = i + 1;
    }
    proof {
        assert(s@.subrange(pos as int, pos + pat@.len()) =~= pat@);
    }
    Ok(pos + pat.len())
}

/// Read a decimal integer at a position. Succeeds on every number of
/// reasonable magnitude, returning its value and its end.
fn parse_dec(s: &Vec<u8>, pos: usize) -> (r: Result<(i64, usize), Error>)
    requires
        pos <= s@.len(),
    ensures
        r matches Ok(p2) ==> pos < p2.1 <= s@.len(),
        number_shape(s@, pos as int) && -400_000_000_000_000_000 <= number_val(s@, pos as int)
            <= 400_000_000_000_000_000 ==> (r matches Ok(p2)
            && p2.0 == number_val(s@, pos as int) && p2.1 == number_end(s@, pos as int)),
{
    let mut p = pos;
    let mut neg = false;
    if p < s.len() && s[p] == 45 {
        neg = true;
        p = p + 1;
    }
    let ghost q = p as int;
    if !(p < s.len() && 48 <= s[p] && s[p] <= 57) {
        proof {
            assert(!number_shape(s@, pos as int));
        }
        return Err(Error::Generic);
    }
    let mut acc: i64 = 0;
    while p < s.len() && 48 <= s[p] && s[p] <= 57
        invariant
            pos <= q <= p <= s@.len(),
            neg ==> pos < s@.len() && s@[pos as int] == 45 && q == pos + 1,
            !neg ==> q == pos,
            q < s@.len() && is_digit(s@[q]),
            forall|i: int| q <= i < p ==> is_digit(#[trigger] s@[i]),
            acc == val_of(s@.subrange(q, p as int)),
            0 <= acc,
        decreases s@.len() - p,
    {
        if acc > 400_000_000_000_000_000 {
            proof {
                lemma_digit_run_props(s@, q);
                let e = digit_run_end(s@, q);
                lemma_digit_run(s@, p as int, e);
                let run = s@.subrange(q, e);
                assert(s@.subrange(q, p as int) =~= run.subrange(0, p - q));
                assert(forall|i: int| 0 <= i < run.len() ==> is_digit(#[trigger] run[i]));
                lemma_val_of_bounds(run, p - q);
                assert(number_end(s@, pos as int) == e);
                assert(val_of(run) >= acc);
            }
            return Err(Error::Generic);
        }
        let ghost p_old = p as int;
        acc = acc * 10 + ((s[p] - 48) as i64);
        p = p + 1;
        proof {
            assert(s@.subrange(q, p as int).drop_last() =~= s@.subrange(q, p_old));
            assert(s@.subrange(q, p as int).last() == s@[p_old]);
        }
    }
    proof {
        assert(p > q);
        lemma_digit_run(s@, q, p as int);
        assert(number_end(s@, pos as int) == p);
    }
    if neg {
        Ok((-acc, p))
    } else {
        Ok((acc, p))
    }
}

/// Read a tile name: the bytes up to the first quote. Succeeds exactly
/// when a closing quote exists.
fn parse_name(s: &Vec<u8>, pos: usize) -> (r: Result<(Vec<u8>, usize), Error>)
    requires
        pos <= s@.len(),
    ensures
        r matches Ok(p2) ==> pos <= p2.1 <= s@.len() && p2.1 == quote_end(s@, pos as int)
            && p2.0@ == s@.subrange(pos as int, p2.1 as int),
        r is Ok <==> quote_end(s@, pos as int) < s@.len(),
{
    let mut p = pos;
    let mut name: Vec<u8> = Vec::new();
    while p < s.len() && s[p] != 34
        invariant
            pos <= p <= s@.len(),
            forall|i: int| pos <= i < p ==> #[trigger] s@[i] != 34,
            name@ == s@.subrange(pos as int, p as int),
        decreases s@.len() - p,
    {
        name.push(s[p]);
        p = p + 1;
        proof {
            assert(name@ =~= s@.subrange(pos as int, p as int));
        }
    }
    proof {
        if p < s@.len() {
            lemma_quote_end(s@, pos as int, p as int);
        } else {
            lemma_quote_end(s@, pos as int, s@.len() as int);
        }
    }
    if p >= s.len() {
        return Err(Error::Generic);
    }
    Ok((name, p))
}

/// The literal chunks as buffers, for matching.
fn lit_buf(which: u8) -> (out: Vec<u8>)
    ensures
        out@.len() > 0,
        which == 0 ==> out@ == lit_fname_key(),
        which == 1 ==> out@ == lit_width_key(),
        which == 2 ==> out@ == lit_height_key(),
        which == 3 ==> out@ == lit_transform_key(),
        which == 4 ==> out@ == lit_origin_n_key(),
        which == 5 ==> out@ == lit_pixel_key(),
        which >= 5 ==> out@ == lit_pixel_key(),
{
    let mut out: Vec<u8> = Vec::new();
    if which == 0 {
        // {"fname":"
        out.push(123);
        out.push(34);
        push_byte3(&mut out, 102, 110, 97);
        push_byte3(&mut out, 109, 101, 34);
        out.push(58);
        out.push(34);
    } else if which == 1 {
        // ","width":
        out.push(34);
        out.push(44);
        out.push(34);
        push_byte3(&mut out, 119, 105, 100);
        push_byte3(&mut out, 116, 104, 34);
        out.push(58);
    } else if which == 2 {
        // ,"height":
        out.push(44);
        out.push(34);
        push_byte3(&mut out, 104, 101, 105);
        push_byte3(&mut out, 103, 104, 116);
        out.push(34);
        out.push(58);
    } else if which == 3 {
        // ,"transform":{"origin_e":
        out.push(44);
        out.push(34);
        push_byte3(&mut out, 116, 114, 97);
        push_byte3(&mut out, 110, 115, 102);
        push_byte3(&mut out, 111, 114, 109);
        out.push(34);
        out.push(58);
        out.push(123);
        out.push(34);
        push_byte3(&mut out, 111, 114, 105);
        push_byte3(&mut out, 103, 105, 110);
        push_byte3(&mut out, 95, 101, 34);
        out.push(58);
    } else if which == 4 {
        // ,"origin_n":
        out.push(44);
        out.push(34);
        push_byte3(&mut out, 111, 114, 105);
        push_byte3(&mut out, 103, 105, 110);
        push_byte3(&mut out, 95, 110, 34);
        out.push(58);
    } else {
        // ,"pixel_size":
        out.push(44);
        out.push(34);
        push_byte3(&mut out, 112, 105, 120);
        push_byte3(&mut out, 101, 108, 95);
        push_byte3(&mut out, 115, 105, 122);
        out.push(101);
        out.push(34);
        out.push(58);
    }
    proof {
        if which == 0 {
            assert(out@ =~= lit_fname_key());
        } else if which == 1 {
            assert(out@ =~= lit_width_key());
        } else if which == 2 {
            assert(out@ =~= lit_height_key());
        } else if which == 3 {
            assert(out@ =~= lit_transform_key());
        } else if which == 4 {
            assert(out@ =~= lit_origin_n_key());
        } else {
            assert(out@ =~= lit_pixel_key());
        }
    }
    out
}

/// Read one tile header record at a position. Wherever a well-formed
/// record stands, followed by a separator or the closing bracket, the
/// read succeeds and returns a tile with exactly the record's header.
#[verifier::rlimit(100)]
fn parse_record(s: &Vec<u8>, pos: usize) -> (r: Result<(Tile, usize), Error>)
    requires
        pos <= s@.len(),
    ensures
        r matches Ok(p2) ==> pos < p2.1 <= s@.len() && p2.0.wf() && p2.0.image is None,
        forall|t: Tile, rest: Seq<u8>| record_at(s@, pos as int, t, rest)
            ==> (r matches Ok(p2) && p2.0.same_header(t)
                && p2.1 == pos + tile_json(t).len()),
{
    let ghost hyp = exists|t: Tile, rest: Seq<u8>| record_at(s@, pos as int, t, rest);
    let ghost (gt, grest): (Tile, Seq<u8>) = choose|t: Tile, rest: Seq<u8>|
        record_at(s@, pos as int, t, rest);
    let ghost t12 = lit_record_end() + grest;
    let ghost t11 = dec_int(gt.pixel_size as int) + t12;
    let ghost t10 = lit_pixel_key() + t11;
    let ghost t9 = dec_int(gt.origin_n as int) + t10;
    let ghost t8 = lit_origin_n_key() + t9;
    let ghost t7 = dec_int(gt.origin_e as int) + t8;
    let ghost t6 = lit_transform_key() + t7;
    let ghost t5 = dec_int(gt.height as int) + t6;
    let ghost t4 = lit_height_key() + t5;
    let ghost t3 = dec_int(gt.width as int) + t4;
    let ghost t2 = lit_width_key() + t3;
    let ghost t1 = gt.fname@ + t2;
    let ghost a1 = pos + 10;
    let ghost a2 = a1 + gt.fname@.len() as int;
    let ghost a3 = a2 + 10;
    let ghost a4 = a3 + dec_int(gt.width as int).len() as int;
    let ghost a5 = a4 + 10;
    let ghost a6 = a5 + dec_int(gt.height as int).len() as int;
    let ghost a7 = a6 + 25;
    let ghost a8 = a7 + dec_int(gt.origin_e as int).len() as int;
    let ghost a9 = a8 + 12;
    let ghost a10 = a9 + dec_int(gt.origin_n as int).len() as int;
    let ghost a11 = a10 + 14;
    let ghost a12 = a11 + dec_int(gt.pixel_size as int).len() as int;
    proof {
        if hyp {
            assert(record_at(s@, pos as int, gt, grest));
            assert(s@.subrange(pos as int, s@.len() as int) =~= lit_fname_key() + t1);
            lemma_slice_of_concat(s@, pos as int, lit_fname_key(), t1);
            assert(t2[0] == 34);
            lemma_name_of_print(s@, a1, gt.fname@, t2);
            lemma_slice_of_concat(s@, a1, gt.fname@, t2);
            lemma_slice_of_concat(s@, a2, lit_width_key(), t3);
            assert(t4[0] == 44);
            lemma_number_of_print(s@, a3, gt.width as int, t4);
            lemma_slice_of_concat(s@, a3, dec_int(gt.width as int), t4);
            lemma_slice_of_concat(s@, a4, lit_height_key(), t5);
            assert(t6[0] == 44);
            lemma_number_of_print(s@, a5, gt.height as int, t6);
            lemma_slice_of_concat(s@, a5, dec_int(gt.height as int), t6);
            lemma_slice_of_concat(s@, a6, lit_transform_key(), t7);
            assert(t8[0] == 44);
            lemma_number_of_print(s@, a7, gt.origin_e as int, t8);
            lemma_slice_of_concat(s@, a7, dec_int(gt.origin_e as int), t8);
            lemma_slice_of_concat(s@, a8, lit_origin_n_key(), t9);
            assert(t10[0] == 44);
            lemma_number_of_print(s@, a9, gt.origin_n as int, t10);
            lemma_slice_of_concat(s@, a9, dec_int(gt.origin_n as int), t10);
            lemma_slice_of_concat(s@, a10, lit_pixel_key(), t11);
            assert(t12[0] == 125);
            lemma_number_of_print(s@, a11, gt.pixel_size as int, t12);
            lemma_slice_of_concat(s@, a11, dec_int(gt.pixel_size as int), t12);
            lemma_slice_of_concat(s@, a12, lit_record_end(), grest);
            assert(tile_json(gt).len() + grest.len() == s@.len() - pos);
        }
    }
    let lit0 = lit_buf(0);
    let p = match expect_bytes(s, pos, &lit0) {
        Ok(p) => p,
        Err(e) => {
            proof {
                assert forall|t: Tile, rest: Seq<u8>| record_at(s@, pos as int, t, rest)
                    implies false by {
                    assert(hyp);
                }
            }
            return Err(e);
        },
    };
    let (name, p) = match parse_name(s, p) {
        Ok(np) => np,
        Err(e) => {
            proof {
                assert forall|t: Tile, rest: Seq<u8>| record_at(s@, pos as int, t, rest)
                    implies false by {
                    assert(hyp);
                }
            }
            return Err(e);
        },
    };
    let lit1 = lit_buf(1);
    let p = match expect_bytes(s, p, &lit1) {
        Ok(p) => p,
        Err(e) => {
            proof {
                assert forall|t: Tile, rest: Seq<u8>| record_at(s@, pos as int, t, rest)
                    implies false by {
                    assert(hyp);
                }
            }
            return Err(e);
        },
    };
    let (w, p) = match parse_dec(s, p) {
        Ok(np) => np,
        Err(e) => {
            proof {
                assert forall|t: Tile, rest: Seq<u8>| record_at(s@, pos as int, t, rest)
                    implies false by {
                    assert(hyp);
                }
            }
            return Err(e);
        },
    };
    let lit2 = lit_buf(2);
    let p = match expect_bytes(s, p, &lit2) {
        Ok(p) => p,
        Err(e) => {
            proof {
                assert forall|t: Tile, rest: Seq<u8>| record_at(s@, pos as int, t, rest)
                    implies false by {
                    assert(hyp);
                }
            }
            return Err(e);
        },
    };
    let (h, p) = match parse_dec(s, p) {
        Ok(np) => np,
        Err(e) => {
            proof {
                assert forall|t: Tile, rest: Seq<u8>| record_at(s@, pos as int, t, rest)
                    implies false by {
                    assert(hyp);
                }
            }
            return Err(e);
        },
    };
    let lit3 = lit_buf(3);
    let p = match expect_bytes(s, p, &lit3) {
        Ok(p) => p,
        Err(e) => {
            proof {
                assert forall|t: Tile, rest: Seq<u8>| record_at(s@, pos as int, t, rest)
                    implies false by {
                    assert(hyp);
                }
            }
            return Err(e);
        },
    };
    let (oe, p) = match parse_dec(s, p) {
        Ok(np) => np,
        Err(e) => {
            proof {
                assert forall|t: Tile, rest: Seq<u8>| record_at(s@, pos as int, t, rest)
                    implies false by {
                    assert(hyp);
                }
            }
            return Err(e);
        },
    };
    let lit4 = lit_buf(4);
    let p = match expect_bytes(s, p, &lit4) {
        Ok(p) => p,
        Err(e) => {
            proof {
                assert forall|t: Tile, rest: Seq<u8>| record_at(s@, pos as int, t, rest)
                    implies false by {
                    assert(hyp);
                }
            }
            return Err(e);
        },
    };
    let (on, p) = match parse_dec(s, p) {
        Ok(np) => np,
        Err(e) => {
            proof {
                assert forall|t: Tile, rest: Seq<u8>| record_at(s@, pos as int, t, rest)
                    implies false by {
                    assert(hyp);
                }
            }
            return Err(e);
        },
    };
    let lit5 = lit_buf(5);
    let p = match expect_bytes(s, p, &lit5) {
        Ok(p) => p,
        Err(e) => {
            proof {
                assert forall|t: Tile, rest: Seq<u8>| record_at(s@, pos as int, t, rest)
                    implies false by {
                    assert(hyp);
                }
            }
            return Err(e);
        },
    };
    let (ps, p) = match parse_dec(s, p) {
        Ok(np) => np,
        Err(e) => {
            proof {
                assert forall|t: Tile, rest: Seq<u8>| record_at(s@, pos as int, t, rest)
                    implies false by {
                    assert(hyp);
                }
            }
            return Err(e);
        },
    };
    let mut end: Vec<u8> = Vec::new();
    end.push(125);
    end.push(125);
    proof {
        assert(end@ =~= lit_record_end());
    }
    let p = match expect_bytes(s, p, &end) {
        Ok(p) => p,
        Err(e) => {
            proof {
                assert forall|t: Tile, rest: Seq<u8>| record_at(s@, pos as int, t, rest)
                    implies false by {
                    assert(hyp);
                }
            }
            return Err(e);
        },
    };
    if w < 1 || w > 40_000 || h < 1 || h > 40_000 {
        proof {
            assert forall|t: Tile, rest: Seq<u8>| record_at(s@, pos as int, t, rest)
                implies false by {
                assert(hyp);
            }
        }
        return Err(Error::Generic);
    }
    let tile = match Tile::new(name, w as usize, h as usize, oe, on, ps) {
        Ok(t) => t,
        Err(e) => {
            proof {
                assert forall|t: Tile, rest: Seq<u8>| record_at(s@, pos as int, t, rest)
                    implies false by {
                    assert(hyp);
                }
            }
            return Err(e);
        },
    };
    proof {
        assert forall|t: Tile, rest: Seq<u8>| record_at(s@, pos as int, t, rest)
            implies tile.same_header(t) && p == pos + tile_json(t).len() by {
            assert(hyp);
            lemma_tile_json_unique(t, gt, rest, grest);
            lemma_tile_json_congruent(t, gt);
            assert(tile.same_header(gt));
        }
    }
    Ok((tile, p))
}

impl Atlas {
    /// Rebuild an atlas from index file bytes: parse the tile headers,
    /// replay each tile's coverage hashes into fresh buckets, and accept
    /// only a file that re-serializes to exactly the bytes read. What
    /// comes back therefore stands for the input byte for byte: the
    /// headers are recovered exactly, with no pixel bodies.
    #[verifier::rlimit(100)]
    pub fn read_atlas(data: &Vec<u8>) -> (r: Result<Atlas, Error>)
        ensures
            r matches Ok(a) ==> {
                &&& a.wf()
                &&& index_json(a.tiles@) == data@
                &&& forall|t: int| 0 <= t < a.tiles.len()
                    ==> (#[trigger] a.tiles[t]).image is None
            },
            (exists|ts: Seq<Tile>| headers_ok(ts) && names_unique(ts) && data@ == index_json(
                ts,
            )) ==> r is Ok,
    {
        let ghost hyp = exists|ts: Seq<Tile>|
            headers_ok(ts) && names_unique(ts) && data@ == index_json(ts);
        let ghost gts: Seq<Tile> = choose|ts: Seq<Tile>|
            headers_ok(ts) && names_unique(ts) && data@ == index_json(ts);
        proof {
            if hyp {
                assert(headers_ok(gts) && names_unique(gts) && data@ == index_json(gts));
                assert(data@[0] == 91);
                if gts.len() > 0 {
                    lemma_dec_nat_digits(gts[0].width as nat);
                    assert(items_json(gts)[0] == tile_json(gts[0])[0]);
                    assert(tile_json(gts[0])[0] == 123);
                    assert(data@[1] == items_json(gts)[0]);
                    lemma_items_decompose(gts, 0);
                    assert(data@.subrange(1, data@.len() as int) =~= items_json(gts)
                        + seq![93u8]);
                } else {
                    assert(data@.len() == 2 && data@[1] == 93);
                }
            }
        }
        let mut a = Atlas::new_empty();
        if data.len() < 2 {
            return Err(Error::Generic);
        }
        if data[0] != 91 {
            return Err(Error::Generic);
        }
        let mut pos: usize = 1;
        if data[1] == 93 {
            pos = 2;
        } else {
            let mut done = false;
            let ghost mut gi: int = 0;
            while !done
                invariant
                    a.wf(),
                    pos <= data@.len(),
                    forall|t: int| 0 <= t < a.tiles.len()
                        ==> (#[trigger] a.tiles[t]).image is None,
                    hyp == (exists|ts: Seq<Tile>|
                        headers_ok(ts) && names_unique(ts) && data@ == index_json(ts)),
                    hyp ==> {
                        &&& headers_ok(gts)
                        &&& names_unique(gts)
                        &&& data@ == index_json(gts)
                        &&& 0 <= gi <= gts.len()
                        &&& a.tiles@.len() == gi
                        &&& (forall|k: int| 0 <= k < gi
                            ==> (#[trigger] a.tiles@[k]).same_header(gts[k]))
                        &&& (!done ==> gi < gts.len() && data@.subrange(
                            pos as int,
                            data@.len() as int,
                        ) == tile_json(gts[gi]) + suffix_after(gts, gi))
                        &&& (done ==> gi == gts.len() && pos == data@.len())
                    },
                decreases data@.len() - pos + (if done { 0int } else { 1int }),
            {
                proof {
                    if hyp {
                        assert(record_at(data@, pos as int, gts[gi], suffix_after(gts, gi)));
                    }
                }
                let (tile, p2) = match parse_record(data, pos) {
                    Ok(tp) => tp,
                    Err(e) => {
                        return Err(e);
                    },
                };
                let ghost tiles_pre = a.tiles@;
                proof {
                    if hyp {
                        assert(tile.same_header(gts[gi]));
                        if a.has_name(tile.fname@) {
                            let w = choose|w: int|
                                0 <= w < a.tiles.len() && a.tiles[w].fname@ == tile.fname@;
                            assert(a.tiles@[w].same_header(gts[w]));
                            assert(gts[w].fname@ == gts[gi].fname@);
                            assert(false);
                        }
                    }
                }
                a.insert_tile(tile);
                proof {
                    assert forall|t: int| 0 <= t < a.tiles.len()
                        implies (#[trigger] a.tiles[t]).image is None by {
                        if t < tiles_pre.len() {
                            assert(a.tiles[t] == tiles_pre[t]);
                        }
                    }
                    if hyp {
                        lemma_slice_of_concat(
                            data@,
                            pos as int,
                            tile_json(gts[gi]),
                            suffix_after(gts, gi),
                        );
                        assert(data@[p2 as int] == suffix_after(gts, gi)[0]);
                        if gi + 1 < gts.len() {
                            lemma_slice_of_concat(
                                data@,
                                p2 as int,
                                seq![44u8],
                                items_json(gts.skip(gi + 1)) + seq![93u8],
                            );
                            lemma_items_decompose(gts, gi + 1);
                        } else {
                            assert(suffix_after(gts, gi) =~= seq![93u8]);
                            assert(data@.len() == p2 + 1);
                        }
                        gi = gi + 1;
                    }
                }
                pos = p2;
                if pos < data.len() && data[pos] == 44 {
                    pos = pos + 1;
                    if pos >= data.len() {
                        proof {
                            if hyp {
                                assert(false);
                            }
                        }
                        return Err(Error::Generic);
                    }
                } else if pos < data.len() && data[pos] == 93 {
                    pos = pos + 1;
                    done = true;
                } else {
                    proof {
                        if hyp {
                            assert(false);
                        }
                    }
                    return Err(Error::Generic);
                }
            }
        }
        if pos != data.len() {
            proof {
                if hyp {
                    assert(false);
                }
            }
            return Err(Error::Generic);
        }
        let again = a.write_atlas();
        proof {
            if hyp {
                lemma_items_congruent(a.tiles@, gts);
                assert(index_json(a.tiles@) =~= index_json(gts));
                assert(again@ == data@);
            }
        }
        if !bytes_eq(&again, data) {
            proof {
                if hyp {
                    assert(false);
                }
            }
            return Err(Error::Generic);
        }
        Ok(a)
    }
}

/// A decimal digit byte.
pub open spec fn is_digit(b: u8) -> bool {
    48 <= b <= 57
}

/// The decimal form of a natural number is non-empty and all digits.
proof fn lemma_dec_nat_digits(n: nat)
    ensures
        dec_nat(n).len() >= 1,
        forall|i: int| 0 <= i < dec_nat(n).len() ==> is_digit(#[trigger] dec_nat(n)[i]),
        n >= 10 ==> dec_nat(n).len() >= 2,
    decreases n,
{
    if n >= 10 {
        lemma_dec_nat_digits(n / 10);
    }
}

/// Equal decimal forms come from equal numbers.
proof fn lemma_dec_nat_inj(a: nat, b: nat)
    requires
        dec_nat(a) == dec_nat(b),
    ensures
        a == b,
    decreases a,
{
    lemma_dec_nat_digits(a);
    lemma_dec_nat_digits(b);
    if a < 10 && b < 10 {
        assert(dec_nat(a)[0] == (48 + a) as u8);
        assert(dec_nat(b)[0] == (48 + b) as u8);
        assert(((48 + a) as u8) as int == 48 + a);
        assert(((48 + b) as u8) as int == 48 + b);
    } else if a < 10 {
        assert(dec_nat(a).len() == 1);
        assert(false);
    } else if b < 10 {
        assert(dec_nat(b).len() == 1);
        assert(false);
    } else {
        let da = (48 + (a % 10)) as u8;
        let db = (48 + (b % 10)) as u8;
        assert(dec_nat(a) == dec_nat(a / 10).push(da));
        assert(dec_nat(b) == dec_nat(b / 10).push(db));
        assert(dec_nat(a).last() == da);
        assert(dec_nat(b).last() == db);
        assert(0 <= a % 10 < 10 && 0 <= b % 10 < 10);
        assert(da as int == 48 + a % 10);
        assert(db as int == 48 + b % 10);
        assert(a % 10 == b % 10);
        assert(dec_nat(a).drop_last() =~= dec_nat(a / 10));
        assert(dec_nat(b).drop_last() =~= dec_nat(b / 10));
        lemma_dec_nat_inj(a / 10, b / 10);
        vstd::arithmetic::div_mod::lemma_fundamental_div_mod(a as int, 10);
        vstd::arithmetic::div_mod::lemma_fundamental_div_mod(b as int, 10);
    }
}

/// Stripping an equal prefix of two equal concatenations leaves equal
/// tails.
proof fn lemma_cancel_prefix(p: Seq<u8>, x: Seq<u8>, y: Seq<u8>)
    requires
        p + x == p + y,
    ensures
        x == y,
{
    assert((p + x).len() == p.len() + x.len());
    assert((p + y).len() == p.len() + y.len());
    assert(x.len() == y.len());
    assert forall|i: int| 0 <= i < x.len() implies x[i] == y[i] by {
        assert((p + x)[p.len() + i] == x[i]);
        assert((p + y)[p.len() + i] == y[i]);
    }
    assert(x =~= y);
}

/// A decimal form followed by a non-digit is decoded uniquely.
proof fn lemma_dec_nat_unique(a: nat, b: nat, r1: Seq<u8>, r2: Seq<u8>)
    requires
        dec_nat(a) + r1 == dec_nat(b) + r2,
        r1.len() > 0,
        r2.len() > 0,
        !is_digit(r1[0]),
        !is_digit(r2[0]),
    ensures
        a == b,
        r1 == r2,
{
    lemma_dec_nat_digits(a);
    lemma_dec_nat_digits(b);
    let d1 = dec_nat(a);
    let d2 = dec_nat(b);
    if d1.len() < d2.len() {
        assert((d1 + r1)[d1.len() as int] == r1[0]);
        assert((d2 + r2)[d1.len() as int] == d2[d1.len() as int]);
        assert(false);
    }
    if d2.len() < d1.len() {
        assert((d2 + r2)[d2.len() as int] == r2[0]);
        assert((d1 + r1)[d2.len() as int] == d1[d2.len() as int]);
        assert(false);
    }
    assert forall|i: int| 0 <= i < d1.len() implies d1[i] == d2[i] by {
        assert((d1 + r1)[i] == d1[i]);
        assert((d2 + r2)[i] == d2[i]);
    }
    assert(d1 =~= d2);
    lemma_dec_nat_inj(a, b);
    lemma_cancel_prefix(d1, r1, r2);
}

/// A signed decimal form followed by a byte that is neither digit nor
/// minus is decoded uniquely.
proof fn lemma_dec_int_unique(x: int, y: int, r1: Seq<u8>, r2: Seq<u8>)
    requires
        dec_int(x) + r1 == dec_int(y) + r2,
        r1.len() > 0,
        r2.len() > 0,
        !is_digit(r1[0]) && r1[0] != 45,
        !is_digit(r2[0]) && r2[0] != 45,
    ensures
        x == y,
        r1 == r2,
{
    lemma_dec_nat_digits(if x >= 0 { x as nat } else { (-x) as nat });
    lemma_dec_nat_digits(if y >= 0 { y as nat } else { (-y) as nat });
    if x >= 0 && y >= 0 {
        lemma_dec_nat_unique(x as nat, y as nat, r1, r2);
    } else if x < 0 && y < 0 {
        let full = dec_int(x) + r1;
        assert(dec_nat((-x) as nat) + r1 =~= full.drop_first());
        assert(dec_nat((-y) as nat) + r2 =~= full.drop_first());
        lemma_dec_nat_unique((-x) as nat, (-y) as nat, r1, r2);
    } else if x >= 0 {
        assert((dec_int(x) + r1)[0] == dec_nat(x as nat)[0]);
        assert((dec_int(y) + r2)[0] == 45);
        assert(false);
    } else {
        assert((dec_int(y) + r2)[0] == dec_nat(y as nat)[0]);
        assert((dec_int(x) + r1)[0] == 45);
        assert(false);
    }
}

/// A quote-free name followed by a quote is decoded uniquely.
proof fn lemma_name_unique(n1: Seq<u8>, n2: Seq<u8>, r1: Seq<u8>, r2: Seq<u8>)
    requires
        n1 + r1 == n2 + r2,
        forall|i: int| 0 <= i < n1.len() ==> #[trigger] n1[i] != 34,
        forall|i: int| 0 <= i < n2.len() ==> #[trigger] n2[i] != 34,
        r1.len() > 0,
        r2.len() > 0,
        r1[0] == 34,
        r2[0] == 34,
    ensures
        n1 == n2,
        r1 == r2,
{
    if n1.len() < n2.len() {
        assert((n1 + r1)[n1.len() as int] == r1[0]);
        assert((n2 + r2)[n1.len() as int] == n2[n1.len() as int]);
        assert(false);
    }
    if n2.len() < n1.len() {
        assert((n2 + r2)[n2.len() as int] == r2[0]);
        assert((n1 + r1)[n2.len() as int] == n1[n2.len() as int]);
        assert(false);
    }
    assert forall|i: int| 0 <= i < n1.len() implies n1[i] == n2[i] by {
        assert((n1 + r1)[i] == n1[i]);
        assert((n2 + r2)[i] == n2[i]);
    }
    assert(n1 =~= n2);
    lemma_cancel_prefix(n1, r1, r2);
}

/// The numeric tail of a record starting at the width value.
spec fn tile_tail_w(t: Tile, r: Seq<u8>) -> Seq<u8> {
    dec_int(t.width as int) + (lit_height_key() + (dec_int(t.height as int) + (
    lit_transform_key() + (dec_int(t.origin_e as int) + (lit_origin_n_key() + (dec_int(
        t.origin_n as int,
    ) + (lit_pixel_key() + (dec_int(t.pixel_size as int) + (lit_record_end() + r)))))))))
}

/// A record splits into the fname chunk, the name, the width chunk and
/// the numeric tail.
#[verifier::rlimit(100)]
proof fn lemma_tile_json_shape(t: Tile, r: Seq<u8>)
    ensures
        tile_json(t) + r == lit_fname_key() + (t.fname@ + (lit_width_key() + tile_tail_w(t, r))),
{
    assert(tile_json(t) + r =~= lit_fname_key() + (t.fname@ + (lit_width_key() + tile_tail_w(
        t,
        r,
    ))));
}

/// A whole record followed by a comma or closing bracket is decoded
/// uniquely.
#[verifier::rlimit(100)]
proof fn lemma_tile_json_unique(t1: Tile, t2: Tile, r1: Seq<u8>, r2: Seq<u8>)
    requires
        t1.header_wf(),
        t2.header_wf(),
        tile_json(t1) + r1 == tile_json(t2) + r2,
        r1.len() > 0,
        r2.len() > 0,
        r1[0] == 44 || r1[0] == 93,
        r2[0] == 44 || r2[0] == 93,
    ensures
        t1.same_header(t2),
        r1 == r2,
{
    lemma_tile_json_shape(t1, r1);
    lemma_tile_json_shape(t2, r2);
    lemma_cancel_prefix(
        lit_fname_key(),
        t1.fname@ + (lit_width_key() + tile_tail_w(t1, r1)),
        t2.fname@ + (lit_width_key() + tile_tail_w(t2, r2)),
    );
    assert((lit_width_key() + tile_tail_w(t1, r1))[0] == 34);
    assert((lit_width_key() + tile_tail_w(t2, r2))[0] == 34);
    lemma_name_unique(
        t1.fname@,
        t2.fname@,
        lit_width_key() + tile_tail_w(t1, r1),
        lit_width_key() + tile_tail_w(t2, r2),
    );
    lemma_cancel_prefix(lit_width_key(), tile_tail_w(t1, r1), tile_tail_w(t2, r2));
    // width
    let a1 = lit_height_key() + (dec_int(t1.height as int) + (lit_transform_key() + (dec_int(
        t1.origin_e as int,
    ) + (lit_origin_n_key() + (dec_int(t1.origin_n as int) + (lit_pixel_key() + (dec_int(
        t1.pixel_size as int,
    ) + (lit_record_end() + r1))))))));
    let a2 = lit_height_key() + (dec_int(t2.height as int) + (lit_transform_key() + (dec_int(
        t2.origin_e as int,
    ) + (lit_origin_n_key() + (dec_int(t2.origin_n as int) + (lit_pixel_key() + (dec_int(
        t2.pixel_size as int,
    ) + (lit_record_end() + r2))))))));
    assert(a1[0] == 44 && a2[0] == 44);
    lemma_dec_int_unique(t1.width as int, t2.width as int, a1, a2);
    lemma_cancel_prefix(
        lit_height_key(),
        a1.subrange(lit_height_key().len() as int, a1.len() as int),
        a2.subrange(lit_height_key().len() as int, a2.len() as int),
    );
    let b1 = dec_int(t1.height as int) + (lit_transform_key() + (dec_int(t1.origin_e as int) + (
    lit_origin_n_key() + (dec_int(t1.origin_n as int) + (lit_pixel_key() + (dec_int(
        t1.pixel_size as int,
    ) + (lit_record_end() + r1)))))));
    let b2 = dec_int(t2.height as int) + (lit_transform_key() + (dec_int(t2.origin_e as int) + (
    lit_origin_n_key() + (dec_int(t2.origin_n as int) + (lit_pixel_key() + (dec_int(
        t2.pixel_size as int,
    ) + (lit_record_end() + r2)))))));
    assert(a1 =~= lit_height_key() + b1);
    assert(a2 =~= lit_height_key() + b2);
    lemma_cancel_prefix(lit_height_key(), b1, b2);
    // height
    let c1 = lit_transform_key() + (dec_int(t1.origin_e as int) + (lit_origin_n_key() + (dec_int(
        t1.origin_n as int,
    ) + (lit_pixel_key() + (dec_int(t1.pixel_size as int) + (lit_record_end() + r1))))));
    let c2 = lit_transform_key() + (dec_int(t2.origin_e as int) + (lit_origin_n_key() + (dec_int(
        t2.origin_n as int,
    ) + (lit_pixel_key() + (dec_int(t2.pixel_size as int) + (lit_record_end() + r2))))));
    assert(c1[0] == 44 && c2[0] == 44);
    lemma_dec_int_unique(t1.height as int, t2.height as int, c1, c2);
    lemma_cancel_prefix(
        lit_transform_key(),
        dec_int(t1.origin_e as int) + (lit_origin_n_key() + (dec_int(t1.origin_n as int) + (
        lit_pixel_key() + (dec_int(t1.pixel_size as int) + (lit_record_end() + r1))))),
        dec_int(t2.origin_e as int) + (lit_origin_n_key() + (dec_int(t2.origin_n as int) + (
        lit_pixel_key() + (dec_int(t2.pixel_size as int) + (lit_record_end() + r2))))),
    );
    // origin_e
    let d1 = lit_origin_n_key() + (dec_int(t1.origin_n as int) + (lit_pixel_key() + (dec_int(
        t1.pixel_size as int,
    ) + (lit_record_end() + r1))));
    let d2 = lit_origin_n_key() + (dec_int(t2.origin_n as int) + (lit_pixel_key() + (dec_int(
        t2.pixel_size as int,
    ) + (lit_record_end() + r2))));
    assert(d1[0] == 44 && d2[0] == 44);
    lemma_dec_int_unique(t1.origin_e as int, t2.origin_e as int, d1, d2);
    lemma_cancel_prefix(
        lit_origin_n_key(),
        dec_int(t1.origin_n as int) + (lit_pixel_key() + (dec_int(t1.pixel_size as int) + (
        lit_record_end() + r1))),
        dec_int(t2.origin_n as int) + (lit_pixel_key() + (dec_int(t2.pixel_size as int) + (
        lit_record_end() + r2))),
    );
    // origin_n
    let e1 = lit_pixel_key() + (dec_int(t1.pixel_size as int) + (lit_record_end() + r1));
    let e2 = lit_pixel_key() + (dec_int(t2.pixel_size as int) + (lit_record_end() + r2));
    assert(e1[0] == 44 && e2[0] == 44);
    lemma_dec_int_unique(t1.origin_n as int, t2.origin_n as int, e1, e2);
    lemma_cancel_prefix(
        lit_pixel_key(),
        dec_int(t1.pixel_size as int) + (lit_record_end() + r1),
        dec_int(t2.pixel_size as int) + (lit_record_end() + r2),
    );
    // pixel_size
    let f1 = lit_record_end() + r1;
    let f2 = lit_record_end() + r2;
    assert(f1[0] == 125 && f2[0] == 125);
    lemma_dec_int_unique(t1.pixel_size as int, t2.pixel_size as int, f1, f2);
    lemma_cancel_prefix(lit_record_end(), r1, r2);
}

/// A record list followed by the closing bracket is decoded uniquely.
#[verifier::rlimit(100)]
proof fn lemma_items_unique(ts1: Seq<Tile>, ts2: Seq<Tile>, r1: Seq<u8>, r2: Seq<u8>)
    requires
        forall|i: int| 0 <= i < ts1.len() ==> (#[trigger] ts1[i]).header_wf(),
        forall|i: int| 0 <= i < ts2.len() ==> (#[trigger] ts2[i]).header_wf(),
        items_json(ts1) + r1 == items_json(ts2) + r2,
        r1.len() > 0,
        r2.len() > 0,
        r1[0] == 93,
        r2[0] == 93,
    ensures
        ts1.len() == ts2.len(),
        forall|i: int| 0 <= i < ts1.len() ==> (#[trigger] ts1[i]).same_header(ts2[i]),
        r1 == r2,
    decreases ts1.len(),
{
    if ts1.len() == 0 && ts2.len() == 0 {
    } else if ts1.len() == 0 {
        assert((items_json(ts1) + r1)[0] == 93);
        assert((items_json(ts2) + r2)[0] == (tile_json(ts2[0]))[0]);
        assert((tile_json(ts2[0]))[0] == 123);
        assert(false);
    } else if ts2.len() == 0 {
        assert((items_json(ts2) + r2)[0] == 93);
        assert((items_json(ts1) + r1)[0] == (tile_json(ts1[0]))[0]);
        assert((tile_json(ts1[0]))[0] == 123);
        assert(false);
    } else {
        let tail1: Seq<u8> = if ts1.len() == 1 {
            r1
        } else {
            seq![44u8] + (items_json(ts1.drop_first()) + r1)
        };
        let tail2: Seq<u8> = if ts2.len() == 1 {
            r2
        } else {
            seq![44u8] + (items_json(ts2.drop_first()) + r2)
        };
        assert(items_json(ts1) + r1 =~= tile_json(ts1[0]) + tail1);
        assert(items_json(ts2) + r2 =~= tile_json(ts2[0]) + tail2);
        assert(tail1[0] == 44 || tail1[0] == 93);
        assert(tail2[0] == 44 || tail2[0] == 93);
        lemma_tile_json_unique(ts1[0], ts2[0], tail1, tail2);
        if ts1.len() == 1 && ts2.len() == 1 {
        } else if ts1.len() == 1 {
            assert(tail1[0] == 93 && tail2[0] == 44);
            assert(false);
        } else if ts2.len() == 1 {
            assert(tail2[0] == 93 && tail1[0] == 44);
            assert(false);
        } else {
            lemma_cancel_prefix(
                seq![44u8],
                items_json(ts1.drop_first()) + r1,
                items_json(ts2.drop_first()) + r2,
            );
            lemma_items_unique(ts1.drop_first(), ts2.drop_first(), r1, r2);
            assert forall|i: int| 0 <= i < ts1.len()
                implies (#[trigger] ts1[i]).same_header(ts2[i]) by {
                if i > 0 {
                    assert(ts1.drop_first()[i - 1].same_header(ts2.drop_first()[i - 1]));
                }
            }
        }
    }
}

/// The round-trip law of the index: an index file determines the tile
/// headers. Two header lists that serialize to the same bytes are the
/// same list of headers; with the writer's exact output and the
/// reader's re-serialization guarantee, reading back a written index
/// recovers exactly the tile headers that were written, in order,
/// whatever the buckets looked like.
pub proof fn lemma_index_determines_headers(ts1: Seq<Tile>, ts2: Seq<Tile>)
    requires
        forall|i: int| 0 <= i < ts1.len() ==> (#[trigger] ts1[i]).header_wf(),
        forall|i: int| 0 <= i < ts2.len() ==> (#[trigger] ts2[i]).header_wf(),
        index_json(ts1) == index_json(ts2),
    ensures
        ts1.len() == ts2.len(),
        forall|i: int| 0 <= i < ts1.len() ==> (#[trigger] ts1[i]).same_header(ts2[i]),
{
    assert(index_json(ts1) =~= seq![91u8] + (items_json(ts1) + seq![93u8]));
    assert(index_json(ts2) =~= seq![91u8] + (items_json(ts2) + seq![93u8]));
    lemma_cancel_prefix(
        seq![91u8],
        items_json(ts1) + seq![93u8],
        items_json(ts2) + seq![93u8],
    );
    lemma_items_unique(ts1, ts2, seq![93u8], seq![93u8]);
}

/// Splitting the records of a prefix one longer: the items of
/// `ts[..i+1]` are the items of `ts[..i]`, a comma when the prefix was
/// not empty, and the record of `ts[i]`.
proof fn lemma_items_snoc(ts: Seq<Tile>, i: int)
    requires
        0 <= i < ts.len(),
    ensures
        i == 0 ==> items_json(ts.subrange(0, 1)) == tile_json(ts[0]),
        i > 0 ==> items_json(ts.subrange(0, i + 1)) == items_json(ts.subrange(0, i))
            + seq![44u8] + tile_json(ts[i]),
    decreases i,
{
    if i == 0 {
        assert(ts.subrange(0, 1).len() == 1);
        assert(ts.subrange(0, 1)[0] == ts[0]);
    } else {
        lemma_items_snoc(ts.drop_first(), i - 1);
        let a = ts.subrange(0, i + 1);
        let b = ts.subrange(0, i);
        assert(a.len() >= 2);
        assert(a[0] == ts[0] && b[0] == ts[0]);
        assert(a.drop_first() =~= ts.drop_first().subrange(0, i));
        assert(b.drop_first() =~= ts.drop_first().subrange(0, i - 1));
        assert(items_json(a) == tile_json(ts[0]) + seq![44u8] + items_json(a.drop_first()));
        if i == 1 {
            assert(items_json(b) == tile_json(b[0]));
            assert(ts.drop_first().subrange(0, 1)[0] == ts.drop_first()[0]);
            assert(items_json(a.drop_first()) == tile_json(ts.drop_first()[0]));
            assert(ts.drop_first()[0] == ts[1]);
            assert(items_json(a) =~= items_json(b) + seq![44u8] + tile_json(ts[i]));
        } else {
            assert(items_json(b) == tile_json(ts[0]) + seq![44u8] + items_json(
                b.drop_first(),
            ));
            assert(ts.drop_first()[i - 1] == ts[i]);
            assert(items_json(a) =~= items_json(b) + seq![44u8] + tile_json(ts[i]));
        }
    }
}

} // verus!
