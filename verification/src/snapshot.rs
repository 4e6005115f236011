//! The snapshot codec. An index is persisted as plain text: every number is
//! sixteen hex digits (least significant first), every string is its length
//! followed by its characters, and the whole file is the global table, the
//! document count, and each document's path, term count, stamp and table.
//! Loading parses that text back and rebuilds the index document by
//! document, re-deriving the corpus-wide table from the documents, so the
//! rebuilt index is well formed whatever the file held; a snapshot whose
//! shape is wrong (a malformed number, a duplicate term or path, a count
//! that does not sum, trailing text) is refused.

use crate::model::{Doc, FreqTable, InMemoryModel};
use vstd::prelude::*;

verus! {

/// The sixteen digit characters.
pub open spec fn hex_digit(v: int) -> char {
    if v == 0 {
        '0'
    } else if v == 1 {
        '1'
    } else if v == 2 {
        '2'
    } else if v == 3 {
        '3'
    } else if v == 4 {
        '4'
    } else if v == 5 {
        '5'
    } else if v == 6 {
        '6'
    } else if v == 7 {
        '7'
    } else if v == 8 {
        '8'
    } else if v == 9 {
        '9'
    } else if v == 10 {
        'a'
    } else if v == 11 {
        'b'
    } else if v == 12 {
        'c'
    } else if v == 13 {
        'd'
    } else if v == 14 {
        'e'
    } else {
        'f'
    }
}

/// The value of a digit character; sixteen marks a non-digit.
pub open spec fn hex_val(c: char) -> int {
    if c == '0' {
        0
    } else if c == '1' {
        1
    } else if c == '2' {
        2
    } else if c == '3' {
        3
    } else if c == '4' {
        4
    } else if c == '5' {
        5
    } else if c == '6' {
        6
    } else if c == '7' {
        7
    } else if c == '8' {
        8
    } else if c == '9' {
        9
    } else if c == 'a' {
        10
    } else if c == 'b' {
        11
    } else if c == 'c' {
        12
    } else if c == 'd' {
        13
    } else if c == 'e' {
        14
    } else if c == 'f' {
        15
    } else {
        16
    }
}

pub proof fn lemma_hex_roundtrip(v: int)
    requires
        0 <= v < 16,
    ensures
        hex_val(hex_digit(v)) == v,
{
}

/// Sixteen to the `k`.
pub open spec fn pow16(k: nat) -> int
    decreases k,
{
    if k == 0 {
        1int
    } else {
        16 * pow16((k - 1) as nat)
    }
}

pub proof fn lemma_pow16_pos(k: nat)
    ensures
        pow16(k) >= 1,
    decreases k,
{
    if k > 0 {
        lemma_pow16_pos((k - 1) as nat);
    }
}

/// The `i`-th hex digit value of `x`, least significant first.
pub open spec fn nib(x: int, i: nat) -> int {
    (x / pow16(i)) % 16
}

/// A number as sixteen digit characters, least significant first.
pub open spec fn enc_u64(x: int) -> Seq<char> {
    Seq::new(16, |i: int| hex_digit(nib(x, i as nat)))
}

fn hex_digit_exec(v: u64) -> (c: char)
    requires
        v < 16,
    ensures
        c == hex_digit(v as int),
{
    if v == 0 {
        '0'
    } else if v == 1 {
        '1'
    } else if v == 2 {
        '2'
    } else if v == 3 {
        '3'
    } else if v == 4 {
        '4'
    } else if v == 5 {
        '5'
    } else if v == 6 {
        '6'
    } else if v == 7 {
        '7'
    } else if v == 8 {
        '8'
    } else if v == 9 {
        '9'
    } else if v == 10 {
        'a'
    } else if v == 11 {
        'b'
    } else if v == 12 {
        'c'
    } else if v == 13 {
        'd'
    } else if v == 14 {
        'e'
    } else {
        'f'
    }
}

fn hex_val_exec(c: char) -> (r: u64)
    ensures
        r == hex_val(c),
{
    if c == '0' {
        0
    } else if c == '1' {
        1
    } else if c == '2' {
        2
    } else if c == '3' {
        3
    } else if c == '4' {
        4
    } else if c == '5' {
        5
    } else if c == '6' {
        6
    } else if c == '7' {
        7
    } else if c == '8' {
        8
    } else if c == '9' {
        9
    } else if c == 'a' {
        10
    } else if c == 'b' {
        11
    } else if c == 'c' {
        12
    } else if c == 'd' {
        13
    } else if c == 'e' {
        14
    } else if c == 'f' {
        15
    } else {
        16
    }
}

/// Append the sixteen digits of `x` to `out`.
pub fn push_u64(out: &mut Vec<char>, x: u64)
    ensures
        final(out)@ == old(out)@ + enc_u64(x as int),
{
    let ghost base = out@;
    let mut cur: u64 = x;
    let mut i: usize = 0;
    proof {
        assert(pow16(0) == 1);
    }
    while i < 16
        invariant
            i <= 16,
            cur as int == (x as int) / pow16(i as nat),
            out@ =~= base + enc_u64(x as int).take(i as int),
        decreases 16 - i,
    {
        proof {
            lemma_pow16_pos(i as nat);
            assert(nib(x as int, i as nat) == (cur as int) % 16);
            assert(enc_u64(x as int)[i as int] == hex_digit((cur as int) % 16));
            assert(enc_u64(x as int).take(i + 1) =~= enc_u64(x as int).take(i as int).push(
                enc_u64(x as int)[i as int],
            ));
            vstd::arithmetic::div_mod::lemma_div_denominator(x as int, pow16(i as nat), 16);
            assert(pow16((i + 1) as nat) == 16 * pow16(i as nat));
            assert(pow16(i as nat) * 16 == 16 * pow16(i as nat)) by (nonlinear_arith);
        }
        out.push(hex_digit_exec(cur % 16));
        cur = cur / 16;
        i = i + 1;
    }
    proof {
        assert(enc_u64(x as int).take(16) =~= enc_u64(x as int));
    }
}

/// The value of sixteen digits starting at `pos`, least significant first,
/// read from digit `i` on.
pub open spec fn val16_from(s: Seq<char>, pos: int, i: int) -> int
    decreases 16 - i,
{
    if i >= 16 {
        0
    } else {
        hex_val(s[pos + i]) + 16 * val16_from(s, pos, i + 1)
    }
}

/// All sixteen characters at `pos` are digits.
pub open spec fn digits16(s: Seq<char>, pos: int) -> bool {
    forall|i: int| 0 <= i < 16 ==> #[trigger] hex_val(s[pos + i]) < 16
}

/// Parse a number: sixteen digit characters, least significant first.
pub open spec fn spec_parse_u64(s: Seq<char>, pos: int) -> Option<(u64, int)> {
    if 0 <= pos && pos + 16 <= s.len() && digits16(s, pos) {
        Some((val16_from(s, pos, 0) as u64, pos + 16))
    } else {
        None
    }
}

/// A digit suffix is bounded by its width.
pub proof fn lemma_val16_bound(s: Seq<char>, pos: int, i: int)
    requires
        0 <= i <= 16,
        forall|j: int| 0 <= j < 16 ==> #[trigger] hex_val(s[pos + j]) < 16,
    ensures
        0 <= val16_from(s, pos, i) < pow16((16 - i) as nat),
    decreases 16 - i,
{
    if i < 16 {
        lemma_val16_bound(s, pos, i + 1);
        assert(pow16((16 - i) as nat) == 16 * pow16((15 - i) as nat));
        assert(hex_val(s[pos + i]) >= 0);
        assert(val16_from(s, pos, i) == hex_val(s[pos + i]) + 16 * val16_from(s, pos, i + 1));
        assert(16 * val16_from(s, pos, i + 1) <= 16 * (pow16((15 - i) as nat) - 1))
            by (nonlinear_arith)
            requires
                val16_from(s, pos, i + 1) <= pow16((15 - i) as nat) - 1,
        ;
        assert(16 * val16_from(s, pos, i + 1) >= 0) by (nonlinear_arith)
            requires
                val16_from(s, pos, i + 1) >= 0,
        ;
    }
}

pub proof fn lemma_pow16_16()
    ensures
        pow16(16) == 0x10000000000000000,
{
    assert(pow16(0) == 1);
    assert(pow16(1) == 16);
    assert(pow16(2) == 0x100);
    assert(pow16(3) == 0x1000);
    assert(pow16(4) == 0x10000);
    assert(pow16(5) == 0x100000);
    assert(pow16(6) == 0x1000000);
    assert(pow16(7) == 0x10000000);
    assert(pow16(8) == 0x100000000);
    assert(pow16(9) == 0x1000000000);
    assert(pow16(10) == 0x10000000000);
    assert(pow16(11) == 0x100000000000);
    assert(pow16(12) == 0x1000000000000);
    assert(pow16(13) == 0x10000000000000);
    assert(pow16(14) == 0x100000000000000);
    assert(pow16(15) == 0x1000000000000000);
    assert(pow16(16) == 0x10000000000000000);
}

/// Parsing an encoded number out of any context returns the number and the
/// position after it.
pub proof fn lemma_parse_u64_enc(s: Seq<char>, pos: int, x: u64)
    requires
        0 <= pos,
        pos + 16 <= s.len(),
        s.subrange(pos, pos + 16) == enc_u64(x as int),
    ensures
        spec_parse_u64(s, pos) == Some((x, pos + 16)),
{
    assert forall|i: int| 0 <= i < 16 implies #[trigger] hex_val(s[pos + i]) < 16 by {
        assert(s[pos + i] == s.subrange(pos, pos + 16)[i]);
        assert(s[pos + i] == hex_digit(nib(x as int, i as nat)));
        lemma_pow16_pos(i as nat);
        assert(0 <= nib(x as int, i as nat) < 16) by {
            vstd::arithmetic::div_mod::lemma_div_pos_is_pos(x as int, pow16(i as nat));
        }
        lemma_hex_roundtrip(nib(x as int, i as nat));
    }
    lemma_val16_enc(s, pos, x, 0);
    assert(pow16(0) == 1);
    assert((x as int) / 1 == x as int);
    lemma_val16_bound(s, pos, 0);
    lemma_pow16_16();
    assert(val16_from(s, pos, 0) == x as int);
}

/// Reading the digits of `x` from position `i` on yields `x / 16^i`.
proof fn lemma_val16_enc(s: Seq<char>, pos: int, x: u64, i: int)
    requires
        0 <= i <= 16,
        0 <= pos,
        pos + 16 <= s.len(),
        s.subrange(pos, pos + 16) == enc_u64(x as int),
    ensures
        val16_from(s, pos, i) == (x as int) / pow16(i as nat),
    decreases 16 - i,
{
    lemma_pow16_pos(i as nat);
    if i == 16 {
        lemma_pow16_16();
        vstd::arithmetic::div_mod::lemma_basic_div(x as int, pow16(16));
    } else {
        lemma_val16_enc(s, pos, x, i + 1);
        assert(s[pos + i] == s.subrange(pos, pos + 16)[i]);
        assert(s[pos + i] == hex_digit(nib(x as int, i as nat)));
        vstd::arithmetic::div_mod::lemma_div_pos_is_pos(x as int, pow16(i as nat));
        lemma_hex_roundtrip(nib(x as int, i as nat));
        assert(hex_val(s[pos + i]) == (x as int) / pow16(i as nat) % 16);
        vstd::arithmetic::div_mod::lemma_div_denominator(x as int, pow16(i as nat), 16);
        assert(pow16(i as nat) * 16 == 16 * pow16(i as nat)) by (nonlinear_arith);
        assert(pow16((i + 1) as nat) == 16 * pow16(i as nat));
        assert((x as int) / pow16(i as nat) / 16 == (x as int) / pow16((i + 1) as nat));
        vstd::arithmetic::div_mod::lemma_fundamental_div_mod((x as int) / pow16(i as nat), 16);
    }
}

/// Parse the sixteen digits at `cursor`, advancing it.
pub fn parse_u64(s: &Vec<char>, cursor: &mut usize) -> (r: Option<u64>)
    ensures
        match r {
            Some(v) => {
                &&& spec_parse_u64(s@, (*old(cursor)) as int) == Some((v, (*final(cursor)) as int))
                &&& *final(cursor) == *old(cursor) + 16
            },
            None => {
                &&& spec_parse_u64(s@, (*old(cursor)) as int) is None
                &&& *final(cursor) == *old(cursor)
            },
        },
{
    let start = *cursor;
    let slen = s.len();
    if slen < 16 || start > slen - 16 {
        proof {
            assert(spec_parse_u64(s@, start as int) is None);
        }
        return None;
    }
    let ghost pos = start as int;
    let mut acc: u64 = 0;
    let mut i: usize = 16;
    proof {
        lemma_pow16_16();
    }
    while i > 0
        invariant
            i <= 16,
            pos == start as int,
            start == *old(cursor),
            *cursor == *old(cursor),
            start + 16 <= slen,
            slen == s@.len(),
            forall|j: int| i <= j < 16 ==> #[trigger] hex_val(s@[pos + j]) < 16,
            acc as int == val16_from(s@, pos, i as int),
            (acc as int) < pow16((16 - i) as nat),
        decreases i,
    {
        let c = s[start + i - 1];
        let v = hex_val_exec(c);
        if v >= 16 {
            proof {
                assert(hex_val(s@[pos + (i - 1)]) >= 16);
                assert(!digits16(s@, pos));
            }
            return None;
        }
        proof {
            assert(pow16((16 - (i - 1)) as nat) == 16 * pow16((16 - i) as nat));
            assert(16 * (acc as int) <= 16 * (pow16((16 - i) as nat) - 1)) by (nonlinear_arith)
                requires
                    acc as int <= pow16((16 - i) as nat) - 1,
            ;
            lemma_pow16_16();
            lemma_pow16_mono((16 - (i - 1)) as nat);
        }
        acc = acc * 16 + v;
        i = i - 1;
        proof {
            assert(acc as int == hex_val(s@[pos + i]) + 16 * val16_from(s@, pos, i + 1));
        }
    }
    proof {
        assert(digits16(s@, pos));
    }
    *cursor = start + 16;
    Some(acc)
}

/// A string: its length, then its characters.
pub open spec fn enc_str(s: Seq<char>) -> Seq<char> {
    enc_u64(s.len() as int) + s
}

/// A table's entries from index `i` on: each term string with its count.
pub open spec fn enc_table_from(s: Seq<(Vec<char>, u64)>, i: int) -> Seq<char>
    decreases s.len() - i when 0 <= i <= s.len()
{
    if i >= s.len() {
        Seq::empty()
    } else {
        enc_str(s[i].0@) + enc_u64(s[i].1 as int) + enc_table_from(s, i + 1)
    }
}

/// A frequency table: its entry count, then its entries.
pub open spec fn enc_table(s: Seq<(Vec<char>, u64)>) -> Seq<char> {
    enc_u64(s.len() as int) + enc_table_from(s, 0)
}

/// Append every character of `s` to `out`.
fn push_chars(out: &mut Vec<char>, s: &Vec<char>)
    ensures
        final(out)@ == old(out)@ + s@,
{
    let ghost base = out@;
    let mut k: usize = 0;
    while k < s.len()
        invariant
            k <= s@.len(),
            out@ =~= base + s@.take(k as int),
        decreases s@.len() - k,
    {
        proof {
            assert(s@.take(k + 1) =~= s@.take(k as int).push(s@[k as int]));
        }
        out.push(s[k]);
        k = k + 1;
    }
    proof {
        assert(s@.take(s@.len() as int) =~= s@);
    }
}

/// Append the encoding of a string to `out`.
pub fn push_string(out: &mut Vec<char>, s: &Vec<char>)
    ensures
        final(out)@ == old(out)@ + enc_str(s@),
{
    let n = s.len();
    push_u64(out, n as u64);
    push_chars(out, s);
    proof {
        assert(final(out)@ =~= old(out)@ + enc_str(s@));
    }
}

/// Append the encoding of a frequency table to `out`.
pub fn push_table(out: &mut Vec<char>, ft: &FreqTable)
    ensures
        final(out)@ == old(out)@ + enc_table(ft.entries_view()),
{
    let ghost ev = ft.entries_view();
    let n = ft.num_entries();
    push_u64(out, n as u64);
    let mut i: usize = 0;
    while i < n
        invariant
            n == ev.len(),
            ev == ft.entries_view(),
            i <= n,
            out@ + enc_table_from(ev, i as int) =~= old(out)@ + enc_table(ev),
        decreases n - i,
    {
        let ghost before = out@;
        push_string(out, ft.term_at(i));
        push_u64(out, ft.count_at(i));
        proof {
            assert(out@ =~= before + (enc_str(ev[i as int].0@) + enc_u64(ev[i as int].1 as int)));
            assert(out@ + enc_table_from(ev, i + 1) =~= before + enc_table_from(ev, i as int));
        }
        i = i + 1;
    }
    proof {
        assert(enc_table_from(ev, n as int) =~= Seq::<char>::empty());
        assert(out@ + Seq::<char>::empty() =~= out@);
    }
}

/// Parse a string: a length, then that many characters.
pub open spec fn spec_parse_str(s: Seq<char>, pos: int) -> Option<(Seq<char>, int)> {
    match spec_parse_u64(s, pos) {
        None => None,
        Some((n, p)) => if p + n <= s.len() {
            Some((s.subrange(p, p + n), p + n))
        } else {
            None
        },
    }
}

pub fn parse_string(s: &Vec<char>, cursor: &mut usize) -> (r: Option<Vec<char>>)
    requires
        *old(cursor) <= s@.len(),
    ensures
        match r {
            Some(v) => {
                &&& spec_parse_str(s@, (*old(cursor)) as int) == Some((v@, (*final(cursor)) as int))
                &&& *final(cursor) <= s@.len()
            },
            None => spec_parse_str(s@, (*old(cursor)) as int) is None,
        },
{
    let n = match parse_u64(s, cursor) {
        Some(n) => n,
        None => {
            return None;
        },
    };
    let slen = s.len();
    let p = *cursor;
    if n > (slen - p) as u64 {
        return None;
    }
    let nu = n as usize;
    let mut v: Vec<char> = Vec::new();
    let mut k: usize = 0;
    while k < nu
        invariant
            nu <= slen - p,
            p + 16 <= 16 + slen,
            slen == s@.len(),
            k <= nu,
            v@ =~= s@.subrange(p as int, p + k),
        decreases nu - k,
    {
        proof {
            assert(s@.subrange(p as int, p + k + 1) =~= s@.subrange(p as int, p + k).push(
                s@[p + k],
            ));
        }
        v.push(s[p + k]);
        k = k + 1;
    }
    *cursor = p + nu;
    Some(v)
}

/// The views of a table's entries.
pub open spec fn vft(s: Seq<(Vec<char>, u64)>) -> Seq<(Seq<char>, u64)> {
    s.map_values(|e: (Vec<char>, u64)| (e.0@, e.1))
}

/// View-level well-formedness of parsed entries: distinct terms, every count
/// at least one.
pub open spec fn entries_ok(es: Seq<(Seq<char>, u64)>) -> bool {
    &&& forall|i: int, j: int| 0 <= i < j < es.len() ==> es[i].0 != es[j].0
    &&& forall|i: int| 0 <= i < es.len() ==> (#[trigger] es[i]).1 >= 1
}

/// Parse `k` table entries.
pub open spec fn spec_parse_entries(s: Seq<char>, pos: int, k: int) -> Option<
    (Seq<(Seq<char>, u64)>, int),
>
    decreases k,
{
    if k <= 0 {
        Some((Seq::empty(), pos))
    } else {
        match spec_parse_str(s, pos) {
            None => None,
            Some((t, p1)) => match spec_parse_u64(s, p1) {
                None => None,
                Some((c, p2)) => match spec_parse_entries(s, p2, k - 1) {
                    None => None,
                    Some((es, p3)) => Some((seq![(t, c)] + es, p3)),
                },
            },
        }
    }
}

/// Parse a table: an entry count, then that many entries.
pub open spec fn spec_parse_table(s: Seq<char>, pos: int) -> Option<(Seq<(Seq<char>, u64)>, int)> {
    match spec_parse_u64(s, pos) {
        None => None,
        Some((n, p)) => spec_parse_entries(s, p, n as int),
    }
}

/// Parse and rebuild a frequency table, refusing duplicate terms and zero
/// counts.
pub fn parse_table(s: &Vec<char>, cursor: &mut usize) -> (r: Option<FreqTable>)
    requires
        *old(cursor) <= s@.len(),
    ensures
        match r {
            Some(ft) => {
                &&& ft.wf()
                &&& spec_parse_table(s@, (*old(cursor)) as int) matches Some(ep)
                    && vft(ft.entries_view()) == ep.0 && ep.1 == (*final(cursor)) as int
                &&& *final(cursor) <= s@.len()
            },
            None => spec_parse_table(s@, (*old(cursor)) as int) matches Some(ep) ==> !entries_ok(
                ep.0,
            ),
        },
{
    let ghost pos0 = (*cursor) as int;
    let n = match parse_u64(s, cursor) {
        Some(n) => n,
        None => {
            return None;
        },
    };
    let ghost p0 = (*cursor) as int;
    let mut ft = FreqTable::new();
    let mut j: u64 = 0;
    while j < n
        invariant
            j <= n,
            *cursor <= s@.len(),
            ft.wf(),
            pos0 == (*old(cursor)) as int,
            spec_parse_u64(s@, pos0) == Some((n, p0)),
            spec_parse_entries(s@, p0, n as int) == (match spec_parse_entries(
                s@,
                (*cursor) as int,
                n - j,
            ) {
                None => None::<(Seq<(Seq<char>, u64)>, int)>,
                Some((es, p)) => Some((vft(ft.entries_view()) + es, p)),
            }),
        decreases n - j,
    {
        let ghost cur = (*cursor) as int;
        let ghost ftv0 = vft(ft.entries_view());
        let term = match parse_string(s, cursor) {
            Some(t) => t,
            None => {
                proof {
                    assert(spec_parse_entries(s@, cur, n - j) is None);
                }
                return None;
            },
        };
        let ghost p1 = (*cursor) as int;
        let c = match parse_u64(s, cursor) {
            Some(c) => c,
            None => {
                proof {
                    assert(spec_parse_str(s@, cur) == Some((term@, p1)));
                    assert(spec_parse_entries(s@, cur, n - j) is None);
                }
                return None;
            },
        };
        let ghost rest = (*cursor) as int;
        proof {
            assert(spec_parse_str(s@, cur) == Some((term@, p1)));
            assert(spec_parse_u64(s@, p1) == Some((c, rest)));
            if spec_parse_entries(s@, rest, n - j - 1) is None {
                assert(spec_parse_entries(s@, cur, n - j) is None);
            } else {
                let (es, p) = choose|es: Seq<(Seq<char>, u64)>, p: int|
                    spec_parse_entries(s@, rest, n - j - 1) == Some((es, p));
                assert(spec_parse_entries(s@, cur, n - j) == Some((seq![(term@, c)] + es, p)));
                assert(spec_parse_entries(s@, p0, n as int) == Some(
                    (ftv0 + (seq![(term@, c)] + es), p),
                ));
            }
        }
        if c == 0 {
            proof {
                lemma_parse_entries_bad(s@, p0, n as int, rest, n - j, ftv0, term@, c);
            }
            return None;
        }
        if ft.contains(&term) {
            proof {
                let w = crate::alist::lemma_lookup_some_index(ft.entries_view(), term@);
                assert(ftv0[w] == (ft.entries_view()[w].0@, ft.entries_view()[w].1));
                assert(ftv0[w].0 == term@);
                lemma_parse_entries_bad(s@, p0, n as int, rest, n - j, ftv0, term@, c);
            }
            return None;
        }
        ft.push_entry(term, c);
        proof {
            assert(vft(ft.entries_view()) =~= ftv0.push((term@, c)));
            if spec_parse_entries(s@, rest, n - j - 1) is None {
                assert(spec_parse_entries(s@, p0, n as int) is None);
            } else {
                let (es, p) = choose|es: Seq<(Seq<char>, u64)>, p: int|
                    spec_parse_entries(s@, rest, n - j - 1) == Some((es, p));
                assert(ftv0.push((term@, c)) + es =~= ftv0 + (seq![(term@, c)] + es));
                assert(spec_parse_entries(s@, p0, n as int) == Some(
                    (vft(ft.entries_view()) + es, p),
                ));
            }
        }
        j = j + 1;
    }
    proof {
        assert(spec_parse_entries(s@, (*cursor) as int, 0) == Some(
            (Seq::<(Seq<char>, u64)>::empty(), (*cursor) as int),
        ));
        assert(vft(ft.entries_view()) + Seq::<(Seq<char>, u64)>::empty() =~= vft(
            ft.entries_view(),
        ));
    }
    Some(ft)
}

/// When a parsed entry is malformed, the whole entry list fails the
/// well-formedness test.
proof fn lemma_parse_entries_bad(
    s: Seq<char>,
    p0: int,
    n: int,
    rest: int,
    left: int,
    built: Seq<(Seq<char>, u64)>,
    t: Seq<char>,
    c: u64,
)
    requires
        spec_parse_entries(s, p0, n) == (match spec_parse_entries(s, rest, left - 1) {
            None => None::<(Seq<(Seq<char>, u64)>, int)>,
            Some((es, p)) => Some((built + (seq![(t, c)] + es), p)),
        }),
        c == 0 || (exists|w: int| 0 <= w < built.len() && built[w].0 == t),
    ensures
        spec_parse_entries(s, p0, n) matches Some(ep) ==> !entries_ok(ep.0),
{
    if spec_parse_entries(s, p0, n) is Some {
        let es = choose|es: Seq<(Seq<char>, u64)>, p: int|
            spec_parse_entries(s, rest, left - 1) == Some((es, p));
        let full = (spec_parse_entries(s, p0, n)->Some_0).0;
        let bi = built.len() as int;
        assert(full[bi] == (t, c));
        if c == 0 {
            assert(!entries_ok(full));
        } else {
            let w = choose|w: int| 0 <= w < built.len() && built[w].0 == t;
            assert(full[w] == built[w]);
            assert(full[w].0 == full[bi].0);
            assert(!entries_ok(full));
        }
    }
}

/// The documents from index `i` on: each path, term count, stamp and table.
pub open spec fn enc_docs_from(s: Seq<(Vec<char>, Doc)>, i: int) -> Seq<char>
    decreases s.len() - i when 0 <= i <= s.len()
{
    if i >= s.len() {
        Seq::empty()
    } else {
        enc_str(s[i].0@) + enc_u64(s[i].1.spec_count() as int) + enc_u64(
            s[i].1.spec_last_modified() as int,
        ) + enc_table(s[i].1.spec_ft().entries_view()) + enc_docs_from(s, i + 1)
    }
}

/// A whole index: the corpus-wide table, the document count, the documents.
pub open spec fn enc_model(m: InMemoryModel) -> Seq<char> {
    enc_table(m.spec_gtf().entries_view()) + enc_u64(m.doc_count() as int) + enc_docs_from(
        m.docs_view(),
        0,
    )
}

/// Write an index as snapshot text.
pub fn serialize(m: &InMemoryModel) -> (r: Vec<char>)
    ensures
        r@ == enc_model(*m),
{
    proof {
        m.lemma_fields();
    }
    let mut out: Vec<char> = Vec::new();
    push_table(&mut out, &m.gtf);
    let nd = m.docs.len();
    push_u64(&mut out, nd as u64);
    let ghost head = out@;
    let ghost dv = m.docs_view();
    let mut i: usize = 0;
    while i < nd
        invariant
            nd == dv.len(),
            dv == m.docs_view(),
            i <= nd,
            out@ + enc_docs_from(dv, i as int) =~= head + enc_docs_from(dv, 0),
        decreases nd - i,
    {
        proof {
            m.lemma_fields();
        }
        let ghost before = out@;
        push_string(&mut out, m.docs.path_at(i));
        let d = m.docs.doc_at(i);
        push_u64(&mut out, d.term_count());
        push_u64(&mut out, d.last_modified());
        push_table(&mut out, d.freq_table());
        proof {
            assert(out@ =~= before + (enc_str(dv[i as int].0@) + enc_u64(
                dv[i as int].1.spec_count() as int,
            ) + enc_u64(dv[i as int].1.spec_last_modified() as int) + enc_table(
                dv[i as int].1.spec_ft().entries_view(),
            )));
            assert(out@ + enc_docs_from(dv, i + 1) =~= before + enc_docs_from(dv, i as int));
        }
        i = i + 1;
    }
    proof {
        assert(enc_docs_from(dv, nd as int) =~= Seq::<char>::empty());
        assert(out@ + Seq::<char>::empty() =~= out@);
        assert(out@ =~= enc_model(*m));
    }
    out
}

/// One parsed document record.
pub struct SnapDoc {
    pub path: Seq<char>,
    pub count: u64,
    pub last_modified: u64,
    pub table: Seq<(Seq<char>, u64)>,
}

/// Parse one document record.
pub open spec fn spec_parse_doc(s: Seq<char>, pos: int) -> Option<(SnapDoc, int)> {
    match spec_parse_str(s, pos) {
        None => None,
        Some((path, pa)) => match spec_parse_u64(s, pa) {
            None => None,
            Some((count, pb)) => match spec_parse_u64(s, pb) {
                None => None,
                Some((lm, pc)) => match spec_parse_table(s, pc) {
                    None => None,
                    Some((tb, pd)) => Some(
                        (SnapDoc { path, count, last_modified: lm, table: tb }, pd),
                    ),
                },
            },
        },
    }
}

/// Parse `k` document records.
pub open spec fn spec_parse_docs(s: Seq<char>, pos: int, k: int) -> Option<(Seq<SnapDoc>, int)>
    decreases k,
{
    if k <= 0 {
        Some((Seq::empty(), pos))
    } else {
        match spec_parse_doc(s, pos) {
            None => None,
            Some((d, p)) => match spec_parse_docs(s, p, k - 1) {
                None => None,
                Some((ds, p2)) => Some((seq![d] + ds, p2)),
            },
        }
    }
}

/// Parse a whole snapshot; trailing text makes it malformed.
pub open spec fn spec_parse_model(s: Seq<char>) -> Option<(Seq<(Seq<char>, u64)>, Seq<SnapDoc>)> {
    match spec_parse_table(s, 0) {
        None => None,
        Some((g, p1)) => match spec_parse_u64(s, p1) {
            None => None,
            Some((nd, p2)) => match spec_parse_docs(s, p2, nd as int) {
                None => None,
                Some((ds, p3)) => if p3 == s.len() {
                    Some((g, ds))
                } else {
                    None
                },
            },
        },
    }
}

/// Sum of parsed counts.
pub open spec fn sum_v(es: Seq<(Seq<char>, u64)>) -> int
    decreases es.len(),
{
    if es.len() == 0 {
        0
    } else {
        es[0].1 + sum_v(es.drop_first())
    }
}

/// What the parsed documents must satisfy to be rebuilt: distinct paths,
/// and per document a well-formed table that sums to the recorded count.
pub open spec fn docs_ok(ds: Seq<SnapDoc>) -> bool {
    &&& forall|i: int, j: int| 0 <= i < j < ds.len() ==> ds[i].path != ds[j].path
    &&& forall|i: int|
        0 <= i < ds.len() ==> entries_ok((#[trigger] ds[i]).table) && ds[i].count == sum_v(
            ds[i].table,
        )
}

/// What a parsed snapshot must satisfy to be rebuilt.
pub open spec fn snapshot_ok(g: Seq<(Seq<char>, u64)>, ds: Seq<SnapDoc>) -> bool {
    &&& entries_ok(g)
    &&& docs_ok(ds)
}

/// Every observation a rebuilt index owes to the snapshot it was read from.
pub open spec fn model_matches(m: InMemoryModel, ds: Seq<SnapDoc>) -> bool {
    &&& m.doc_count() == ds.len()
    &&& forall|i: int|
        0 <= i < ds.len() ==> {
            let e = #[trigger] m.docs_view()[i];
            &&& e.0@ == ds[i].path
            &&& e.1.spec_count() == ds[i].count
            &&& e.1.spec_last_modified() == ds[i].last_modified
            &&& vft(e.1.spec_ft().entries_view()) == ds[i].table
        }
}

/// What `deserialize` promises of its result.
pub open spec fn deserialize_outcome(s: Seq<char>, r: Option<InMemoryModel>) -> bool {
    match r {
        Some(m) => {
            &&& m.wf()
            &&& spec_parse_model(s) matches Some(gd) && model_matches(m, gd.1)
        },
        None => spec_parse_model(s) matches Some(gd) ==> !snapshot_ok(gd.0, gd.1),
    }
}

/// Table sums agree between entry views and stored entries.
proof fn lemma_sum_v_eq(es: Seq<(Vec<char>, u64)>)
    ensures
        sum_v(vft(es)) == crate::model::sum_counts(es),
    decreases es.len(),
{
    if es.len() > 0 {
        lemma_sum_v_eq(es.drop_first());
        assert(vft(es).drop_first() =~= vft(es.drop_first()));
    }
}

/// Read an index back from snapshot text. Rebuilding goes document by
/// document through `insert_document`, so the corpus-wide table of the
/// result is derived from the documents and the result is well formed.
pub fn deserialize(s: &Vec<char>) -> (r: Option<InMemoryModel>)
    ensures
        deserialize_outcome(s@, r),
{
    let mut cursor: usize = 0;
    let gt = match parse_table(s, &mut cursor) {
        Some(gt) => gt,
        None => {
            return None;
        },
    };
    let ghost p1 = cursor as int;
    let nd = match parse_u64(s, &mut cursor) {
        Some(nd) => nd,
        None => {
            return None;
        },
    };
    let ghost p2 = cursor as int;
    let ghost gv = vft(gt.entries_view());
    let mut model = InMemoryModel::new();
    let ghost sds: Seq<SnapDoc> = Seq::empty();
    let mut k: u64 = 0;
    proof {
        assert(model.docs_view() =~= Seq::<(Vec<char>, Doc)>::empty());
    }
    while k < nd
        invariant
            k <= nd,
            cursor <= s@.len(),
            model.wf(),
            spec_parse_table(s@, 0) == Some((gv, p1)),
            spec_parse_u64(s@, p1) == Some((nd, p2)),
            model_matches(model, sds),
            sds.len() == k,
            forall|i: int, j: int| 0 <= i < j < sds.len() ==> sds[i].path != sds[j].path,
            spec_parse_docs(s@, p2, nd as int) == (match spec_parse_docs(
                s@,
                cursor as int,
                nd - k,
            ) {
                None => None::<(Seq<SnapDoc>, int)>,
                Some((ds, p)) => Some((sds + ds, p)),
            }),
        decreases nd - k,
    {
        let ghost cur = cursor as int;
        let path = match parse_string(s, &mut cursor) {
            Some(p) => p,
            None => {
                proof {
                    assert(spec_parse_docs(s@, cur, nd - k) is None);
                }
                return None;
            },
        };
        let ghost pa = cursor as int;
        let count = match parse_u64(s, &mut cursor) {
            Some(c) => c,
            None => {
                proof {
                    assert(spec_parse_doc(s@, cur) is None);
                    assert(spec_parse_docs(s@, cur, nd - k) is None);
                }
                return None;
            },
        };
        let ghost pb = cursor as int;
        let lm = match parse_u64(s, &mut cursor) {
            Some(l) => l,
            None => {
                proof {
                    assert(spec_parse_doc(s@, cur) is None);
                    assert(spec_parse_docs(s@, cur, nd - k) is None);
                }
                return None;
            },
        };
        let ghost pc = cursor as int;
        let tb = match parse_table(s, &mut cursor) {
            Some(t) => t,
            None => {
                proof {
                    if spec_parse_table(s@, pc) is None {
                        assert(spec_parse_doc(s@, cur) is None);
                        assert(spec_parse_docs(s@, cur, nd - k) is None);
                    } else {
                        let (tbv, pdv) = choose|tbv: Seq<(Seq<char>, u64)>, pdv: int|
                            spec_parse_table(s@, pc) == Some((tbv, pdv));
                        let sd = SnapDoc { path: path@, count, last_modified: lm, table: tbv };
                        assert(spec_parse_doc(s@, cur) == Some((sd, pdv)));
                        if spec_parse_docs(s@, pdv, nd - k - 1) is None {
                            assert(spec_parse_docs(s@, cur, nd - k) is None);
                        } else {
                            let (ds, p) = choose|ds: Seq<SnapDoc>, p: int|
                                spec_parse_docs(s@, pdv, nd - k - 1) == Some((ds, p));
                            assert(spec_parse_docs(s@, cur, nd - k) == Some((seq![sd] + ds, p)));
                            assert(sds + (seq![sd] + ds) =~= (sds.push(sd)) + ds);
                            assert(spec_parse_docs(s@, p2, nd as int) == Some(
                                ((sds.push(sd)) + ds, p),
                            ));
                            lemma_docs_bad_at(s@, p2, nd as int, pdv, nd - k, sds, sd);
                        }
                    }
                }
                return None;
            },
        };
        let ghost pd = cursor as int;
        let ghost sd = SnapDoc { path: path@, count, last_modified: lm, table: vft(tb.entries_view()) };
        proof {
            assert(spec_parse_doc(s@, cur) == Some((sd, pd)));
            if spec_parse_docs(s@, pd, nd - k - 1) is None {
                assert(spec_parse_docs(s@, cur, nd - k) is None);
            } else {
                let (ds, p) = choose|ds: Seq<SnapDoc>, p: int|
                    spec_parse_docs(s@, pd, nd - k - 1) == Some((ds, p));
                assert(spec_parse_docs(s@, cur, nd - k) == Some((seq![sd] + ds, p)));
                assert(sds + (seq![sd] + ds) =~= (sds.push(sd)) + ds);
                assert(spec_parse_docs(s@, p2, nd as int) == Some(((sds.push(sd)) + ds, p)));
            }
        }
        let total = tb.total_checked();
        let ok_total = match total {
            Some(t) => t == count,
            None => false,
        };
        if !ok_total {
            proof {
                lemma_sum_v_eq(tb.entries_view());
                lemma_docs_bad_at(s@, p2, nd as int, pd, nd - k, sds, sd);
            }
            return None;
        }
        if model.get_document(&path).is_some() {
            proof {
                let w = crate::alist::lemma_lookup_some_index(model.docs_view(), path@);
                assert(sds[w].path == path@);
                lemma_docs_bad_at(s@, p2, nd as int, pd, nd - k, sds, sd);
            }
            return None;
        }
        let doc = Doc::new(count, tb, lm);
        proof {
            lemma_sum_v_eq(doc.spec_ft().entries_view());
        }
        let ghost m0 = model;
        model.insert_document(path, doc);
        proof {
            assert(model.docs_view() == m0.docs_view().push((path, doc)));
            assert forall|i: int|
                0 <= i < sds.push(sd).len() implies {
                let e = #[trigger] model.docs_view()[i];
                &&& e.0@ == sds.push(sd)[i].path
                &&& e.1.spec_count() == sds.push(sd)[i].count
                &&& e.1.spec_last_modified() == sds.push(sd)[i].last_modified
                &&& vft(e.1.spec_ft().entries_view()) == sds.push(sd)[i].table
            } by {
                if i < sds.len() {
                    assert(model.docs_view()[i] == m0.docs_view()[i]);
                }
            }
            assert forall|i: int, j: int|
                0 <= i < j < sds.push(sd).len() implies sds.push(sd)[i].path != sds.push(
                sd,
            )[j].path by {
                if j == sds.len() {
                    if sds[i].path == sd.path {
                        assert(m0.docs_view()[i].0@ == path@);
                        crate::alist::lemma_index_has_key(m0.docs_view(), path@, i);
                        assert(false);
                    }
                }
            }
        }
        proof {
            sds = sds.push(sd);
        }
        k = k + 1;
    }
    if cursor != s.len() {
        proof {
            assert(spec_parse_docs(s@, cursor as int, 0) == Some(
                (Seq::<SnapDoc>::empty(), cursor as int),
            ));
            assert(sds + Seq::<SnapDoc>::empty() =~= sds);
        }
        return None;
    }
    proof {
        assert(spec_parse_docs(s@, cursor as int, 0) == Some(
            (Seq::<SnapDoc>::empty(), cursor as int),
        ));
        assert(sds + Seq::<SnapDoc>::empty() =~= sds);
        assert(spec_parse_model(s@) == Some((gv, sds)));
    }
    Some(model)
}

/// A parsed document that fails validation at index `sds.len()` poisons the
/// whole list.
proof fn lemma_docs_bad_at(
    s: Seq<char>,
    p2: int,
    n: int,
    pd: int,
    left: int,
    sds: Seq<SnapDoc>,
    sd: SnapDoc,
)
    requires
        spec_parse_docs(s, p2, n) == (match spec_parse_docs(s, pd, left - 1) {
            None => None::<(Seq<SnapDoc>, int)>,
            Some((ds, p)) => Some(((sds.push(sd)) + ds, p)),
        }),
        sd.count != sum_v(sd.table) || !entries_ok(sd.table) || (exists|w: int|
            0 <= w < sds.len() && sds[w].path == sd.path),
    ensures
        spec_parse_docs(s, p2, n) matches Some(dsp) ==> !docs_ok(dsp.0),
{
    if spec_parse_docs(s, p2, n) is Some {
        let (ds, p) = choose|ds: Seq<SnapDoc>, p: int|
            spec_parse_docs(s, pd, left - 1) == Some((ds, p));
        let full = (sds.push(sd)) + ds;
        let bi = sds.len() as int;
        assert(full[bi] == sd);
        if sd.count != sum_v(sd.table) || !entries_ok(sd.table) {
            assert(!docs_ok(full));
        } else {
            let w = choose|w: int| 0 <= w < sds.len() && sds[w].path == sd.path;
            assert(full[w] == sds[w]);
            assert(!docs_ok(full));
        }
    }
}

/// A window of a window of `s` is the inner window of `s`.
proof fn lemma_sub_sub(s: Seq<char>, pos: int, w: int, a: int, b: int)
    requires
        0 <= pos,
        0 <= a <= b <= w,
        pos + w <= s.len(),
    ensures
        s.subrange(pos + a, pos + b) =~= s.subrange(pos, pos + w).subrange(a, b),
{
}

/// Parsing an encoded string embedded in any context yields the string.
proof fn lemma_parse_str_enc(s: Seq<char>, pos: int, t: Seq<char>)
    requires
        0 <= pos,
        t.len() < 0x10000000000000000,
        pos + 16 + t.len() <= s.len(),
        s.subrange(pos, pos + 16 + t.len()) == enc_str(t),
    ensures
        spec_parse_str(s, pos) == Some((t, pos + 16 + t.len())),
{
    let w = 16 + t.len() as int;
    lemma_sub_sub(s, pos, w, 0, 16);
    assert(enc_str(t).subrange(0, 16) =~= enc_u64((t.len() as u64) as int));
    assert(s.subrange(pos, pos + 16) =~= enc_u64((t.len() as u64) as int));
    lemma_parse_u64_enc(s, pos, t.len() as u64);
    lemma_sub_sub(s, pos, w, 16, w);
    assert(enc_str(t).subrange(16, w) =~= t);
    assert(s.subrange(pos + 16, pos + w) =~= t);
}

/// Parsing the encoded entries of a table, from entry `i` on.
proof fn lemma_parse_entries_enc(s: Seq<char>, pos: int, es: Seq<(Vec<char>, u64)>, i: int)
    requires
        0 <= i <= es.len(),
        0 <= pos,
        forall|k: int| 0 <= k < es.len() ==> (#[trigger] es[k]).0@.len() < 0x10000000000000000,
        pos + enc_table_from(es, i).len() <= s.len(),
        s.subrange(pos, pos + enc_table_from(es, i).len()) == enc_table_from(es, i),
    ensures
        spec_parse_entries(s, pos, es.len() - i) == Some(
            (vft(es).subrange(i, es.len() as int), pos + enc_table_from(es, i).len()),
        ),
    decreases es.len() - i,
{
    if i == es.len() {
        assert(vft(es).subrange(i, es.len() as int) =~= Seq::<(Seq<char>, u64)>::empty());
    } else {
        let t = es[i].0@;
        let c = es[i].1;
        let whole = enc_table_from(es, i);
        let l1 = 16 + t.len() as int;
        let l2 = l1 + 16;
        let rest = enc_table_from(es, i + 1);
        let w = whole.len() as int;
        assert(whole =~= (enc_str(t) + enc_u64(c as int)) + rest);
        assert(w == l2 + rest.len());
        lemma_sub_sub(s, pos, w, 0, l1);
        assert(whole.subrange(0, l1) =~= enc_str(t));
        assert(s.subrange(pos, pos + l1) =~= enc_str(t));
        lemma_parse_str_enc(s, pos, t);
        lemma_sub_sub(s, pos, w, l1, l2);
        assert(whole.subrange(l1, l2) =~= enc_u64(c as int));
        assert(s.subrange(pos + l1, pos + l1 + 16) =~= enc_u64(c as int));
        lemma_parse_u64_enc(s, pos + l1, c);
        lemma_sub_sub(s, pos, w, l2, w);
        assert(whole.subrange(l2, w) =~= rest);
        assert(s.subrange(pos + l2, pos + l2 + rest.len()) =~= rest);
        lemma_parse_entries_enc(s, pos + l2, es, i + 1);
        assert(spec_parse_entries(s, pos + l2, es.len() - i - 1) == Some(
            (vft(es).subrange(i + 1, es.len() as int), pos + whole.len()),
        ));
        assert(seq![(t, c)] + vft(es).subrange(i + 1, es.len() as int) =~= vft(es).subrange(
            i,
            es.len() as int,
        ));
    }
}

/// Parsing an encoded table embedded in any context yields its entry views.
proof fn lemma_parse_table_enc(s: Seq<char>, pos: int, es: Seq<(Vec<char>, u64)>)
    requires
        0 <= pos,
        es.len() < 0x10000000000000000,
        forall|k: int| 0 <= k < es.len() ==> (#[trigger] es[k]).0@.len() < 0x10000000000000000,
        pos + enc_table(es).len() <= s.len(),
        s.subrange(pos, pos + enc_table(es).len()) == enc_table(es),
    ensures
        spec_parse_table(s, pos) == Some((vft(es), pos + enc_table(es).len())),
{
    let w = enc_table(es).len() as int;
    lemma_sub_sub(s, pos, w, 0, 16);
    assert(enc_table(es).subrange(0, 16) =~= enc_u64((es.len() as u64) as int));
    assert(s.subrange(pos, pos + 16) =~= enc_u64((es.len() as u64) as int));
    lemma_parse_u64_enc(s, pos, es.len() as u64);
    lemma_sub_sub(s, pos, w, 16, w);
    assert(enc_table(es).subrange(16, w) =~= enc_table_from(es, 0));
    assert(s.subrange(pos + 16, pos + 16 + enc_table_from(es, 0).len()) =~= enc_table_from(es, 0));
    lemma_parse_entries_enc(s, pos + 16, es, 0);
    assert(vft(es).subrange(0, es.len() as int) =~= vft(es));
}

/// The snapshot record of one stored document.
pub open spec fn snap_of(e: (Vec<char>, Doc)) -> SnapDoc {
    SnapDoc {
        path: e.0@,
        count: e.1.spec_count(),
        last_modified: e.1.spec_last_modified(),
        table: vft(e.1.spec_ft().entries_view()),
    }
}

/// The snapshot records of all stored documents.
pub open spec fn snaps(dv: Seq<(Vec<char>, Doc)>) -> Seq<SnapDoc> {
    dv.map_values(|e: (Vec<char>, Doc)| snap_of(e))
}

/// Parsing the encoded documents, from document `i` on.
proof fn lemma_parse_docs_enc(s: Seq<char>, pos: int, dv: Seq<(Vec<char>, Doc)>, i: int)
    requires
        0 <= i <= dv.len(),
        0 <= pos,
        forall|k: int| 0 <= k < dv.len() ==> (#[trigger] dv[k]).0@.len() < 0x10000000000000000,
        forall|k: int|
            0 <= k < dv.len() ==> (#[trigger] dv[k]).1.spec_ft().entries_view().len()
                < 0x10000000000000000,
        forall|k: int, j: int|
            0 <= k < dv.len() && 0 <= j < dv[k].1.spec_ft().entries_view().len() ==> (
            #[trigger] dv[k].1.spec_ft().entries_view()[j]).0@.len() < 0x10000000000000000,
        pos + enc_docs_from(dv, i).len() <= s.len(),
        s.subrange(pos, pos + enc_docs_from(dv, i).len()) == enc_docs_from(dv, i),
    ensures
        spec_parse_docs(s, pos, dv.len() - i) == Some(
            (snaps(dv).subrange(i, dv.len() as int), pos + enc_docs_from(dv, i).len()),
        ),
    decreases dv.len() - i,
{
    if i == dv.len() {
        assert(snaps(dv).subrange(i, dv.len() as int) =~= Seq::<SnapDoc>::empty());
    } else {
        let path = dv[i].0@;
        let d = dv[i].1;
        let tb = d.spec_ft().entries_view();
        let whole = enc_docs_from(dv, i);
        let l1 = 16 + path.len() as int;
        let l2 = l1 + 16;
        let l3 = l2 + 16;
        let l4 = l3 + enc_table(tb).len();
        let rest = enc_docs_from(dv, i + 1);
        let w = whole.len() as int;
        assert(whole =~= (((enc_str(path) + enc_u64(d.spec_count() as int)) + enc_u64(
            d.spec_last_modified() as int,
        )) + enc_table(tb)) + rest);
        assert(w == l4 + rest.len());
        lemma_sub_sub(s, pos, w, 0, l1);
        assert(whole.subrange(0, l1) =~= enc_str(path));
        assert(s.subrange(pos, pos + l1) =~= enc_str(path));
        lemma_parse_str_enc(s, pos, path);
        lemma_sub_sub(s, pos, w, l1, l2);
        assert(whole.subrange(l1, l2) =~= enc_u64((d.spec_count() as u64) as int));
        assert(s.subrange(pos + l1, pos + l1 + 16) =~= enc_u64((d.spec_count() as u64) as int));
        lemma_parse_u64_enc(s, pos + l1, d.spec_count());
        lemma_sub_sub(s, pos, w, l2, l3);
        assert(whole.subrange(l2, l3) =~= enc_u64((d.spec_last_modified() as u64) as int));
        assert(s.subrange(pos + l2, pos + l2 + 16) =~= enc_u64(
            (d.spec_last_modified() as u64) as int,
        ));
        lemma_parse_u64_enc(s, pos + l2, d.spec_last_modified());
        lemma_sub_sub(s, pos, w, l3, l4 as int);
        assert(whole.subrange(l3, l4 as int) =~= enc_table(tb));
        assert(s.subrange(pos + l3, pos + l3 + enc_table(tb).len()) =~= enc_table(tb));
        lemma_parse_table_enc(s, pos + l3, tb);
        assert(spec_parse_doc(s, pos) == Some((snap_of(dv[i]), pos + l4)));
        lemma_sub_sub(s, pos, w, l4 as int, w);
        assert(whole.subrange(l4 as int, w) =~= rest);
        assert(s.subrange(pos + l4, pos + l4 + rest.len()) =~= rest);
        lemma_parse_docs_enc(s, pos + l4, dv, i + 1);
        assert(seq![snap_of(dv[i])] + snaps(dv).subrange(i + 1, dv.len() as int) =~= snaps(
            dv,
        ).subrange(i, dv.len() as int));
    }
}

/// Parsing the encoding of a well-formed index yields exactly its views.
pub proof fn lemma_parse_model_enc(m: InMemoryModel)
    requires
        m.wf(),
    ensures
        spec_parse_model(enc_model(m)) == Some(
            (vft(m.spec_gtf().entries_view()), snaps(m.docs_view())),
        ),
{
    m.lemma_len_bounds();
    let s = enc_model(m);
    let gtv = m.spec_gtf().entries_view();
    let dv = m.docs_view();
    let l1 = enc_table(gtv).len();
    let l2 = l1 + 16;
    let w = s.len() as int;
    assert(s =~= (enc_table(gtv) + enc_u64(m.doc_count() as int)) + enc_docs_from(dv, 0));
    assert(s.subrange(0, w) =~= s);
    lemma_sub_sub(s, 0, w, 0, l1 as int);
    assert(s.subrange(0, w).subrange(0, l1 as int) =~= enc_table(gtv));
    assert(s.subrange(0, l1 as int) =~= enc_table(gtv));
    lemma_parse_table_enc(s, 0, gtv);
    lemma_sub_sub(s, 0, w, l1 as int, l2 as int);
    assert(s.subrange(0, w).subrange(l1 as int, l2 as int) =~= enc_u64(((dv.len() as u64)) as int));
    assert(s.subrange(l1 as int, l2 as int) =~= enc_u64(((dv.len() as u64)) as int));
    lemma_parse_u64_enc(s, l1 as int, dv.len() as u64);
    lemma_sub_sub(s, 0, w, l2 as int, w);
    assert(s.subrange(0, w).subrange(l2 as int, w) =~= enc_docs_from(dv, 0));
    assert(s.subrange(l2 as int, (l2 + enc_docs_from(dv, 0).len()) as int) =~= enc_docs_from(dv, 0));
    lemma_parse_docs_enc(s, l2 as int, dv, 0);
    assert(snaps(dv).subrange(0, dv.len() as int) =~= snaps(dv));
    assert(l2 + enc_docs_from(dv, 0).len() == s.len());
}

/// Two document lists whose tables agree at view level give every term the
/// same document frequency.
proof fn lemma_df_pointwise(a: Seq<(Vec<char>, Doc)>, b: Seq<(Vec<char>, Doc)>, t: Seq<char>)
    requires
        a.len() == b.len(),
        forall|i: int|
            0 <= i < a.len() ==> vft((#[trigger] a[i]).1.spec_ft().entries_view()) == vft(
                b[i].1.spec_ft().entries_view(),
            ),
    ensures
        crate::model::df(a, t) == crate::model::df(b, t),
    decreases a.len(),
{
    if a.len() > 0 {
        lemma_contains_transfer(a[0].1.spec_ft().entries_view(), b[0].1.spec_ft().entries_view(), t);
        assert forall|i: int|
            0 <= i < a.drop_first().len() implies vft(
            (#[trigger] a.drop_first()[i]).1.spec_ft().entries_view()) == vft(
            b.drop_first()[i].1.spec_ft().entries_view()) by {
            assert(a.drop_first()[i] == a[i + 1]);
            assert(b.drop_first()[i] == b[i + 1]);
        }
        lemma_df_pointwise(a.drop_first(), b.drop_first(), t);
    }
}

/// Two tables with equal entry views hold the same terms.
proof fn lemma_contains_transfer(aes: Seq<(Vec<char>, u64)>, bes: Seq<(Vec<char>, u64)>, t: Seq<char>)
    requires
        vft(aes) == vft(bes),
    ensures
        crate::alist::has_key(aes, t) == crate::alist::has_key(bes, t),
{
    assert(aes.len() == bes.len()) by {
        assert(vft(aes).len() == aes.len() && vft(bes).len() == bes.len());
    }
    if crate::alist::has_key(aes, t) {
        let w = crate::alist::lemma_lookup_some_index(aes, t);
        assert(vft(aes)[w].0 == t);
        assert(vft(bes)[w].0 == t);
        assert(bes[w].0@ == t);
        crate::alist::lemma_index_has_key(bes, t, w);
    } else if crate::alist::has_key(bes, t) {
        let w = crate::alist::lemma_lookup_some_index(bes, t);
        assert(vft(bes)[w].0 == t);
        assert(vft(aes)[w].0 == t);
        assert(aes[w].0@ == t);
        crate::alist::lemma_index_has_key(aes, t, w);
    }
}

/// Snapshot round trip: loading the text a well-formed index was saved as
/// succeeds, and the loaded index carries the same documents — the same
/// paths in the same order, each with the same term count, stamp and
/// frequency table — and gives every term the same corpus-wide count.
pub proof fn lemma_snapshot_roundtrip(m: InMemoryModel, r: Option<InMemoryModel>)
    requires
        m.wf(),
        deserialize_outcome(enc_model(m), r),
    ensures
        r is Some,
        r matches Some(m2) ==> {
            &&& m2.wf()
            &&& m2.doc_count() == m.doc_count()
            &&& forall|i: int|
                0 <= i < m.doc_count() ==> {
                    let e2 = #[trigger] m2.docs_view()[i];
                    let e = m.docs_view()[i];
                    &&& e2.0@ == e.0@
                    &&& e2.1.spec_count() == e.1.spec_count()
                    &&& e2.1.spec_last_modified() == e.1.spec_last_modified()
                    &&& vft(e2.1.spec_ft().entries_view()) == vft(e.1.spec_ft().entries_view())
                }
            &&& forall|t: Seq<char>| #[trigger] m2.gtf_count(t) == m.gtf_count(t)
        },
{
    lemma_parse_model_enc(m);
    let gtv = m.spec_gtf().entries_view();
    let dv = m.docs_view();
    let ds = snaps(dv);

    assert(entries_ok(vft(gtv))) by {
        assert forall|i: int, j: int|
            0 <= i < j < vft(gtv).len() implies vft(gtv)[i].0 != vft(gtv)[j].0 by {
            assert(vft(gtv)[i].0 == gtv[i].0@ && vft(gtv)[j].0 == gtv[j].0@);
        }
    }
    assert(docs_ok(ds)) by {
        assert forall|i: int, j: int| 0 <= i < j < ds.len() implies ds[i].path != ds[j].path by {
            assert(ds[i].path == dv[i].0@ && ds[j].path == dv[j].0@);
        }
        assert forall|i: int|
            0 <= i < ds.len() implies entries_ok((#[trigger] ds[i]).table) && ds[i].count == sum_v(
            ds[i].table,
        ) by {
            let e = dv[i].1;
            assert(e.wf());
            lemma_sum_v_eq(e.spec_ft().entries_view());
            assert forall|x: int, y: int|
                0 <= x < y < ds[i].table.len() implies ds[i].table[x].0 != ds[i].table[y].0 by {
                assert(ds[i].table[x].0 == e.spec_ft().entries_view()[x].0@);
                assert(ds[i].table[y].0 == e.spec_ft().entries_view()[y].0@);
            }
        }
    }
    assert(r is Some);
    let m2 = r->Some_0;
    assert(model_matches(m2, ds));
    assert forall|t: Seq<char>| #[trigger] m2.gtf_count(t) == m.gtf_count(t) by {
        assert(m2.gtf_count(t) == crate::model::df(m2.docs_view(), t));
        assert(m.gtf_count(t) == crate::model::df(m.docs_view(), t));
        assert forall|i: int|
            0 <= i < m2.docs_view().len() implies vft(
            (#[trigger] m2.docs_view()[i]).1.spec_ft().entries_view()) == vft(
            m.docs_view()[i].1.spec_ft().entries_view()) by {
            assert(vft(m2.docs_view()[i].1.spec_ft().entries_view()) == ds[i].table);
        }
        lemma_df_pointwise(m2.docs_view(), m.docs_view(), t);
    }
}

/// Powers of sixteen up to the sixteenth never pass two to the sixty-fourth.
proof fn lemma_pow16_mono(k: nat)
    requires
        k <= 16,
    ensures
        pow16(k) <= pow16(16),
    decreases 16 - k,
{
    if k < 16 {
        lemma_pow16_mono((k + 1) as nat);
        lemma_pow16_pos(k);
        assert(pow16((k + 1) as nat) == 16 * pow16(k));
        assert(16 * pow16(k) >= pow16(k)) by (nonlinear_arith)
            requires
                pow16(k) >= 1,
        ;
    }
}

} // verus!
