//! The persisted text form of a store, with its serializer and parser.
//!
//! A store is written as a single line of text: the letter `E`, the decimal
//! count of active entries, a `;`, the entries, then the letter `B`, the
//! decimal count of backups, a `;`, and the backups.  Each entry is its name
//! and value as length-prefixed strings: the decimal character count, a `:`,
//! then exactly that many characters.  Decimal counts carry no leading zeros,
//! so the form of every store value is unique, and parsing is proved to be the
//! exact inverse of serialization.

use vstd::prelude::*;

use crate::store::{entry_views, Entry, EntryV, LoadFailure, Store, StoreError, StoreV};

verus! {

/// True when `c` is a decimal digit.
pub open spec fn is_digit_char(c: char) -> bool {
    48 <= (c as u32) <= 57
}

/// The numerical value of a digit character.
pub open spec fn digit_val(c: char) -> nat
    recommends
        is_digit_char(c),
{
    ((c as u32) - 48) as nat
}

/// The digit character for a value below ten.
pub open spec fn digit_char(d: nat) -> char
    recommends
        d < 10,
{
    if d == 0 {
        '0'
    } else if d == 1 {
        '1'
    } else if d == 2 {
        '2'
    } else if d == 3 {
        '3'
    } else if d == 4 {
        '4'
    } else if d == 5 {
        '5'
    } else if d == 6 {
        '6'
    } else if d == 7 {
        '7'
    } else if d == 8 {
        '8'
    } else {
        '9'
    }
}

/// The decimal digits of `n`, most significant first, without leading zeros.
pub open spec fn dec_digits(n: nat) -> Seq<char>
    decreases n,
{
    if n < 10 {
        seq![digit_char(n)]
    } else {
        dec_digits(n / 10).push(digit_char(n % 10))
    }
}

/// The value of a digit sequence read in base ten.
pub open spec fn digits_val(d: Seq<char>) -> nat
    decreases d.len(),
{
    if d.len() == 0 {
        0
    } else {
        digits_val(d.drop_last()) * 10 + digit_val(d.last())
    }
}

/// A string as it is serialized: its decimal length, a colon, its characters.
pub open spec fn ser_str(s: Seq<char>) -> Seq<char> {
    dec_digits(s.len()) + seq![':'] + s
}

/// An entry as it is serialized: its name, then its value.
pub open spec fn ser_entry(e: EntryV) -> Seq<char> {
    ser_str(e.name) + ser_str(e.value)
}

/// A list of entries as it is serialized: one after the other.
pub open spec fn ser_entries(es: Seq<EntryV>) -> Seq<char>
    decreases es.len(),
{
    if es.len() == 0 {
        Seq::empty()
    } else {
        ser_entry(es[0]) + ser_entries(es.drop_first())
    }
}

/// One tagged section: the tag letter, the decimal count of entries, a
/// semicolon, then the entries themselves.
pub open spec fn ser_block(tag: char, es: Seq<EntryV>) -> Seq<char> {
    seq![tag] + dec_digits(es.len()) + seq![';'] + ser_entries(es)
}

/// A whole store as it is serialized: the entry section, then the backup
/// section.
pub open spec fn ser_store(v: StoreV) -> Seq<char> {
    ser_block('E', v.entries) + ser_block('B', v.backups)
}

/// End of the run of digit characters that starts at `p`.
pub open spec fn digit_run_end(s: Seq<char>, p: int) -> int
    recommends
        0 <= p <= s.len(),
    decreases s.len() - p,
{
    if p < 0 || p >= s.len() {
        p
    } else if !is_digit_char(s[p]) {
        p
    } else {
        digit_run_end(s, p + 1)
    }
}

/// Parse a decimal count at `p`: at least one digit, no leading zero.
pub open spec fn spec_parse_nat(s: Seq<char>, p: int) -> Option<(nat, int)> {
    let q = digit_run_end(s, p);
    if q == p {
        None
    } else if s[p] == '0' && q > p + 1 {
        None
    } else {
        Some((digits_val(s.subrange(p, q)), q))
    }
}

/// Parse a length-prefixed string at `p`.
pub open spec fn spec_parse_str(s: Seq<char>, p: int) -> Option<(Seq<char>, int)> {
    match spec_parse_nat(s, p) {
        None => None,
        Some((n, q)) => if q < s.len() && s[q] == ':' && q + 1 + n <= s.len() {
            Some((s.subrange(q + 1, q + 1 + n), q + 1 + n))
        } else {
            None
        },
    }
}

/// Parse one entry at `p`: its name, then its value.
pub open spec fn spec_parse_entry(s: Seq<char>, p: int) -> Option<(EntryV, int)> {
    match spec_parse_str(s, p) {
        None => None,
        Some((name, q)) => match spec_parse_str(s, q) {
            None => None,
            Some((value, r)) => Some((EntryV { name, value }, r)),
        },
    }
}

/// Parse exactly `k` entries one after the other, starting at `p`.
pub open spec fn spec_parse_entries(s: Seq<char>, p: int, k: nat) -> Option<(Seq<EntryV>, int)>
    decreases k,
{
    if k == 0 {
        Some((Seq::empty(), p))
    } else {
        match spec_parse_entry(s, p) {
            None => None,
            Some((e, q)) => match spec_parse_entries(s, q, (k - 1) as nat) {
                None => None,
                Some((es, r)) => Some((seq![e] + es, r)),
            },
        }
    }
}

/// Parse one tagged section at `p`.
pub open spec fn spec_parse_block(s: Seq<char>, p: int, tag: char) -> Option<(Seq<EntryV>, int)> {
    if p < s.len() && s[p] == tag {
        match spec_parse_nat(s, p + 1) {
            None => None,
            Some((k, q)) => if q < s.len() && s[q] == ';' {
                spec_parse_entries(s, q + 1, k)
            } else {
                None
            },
        }
    } else {
        None
    }
}

/// Parse a whole serialized store: both sections, consuming all of `s`.
pub open spec fn spec_parse_store(s: Seq<char>) -> Option<StoreV> {
    match spec_parse_block(s, 0, 'E') {
        None => None,
        Some((es, p1)) => match spec_parse_block(s, p1, 'B') {
            None => None,
            Some((bs, p2)) => if p2 == s.len() {
                Some(StoreV { entries: es, backups: bs })
            } else {
                None
            },
        },
    }
}

/// The decimal digits of `n` are digits, start with no spurious zero, and
/// read back as `n`.
pub proof fn lemma_dec_digits(n: nat)
    ensures
        dec_digits(n).len() >= 1,
        forall|i: int| 0 <= i < dec_digits(n).len() ==> is_digit_char(#[trigger] dec_digits(n)[i]),
        dec_digits(n).len() > 1 ==> dec_digits(n)[0] != '0',
        n >= 10 <==> dec_digits(n).len() > 1,
        digits_val(dec_digits(n)) == n,
    decreases n,
{
    if n < 10 {
        let dd = dec_digits(n);
        assert(dd == seq![digit_char(n)]);
        assert(dd.len() == 1);
        assert(dd.last() == digit_char(n));
        assert(dd.drop_last() =~= Seq::<char>::empty());
        assert(digits_val(Seq::<char>::empty()) == 0);
        assert(digits_val(dd) == digits_val(dd.drop_last()) * 10 + digit_val(dd.last()));
        assert(digits_val(dd) == digit_val(digit_char(n)));
    } else {
        lemma_dec_digits(n / 10);
        let dd = dec_digits(n);
        assert(dd == dec_digits(n / 10).push(digit_char(n % 10)));
        assert(dd.drop_last() =~= dec_digits(n / 10));
        assert(dd.last() == digit_char(n % 10));
        assert(digits_val(dd) == (n / 10) * 10 + n % 10);
        assert((n / 10) * 10 + n % 10 == n) by (nonlinear_arith);
        assert(n / 10 >= 1);
        assert(dd[0] == dec_digits(n / 10)[0]);
        assert forall|i: int| 0 <= i < dd.len() implies is_digit_char(#[trigger] dd[i]) by {
            if i < dd.len() - 1 {
                assert(dd[i] == dec_digits(n / 10)[i]);
            }
        }
    }
}

/// Where the digit run ends: after the digits, at the end or a non-digit.
pub proof fn lemma_digit_run_end_props(s: Seq<char>, p: int)
    requires
        0 <= p <= s.len(),
    ensures
        p <= digit_run_end(s, p) <= s.len(),
        forall|k: int| p <= k < digit_run_end(s, p) ==> is_digit_char(#[trigger] s[k]),
        digit_run_end(s, p) == s.len() || !is_digit_char(s[digit_run_end(s, p)]),
    decreases s.len() - p,
{
    if p < s.len() && is_digit_char(s[p]) {
        lemma_digit_run_end_props(s, p + 1);
    }
}

/// A run of `k` digits bounded by the end or a non-digit is the whole run.
pub proof fn lemma_digit_run_of_digits(s: Seq<char>, p: int, k: int)
    requires
        0 <= p,
        0 <= k,
        p + k <= s.len(),
        forall|j: int| p <= j < p + k ==> is_digit_char(#[trigger] s[j]),
        p + k == s.len() || !is_digit_char(s[p + k]),
    ensures
        digit_run_end(s, p) == p + k,
    decreases k,
{
    if k > 0 {
        lemma_digit_run_of_digits(s, p + 1, k - 1);
    }
}

/// Parsing a serialized count finds exactly that count.
pub proof fn lemma_parse_nat_of_ser(s: Seq<char>, p: int, n: nat)
    requires
        0 <= p,
        p + dec_digits(n).len() <= s.len(),
        s.subrange(p, p + dec_digits(n).len() as int) == dec_digits(n),
        p + dec_digits(n).len() == s.len() || !is_digit_char(s[p + dec_digits(n).len()]),
    ensures
        spec_parse_nat(s, p) == Some((n, p + dec_digits(n).len() as int)),
{
    lemma_dec_digits(n);
    let dd = dec_digits(n);
    let l = dd.len() as int;
    assert forall|j: int| p <= j < p + l implies is_digit_char(#[trigger] s[j]) by {
        assert(s[j] == s.subrange(p, p + l)[j - p]);
    }
    lemma_digit_run_of_digits(s, p, l);
    assert(s[p] == dd[0]);
    assert(s.subrange(p, p + l) =~= dd);
    if s[p] == '0' && l > 1 {
        assert(dd[0] != '0');
    }
    assert(digits_val(s.subrange(p, digit_run_end(s, p))) == n);
}

/// Parsing a serialized string finds exactly that string.
pub proof fn lemma_parse_str_of_ser(s: Seq<char>, p: int, x: Seq<char>)
    requires
        0 <= p,
        p + ser_str(x).len() <= s.len(),
        s.subrange(p, p + ser_str(x).len() as int) == ser_str(x),
    ensures
        spec_parse_str(s, p) == Some((x, p + ser_str(x).len() as int)),
{
    let dd = dec_digits(x.len());
    let l = dd.len() as int;
    let w = ser_str(x).len() as int;
    assert(w == l + 1 + x.len());
    assert forall|j: int| 0 <= j < w implies s[p + j] == ser_str(x)[j] by {
        assert(ser_str(x)[j] == s.subrange(p, p + w)[j]);
    }
    assert(s.subrange(p, p + l) =~= dd) by {
        assert forall|j: int| 0 <= j < l implies s.subrange(p, p + l)[j] == dd[j] by {
            assert(s[p + j] == ser_str(x)[j]);
            assert(ser_str(x)[j] == dd[j]);
        }
    }
    assert(s[p + l] == ser_str(x)[l]);
    assert(ser_str(x)[l] == ':');
    assert(!is_digit_char(':'));
    lemma_parse_nat_of_ser(s, p, x.len());
    let q = p + l;
    assert(s.subrange(q + 1, q + 1 + x.len() as int) =~= x) by {
        assert forall|j: int| 0 <= j < x.len() implies s.subrange(q + 1, q + 1 + x.len() as int)[j]
            == x[j] by {
            assert(s[q + 1 + j] == ser_str(x)[l + 1 + j]);
            assert(ser_str(x)[l + 1 + j] == x[j]);
        }
    }
}

/// Parsing a serialized entry finds exactly that entry.
pub proof fn lemma_parse_entry_of_ser(s: Seq<char>, p: int, e: EntryV)
    requires
        0 <= p,
        p + ser_entry(e).len() <= s.len(),
        s.subrange(p, p + ser_entry(e).len() as int) == ser_entry(e),
    ensures
        spec_parse_entry(s, p) == Some((e, p + ser_entry(e).len() as int)),
{
    let a = ser_str(e.name);
    let b = ser_str(e.value);
    let w = ser_entry(e).len() as int;
    assert forall|j: int| 0 <= j < w implies s[p + j] == ser_entry(e)[j] by {
        assert(ser_entry(e)[j] == s.subrange(p, p + w)[j]);
    }
    assert(s.subrange(p, p + a.len() as int) =~= a) by {
        assert forall|j: int| 0 <= j < a.len() implies s.subrange(p, p + a.len() as int)[j] == a[j]
            by {
            assert(s[p + j] == ser_entry(e)[j]);
            assert(ser_entry(e)[j] == a[j]);
        }
    }
    lemma_parse_str_of_ser(s, p, e.name);
    let q = p + a.len() as int;
    assert(s.subrange(q, q + b.len() as int) =~= b) by {
        assert forall|j: int| 0 <= j < b.len() implies s.subrange(q, q + b.len() as int)[j] == b[j]
            by {
            assert(s[q + j] == ser_entry(e)[a.len() + j]);
            assert(ser_entry(e)[a.len() + j] == b[j]);
        }
    }
    lemma_parse_str_of_ser(s, q, e.value);
    assert(spec_parse_entry(s, p) == Some((EntryV { name: e.name, value: e.value }, p + w)));
    assert(EntryV { name: e.name, value: e.value } =~= e);
}

/// Parsing `k` serialized entries finds exactly those entries.
pub proof fn lemma_parse_entries_of_ser(s: Seq<char>, p: int, es: Seq<EntryV>)
    requires
        0 <= p,
        p + ser_entries(es).len() <= s.len(),
        s.subrange(p, p + ser_entries(es).len() as int) == ser_entries(es),
    ensures
        spec_parse_entries(s, p, es.len()) == Some((es, p + ser_entries(es).len() as int)),
    decreases es.len(),
{
    if es.len() == 0 {
        assert(spec_parse_entries(s, p, 0) == Some((Seq::<EntryV>::empty(), p)));
        assert(Seq::<EntryV>::empty() =~= es);
    } else {
        let e0 = ser_entry(es[0]);
        let rest = ser_entries(es.drop_first());
        let w = ser_entries(es).len() as int;
        assert(ser_entries(es) == e0 + rest);
        assert forall|j: int| 0 <= j < w implies s[p + j] == ser_entries(es)[j] by {
            assert(ser_entries(es)[j] == s.subrange(p, p + w)[j]);
        }
        assert(s.subrange(p, p + e0.len() as int) =~= e0) by {
            assert forall|j: int| 0 <= j < e0.len() implies s.subrange(p, p + e0.len() as int)[j]
                == e0[j] by {
                assert(s[p + j] == ser_entries(es)[j]);
                assert(ser_entries(es)[j] == e0[j]);
            }
        }
        lemma_parse_entry_of_ser(s, p, es[0]);
        let q = p + e0.len() as int;
        assert(s.subrange(q, q + rest.len() as int) =~= rest) by {
            assert forall|j: int| 0 <= j < rest.len() implies s.subrange(q, q + rest.len() as int)[j]
                == rest[j] by {
                assert(s[q + j] == ser_entries(es)[e0.len() + j]);
                assert(ser_entries(es)[e0.len() + j] == rest[j]);
            }
        }
        lemma_parse_entries_of_ser(s, q, es.drop_first());
        assert(seq![es[0]] + es.drop_first() =~= es);
    }
}

/// Parsing a serialized section finds exactly its entries.
pub proof fn lemma_parse_block_of_ser(s: Seq<char>, p: int, tag: char, es: Seq<EntryV>)
    requires
        0 <= p,
        p + ser_block(tag, es).len() <= s.len(),
        s.subrange(p, p + ser_block(tag, es).len() as int) == ser_block(tag, es),
    ensures
        spec_parse_block(s, p, tag) == Some((es, p + ser_block(tag, es).len() as int)),
{
    let blk = ser_block(tag, es);
    let dd = dec_digits(es.len());
    let l = dd.len() as int;
    let w = blk.len() as int;
    assert(w == 1 + l + 1 + ser_entries(es).len());
    assert forall|j: int| 0 <= j < w implies s[p + j] == blk[j] by {
        assert(blk[j] == s.subrange(p, p + w)[j]);
    }
    assert(s[p] == blk[0]);
    assert(blk[0] == tag);
    assert(s.subrange(p + 1, p + 1 + l) =~= dd) by {
        assert forall|j: int| 0 <= j < l implies s.subrange(p + 1, p + 1 + l)[j] == dd[j] by {
            assert(s[p + 1 + j] == blk[1 + j]);
            assert(blk[1 + j] == dd[j]);
        }
    }
    assert(s[p + 1 + l] == blk[1 + l]);
    assert(blk[1 + l] == ';');
    assert(!is_digit_char(';'));
    lemma_parse_nat_of_ser(s, p + 1, es.len());
    let q = p + 1 + l;
    assert(s.subrange(q + 1, q + 1 + ser_entries(es).len() as int) =~= ser_entries(es)) by {
        assert forall|j: int| 0 <= j < ser_entries(es).len() implies s.subrange(
            q + 1,
            q + 1 + ser_entries(es).len() as int,
        )[j] == ser_entries(es)[j] by {
            assert(s[q + 1 + j] == blk[2 + l + j]);
            assert(blk[2 + l + j] == ser_entries(es)[j]);
        }
    }
    lemma_parse_entries_of_ser(s, q + 1, es);
}

/// Serialization round-trips: parsing the serialized form of any store value
/// yields exactly that value.
pub proof fn lemma_store_round_trip(v: StoreV)
    ensures
        spec_parse_store(ser_store(v)) == Some(v),
{
    let s = ser_store(v);
    let b1 = ser_block('E', v.entries);
    let b2 = ser_block('B', v.backups);
    assert(s.subrange(0, b1.len() as int) =~= b1);
    lemma_parse_block_of_ser(s, 0, 'E', v.entries);
    assert(s.subrange(b1.len() as int, (b1.len() + b2.len()) as int) =~= b2);
    lemma_parse_block_of_ser(s, b1.len() as int, 'B', v.backups);
    assert(StoreV { entries: v.entries, backups: v.backups } =~= v);
}

/// Appending one entry to a list appends its serialized form.
pub proof fn lemma_ser_entries_snoc(es: Seq<EntryV>, e: EntryV)
    ensures
        ser_entries(es.push(e)) == ser_entries(es) + ser_entry(e),
    decreases es.len(),
{
    if es.len() == 0 {
        assert(es.push(e)[0] == e);
        assert(es.push(e).drop_first() =~= Seq::<EntryV>::empty());
        assert(ser_entries(Seq::<EntryV>::empty()) == Seq::<char>::empty());
        assert(ser_entries(es.push(e)) == ser_entry(e) + ser_entries(es.push(e).drop_first()));
        assert(ser_entries(es.push(e)) =~= ser_entries(es) + ser_entry(e));
    } else {
        assert(es.push(e)[0] == es[0]);
        assert(es.push(e).drop_first() =~= es.drop_first().push(e));
        lemma_ser_entries_snoc(es.drop_first(), e);
        assert(ser_entries(es.push(e)) =~= ser_entries(es) + ser_entry(e));
    }
}

/// The digit character of a value below ten, as a string slice.
fn digit_lit(d: usize) -> (r: &'static str)
    requires
        d < 10,
    ensures
        r@ == seq![digit_char(d as nat)],
{
    proof {
        reveal_strlit("0");
        reveal_strlit("1");
        reveal_strlit("2");
        reveal_strlit("3");
        reveal_strlit("4");
        reveal_strlit("5");
        reveal_strlit("6");
        reveal_strlit("7");
        reveal_strlit("8");
        reveal_strlit("9");
    }
    let r: &'static str = if d == 0 {
        "0"
    } else if d == 1 {
        "1"
    } else if d == 2 {
        "2"
    } else if d == 3 {
        "3"
    } else if d == 4 {
        "4"
    } else if d == 5 {
        "5"
    } else if d == 6 {
        "6"
    } else if d == 7 {
        "7"
    } else if d == 8 {
        "8"
    } else {
        "9"
    };
    proof {
        assert(r@ =~= seq![digit_char(d as nat)]);
    }
    r
}

/// The decimal digits of `n`, as a string.
fn dec_str(n: usize) -> (r: String)
    ensures
        r@ == dec_digits(n as nat),
    decreases n,
{
    if n < 10 {
        let mut s = String::new();
        s.append(digit_lit(n));
        proof {
            assert(s@ =~= dec_digits(n as nat));
        }
        s
    } else {
        let mut s = dec_str(n / 10);
        s.append(digit_lit(n % 10));
        proof {
            assert((n / 10) as nat == (n as nat) / 10);
            assert((n % 10) as nat == (n as nat) % 10);
            assert(s@ =~= dec_digits(n as nat));
        }
        s
    }
}

/// Append the length-prefixed form of `s` to `out`.
fn append_ser_str(out: &mut String, s: &str)
    ensures
        final(out)@ == old(out)@ + ser_str(s@),
{
    let n = s.unicode_len();
    let d = dec_str(n);
    out.append(d.as_str());
    out.append(":");
    out.append(s);
    proof {
        reveal_strlit(":");
        assert(out@ =~= old(out)@ + ser_str(s@));
    }
}

/// Serialize a store into its persisted text form.
pub fn serialize(store: &Store) -> (out: String)
    ensures
        out@ == ser_store(store@),
{
    let ghost vs = entry_views(store.entries@);
    let ghost bs = entry_views(store.backups@);
    proof {
        reveal_strlit("E");
        reveal_strlit("B");
        reveal_strlit(";");
    }
    let mut out = String::new();
    out.append("E");
    let d1 = dec_str(store.entries.len());
    out.append(d1.as_str());
    out.append(";");
    let ghost head1 = seq!['E'] + dec_digits(vs.len()) + seq![';'];
    proof {
        assert(out@ =~= head1);
    }
    let n = store.entries.len();
    let mut i: usize = 0;
    while i < n
        invariant
            n == store.entries@.len(),
            vs == entry_views(store.entries@),
            i <= n,
            out@ == head1 + ser_entries(vs.take(i as int)),
        decreases n - i,
    {
        let ghost pre = vs.take(i as int);
        append_ser_str(&mut out, store.entries[i].name.as_str());
        append_ser_str(&mut out, store.entries[i].value.as_str());
        proof {
            lemma_ser_entries_snoc(pre, vs[i as int]);
            assert(vs.take(i + 1) =~= pre.push(vs[i as int]));
            assert(out@ =~= head1 + ser_entries(vs.take(i + 1)));
        }
        i += 1;
    }
    proof {
        assert(vs.take(n as int) =~= vs);
    }
    out.append("B");
    let d2 = dec_str(store.backups.len());
    out.append(d2.as_str());
    out.append(";");
    let ghost head2 = head1 + ser_entries(vs) + seq!['B'] + dec_digits(bs.len()) + seq![';'];
    proof {
        assert(out@ =~= head2);
    }
    let m = store.backups.len();
    let mut j: usize = 0;
    while j < m
        invariant
            m == store.backups@.len(),
            bs == entry_views(store.backups@),
            j <= m,
            out@ == head2 + ser_entries(bs.take(j as int)),
        decreases m - j,
    {
        let ghost pre = bs.take(j as int);
        append_ser_str(&mut out, store.backups[j].name.as_str());
        append_ser_str(&mut out, store.backups[j].value.as_str());
        proof {
            lemma_ser_entries_snoc(pre, bs[j as int]);
            assert(bs.take(j + 1) =~= pre.push(bs[j as int]));
            assert(out@ =~= head2 + ser_entries(bs.take(j + 1)));
        }
        j += 1;
    }
    proof {
        assert(bs.take(m as int) =~= bs);
        assert(out@ =~= ser_store(store@));
    }
    out
}

/// A digit character is recovered from its value.
pub proof fn lemma_digit_char_of_val(c: char)
    requires
        is_digit_char(c),
    ensures
        digit_char(digit_val(c)) == c,
{
    let u = c as u32;
    assert(digit_char(digit_val(c)) as u32 == u);
    vstd::utf8::char_u32_cast(c, u);
    vstd::utf8::char_u32_cast(digit_char(digit_val(c)), u);
}

/// A digit sequence without a leading zero has a positive value.
pub proof fn lemma_digits_val_pos(d: Seq<char>)
    requires
        d.len() >= 1,
        forall|i: int| 0 <= i < d.len() ==> is_digit_char(#[trigger] d[i]),
        d[0] != '0',
    ensures
        digits_val(d) >= 1,
    decreases d.len(),
{
    if d.len() == 1 {
        vstd::utf8::char_u32_cast(d[0], d[0] as u32);
        vstd::utf8::char_u32_cast('0', '0' as u32);
        assert(d[0] as u32 != 48);
        assert(digit_val(d.last()) >= 1);
    } else {
        assert forall|i: int| 0 <= i < d.drop_last().len() implies is_digit_char(
            #[trigger] d.drop_last()[i],
        ) by {
            assert(d.drop_last()[i] == d[i]);
        }
        lemma_digits_val_pos(d.drop_last());
    }
}

/// A canonical digit sequence is the decimal form of its own value.
pub proof fn lemma_dec_of_digits(d: Seq<char>)
    requires
        d.len() >= 1,
        forall|i: int| 0 <= i < d.len() ==> is_digit_char(#[trigger] d[i]),
        d.len() > 1 ==> d[0] != '0',
    ensures
        dec_digits(digits_val(d)) == d,
    decreases d.len(),
{
    if d.len() == 1 {
        assert(d.drop_last() =~= Seq::<char>::empty());
        assert(digits_val(Seq::<char>::empty()) == 0);
        assert(digits_val(d) == digit_val(d.last()));
        lemma_digit_char_of_val(d[0]);
        assert(dec_digits(digits_val(d)) =~= d);
    } else {
        let head = d.drop_last();
        assert forall|i: int| 0 <= i < head.len() implies is_digit_char(#[trigger] head[i]) by {
            assert(head[i] == d[i]);
        }
        lemma_digits_val_pos(head);
        let v = digits_val(d);
        let hv = digits_val(head);
        let x = digit_val(d.last());
        assert(v == hv * 10 + x);
        assert(v / 10 == hv && v % 10 == x) by (nonlinear_arith)
            requires
                v == hv * 10 + x,
                0 <= x < 10,
                hv >= 0,
        ;
        assert(v >= 10) by (nonlinear_arith)
            requires
                v == hv * 10 + x,
                hv >= 1,
                x >= 0,
        ;
        lemma_dec_of_digits(head);
        lemma_digit_char_of_val(d.last());
        assert(dec_digits(v) == dec_digits(hv).push(digit_char(x)));
        assert(dec_digits(v) =~= d);
    }
}

/// What a parsed count consumed is the decimal form of that count.
pub proof fn lemma_parse_nat_sound(s: Seq<char>, p: int)
    requires
        0 <= p <= s.len(),
        spec_parse_nat(s, p) is Some,
    ensures
        ({
            let (n, q) = spec_parse_nat(s, p)->Some_0;
            p < q <= s.len() && s.subrange(p, q) == dec_digits(n) && (q == s.len()
                || !is_digit_char(s[q]))
        }),
{
    lemma_digit_run_end_props(s, p);
    let (n, q) = spec_parse_nat(s, p)->Some_0;
    let d = s.subrange(p, q);
    assert forall|i: int| 0 <= i < d.len() implies is_digit_char(#[trigger] d[i]) by {
        assert(d[i] == s[p + i]);
    }
    assert(d[0] == s[p]);
    lemma_dec_of_digits(d);
}

/// What a parsed string consumed is the serialized form of that string.
pub proof fn lemma_parse_str_sound(s: Seq<char>, p: int)
    requires
        0 <= p <= s.len(),
        spec_parse_str(s, p) is Some,
    ensures
        ({
            let (x, q) = spec_parse_str(s, p)->Some_0;
            p < q <= s.len() && s.subrange(p, q) == ser_str(x)
        }),
{
    lemma_parse_nat_sound(s, p);
    let (n, qn) = spec_parse_nat(s, p)->Some_0;
    let (x, q) = spec_parse_str(s, p)->Some_0;
    assert(x.len() == n);
    assert(s.subrange(p, q) =~= ser_str(x)) by {
        assert(s.subrange(p, qn) == dec_digits(n));
        assert forall|i: int| 0 <= i < q - p implies s.subrange(p, q)[i] == ser_str(x)[i] by {
            let l = qn - p;
            if i < l {
                assert(s[p + i] == s.subrange(p, qn)[i]);
                assert(ser_str(x)[i] == dec_digits(x.len())[i]);
            } else if i == l {
                assert(s[qn] == ':');
                assert(ser_str(x)[i] == ':');
            } else {
                assert(s[p + i] == s.subrange(qn + 1, qn + 1 + n)[i - l - 1]);
                assert(ser_str(x)[i] == x[i - l - 1]);
            }
        }
    }
}

/// What a parsed entry consumed is the serialized form of that entry.
pub proof fn lemma_parse_entry_sound(s: Seq<char>, p: int)
    requires
        0 <= p <= s.len(),
        spec_parse_entry(s, p) is Some,
    ensures
        ({
            let (e, q) = spec_parse_entry(s, p)->Some_0;
            p < q <= s.len() && s.subrange(p, q) == ser_entry(e)
        }),
{
    lemma_parse_str_sound(s, p);
    let (name, q1) = spec_parse_str(s, p)->Some_0;
    lemma_parse_str_sound(s, q1);
    let (value, q2) = spec_parse_str(s, q1)->Some_0;
    let e = EntryV { name, value };
    assert(s.subrange(p, q2) =~= ser_entry(e)) by {
        assert forall|i: int| 0 <= i < q2 - p implies s.subrange(p, q2)[i] == ser_entry(e)[i] by {
            let l = q1 - p;
            if i < l {
                assert(s[p + i] == s.subrange(p, q1)[i]);
                assert(ser_entry(e)[i] == ser_str(name)[i]);
            } else {
                assert(s[p + i] == s.subrange(q1, q2)[i - l]);
                assert(ser_entry(e)[i] == ser_str(value)[i - l]);
            }
        }
    }
}

/// What parsing `k` entries consumed is the serialized form of those entries.
pub proof fn lemma_parse_entries_sound(s: Seq<char>, p: int, k: nat)
    requires
        0 <= p <= s.len(),
        spec_parse_entries(s, p, k) is Some,
    ensures
        ({
            let (es, q) = spec_parse_entries(s, p, k)->Some_0;
            p <= q <= s.len() && s.subrange(p, q) == ser_entries(es)
        }),
    decreases k,
{
    if k == 0 {
        let (es, q) = spec_parse_entries(s, p, k)->Some_0;
        assert(s.subrange(p, q) =~= ser_entries(es));
    } else {
        lemma_parse_entry_sound(s, p);
        let (e, q1) = spec_parse_entry(s, p)->Some_0;
        lemma_parse_entries_sound(s, q1, (k - 1) as nat);
        let (rest, q2) = spec_parse_entries(s, q1, (k - 1) as nat)->Some_0;
        let es = seq![e] + rest;
        assert(es[0] == e);
        assert(es.drop_first() =~= rest);
        assert(s.subrange(p, q2) =~= ser_entries(es)) by {
            assert(ser_entries(es) == ser_entry(e) + ser_entries(rest));
            assert forall|i: int| 0 <= i < q2 - p implies s.subrange(p, q2)[i] == ser_entries(
                es,
            )[i] by {
                let l = q1 - p;
                if i < l {
                    assert(s[p + i] == s.subrange(p, q1)[i]);
                    assert(ser_entries(es)[i] == ser_entry(e)[i]);
                } else {
                    assert(s[p + i] == s.subrange(q1, q2)[i - l]);
                    assert(ser_entries(es)[i] == ser_entries(rest)[i - l]);
                }
            }
        }
    }
}

/// What a parsed section consumed is the serialized form of that section.
pub proof fn lemma_parse_block_sound(s: Seq<char>, p: int, tag: char)
    requires
        0 <= p <= s.len(),
        spec_parse_block(s, p, tag) is Some,
    ensures
        ({
            let (es, q) = spec_parse_block(s, p, tag)->Some_0;
            p < q <= s.len() && s.subrange(p, q) == ser_block(tag, es)
        }),
{
    lemma_parse_nat_sound(s, p + 1);
    let (k, qn) = spec_parse_nat(s, p + 1)->Some_0;
    lemma_parse_entries_sound(s, qn + 1, k);
    let (es, q) = spec_parse_entries(s, qn + 1, k)->Some_0;
    lemma_parse_entries_bound(s, qn + 1, k);
    assert(es.len() == k);
    assert(s.subrange(p, q) =~= ser_block(tag, es)) by {
        assert(s.subrange(p + 1, qn) == dec_digits(k));
        assert forall|i: int| 0 <= i < q - p implies s.subrange(p, q)[i] == ser_block(tag, es)[i] by {
            let l = qn - p;
            if i == 0 {
                assert(s[p] == tag);
            } else if i < l {
                assert(s[p + i] == s.subrange(p + 1, qn)[i - 1]);
                assert(ser_block(tag, es)[i] == dec_digits(es.len())[i - 1]);
            } else if i == l {
                assert(s[qn] == ';');
                assert(ser_block(tag, es)[i] == ';');
            } else {
                assert(s[p + i] == s.subrange(qn + 1, q)[i - l - 1]);
                assert(ser_block(tag, es)[i] == ser_entries(es)[i - l - 1]);
            }
        }
    }
}

/// Only serialized stores parse: whatever the parser accepts whole is the
/// serialized form of the store value it returns.
pub proof fn lemma_parse_store_sound(s: Seq<char>)
    requires
        spec_parse_store(s) is Some,
    ensures
        s == ser_store(spec_parse_store(s)->Some_0),
{
    lemma_parse_block_sound(s, 0, 'E');
    let (es, p1) = spec_parse_block(s, 0, 'E')->Some_0;
    lemma_parse_block_sound(s, p1, 'B');
    let (bs, p2) = spec_parse_block(s, p1, 'B')->Some_0;
    let v = spec_parse_store(s)->Some_0;
    assert(s =~= ser_store(v)) by {
        assert forall|i: int| 0 <= i < s.len() implies s[i] == ser_store(v)[i] by {
            if i < p1 {
                assert(s[i] == s.subrange(0, p1)[i]);
                assert(ser_store(v)[i] == ser_block('E', es)[i]);
            } else {
                assert(s[i] == s.subrange(p1, p2)[i - p1]);
                assert(ser_store(v)[i] == ser_block('B', bs)[i - p1]);
            }
        }
    }
}

/// Parsing `k` entries succeeds only when each of the `k` takes at least four
/// characters, all within the input.
pub proof fn lemma_parse_entries_bound(s: Seq<char>, p: int, k: nat)
    requires
        0 <= p <= s.len(),
    ensures
        spec_parse_entries(s, p, k) matches Some((es, q)) ==> es.len() == k && p + 4 * k <= q
            <= s.len(),
    decreases k,
{
    if k > 0 && spec_parse_entries(s, p, k) is Some {
        lemma_digit_run_end_props(s, p);
        let (e, q1) = spec_parse_entry(s, p)->Some_0;
        let n1 = digit_run_end(s, p);
        let (name, qn) = spec_parse_str(s, p)->Some_0;
        lemma_digit_run_end_props(s, qn);
        lemma_parse_entries_bound(s, q1, (k - 1) as nat);
    }
}

/// True when the character at `q` is a decimal digit.
fn digit_at(s: &str, q: usize) -> (r: bool)
    requires
        q < s@.len(),
    ensures
        r == is_digit_char(s@[q as int]),
{
    let c = s.get_char(q);
    let u = c as u32;
    48 <= u && u <= 57
}

/// Parse a decimal count at `p`.  `None` covers both ill-formed input and a
/// count too large for `usize`; the contract tells the two apart.
fn parse_nat_at(s: &str, len: usize, p: usize) -> (r: Option<(usize, usize)>)
    requires
        len == s@.len(),
        p <= len,
    ensures
        r matches Some((n, q)) ==> spec_parse_nat(s@, p as int) == Some((n as nat, q as int)) && p
            < q <= len,
        r is None ==> spec_parse_nat(s@, p as int) is None || (spec_parse_nat(s@, p as int)
            matches Some((n, q)) && n > usize::MAX),
{
    let mut q: usize = p;
    while q < len && digit_at(s, q)
        invariant
            len == s@.len(),
            p <= q <= len,
            forall|j: int| p <= j < q ==> is_digit_char(#[trigger] s@[j]),
        decreases len - q,
    {
        q += 1;
    }
    proof {
        lemma_digit_run_of_digits(s@, p as int, q - p);
    }
    if q == p {
        return None;
    }
    if s.get_char(p) == '0' && q > p + 1 {
        return None;
    }
    let ghost run = s@.subrange(p as int, q as int);
    let mut val: usize = 0;
    let mut over: bool = false;
    let mut i: usize = p;
    while i < q
        invariant
            len == s@.len(),
            p <= i <= q <= len,
            forall|j: int| p <= j < q ==> is_digit_char(#[trigger] s@[j]),
            !over ==> val as nat == digits_val(s@.subrange(p as int, i as int)),
            over ==> digits_val(s@.subrange(p as int, i as int)) > usize::MAX,
        decreases q - i,
    {
        let c = s.get_char(i);
        let u = c as u32;
        let d: usize = (u - 48) as usize;
        proof {
            assert(s@.subrange(p as int, i + 1).drop_last() =~= s@.subrange(p as int, i as int));
            assert(s@.subrange(p as int, i + 1).last() == s@[i as int]);
            assert(digits_val(s@.subrange(p as int, i + 1)) == digits_val(
                s@.subrange(p as int, i as int),
            ) * 10 + digit_val(s@[i as int]));
            assert(digit_val(s@[i as int]) == d as nat);
        }
        if over {
            proof {
                assert(digits_val(s@.subrange(p as int, i + 1)) > usize::MAX) by (nonlinear_arith)
                    requires
                        digits_val(s@.subrange(p as int, i + 1)) == digits_val(
                            s@.subrange(p as int, i as int),
                        ) * 10 + digit_val(s@[i as int]),
                        digits_val(s@.subrange(p as int, i as int)) > usize::MAX,
                ;
            }
        } else if val > (usize::MAX - d) / 10 {
            over = true;
            proof {
                let m = usize::MAX as int;
                let dd = d as int;
                let v = val as int;
                assert(v * 10 + dd > m) by (nonlinear_arith)
                    requires
                        v > (m - dd) / 10,
                        0 <= dd <= 9,
                        m > 9,
                ;
            }
        } else {
            proof {
                let m = usize::MAX as int;
                let dd = d as int;
                let v = val as int;
                assert(v * 10 + dd <= m) by (nonlinear_arith)
                    requires
                        v <= (m - dd) / 10,
                        0 <= dd <= 9,
                        m > 9,
                ;
            }
            val = val * 10 + d;
        }
        i += 1;
    }
    if over {
        proof {
            assert(spec_parse_nat(s@, p as int) == Some((digits_val(run), q as int)));
            assert(digits_val(run) > usize::MAX);
        }
        None
    } else {
        Some((val, q))
    }
}

/// Parse a length-prefixed string at `p`.
fn parse_str_at(s: &str, len: usize, p: usize) -> (r: Option<(String, usize)>)
    requires
        len == s@.len(),
        p <= len,
    ensures
        r matches Some((x, q)) ==> spec_parse_str(s@, p as int) == Some((x@, q as int)) && p < q
            <= len,
        r is None ==> spec_parse_str(s@, p as int) is None,
{
    match parse_nat_at(s, len, p) {
        None => {
            proof {
                lemma_digit_run_end_props(s@, p as int);
                if spec_parse_nat(s@, p as int) is Some {
                    let (n, q) = spec_parse_nat(s@, p as int)->Some_0;
                    assert(n > usize::MAX);
                    assert(q + 1 + n > len);
                }
            }
            None
        },
        Some((n, q)) => {
            if q >= len {
                return None;
            }
            let c = s.get_char(q);
            if c != ':' {
                return None;
            }
            if n > len - (q + 1) {
                return None;
            }
            let x = s.substring_char(q + 1, q + 1 + n).to_owned();
            Some((x, q + 1 + n))
        },
    }
}

/// Parse one entry (name, then value) at `p`.
fn parse_entry_at(s: &str, len: usize, p: usize) -> (r: Option<(Entry, usize)>)
    requires
        len == s@.len(),
        p <= len,
    ensures
        r matches Some((e, q)) ==> spec_parse_entry(s@, p as int) == Some((e@, q as int)) && p < q
            <= len,
        r is None ==> spec_parse_entry(s@, p as int) is None,
{
    match parse_str_at(s, len, p) {
        None => None,
        Some((name, q1)) => match parse_str_at(s, len, q1) {
            None => None,
            Some((value, q2)) => {
                let e = Entry { name, value };
                proof {
                    assert(e@ =~= EntryV { name: e.name@, value: e.value@ });
                }
                Some((e, q2))
            },
        },
    }
}

/// Parse exactly `k` entries one after the other, starting at `p`.
fn parse_entries_at(s: &str, len: usize, p: usize, k: usize) -> (r: Option<(Vec<Entry>, usize)>)
    requires
        len == s@.len(),
        p <= len,
    ensures
        r matches Some((v, q)) ==> spec_parse_entries(s@, p as int, k as nat) == Some(
            (entry_views(v@), q as int),
        ) && p <= q <= len,
        r is None ==> spec_parse_entries(s@, p as int, k as nat) is None,
{
    let mut out: Vec<Entry> = Vec::new();
    let mut cur: usize = p;
    let mut j: usize = 0;
    while j < k
        invariant
            len == s@.len(),
            p <= cur <= len,
            j <= k,
            (match spec_parse_entries(s@, cur as int, (k - j) as nat) {
                None => spec_parse_entries(s@, p as int, k as nat) is None,
                Some((es, q)) => spec_parse_entries(s@, p as int, k as nat) == Some(
                    (entry_views(out@) + es, q),
                ),
            }),
        decreases k - j,
    {
        let ghost pre = entry_views(out@);
        match parse_entry_at(s, len, cur) {
            None => {
                proof {
                    assert(spec_parse_entries(s@, cur as int, (k - j) as nat) is None);
                }
                return None;
            },
            Some((e, q2)) => {
                proof {
                    let rest = spec_parse_entries(s@, q2 as int, (k - j - 1) as nat);
                    assert(spec_parse_entries(s@, cur as int, (k - j) as nat) == (match rest {
                        None => None,
                        Some((es, r2)) => Some((seq![e@] + es, r2)),
                    }));
                }
                out.push(e);
                proof {
                    assert(entry_views(out@) =~= pre + seq![e@]);
                    if spec_parse_entries(s@, q2 as int, (k - j - 1) as nat) is Some {
                        let (es2, r2) = spec_parse_entries(s@, q2 as int, (k - j - 1) as nat)->Some_0;
                        assert(pre + (seq![e@] + es2) =~= (pre + seq![e@]) + es2);
                    }
                }
                cur = q2;
                j += 1;
            },
        }
    }
    proof {
        assert(spec_parse_entries(s@, cur as int, 0) == Some((Seq::<EntryV>::empty(), cur as int)));
        assert(entry_views(out@) + Seq::<EntryV>::empty() =~= entry_views(out@));
    }
    Some((out, cur))
}

/// Parse the persisted text form of a store.
///
/// Text that [`serialize`] produced from a well-formed store parses back to
/// exactly that store ([`lemma_store_round_trip`]), and only serialized
/// stores are accepted at all ([`lemma_parse_store_sound`]); anything else,
/// including text whose entries repeat a name, is malformed.
pub fn deserialize(text: &str) -> (r: Result<Store, StoreError>)
    ensures
        r matches Ok(st) ==> spec_parse_store(text@) == Some(st@) && st@.wf(),
        (spec_parse_store(text@) is Some && spec_parse_store(text@)->Some_0.wf()) ==> r is Ok,
        r is Err ==> r == Err::<Store, StoreError>(StoreError::Load(
            LoadFailure::Malformed,
        )) && !(spec_parse_store(text@) is Some && spec_parse_store(text@)->Some_0.wf()),
{
    let malformed: Result<Store, StoreError> = Err(StoreError::Load(
        LoadFailure::Malformed,
    ));
    let len = text.unicode_len();
    if len == 0 {
        return malformed;
    }
    if text.get_char(0) != 'E' {
        return malformed;
    }
    let count1 = parse_nat_at(text, len, 1);
    if count1.is_none() {
        proof {
            lemma_digit_run_end_props(text@, 1);
            if spec_parse_nat(text@, 1) is Some {
                let (n, q) = spec_parse_nat(text@, 1)->Some_0;
                assert(n > usize::MAX);
                if q < len && text@[q as int] == ';' {
                    lemma_parse_entries_bound(text@, q + 1, n);
                }
            }
        }
        return malformed;
    }
    let (k1, p1) = count1.unwrap();
    if p1 >= len {
        return malformed;
    }
    if text.get_char(p1) != ';' {
        return malformed;
    }
    let block1 = parse_entries_at(text, len, p1 + 1, k1);
    if block1.is_none() {
        return malformed;
    }
    let (es, p2) = block1.unwrap();
    if p2 >= len {
        return malformed;
    }
    if text.get_char(p2) != 'B' {
        return malformed;
    }
    let count2 = parse_nat_at(text, len, p2 + 1);
    if count2.is_none() {
        proof {
            lemma_digit_run_end_props(text@, p2 + 1);
            if spec_parse_nat(text@, p2 + 1) is Some {
                let (n, q) = spec_parse_nat(text@, p2 + 1)->Some_0;
                assert(n > usize::MAX);
                if q < len && text@[q as int] == ';' {
                    lemma_parse_entries_bound(text@, q + 1, n);
                }
            }
        }
        return malformed;
    }
    let (k2, p3) = count2.unwrap();
    if p3 >= len {
        return malformed;
    }
    if text.get_char(p3) != ';' {
        return malformed;
    }
    let block2 = parse_entries_at(text, len, p3 + 1, k2);
    if block2.is_none() {
        return malformed;
    }
    let (bs, p4) = block2.unwrap();
    if p4 != len {
        return malformed;
    }
    let st = Store { entries: es, backups: bs };
    if st.well_formed() {
        proof {
            assert(spec_parse_store(text@) == Some(st@));
        }
        Ok(st)
    } else {
        malformed
    }
}

} // verus!
