//! The wire protocol: byte-level grammar of the three datagram shapes,
//! encoders that produce exactly that grammar, and parsers whose
//! contracts say, byte for byte, which inputs they accept.
//!
//! Client to server: either the literal connect token `CONNECT`, or a
//! position record `{"x":<decimal>,"y":<decimal>}` with canonical
//! decimal numbers (no leading zeros, values at most 65535).
//! Server to client: the literal prefix `PLAYERS` followed by a
//! bracketed, comma-separated list of position records and a final
//! newline. Anything else is malformed and is dropped by the caller.

use vstd::prelude::*;

use crate::player::Player;

verus! {

/// True for the ASCII bytes `'0'` through `'9'`.
pub open spec fn is_digit(b: u8) -> bool {
    48 <= b && b <= 57
}

/// Numeric value of an ASCII digit byte.
pub open spec fn digit_val(b: u8) -> nat
    recommends
        is_digit(b),
{
    (b - 48) as nat
}

/// The canonical decimal representation of `n`: most significant digit
/// first, no leading zeros.
pub open spec fn dec_rep(n: nat) -> Seq<u8>
    decreases n,
    via dec_rep_decreases
{
    if n < 10 {
        seq![(48 + n) as u8]
    } else {
        dec_rep(n / 10).push((48 + n % 10) as u8)
    }
}

#[via_fn]
proof fn dec_rep_decreases(n: nat) {
    if n >= 10 {
        vstd::arithmetic::div_mod::lemma_div_is_strictly_smaller(n as int, 10);
    }
}

/// The number denoted by a sequence of ASCII digit bytes.
pub open spec fn eval_digits(s: Seq<u8>) -> nat
    decreases s.len(),
{
    if s.len() == 0 {
        0
    } else {
        eval_digits(s.drop_last()) * 10 + digit_val(s.last())
    }
}

/// Every byte of `s` is an ASCII digit.
pub open spec fn all_digits(s: Seq<u8>) -> bool {
    forall|i: int| 0 <= i < s.len() ==> is_digit(#[trigger] s[i])
}

/// `pat` occurs in `s` starting at position `i`.
pub open spec fn match_at(s: Seq<u8>, i: int, pat: Seq<u8>) -> bool {
    &&& 0 <= i
    &&& i + pat.len() <= s.len()
    &&& s.subrange(i, i + pat.len() as int) == pat
}

/// A canonical decimal number for `v` occurs at position `i` of `s` and
/// is maximal: it is not followed by a further digit.
pub open spec fn num_at(s: Seq<u8>, i: int, v: u16) -> bool {
    &&& match_at(s, i, dec_rep(v as nat))
    &&& (i + dec_rep(v as nat).len() == s.len() || !is_digit(s[i + dec_rep(v as nat).len()]))
}

/// The five bytes `{"x":` opening a position record.
pub open spec fn record_open() -> Seq<u8> {
    seq![123u8, 34u8, 120u8, 34u8, 58u8]
}

/// The five bytes `,"y":` between the two coordinates.
pub open spec fn record_mid() -> Seq<u8> {
    seq![44u8, 34u8, 121u8, 34u8, 58u8]
}

/// The full wire form of one position record.
pub open spec fn record_bytes(p: Player) -> Seq<u8> {
    record_open() + dec_rep(p.x as nat) + record_mid() + dec_rep(p.y as nat) + seq![125u8]
}

/// The connect token `CONNECT`.
pub open spec fn connect_bytes() -> Seq<u8> {
    seq![67u8, 79u8, 78u8, 78u8, 69u8, 67u8, 84u8]
}

/// The broadcast prefix `PLAYERS`.
pub open spec fn players_prefix() -> Seq<u8> {
    seq![80u8, 76u8, 65u8, 89u8, 69u8, 82u8, 83u8]
}

/// Comma-separated position records, without the surrounding brackets.
pub open spec fn list_body(ps: Seq<Player>) -> Seq<u8>
    decreases ps.len(),
{
    if ps.len() == 0 {
        Seq::empty()
    } else if ps.len() == 1 {
        record_bytes(ps[0])
    } else {
        list_body(ps.drop_last()) + seq![44u8] + record_bytes(ps.last())
    }
}

/// The full broadcast message: `PLAYERS[` records `]` newline.
pub open spec fn players_msg(ps: Seq<Player>) -> Seq<u8> {
    players_prefix() + seq![91u8] + list_body(ps) + seq![93u8, 10u8]
}

/// Basic facts about the canonical decimal representation: it is
/// non-empty, consists of digits, denotes `n`, and has no leading zero.
pub proof fn lemma_dec_rep_props(n: nat)
    ensures
        dec_rep(n).len() >= 1,
        all_digits(dec_rep(n)),
        eval_digits(dec_rep(n)) == n,
        n >= 1 ==> dec_rep(n)[0] != 48,
        dec_rep(n)[0] == 48 ==> n < 10,
        n < 10 ==> dec_rep(n).len() == 1,
    decreases n,
{
    if n < 10 {
        let d = (48 + n) as u8;
        assert(dec_rep(n) =~= seq![d]);
        assert(eval_digits(seq![d]) == eval_digits(seq![d].drop_last()) * 10 + digit_val(d));
        assert(seq![d].drop_last() =~= Seq::<u8>::empty());
    } else {
        vstd::arithmetic::div_mod::lemma_div_is_strictly_smaller(n as int, 10);
        lemma_dec_rep_props(n / 10);
        let u = dec_rep(n / 10);
        let d = (48 + n % 10) as u8;
        assert(0 <= n % 10 < 10);
        assert(dec_rep(n) == u.push(d));
        assert(u.push(d).drop_last() =~= u);
        assert(u.push(d).last() == d);
        assert(eval_digits(dec_rep(n)) == eval_digits(u) * 10 + digit_val(d));
        vstd::arithmetic::div_mod::lemma_fundamental_div_mod(n as int, 10);
        assert(eval_digits(dec_rep(n)) == n);
        assert(n / 10 >= 1);
        assert(dec_rep(n)[0] == u[0]);
    }
}

/// The value of a digit string only grows as more digits are appended.
pub proof fn lemma_eval_take_le(s: Seq<u8>, k: int)
    requires
        0 <= k <= s.len(),
    ensures
        eval_digits(s.take(k)) <= eval_digits(s),
    decreases s.len() - k,
{
    if k == s.len() {
        assert(s.take(k) =~= s);
    } else {
        assert(s.take(k + 1).drop_last() =~= s.take(k));
        assert(eval_digits(s.take(k + 1)) == eval_digits(s.take(k)) * 10 + digit_val(s[k]));
        lemma_eval_take_le(s, k + 1);
    }
}

/// A digit string that does not start with `'0'` denotes a positive number.
pub proof fn lemma_eval_first_nonzero(s: Seq<u8>)
    requires
        all_digits(s),
        s.len() >= 1,
        s[0] != 48,
    ensures
        eval_digits(s) >= 1,
    decreases s.len(),
{
    if s.len() == 1 {
        assert(digit_val(s.last()) >= 1);
    } else {
        let u = s.drop_last();
        assert(all_digits(u)) by {
            assert(forall|i: int| 0 <= i < u.len() ==> u[i] == s[i]);
        }
        lemma_eval_first_nonzero(u);
    }
}

/// A non-empty digit string without a leading zero is the canonical
/// representation of its value.
pub proof fn lemma_digits_canonical(s: Seq<u8>)
    requires
        all_digits(s),
        s.len() >= 1,
        s[0] != 48 || s.len() == 1,
    ensures
        s == dec_rep(eval_digits(s)),
    decreases s.len(),
{
    if s.len() == 1 {
        assert(s.drop_last() =~= Seq::<u8>::empty());
        let v = digit_val(s[0]);
        assert(eval_digits(s.drop_last()) == 0);
        assert(s.last() == s[0]);
        assert(eval_digits(s) == eval_digits(s.drop_last()) * 10 + digit_val(s.last()));
        assert(eval_digits(s) == v);
        assert(v < 10);
        assert(dec_rep(v) =~= seq![(48 + v) as u8]);
        assert((48 + v) as u8 == s[0]);
        assert(s =~= dec_rep(eval_digits(s)));
    } else {
        let u = s.drop_last();
        let d = s.last();
        assert(all_digits(u)) by {
            assert(forall|i: int| 0 <= i < u.len() ==> u[i] == s[i]);
        }
        assert(u[0] == s[0]);
        lemma_eval_first_nonzero(u);
        let ev = eval_digits(s);
        let evu = eval_digits(u);
        assert(ev == evu * 10 + digit_val(d));
        assert(ev >= 10);
        vstd::arithmetic::div_mod::lemma_fundamental_div_mod_converse(
            ev as int,
            10,
            evu as int,
            digit_val(d) as int,
        );
        assert(ev / 10 == evu);
        assert(ev % 10 == digit_val(d));
        lemma_digits_canonical(u);
        assert(dec_rep(ev) == dec_rep(evu).push((48 + ev % 10) as u8));
        assert((48 + ev % 10) as u8 == d);
        assert(dec_rep(ev) =~= s);
    }
}

/// A maximal digit run starting at one position ends at one position:
/// two ends that are both preceded by digits only and followed by a
/// non-digit (or the end of input) coincide.
pub proof fn lemma_run_end_unique(s: Seq<u8>, start: int, j1: int, j2: int)
    requires
        0 <= start <= j1 <= s.len(),
        start <= j2 <= s.len(),
        forall|i: int| start <= i < j1 ==> is_digit(#[trigger] s[i]),
        forall|i: int| start <= i < j2 ==> is_digit(#[trigger] s[i]),
        j1 == s.len() || !is_digit(s[j1]),
        j2 == s.len() || !is_digit(s[j2]),
    ensures
        j1 == j2,
{
    if j1 < j2 {
        assert(is_digit(s[j1]));
        assert(false);
    } else if j2 < j1 {
        assert(is_digit(s[j2]));
        assert(false);
    }
}

/// At a given position of a given input there is at most one maximal
/// canonical number.
pub proof fn lemma_num_at_unique(s: Seq<u8>, i: int, v1: u16, v2: u16)
    requires
        num_at(s, i, v1),
        num_at(s, i, v2),
    ensures
        v1 == v2,
{
    let d1 = dec_rep(v1 as nat);
    let d2 = dec_rep(v2 as nat);
    lemma_dec_rep_props(v1 as nat);
    lemma_dec_rep_props(v2 as nat);
    assert forall|k: int| i <= k < i + d1.len() implies is_digit(#[trigger] s[k]) by {
        assert(s.subrange(i, i + d1.len() as int)[k - i] == s[k]);
        assert(is_digit(d1[k - i]));
    }
    assert forall|k: int| i <= k < i + d2.len() implies is_digit(#[trigger] s[k]) by {
        assert(s.subrange(i, i + d2.len() as int)[k - i] == s[k]);
        assert(is_digit(d2[k - i]));
    }
    lemma_run_end_unique(s, i, i + d1.len() as int, i + d2.len() as int);
    assert(d1 == d2);
    assert(eval_digits(d1) == eval_digits(d2));
}

/// Appends the canonical decimal digits of `n` to `out`.
pub fn push_decimal(out: &mut Vec<u8>, n: u16)
    ensures
        final(out)@ == old(out)@ + dec_rep(n as nat),
    decreases n,
{
    if n >= 10 {
        push_decimal(out, n / 10);
        let d: u8 = 48 + (n % 10) as u8;
        out.push(d);
        proof {
            assert(dec_rep(n as nat) == dec_rep(n as nat / 10).push((48 + n as nat % 10) as u8));
            assert(n as nat / 10 == (n / 10) as nat);
            assert((48 + n as nat % 10) as u8 == d);
            assert(out@ =~= old(out)@ + dec_rep(n as nat));
        }
    } else {
        let d: u8 = 48 + n as u8;
        out.push(d);
        proof {
            assert(dec_rep(n as nat) =~= seq![(48 + n as nat) as u8]);
            assert(out@ =~= old(out)@ + dec_rep(n as nat));
        }
    }
}

/// Appends the wire form of one position record to `out`.
pub fn push_record(out: &mut Vec<u8>, p: Player)
    ensures
        final(out)@ == old(out)@ + record_bytes(p),
{
    out.push(123u8);
    out.push(34u8);
    out.push(120u8);
    out.push(34u8);
    out.push(58u8);
    proof {
        assert(out@ =~= old(out)@ + record_open());
    }
    push_decimal(out, p.x);
    out.push(44u8);
    out.push(34u8);
    out.push(121u8);
    out.push(34u8);
    out.push(58u8);
    proof {
        assert(out@ =~= old(out)@ + record_open() + dec_rep(p.x as nat) + record_mid());
    }
    push_decimal(out, p.y);
    out.push(125u8);
    proof {
        assert(out@ =~= old(out)@ + record_bytes(p));
    }
}

/// Encodes one position record, the client-to-server update datagram.
pub fn encode_record(p: Player) -> (r: Vec<u8>)
    ensures
        r@ == record_bytes(p),
{
    let mut out: Vec<u8> = Vec::new();
    push_record(&mut out, p);
    proof {
        assert(out@ =~= record_bytes(p));
    }
    out
}

/// Parses a maximal run of digits at `start` as a canonical decimal
/// number, returning the value and the position just past its digits.
/// The contract is exact in both directions: on success a canonical,
/// maximal number for exactly that value stands at `start`; on failure
/// no `u16` has one there.
pub fn parse_num_at(s: &[u8], start: usize) -> (r: Option<(u16, usize)>)
    requires
        start <= s@.len(),
    ensures
        match r {
            Some(vj) => num_at(s@, start as int, vj.0) && vj.1 == start + dec_rep(
                vj.0 as nat,
            ).len(),
            None => forall|v: u16| !num_at(s@, start as int, v),
        },
{
    let n = s.len();
    let mut j = start;
    let mut acc: u32 = 0;
    while j < n && 48 <= s[j] && s[j] <= 57
        invariant
            start <= j <= n,
            n == s@.len(),
            forall|i: int| start <= i < j ==> is_digit(#[trigger] s@[i]),
            acc == eval_digits(s@.subrange(start as int, j as int)),
            acc <= 65535,
        decreases n - j,
    {
        let d: u8 = s[j];
        let next: u32 = acc * 10 + (d - 48) as u32;
        proof {
            assert(s@.subrange(start as int, j + 1).drop_last() =~= s@.subrange(
                start as int,
                j as int,
            ));
            assert(eval_digits(s@.subrange(start as int, j + 1)) == acc * 10 + digit_val(d));
        }
        if next > 65535 {
            proof {
                assert forall|v: u16| !num_at(s@, start as int, v) by {
                    if num_at(s@, start as int, v) {
                        lemma_dec_rep_props(v as nat);
                        let dv = dec_rep(v as nat);
                        let l = dv.len() as int;
                        assert forall|k: int| start <= k < start + l implies is_digit(
                            #[trigger] s@[k],
                        ) by {
                            assert(s@.subrange(start as int, start + l)[k - start] == s@[k]);
                            assert(is_digit(dv[k - start]));
                        }
                        // the scanned digits reach past position j, so the
                        // run for v does too
                        if j >= start + l {
                            assert(is_digit(s@[start + l]));
                            assert(false);
                        }
                        // the value scanned so far is a prefix of dec_rep(v)
                        assert(s@.subrange(start as int, j + 1) =~= dv.take(j + 1 - start));
                        lemma_eval_take_le(dv, j + 1 - start);
                        assert(eval_digits(dv) == v as nat);
                        assert(next <= 65535);
                        assert(false);
                    }
                }
            }
            return None;
        }
        acc = next;
        j = j + 1;
    }
    if j == start {
        proof {
            assert forall|v: u16| !num_at(s@, start as int, v) by {
                if num_at(s@, start as int, v) {
                    lemma_dec_rep_props(v as nat);
                    let dv = dec_rep(v as nat);
                    assert(s@.subrange(start as int, start + dv.len() as int)[0] == s@[start as int]);
                    assert(is_digit(s@[start as int]));
                    assert(start < s@.len());
                    assert(false);
                }
            }
        }
        return None;
    }
    if s[start] == 48 && j > start + 1 {
        proof {
            assert forall|v: u16| !num_at(s@, start as int, v) by {
                if num_at(s@, start as int, v) {
                    lemma_dec_rep_props(v as nat);
                    let dv = dec_rep(v as nat);
                    let l = dv.len() as int;
                    assert forall|k: int| start <= k < start + l implies is_digit(
                        #[trigger] s@[k],
                    ) by {
                        assert(s@.subrange(start as int, start + l)[k - start] == s@[k]);
                        assert(is_digit(dv[k - start]));
                    }
                    lemma_run_end_unique(s@, start as int, j as int, start + l);
                    assert(dv[0] == s@.subrange(start as int, start + l)[0]);
                    assert(dv[0] == 48);
                    assert(v < 10);
                    assert(l == 1);
                    assert(false);
                }
            }
        }
        return None;
    }
    let run = Ghost(s@.subrange(start as int, j as int));
    proof {
        assert(all_digits(run@)) by {
            assert(forall|k: int| 0 <= k < run@.len() ==> run@[k] == s@[start + k]);
        }
        assert(run@[0] == s@[start as int]);
        lemma_digits_canonical(run@);
        assert(run@ == dec_rep(acc as nat));
        lemma_dec_rep_props(acc as nat);
        assert(num_at(s@, start as int, acc as u16)) by {
            assert(match_at(s@, start as int, dec_rep(acc as nat)));
        }
    }
    Some((acc as u16, j))
}

/// True exactly when the record opener `{"x":` stands at position `i`.
fn check_open(s: &[u8], i: usize) -> (r: bool)
    requires
        i <= s@.len(),
    ensures
        r == match_at(s@, i as int, record_open()),
{
    if s.len() - i >= 5 {
        let ok = s[i] == 123 && s[i + 1] == 34 && s[i + 2] == 120 && s[i + 3] == 34 && s[i + 4]
            == 58;
        proof {
            let ss = s@.subrange(i as int, i + 5);
            assert(ss[0] == s@[i as int] && ss[1] == s@[i + 1] && ss[2] == s@[i + 2] && ss[3]
                == s@[i + 3] && ss[4] == s@[i + 4]);
            if ok {
                assert(ss =~= record_open());
            } else {
                assert(ss != record_open());
            }
        }
        ok
    } else {
        false
    }
}

/// True exactly when the middle separator `,"y":` stands at position `i`.
fn check_mid(s: &[u8], i: usize) -> (r: bool)
    requires
        i <= s@.len(),
    ensures
        r == match_at(s@, i as int, record_mid()),
{
    if s.len() - i >= 5 {
        let ok = s[i] == 44 && s[i + 1] == 34 && s[i + 2] == 121 && s[i + 3] == 34 && s[i + 4]
            == 58;
        proof {
            let ss = s@.subrange(i as int, i + 5);
            assert(ss[0] == s@[i as int] && ss[1] == s@[i + 1] && ss[2] == s@[i + 2] && ss[3]
                == s@[i + 3] && ss[4] == s@[i + 4]);
            if ok {
                assert(ss =~= record_mid());
            } else {
                assert(ss != record_mid());
            }
        }
        ok
    } else {
        false
    }
}

/// Byte-by-byte characterization of the wire form of a record: each of
/// its five pieces occupies its fixed offset range.
pub proof fn lemma_record_bytes_index(p: Player)
    ensures
        ({
            let dx = dec_rep(p.x as nat);
            let dy = dec_rep(p.y as nat);
            let lx = dx.len() as int;
            let ly = dy.len() as int;
            let rb = record_bytes(p);
            &&& rb.len() == 11 + lx + ly
            &&& forall|k: int| 0 <= k < 5 ==> rb[k] == record_open()[k]
            &&& forall|k: int| 0 <= k < lx ==> rb[5 + k] == dx[k]
            &&& forall|k: int| 0 <= k < 5 ==> rb[5 + lx + k] == record_mid()[k]
            &&& forall|k: int| 0 <= k < ly ==> rb[10 + lx + k] == dy[k]
            &&& rb[10 + lx + ly] == 125
        }),
{
    let dx = dec_rep(p.x as nat);
    let dy = dec_rep(p.y as nat);
    let lx = dx.len() as int;
    let ly = dy.len() as int;
    let a1 = record_open() + dx;
    let a2 = a1 + record_mid();
    let a3 = a2 + dy;
    let rb = record_bytes(p);
    lemma_dec_rep_props(p.x as nat);
    lemma_dec_rep_props(p.y as nat);
    assert(rb == a3 + seq![125u8]);
    assert(a1.len() == 5 + lx);
    assert(a2.len() == 10 + lx);
    assert(a3.len() == 10 + lx + ly);
    assert(rb.len() == 11 + lx + ly);
    assert forall|k: int| 0 <= k < 5 implies rb[k] == record_open()[k] by {
        assert(rb[k] == a3[k]);
        assert(a3[k] == a2[k]);
        assert(a2[k] == a1[k]);
        assert(a1[k] == record_open()[k]);
    }
    assert forall|k: int| 0 <= k < lx implies rb[5 + k] == dx[k] by {
        assert(rb[5 + k] == a3[5 + k]);
        assert(a3[5 + k] == a2[5 + k]);
        assert(a2[5 + k] == a1[5 + k]);
        assert(a1[5 + k] == dx[k]);
    }
    assert forall|k: int| 0 <= k < 5 implies rb[5 + lx + k] == record_mid()[k] by {
        assert(rb[5 + lx + k] == a3[5 + lx + k]);
        assert(a3[5 + lx + k] == a2[5 + lx + k]);
        assert(a2[5 + lx + k] == record_mid()[k]);
    }
    assert forall|k: int| 0 <= k < ly implies rb[10 + lx + k] == dy[k] by {
        assert(rb[10 + lx + k] == a3[10 + lx + k]);
        assert(a3[10 + lx + k] == dy[k]);
    }
    assert(rb[10 + lx + ly] == (a3 + seq![125u8])[10 + lx + ly]);
    assert(rb[10 + lx + ly] == seq![125u8][0]);
}

/// Where a record for `p` stands at position `i`, its pieces stand at
/// fixed offsets: the opener, a maximal number for `p.x`, the middle
/// separator, a maximal number for `p.y`, and the closing brace.
pub proof fn lemma_record_structure(s: Seq<u8>, i: int, p: Player)
    requires
        match_at(s, i, record_bytes(p)),
    ensures
        ({
            let lx = dec_rep(p.x as nat).len() as int;
            let ly = dec_rep(p.y as nat).len() as int;
            &&& record_bytes(p).len() == 11 + lx + ly
            &&& match_at(s, i, record_open())
            &&& num_at(s, i + 5, p.x)
            &&& match_at(s, i + 5 + lx, record_mid())
            &&& num_at(s, i + 10 + lx, p.y)
            &&& s[i + 10 + lx + ly] == 125
        }),
{
    let dx = dec_rep(p.x as nat);
    let dy = dec_rep(p.y as nat);
    let lx = dx.len() as int;
    let ly = dy.len() as int;
    let rb = record_bytes(p);
    lemma_dec_rep_props(p.x as nat);
    lemma_dec_rep_props(p.y as nat);
    lemma_record_bytes_index(p);
    assert forall|k: int| 0 <= k < rb.len() implies s[i + k] == rb[k] by {
        assert(s.subrange(i, i + rb.len() as int)[k] == s[i + k]);
    }
    assert(s.subrange(i, i + 5) =~= record_open());
    assert forall|k: int| 0 <= k < lx implies s.subrange(i + 5, i + 5 + lx)[k] == dx[k] by {
        assert(s[i + (5 + k)] == rb[5 + k]);
    }
    assert(s.subrange(i + 5, i + 5 + lx) =~= dx);
    assert forall|k: int| 0 <= k < 5 implies s.subrange(i + 5 + lx, i + 10 + lx)[k]
        == record_mid()[k] by {
        assert(s[i + (5 + lx + k)] == rb[5 + lx + k]);
    }
    assert(s.subrange(i + 5 + lx, i + 10 + lx) =~= record_mid());
    assert forall|k: int| 0 <= k < ly implies s.subrange(i + 10 + lx, i + 10 + lx + ly)[k]
        == dy[k] by {
        assert(s[i + (10 + lx + k)] == rb[10 + lx + k]);
    }
    assert(s.subrange(i + 10 + lx, i + 10 + lx + ly) =~= dy);
    assert(s[i + (10 + lx + ly)] == rb[10 + lx + ly]);
    // maximality of the two numbers: each is followed by a non-digit
    assert(s[i + (5 + lx)] == rb[5 + lx]);
    assert(rb[5 + lx] == record_mid()[0]);
}

/// At a given position of a given input, at most one record matches.
pub proof fn lemma_record_match_unique(s: Seq<u8>, i: int, p: Player, q: Player)
    requires
        match_at(s, i, record_bytes(p)),
        match_at(s, i, record_bytes(q)),
    ensures
        p == q,
{
    lemma_record_structure(s, i, p);
    lemma_record_structure(s, i, q);
    lemma_num_at_unique(s, i + 5, p.x, q.x);
    assert(dec_rep(p.x as nat).len() == dec_rep(q.x as nat).len());
    lemma_num_at_unique(s, i + 10 + dec_rep(p.x as nat).len() as int, p.y, q.y);
}

/// A pattern equal to the whole input matches at position zero.
pub proof fn lemma_match_at_whole(s: Seq<u8>, pat: Seq<u8>)
    requires
        s == pat,
    ensures
        match_at(s, 0, pat),
{
    assert(s.subrange(0, pat.len() as int) =~= pat);
}

/// Parses one position record at `start`, returning the position and
/// the index just past its closing brace. Exact in both directions:
/// on success, the consumed bytes are the wire form of the returned
/// position; on failure, no record stands at `start`.
pub fn parse_record_at(s: &[u8], start: usize) -> (r: Option<(Player, usize)>)
    requires
        start <= s@.len(),
    ensures
        match r {
            Some(pj) => {
                &&& pj.1 == start + record_bytes(pj.0).len()
                &&& pj.1 <= s@.len()
                &&& s@.subrange(start as int, pj.1 as int) == record_bytes(pj.0)
            },
            None => forall|p: Player| !match_at(s@, start as int, record_bytes(p)),
        },
{
    let n = s.len();
    if !check_open(s, start) {
        proof {
            assert forall|p: Player| !match_at(s@, start as int, record_bytes(p)) by {
                if match_at(s@, start as int, record_bytes(p)) {
                    lemma_record_structure(s@, start as int, p);
                }
            }
        }
        return None;
    }
    let jx_opt = parse_num_at(s, start + 5);
    if jx_opt.is_none() {
        proof {
            assert forall|p: Player| !match_at(s@, start as int, record_bytes(p)) by {
                if match_at(s@, start as int, record_bytes(p)) {
                    lemma_record_structure(s@, start as int, p);
                }
            }
        }
        return None;
    }
    let (x, jx) = jx_opt.unwrap();
    proof {
        assert forall|p: Player|
            match_at(s@, start as int, record_bytes(p)) implies p.x == x && start + 5 + dec_rep(
            p.x as nat,
        ).len() == jx by {
            lemma_record_structure(s@, start as int, p);
            lemma_num_at_unique(s@, start + 5, p.x, x);
        }
    }
    if !check_mid(s, jx) {
        proof {
            assert forall|p: Player| !match_at(s@, start as int, record_bytes(p)) by {
                if match_at(s@, start as int, record_bytes(p)) {
                    lemma_record_structure(s@, start as int, p);
                }
            }
        }
        return None;
    }
    let jy_opt = parse_num_at(s, jx + 5);
    if jy_opt.is_none() {
        proof {
            assert forall|p: Player| !match_at(s@, start as int, record_bytes(p)) by {
                if match_at(s@, start as int, record_bytes(p)) {
                    lemma_record_structure(s@, start as int, p);
                }
            }
        }
        return None;
    }
    let (y, jy) = jy_opt.unwrap();
    proof {
        assert forall|p: Player|
            match_at(s@, start as int, record_bytes(p)) implies p.y == y && start + 10 + dec_rep(
            p.x as nat,
        ).len() + dec_rep(p.y as nat).len() == jy by {
            lemma_record_structure(s@, start as int, p);
            lemma_num_at_unique(s@, start + 5, p.x, x);
            lemma_num_at_unique(s@, jx + 5, p.y, y);
        }
    }
    if jy < s.len() && s[jy] == 125 {
        let p = Player { x, y };
        proof {
            lemma_dec_rep_props(x as nat);
            lemma_dec_rep_props(y as nat);
            let lx = dec_rep(x as nat).len() as int;
            let ly = dec_rep(y as nat).len() as int;
            let rb = record_bytes(p);
            assert(rb.len() == 11 + lx + ly);
            assert(s@.subrange(start as int, start + 5) =~= record_open());
            assert(s@.subrange(start + 5, jx as int) == dec_rep(x as nat));
            assert(s@.subrange(jx as int, jx + 5) =~= record_mid());
            assert(s@.subrange(jx + 5, jy as int) == dec_rep(y as nat));
            assert forall|k: int| 0 <= k < rb.len() implies s@.subrange(
                start as int,
                jy + 1,
            )[k] == rb[k] by {
                assert(s@.subrange(start as int, jy + 1)[k] == s@[start + k]);
                if k < 5 {
                    assert(s@.subrange(start as int, start + 5)[k] == s@[start + k]);
                    assert(rb[k] == record_open()[k]);
                } else if k < 5 + lx {
                    assert(s@.subrange(start + 5, jx as int)[k - 5] == s@[start + k]);
                    assert(rb[k] == dec_rep(x as nat)[k - 5]);
                } else if k < 10 + lx {
                    assert(s@.subrange(jx as int, jx + 5)[k - 5 - lx] == s@[start + k]);
                    assert(rb[k] == record_mid()[k - 5 - lx]);
                } else if k < 10 + lx + ly {
                    assert(s@.subrange(jx + 5, jy as int)[k - 10 - lx] == s@[start + k]);
                    assert(rb[k] == dec_rep(y as nat)[k - 10 - lx]);
                } else {
                    assert(k == 10 + lx + ly);
                    assert(s@[start + k] == s@[jy as int]);
                    assert(rb[k] == 125);
                }
            }
            assert(s@.subrange(start as int, jy + 1) =~= record_bytes(p));
        }
        Some((p, jy + 1))
    } else {
        proof {
            assert forall|p: Player| !match_at(s@, start as int, record_bytes(p)) by {
                if match_at(s@, start as int, record_bytes(p)) {
                    lemma_record_structure(s@, start as int, p);
                    assert(s@[start + 10 + dec_rep(p.x as nat).len() + dec_rep(
                        p.y as nat,
                    ).len()] == 125);
                    assert(start + record_bytes(p).len() <= s@.len());
                }
            }
        }
        None
    }
}

/// The classification of one inbound datagram.
#[derive(Clone, Copy, PartialEq, Eq, Structural, Debug)]
pub enum Inbound {
    /// The payload was exactly the connect token.
    Connect,
    /// The payload was exactly one position record.
    Update(Player),
    /// Anything else; the caller drops it silently.
    Malformed,
}

/// Classifies one inbound datagram. The contract is exact: `Connect`
/// for precisely the connect token, `Update(p)` for precisely the wire
/// form of `p`, and `Malformed` for everything else.
pub fn parse_datagram(buf: &[u8]) -> (r: Inbound)
    ensures
        (r == Inbound::Connect) <==> buf@ == connect_bytes(),
        forall|p: Player| (r == Inbound::Update(p)) <==> buf@ == record_bytes(p),
        (r == Inbound::Malformed) <==> (buf@ != connect_bytes() && forall|p: Player|
            buf@ != record_bytes(p)),
{
    let is_conn = buf.len() == 7 && buf[0] == 67 && buf[1] == 79 && buf[2] == 78 && buf[3] == 78
        && buf[4] == 69 && buf[5] == 67 && buf[6] == 84;
    proof {
        if is_conn {
            assert(buf@ =~= connect_bytes());
        } else {
            assert(buf@ != connect_bytes()) by {
                if buf@ == connect_bytes() {
                    assert(buf@[0] == 67 && buf@[1] == 79 && buf@[2] == 78 && buf@[3] == 78
                        && buf@[4] == 69 && buf@[5] == 67 && buf@[6] == 84);
                }
            }
        }
        // a record never equals the connect token: first bytes differ
        assert forall|p: Player| record_bytes(p) != connect_bytes() by {
            lemma_dec_rep_props(p.x as nat);
            assert(record_bytes(p)[0] == record_open()[0]);
            assert(record_bytes(p)[0] == 123);
            assert(connect_bytes()[0] == 67);
        }
    }
    if is_conn {
        return Inbound::Connect;
    }
    match parse_record_at(buf, 0) {
        Some((p, j)) => {
            if j == buf.len() {
                proof {
                    assert(buf@.subrange(0, buf@.len() as int) =~= buf@);
                    assert(buf@ == record_bytes(p));
                    assert forall|q: Player| buf@ == record_bytes(q) implies q == p by {
                        lemma_match_at_whole(buf@, record_bytes(q));
                        assert(match_at(buf@, 0, record_bytes(p)));
                        lemma_record_match_unique(buf@, 0, p, q);
                    }
                }
                Inbound::Update(p)
            } else {
                proof {
                    assert forall|q: Player| buf@ != record_bytes(q) by {
                        if buf@ == record_bytes(q) {
                            lemma_match_at_whole(buf@, record_bytes(q));
                            assert(match_at(buf@, 0, record_bytes(p))) by {
                                assert(buf@.subrange(0, j as int) == record_bytes(p));
                            }
                            lemma_record_match_unique(buf@, 0, p, q);
                            assert(j == record_bytes(p).len());
                            assert(buf@.len() == record_bytes(q).len());
                        }
                    }
                }
                Inbound::Malformed
            }
        },
        None => {
            proof {
                assert forall|q: Player| buf@ != record_bytes(q) by {
                    if buf@ == record_bytes(q) {
                        lemma_match_at_whole(buf@, record_bytes(q));
                    }
                }
            }
            Inbound::Malformed
        },
    }
}

/// One step of the list grammar: the body of the first `k + 1` records
/// extends the body of the first `k` by a comma (after the first
/// record) and the next record.
pub proof fn lemma_list_body_step(qs: Seq<Player>, k: int)
    requires
        0 <= k < qs.len(),
    ensures
        k == 0 ==> list_body(qs.take(1)) == record_bytes(qs[0]),
        k >= 1 ==> list_body(qs.take(k + 1)) == list_body(qs.take(k)) + seq![44u8] + record_bytes(
            qs[k],
        ),
{
    let t = qs.take(k + 1);
    assert(t.len() == k + 1);
    if k == 0 {
        assert(list_body(t) == record_bytes(t[0]));
        assert(t[0] == qs[0]);
    } else {
        assert(t.drop_last() =~= qs.take(k));
        assert(t.last() == qs[k]);
    }
}

/// The body of the first `k` records is a prefix of the whole body,
/// and where more records follow it is followed by a comma.
pub proof fn lemma_list_body_prefix(qs: Seq<Player>, k: int)
    requires
        1 <= k <= qs.len(),
    ensures
        list_body(qs.take(k)).len() <= list_body(qs).len(),
        list_body(qs).subrange(0, list_body(qs.take(k)).len() as int) == list_body(qs.take(k)),
        k < qs.len() ==> list_body(qs.take(k)).len() < list_body(qs).len() && list_body(
            qs,
        )[list_body(qs.take(k)).len() as int] == 44,
    decreases qs.len() - k,
{
    let bk = list_body(qs.take(k));
    if k == qs.len() {
        assert(qs.take(k) =~= qs);
        assert(list_body(qs).subrange(0, bk.len() as int) =~= bk);
    } else {
        lemma_list_body_prefix(qs, k + 1);
        lemma_list_body_step(qs, k);
        let bk1 = list_body(qs.take(k + 1));
        assert(bk1 == bk + seq![44u8] + record_bytes(qs[k]));
        assert(bk1.len() == bk.len() + 1 + record_bytes(qs[k]).len());
        assert forall|t: int| 0 <= t < bk.len() implies list_body(qs)[t] == bk[t] by {
            assert(list_body(qs).subrange(0, bk1.len() as int)[t] == list_body(qs)[t]);
            assert(bk1[t] == (bk + seq![44u8])[t]);
        }
        assert(list_body(qs).subrange(0, bk.len() as int) =~= bk);
        assert(list_body(qs)[bk.len() as int] == bk1[bk.len() as int]) by {
            assert(list_body(qs).subrange(0, bk1.len() as int)[bk.len() as int] == list_body(
                qs,
            )[bk.len() as int]);
        }
        assert(bk1[bk.len() as int] == (bk + seq![44u8])[bk.len() as int]);
    }
}

/// Byte-by-byte characterization of the broadcast message: the prefix,
/// the opening bracket, the list body, the closing bracket and the
/// newline each occupy their fixed offset range.
pub proof fn lemma_players_msg_index(ps: Seq<Player>)
    ensures
        ({
            let body = list_body(ps);
            let m = players_msg(ps);
            &&& m.len() == 10 + body.len()
            &&& forall|k: int| 0 <= k < 7 ==> m[k] == players_prefix()[k]
            &&& m[7] == 91
            &&& forall|k: int| 0 <= k < body.len() ==> m[8 + k] == body[k]
            &&& m[8 + body.len() as int] == 93
            &&& m[9 + body.len() as int] == 10
        }),
{
    let body = list_body(ps);
    let m = players_msg(ps);
    let a1 = players_prefix() + seq![91u8];
    let a2 = a1 + body;
    assert(m == a2 + seq![93u8, 10u8]);
    assert(a1.len() == 8);
    assert(a2.len() == 8 + body.len());
    assert forall|k: int| 0 <= k < 7 implies m[k] == players_prefix()[k] by {
        assert(m[k] == a2[k]);
        assert(a2[k] == a1[k]);
    }
    assert(m[7] == a2[7]);
    assert(a2[7] == a1[7]);
    assert(a1[7] == 91);
    assert forall|k: int| 0 <= k < body.len() implies m[8 + k] == body[k] by {
        assert(m[8 + k] == a2[8 + k]);
        assert(a2[8 + k] == body[k]);
    }
    assert(m[8 + body.len() as int] == seq![93u8, 10u8][0]);
    assert(m[9 + body.len() as int] == seq![93u8, 10u8][1]);
}

/// Inside a broadcast message for the list `qs`, the record for the
/// `k`-th entry stands at its fixed position, followed by a comma when
/// more entries follow and by the closing bracket when it is the last.
pub proof fn lemma_msg_progress(buf: Seq<u8>, qs: Seq<Player>, k: int)
    requires
        buf == players_msg(qs),
        0 <= k < qs.len(),
    ensures
        ({
            let posk = 8 + list_body(qs.take(k)).len() + if k > 0 {
                1int
            } else {
                0int
            };
            let rl = record_bytes(qs[k]).len() as int;
            &&& match_at(buf, posk, record_bytes(qs[k]))
            &&& (k + 1 < qs.len() ==> posk + rl < buf.len() && buf[posk + rl] == 44)
            &&& (k + 1 == qs.len() ==> posk + rl == buf.len() - 2)
        }),
{
    let body = list_body(qs);
    let bk = list_body(qs.take(k));
    let bk1 = list_body(qs.take(k + 1));
    let rec = record_bytes(qs[k]);
    let sep: int = if k > 0 {
        1
    } else {
        0
    };
    let posk = 8 + bk.len() + sep;
    lemma_players_msg_index(qs);
    lemma_list_body_step(qs, k);
    lemma_list_body_prefix(qs, k + 1);
    if k == 0 {
        assert(qs.take(0) =~= Seq::<Player>::empty());
        assert(bk.len() == 0);
        assert(bk1 == rec);
    } else {
        lemma_list_body_prefix(qs, k);
        assert(bk1 == bk + seq![44u8] + rec);
    }
    assert(bk1.len() == bk.len() + sep + rec.len());
    // the record bytes stand inside the body at offset bk.len() + sep
    assert forall|t: int| 0 <= t < rec.len() implies buf[posk + t] == rec[t] by {
        let o = bk.len() + sep + t;
        assert(body.subrange(0, bk1.len() as int)[o] == body[o]);
        if k == 0 {
            assert(bk1[o] == rec[t]);
        } else {
            assert(bk1[o] == ((bk + seq![44u8]) + rec)[o]);
            assert(bk1[o] == rec[t]);
        }
        assert(buf[8 + o] == body[o]);
    }
    assert(posk + rec.len() <= 8 + body.len());
    assert(buf.len() == 10 + body.len());
    assert(buf.subrange(posk, posk + rec.len() as int) =~= rec);
    assert(match_at(buf, posk, rec));
    if k + 1 < qs.len() {
        assert(buf[posk + rec.len()] == body[bk1.len() as int]) by {
            assert(buf[8 + bk1.len() as int] == body[bk1.len() as int]);
        }
        assert(body[bk1.len() as int] == 44);
    }
    if k + 1 == qs.len() {
        assert(qs.take(k + 1) =~= qs);
        assert(bk1 == body);
    }
}

/// Encodes the broadcast message for the given list of positions.
pub fn encode_players_msg(ps: &Vec<Player>) -> (r: Vec<u8>)
    ensures
        r@ == players_msg(ps@),
{
    let mut out: Vec<u8> = Vec::new();
    out.push(80);
    out.push(76);
    out.push(65);
    out.push(89);
    out.push(69);
    out.push(82);
    out.push(83);
    out.push(91);
    proof {
        assert(out@ =~= players_prefix() + seq![91u8]);
        assert(ps@.take(0) =~= Seq::<Player>::empty());
    }
    let mut i: usize = 0;
    while i < ps.len()
        invariant
            0 <= i <= ps@.len(),
            out@ == players_prefix() + seq![91u8] + list_body(ps@.take(i as int)),
        decreases ps@.len() - i,
    {
        if i > 0 {
            out.push(44);
        }
        push_record(&mut out, ps[i]);
        proof {
            lemma_list_body_step(ps@, i as int);
            assert(out@ =~= players_prefix() + seq![91u8] + list_body(ps@.take(i + 1)));
        }
        i = i + 1;
    }
    proof {
        assert(ps@.take(ps@.len() as int) =~= ps@);
    }
    out.push(93);
    out.push(10);
    proof {
        assert(out@ =~= players_msg(ps@));
    }
    out
}

/// Parses a broadcast message. Exact in both directions: on success the
/// input is the broadcast message for exactly the returned list; on
/// failure no list encodes to the input.
#[verifier::rlimit(100)]
pub fn parse_players_msg(buf: &[u8]) -> (r: Option<Vec<Player>>)
    ensures
        match r {
            Some(ps) => buf@ == players_msg(ps@),
            None => forall|qs: Seq<Player>| buf@ != #[trigger] players_msg(qs),
        },
{
    let n = buf.len();
    let header_ok = n >= 10 && buf[0] == 80 && buf[1] == 76 && buf[2] == 65 && buf[3] == 89
        && buf[4] == 69 && buf[5] == 82 && buf[6] == 83 && buf[7] == 91 && buf[n - 1] == 10;
    if !header_ok {
        proof {
            assert forall|qs: Seq<Player>| buf@ != #[trigger] players_msg(qs) by {
                if buf@ == players_msg(qs) {
                    lemma_players_msg_index(qs);
                    assert(buf@[9 + list_body(qs).len() as int] == 10);
                }
            }
        }
        return None;
    }
    if buf[8] == 93 {
        if n == 10 {
            proof {
                let e = Seq::<Player>::empty();
                assert(list_body(e).len() == 0);
                lemma_players_msg_index(e);
                assert(players_msg(e)[0] == players_prefix()[0]);
                assert(players_msg(e)[1] == players_prefix()[1]);
                assert(players_msg(e)[2] == players_prefix()[2]);
                assert(players_msg(e)[3] == players_prefix()[3]);
                assert(players_msg(e)[4] == players_prefix()[4]);
                assert(players_msg(e)[5] == players_prefix()[5]);
                assert(players_msg(e)[6] == players_prefix()[6]);
                assert(buf@ =~= players_msg(e));
            }
            return Some(Vec::new());
        } else {
            proof {
                assert forall|qs: Seq<Player>| buf@ != #[trigger] players_msg(qs) by {
                    if buf@ == players_msg(qs) {
                        lemma_players_msg_index(qs);
                        if qs.len() == 0 {
                            assert(buf@.len() == 10);
                        } else {
                            lemma_msg_progress(buf@, qs, 0);
                            lemma_record_structure(buf@, 8, qs[0]);
                            assert(buf@.subrange(8, 13)[0] == buf@[8]);
                            assert(record_open()[0] == 123);
                        }
                    }
                }
            }
            return None;
        }
    }
    let mut acc: Vec<Player> = Vec::new();
    let mut pos: usize = 8;
    proof {
        assert forall|qs: Seq<Player>|
            buf@ == #[trigger] players_msg(qs) implies 0 < qs.len() && acc@ == qs.take(0) by {
            lemma_players_msg_index(qs);
            if qs.len() == 0 {
                assert(buf@[8] == 93);
            } else {
                assert(acc@ =~= qs.take(0));
            }
        }
    }
    loop
        invariant
            n == buf@.len(),
            n >= 10,
            buf@[0] == 80 && buf@[1] == 76 && buf@[2] == 65 && buf@[3] == 89 && buf@[4] == 69
                && buf@[5] == 82 && buf@[6] == 83 && buf@[7] == 91,
            buf@[n - 1] == 10,
            8 <= pos <= n,
            acc@.len() == 0 ==> pos == 8,
            acc@.len() >= 1 ==> buf@.subrange(8, pos as int) == list_body(acc@) + seq![44u8],
            forall|qs: Seq<Player>|
                buf@ == #[trigger] players_msg(qs) ==> acc@.len() < qs.len() && acc@ == qs.take(
                    acc@.len() as int,
                ),
        decreases n - pos,
    {
        let parsed = parse_record_at(buf, pos);
        proof {
            assert forall|qs: Seq<Player>|
                buf@ == #[trigger] players_msg(qs) implies match_at(
                buf@,
                pos as int,
                record_bytes(qs[acc@.len() as int]),
            ) by {
                let k = acc@.len() as int;
                lemma_msg_progress(buf@, qs, k);
                assert(list_body(acc@) == list_body(qs.take(k)));
                if k >= 1 {
                    assert(buf@.subrange(8, pos as int).len() == pos - 8);
                    assert(pos == 8 + list_body(qs.take(k)).len() + 1);
                } else {
                    assert(pos == 8);
                }
            }
        }
        if parsed.is_none() {
            proof {
                assert forall|qs: Seq<Player>| buf@ != #[trigger] players_msg(qs) by {
                    if buf@ == players_msg(qs) {
                        assert(match_at(buf@, pos as int, record_bytes(qs[acc@.len() as int])));
                    }
                }
            }
            return None;
        }
        let (p, np) = parsed.unwrap();
        proof {
            assert(match_at(buf@, pos as int, record_bytes(p))) by {
                assert(buf@.subrange(pos as int, np as int) == record_bytes(p));
            }
            assert forall|qs: Seq<Player>|
                buf@ == #[trigger] players_msg(qs) implies qs[acc@.len() as int] == p by {
                lemma_record_match_unique(buf@, pos as int, p, qs[acc@.len() as int]);
            }
        }
        let ghost old_acc = acc@;
        let ghost old_pos = pos as int;
        acc.push(p);
        proof {
            // consumed bytes now form the body of the records read so far
            if old_acc.len() == 0 {
                assert(list_body(acc@) == record_bytes(acc@[0])) by {
                    assert(acc@.len() == 1);
                }
                assert(buf@.subrange(8, np as int) =~= list_body(acc@));
            } else {
                assert(acc@.drop_last() =~= old_acc);
                assert(list_body(acc@) == list_body(old_acc) + seq![44u8] + record_bytes(p));
                assert(buf@.subrange(8, np as int) =~= buf@.subrange(8, old_pos) + buf@.subrange(
                    old_pos,
                    np as int,
                ));
                assert(buf@.subrange(8, np as int) =~= list_body(acc@));
            }
            // under the hypothesis, the records read so far are qs.take(len)
            assert forall|qs: Seq<Player>|
                buf@ == #[trigger] players_msg(qs) implies acc@.len() <= qs.len() && acc@
                == qs.take(acc@.len() as int) by {
                assert(old_acc.len() < qs.len());
                assert(old_acc == qs.take(old_acc.len() as int));
                assert(qs[old_acc.len() as int] == p);
                assert(acc@ =~= qs.take(acc@.len() as int));
            }
        }
        if np < n && buf[np] == 93 {
            if np + 2 == n {
                proof {
                    lemma_players_msg_index(acc@);
                    assert(buf@.subrange(8, np as int) == list_body(acc@));
                    assert forall|k: int| 0 <= k < n implies buf@[k] == players_msg(acc@)[k] by {
                        let body = list_body(acc@);
                        assert(body.len() == np - 8);
                        if 8 <= k < np {
                            assert(buf@.subrange(8, np as int)[k - 8] == buf@[k]);
                            assert(players_msg(acc@)[8 + (k - 8)] == body[k - 8]);
                        }
                    }
                    assert(buf@ =~= players_msg(acc@));
                }
                return Some(acc);
            } else {
                proof {
                    assert forall|qs: Seq<Player>| buf@ != #[trigger] players_msg(qs) by {
                        if buf@ == players_msg(qs) {
                            let k = (acc@.len() - 1) as int;
                            lemma_msg_progress(buf@, qs, k);
                            if k + 1 < qs.len() {
                                assert(buf@[np as int] == 44);
                            } else {
                                assert(np == n - 2);
                            }
                        }
                    }
                }
                return None;
            }
        } else if np < n && buf[np] == 44 {
            pos = np + 1;
            proof {
                assert(buf@.subrange(8, pos as int) =~= list_body(acc@) + seq![44u8]);
                assert forall|qs: Seq<Player>|
                    buf@ == #[trigger] players_msg(qs) implies acc@.len() < qs.len() by {
                    let k = (acc@.len() - 1) as int;
                    lemma_msg_progress(buf@, qs, k);
                    if k + 1 == qs.len() {
                        assert(np == n - 2);
                        assert(buf@[np as int] == 93);
                    }
                }
            }
        } else {
            proof {
                assert forall|qs: Seq<Player>| buf@ != #[trigger] players_msg(qs) by {
                    if buf@ == players_msg(qs) {
                        let k = (acc@.len() - 1) as int;
                        lemma_msg_progress(buf@, qs, k);
                        if k + 1 < qs.len() {
                            assert(buf@[np as int] == 44);
                        } else {
                            assert(np == n - 2);
                            lemma_players_msg_index(qs);
                            assert(buf@[8 + list_body(qs).len() as int] == 93);
                        }
                    }
                }
            }
            return None;
        }
    }
}

/// Encodes the connect token, the client-to-server connect datagram.
pub fn encode_connect() -> (r: Vec<u8>)
    ensures
        r@ == connect_bytes(),
{
    let mut out: Vec<u8> = Vec::new();
    out.push(67u8);
    out.push(79u8);
    out.push(78u8);
    out.push(78u8);
    out.push(69u8);
    out.push(67u8);
    out.push(84u8);
    proof {
        assert(out@ =~= connect_bytes());
    }
    out
}

} // verus!
