use vstd::prelude::*;
use crate::assoc::{assoc_map, has_key, lemma_assoc_map_dom, lemma_assoc_map_push, unique_keys};
use crate::level::{lemma_sorted_entries_canonical, lemma_sorted_unique, line_safe_entries,
    Level, LevelError, NEWLINE};
use crate::pos::{in_i32, Pos};

verus! {

/// The byte that separates the tokens of a line.
pub const SPACE: u8 = 32;

/// The sign of a negative number.
pub const MINUS: u8 = 45;

/// Whether `b` is an ASCII decimal digit.
pub open spec fn is_digit(b: u8) -> bool {
    48 <= b <= 57
}

/// The decimal digits of `n`, most significant first.
pub open spec fn dec_digits(n: nat) -> Seq<u8>
    decreases n,
{
    if n < 10 {
        seq![(48 + n) as u8]
    } else {
        dec_digits(n / 10).push((48 + n % 10) as u8)
    }
}

/// The value of a run of decimal digits.
pub open spec fn dec_val(s: Seq<u8>) -> nat
    decreases s.len(),
{
    if s.len() == 0 {
        0
    } else {
        (dec_val(s.drop_last()) * 10 + (s.last() - 48)) as nat
    }
}

/// `10^k`.
pub open spec fn pow10(k: nat) -> nat
    decreases k,
{
    if k == 0 {
        1
    } else {
        10 * pow10((k - 1) as nat)
    }
}

/// The canonical decimal form of an integer: digits, with a sign for
/// negative values.
pub open spec fn ser_i32(v: int) -> Seq<u8> {
    if v >= 0 {
        dec_digits(v as nat)
    } else {
        seq![MINUS] + dec_digits((-v) as nat)
    }
}

/// Reading the digits of `n` back yields `n`.
pub proof fn lemma_dec_digits_value(n: nat)
    ensures
        dec_val(dec_digits(n)) == n,
    decreases n,
{
    if n < 10 {
        let x = (48 + n) as u8;
        assert(dec_digits(n) == seq![x]);
        assert(seq![x].drop_last() =~= Seq::<u8>::empty());
        assert(dec_val(Seq::<u8>::empty()) == 0);
        assert(dec_val(seq![x]) == (dec_val(seq![x].drop_last()) * 10 + (seq![x].last() - 48))
            as nat);
    } else {
        lemma_dec_digits_value(n / 10);
        let d = dec_digits(n / 10);
        assert(dec_digits(n) == d.push((48 + n % 10) as u8));
        assert(d.push((48 + n % 10) as u8).drop_last() =~= d);
        assert(dec_val(dec_digits(n)) == (dec_val(d) * 10 + n % 10) as nat);
    }
}

/// Every byte of `dec_digits(n)` is a digit, and there is at least one.
pub proof fn lemma_dec_digits_digits(n: nat)
    ensures
        dec_digits(n).len() >= 1,
        forall|i: int| 0 <= i < dec_digits(n).len() ==> is_digit(#[trigger] dec_digits(n)[i]),
    decreases n,
{
    if n < 10 {
    } else {
        lemma_dec_digits_digits(n / 10);
        let d = dec_digits(n / 10);
        assert forall|i: int| 0 <= i < dec_digits(n).len()
            implies is_digit(#[trigger] dec_digits(n)[i]) by {
            if i < d.len() {
                assert(dec_digits(n)[i] == d[i]);
            }
        }
    }
}

/// A number below `10^k` has at most `k` digits.
pub proof fn lemma_dec_digits_len(n: nat, k: nat)
    requires
        k >= 1,
        n < pow10(k),
    ensures
        dec_digits(n).len() <= k,
    decreases n,
{
    if n < 10 {
    } else {
        assert(pow10(k) == 10 * pow10((k - 1) as nat));
        assert(n / 10 < pow10((k - 1) as nat));
        assert(k - 1 >= 1) by {
            if k == 1 {
                assert(pow10(1nat) == 10 * pow10(0nat));
                assert(n < 10);
            }
        }
        lemma_dec_digits_len(n / 10, (k - 1) as nat);
    }
}

/// A run of `k` digits encodes a value below `10^k`.
pub proof fn lemma_dec_val_bound(s: Seq<u8>)
    requires
        forall|i: int| 0 <= i < s.len() ==> is_digit(#[trigger] s[i]),
    ensures
        dec_val(s) < pow10(s.len() as nat),
    decreases s.len(),
{
    if s.len() > 0 {
        let d = s.drop_last();
        assert(forall|i: int| 0 <= i < d.len() ==> d[i] == s[i]);
        lemma_dec_val_bound(d);
        assert(pow10(s.len() as nat) == 10 * pow10(d.len() as nat));
    }
}

/// `10^10` written out, so that ten digits are known to cover every `i32`.
pub proof fn lemma_pow10_ten()
    ensures
        pow10(10) == 10000000000,
{
    reveal_with_fuel(pow10, 11);
}

/// Appends the decimal digits of `n`.
fn push_u32_digits(out: &mut Vec<u8>, n: u32)
    ensures
        final(out)@ == old(out)@ + dec_digits(n as nat),
    decreases n,
{
    if n < 10 {
        out.push((48 + n) as u8);
        proof {
            assert(final(out)@ =~= old(out)@ + dec_digits(n as nat));
        }
    } else {
        push_u32_digits(out, n / 10);
        out.push((48 + n % 10) as u8);
        proof {
            assert(final(out)@ =~= old(out)@ + dec_digits(n as nat));
        }
    }
}

/// Appends the canonical decimal form of `v`.
fn push_i32(out: &mut Vec<u8>, v: i32)
    ensures
        final(out)@ == old(out)@ + ser_i32(v as int),
{
    if v >= 0 {
        push_u32_digits(out, v as u32);
    } else {
        out.push(MINUS);
        let m: u32 = (-(v as i64)) as u32;
        proof {
            assert(m as nat == (-(v as int)) as nat);
        }
        push_u32_digits(out, m);
        proof {
            assert(final(out)@ =~= old(out)@ + ser_i32(v as int));
        }
    }
}

/// The bytes of the field name `pos`, with its separator.
pub open spec fn pos_tag() -> Seq<u8> {
    seq![112u8, 111u8, 115u8, 32u8]
}

/// The bytes of the field name `dimens`, with its separator.
pub open spec fn dimens_tag() -> Seq<u8> {
    seq![100u8, 105u8, 109u8, 101u8, 110u8, 115u8, 32u8]
}

/// The bytes of the field name `tile`, with its separator.
pub open spec fn tile_tag() -> Seq<u8> {
    seq![116u8, 105u8, 108u8, 101u8, 32u8]
}

/// Two coordinates, separated by a space.
pub open spec fn ser_pos_body(p: Pos) -> Seq<u8> {
    ser_i32(p.x as int) + seq![SPACE] + ser_i32(p.y as int)
}

/// One `tile` line: the coordinate, then the tile-definition key.
pub open spec fn ser_tile_line(e: (Pos, Seq<u8>)) -> Seq<u8> {
    tile_tag() + ser_pos_body(e.0) + seq![SPACE] + e.1 + seq![NEWLINE]
}

/// The `tile` lines of the given entries, in order.
pub open spec fn ser_tiles(entries: Seq<(Pos, Seq<u8>)>) -> Seq<u8>
    decreases entries.len(),
{
    if entries.len() == 0 {
        Seq::empty()
    } else {
        ser_tile_line(entries[0]) + ser_tiles(entries.drop_first())
    }
}

/// A whole `pos` line.
pub open spec fn pos_line(p: Pos) -> Seq<u8> {
    pos_tag() + ser_pos_body(p) + seq![NEWLINE]
}

/// A whole `dimens` line.
pub open spec fn dimens_line(p: Pos) -> Seq<u8> {
    dimens_tag() + ser_pos_body(p) + seq![NEWLINE]
}

/// The canonical file of a level: a `pos` line, a `dimens` line, then one
/// `tile` line per entry in ascending coordinate order.
pub open spec fn spec_serialize(l: Level) -> Seq<u8> {
    pos_line(l.spec_pos()) + (dimens_line(l.spec_dimens()) + ser_tiles(l.tile_entries()))
}

/// Concatenating entry lists concatenates their lines.
pub proof fn lemma_ser_tiles_concat(a: Seq<(Pos, Seq<u8>)>, b: Seq<(Pos, Seq<u8>)>)
    ensures
        ser_tiles(a + b) == ser_tiles(a) + ser_tiles(b),
    decreases a.len(),
{
    if a.len() == 0 {
        assert(a + b =~= b);
        assert(ser_tiles(a) + ser_tiles(b) =~= ser_tiles(b));
    } else {
        assert((a + b)[0] == a[0]);
        assert((a + b).drop_first() =~= a.drop_first() + b);
        lemma_ser_tiles_concat(a.drop_first(), b);
        assert(ser_tiles(a + b) == ser_tile_line(a[0]) + (ser_tiles(a.drop_first()) + ser_tiles(
            b,
        )));
        assert(ser_tile_line(a[0]) + (ser_tiles(a.drop_first()) + ser_tiles(b)) =~= (ser_tile_line(
            a[0],
        ) + ser_tiles(a.drop_first())) + ser_tiles(b));
    }
}

/// Serializes a level into its canonical file: lines `pos <x> <y>`,
/// `dimens <x> <y>`, then one `tile <x> <y> <key>` line per tile in
/// ascending coordinate order, so that saving the same content always
/// produces the same bytes.
pub fn serialize_level(l: &Level) -> (r: Vec<u8>)
    requires
        l.wf(),
    ensures
        r@ == spec_serialize(*l),
{
    let mut out: Vec<u8> = Vec::new();
    out.push(112);
    out.push(111);
    out.push(115);
    out.push(32);
    proof {
        assert(out@ =~= pos_tag());
    }
    let p = l.pos();
    push_i32(&mut out, p.x);
    out.push(SPACE);
    proof {
        assert(out@ =~= pos_tag() + ser_i32(p.x as int) + seq![SPACE]);
    }
    push_i32(&mut out, p.y);
    out.push(NEWLINE);
    let ghost header1 = pos_tag() + ser_pos_body(l.spec_pos()) + seq![NEWLINE];
    proof {
        assert(out@ =~= header1);
    }
    out.push(100);
    out.push(105);
    out.push(109);
    out.push(101);
    out.push(110);
    out.push(115);
    out.push(32);
    let d = l.dimens();
    push_i32(&mut out, d.x);
    out.push(SPACE);
    proof {
        assert(out@ =~= header1 + dimens_tag() + ser_i32(d.x as int) + seq![SPACE]);
    }
    push_i32(&mut out, d.y);
    out.push(NEWLINE);
    let ghost header = header1 + dimens_tag() + ser_pos_body(l.spec_dimens()) + seq![NEWLINE];
    proof {
        assert(out@ =~= header);
    }
    let n = l.tile_count();
    let mut i: usize = 0;
    while i < n
        invariant
            l.wf(),
            n == l.tile_entries().len(),
            i <= n,
            out@ == header + ser_tiles(l.tile_entries().take(i as int)),
        decreases n - i,
    {
        let (tp, key) = l.tile_entry_at(i);
        let ghost before = out@;
        out.push(116);
        out.push(105);
        out.push(108);
        out.push(101);
        out.push(32);
        proof {
            assert(out@ =~= before + tile_tag());
        }
        push_i32(&mut out, tp.x);
        out.push(SPACE);
        proof {
            assert(out@ =~= before + tile_tag() + ser_i32(tp.x as int) + seq![SPACE]);
        }
        push_i32(&mut out, tp.y);
        out.push(SPACE);
        proof {
            assert(out@ =~= before + tile_tag() + ser_pos_body(l.tile_entries()[i as int].0)
                + seq![SPACE]);
        }
        let ghost with_pos = out@;
        let mut j: usize = 0;
        while j < key.len()
            invariant
                j <= key@.len(),
                out@ == with_pos + key@.take(j as int),
            decreases key@.len() - j,
        {
            out.push(key[j]);
            proof {
                assert(out@ =~= with_pos + key@.take(j as int + 1));
            }
            j += 1;
        }
        proof {
            assert(key@.take(key@.len() as int) =~= key@);
        }
        out.push(NEWLINE);
        proof {
            let e = l.tile_entries()[i as int];
            assert(out@ =~= before + ser_tile_line(e));
            let t = l.tile_entries();
            assert(t.take(i as int + 1) =~= t.take(i as int) + seq![e]);
            lemma_ser_tiles_concat(t.take(i as int), seq![e]);
            assert(seq![e].drop_first() =~= Seq::<(Pos, Seq<u8>)>::empty());
            assert(ser_tiles(Seq::<(Pos, Seq<u8>)>::empty()) == Seq::<u8>::empty());
            assert(ser_tiles(seq![e]) == ser_tile_line(e) + ser_tiles(seq![e].drop_first()));
            assert(ser_tiles(seq![e]) =~= ser_tile_line(e));
            assert(out@ =~= header + ser_tiles(t.take(i as int + 1)));
        }
        i += 1;
    }
    proof {
        assert(l.tile_entries().take(n as int) =~= l.tile_entries());
        assert(header1 =~= pos_line(l.spec_pos()));
        assert(header =~= pos_line(l.spec_pos()) + dimens_line(l.spec_dimens()));
        assert((pos_line(l.spec_pos()) + dimens_line(l.spec_dimens())) + ser_tiles(
            l.tile_entries(),
        ) =~= pos_line(l.spec_pos()) + (dimens_line(l.spec_dimens()) + ser_tiles(
            l.tile_entries(),
        )));
        assert(out@ == spec_serialize(*l));
    }
    out
}

/// Saving the same level content always produces the same bytes: the file a
/// level serializes to depends only on its origin, its dimensions and its
/// tile mapping, never on the order in which tiles were inserted.
pub proof fn lemma_deterministic_serialization(a: Level, b: Level)
    requires
        a.wf(),
        b.wf(),
        a.spec_pos() == b.spec_pos(),
        a.spec_dimens() == b.spec_dimens(),
        a.tile_map() == b.tile_map(),
    ensures
        spec_serialize(a) == spec_serialize(b),
{
    lemma_sorted_entries_canonical(a.tile_entries(), b.tile_entries());
}

/// Whether the bytes at `i` begin with `p`.
pub open spec fn has_prefix(s: Seq<u8>, i: int, p: Seq<u8>) -> bool {
    0 <= i && i + p.len() <= s.len() && s.subrange(i, i + p.len()) == p
}

/// The position of the first line break at or after `i`, or `-1` if the rest
/// of the file holds none.
pub open spec fn find_nl(s: Seq<u8>, i: int) -> int
    decreases s.len() - i,
{
    if !(0 <= i < s.len()) {
        -1
    } else if s[i] == NEWLINE {
        i
    } else {
        find_nl(s, i + 1)
    }
}

/// The length of the run of digits starting at `i`.
pub open spec fn digit_run_len(s: Seq<u8>, i: int) -> int
    decreases s.len() - i,
{
    if !(0 <= i < s.len()) || !is_digit(s[i]) {
        0
    } else {
        1 + digit_run_len(s, i + 1)
    }
}

/// Reads an optionally signed decimal number at `i`. `Ok` carries the value
/// and the index just past the digits. Rejected: an empty digit run, a run
/// of more than ten digits, and a value outside `i32`.
pub open spec fn parse_int_at(s: Seq<u8>, i: int) -> Result<(int, int), ()> {
    let neg = 0 <= i < s.len() && s[i] == MINUS;
    let j = if neg {
        i + 1
    } else {
        i
    };
    let k = digit_run_len(s, j);
    if k == 0 || k > 10 {
        Err(())
    } else {
        let v = dec_val(s.subrange(j, j + k)) as int;
        let sv = if neg {
            -v
        } else {
            v
        };
        if in_i32(sv) {
            Ok((sv, j + k))
        } else {
            Err(())
        }
    }
}

/// The state a level-file parse accumulates: which header fields have been
/// seen, their values, and the tiles read so far.
pub ghost struct ParsedLevel {
    pub seen_pos: bool,
    pub seen_dimens: bool,
    pub pos: Pos,
    pub dimens: Pos,
    pub tiles: Map<Pos, Seq<u8>>,
}

/// Reads the body of a `pos` or `dimens` line: two numbers separated by a
/// space, closed by a line break. `Ok` carries the coordinate and the index
/// just past the line break.
pub open spec fn parse_pos_body(s: Seq<u8>, i: int) -> Result<(Pos, int), LevelError> {
    match parse_int_at(s, i) {
        Err(_) => Err(LevelError::Malformed),
        Ok((x, n1)) => {
            if !(n1 < s.len() && s[n1] == SPACE) {
                Err(LevelError::Malformed)
            } else {
                match parse_int_at(s, n1 + 1) {
                    Err(_) => Err(LevelError::Malformed),
                    Ok((y, n2)) => {
                        if !(n2 < s.len() && s[n2] == NEWLINE) {
                            Err(LevelError::Malformed)
                        } else {
                            Ok((Pos { x: x as i32, y: y as i32 }, n2 + 1))
                        }
                    },
                }
            }
        },
    }
}

/// Reads the body of a `tile` line: a coordinate as in `parse_pos_body`,
/// then a space and the tile-definition key, which runs to the line break.
pub open spec fn parse_tile_body(s: Seq<u8>, i: int) -> Result<((Pos, Seq<u8>), int), LevelError> {
    match parse_int_at(s, i) {
        Err(_) => Err(LevelError::Malformed),
        Ok((x, n1)) => {
            if !(n1 < s.len() && s[n1] == SPACE) {
                Err(LevelError::Malformed)
            } else {
                match parse_int_at(s, n1 + 1) {
                    Err(_) => Err(LevelError::Malformed),
                    Ok((y, n2)) => {
                        if !(n2 < s.len() && s[n2] == SPACE) {
                            Err(LevelError::Malformed)
                        } else {
                            let nl = find_nl(s, n2 + 1);
                            if nl < 0 {
                                Err(LevelError::Malformed)
                            } else {
                                Ok(
                                    (
                                        (
                                            Pos { x: x as i32, y: y as i32 },
                                            s.subrange(n2 + 1, nl),
                                        ),
                                        nl + 1,
                                    ),
                                )
                            }
                        }
                    },
                }
            }
        },
    }
}

/// A digit run is never negative, and a nonempty one lies within the file.
pub proof fn lemma_digit_run_bounds(s: Seq<u8>, i: int)
    ensures
        digit_run_len(s, i) >= 0,
        digit_run_len(s, i) >= 1 ==> 0 <= i && i + digit_run_len(s, i) <= s.len(),
    decreases s.len() - i,
{
    if 0 <= i < s.len() && is_digit(s[i]) {
        lemma_digit_run_bounds(s, i + 1);
    }
}

/// A successful number read lands strictly further on, within the file.
pub proof fn lemma_parse_int_bounds(s: Seq<u8>, i: int)
    ensures
        parse_int_at(s, i) matches Ok((v, n)) ==> i < n <= s.len() && in_i32(v),
{
    let neg = 0 <= i < s.len() && s[i] == MINUS;
    let j = if neg {
        i + 1
    } else {
        i
    };
    lemma_digit_run_bounds(s, j);
}

/// A successful `pos` body read lands strictly further on, within the file.
pub proof fn lemma_parse_pos_body_bounds(s: Seq<u8>, i: int)
    ensures
        parse_pos_body(s, i) matches Ok((p, n)) ==> i < n <= s.len(),
{
    lemma_parse_int_bounds(s, i);
    if parse_int_at(s, i) is Ok {
        let n1 = parse_int_at(s, i)->Ok_0.1;
        lemma_parse_int_bounds(s, n1 + 1);
    }
}

/// The first line break found is a line break, lies within the file, and
/// nothing before it is one.
pub proof fn lemma_find_nl_bounds(s: Seq<u8>, i: int)
    ensures
        find_nl(s, i) == -1 || (i <= find_nl(s, i) < s.len() && s[find_nl(s, i)] == NEWLINE),
    decreases s.len() - i,
{
    if 0 <= i < s.len() && s[i] != NEWLINE {
        lemma_find_nl_bounds(s, i + 1);
    }
}

/// A successful `tile` body read lands strictly further on, within the file.
pub proof fn lemma_parse_tile_body_bounds(s: Seq<u8>, i: int)
    ensures
        parse_tile_body(s, i) matches Ok((e, n)) ==> i < n <= s.len(),
{
    lemma_parse_int_bounds(s, i);
    if parse_int_at(s, i) is Ok {
        let n1 = parse_int_at(s, i)->Ok_0.1;
        lemma_parse_int_bounds(s, n1 + 1);
        if parse_int_at(s, n1 + 1) is Ok {
            let n2 = parse_int_at(s, n1 + 1)->Ok_0.1;
            lemma_find_nl_bounds(s, n2 + 1);
        }
    }
}

/// Reads level lines from `i` on, folding them into `st`: `pos` and
/// `dimens` lines may each appear once, `tile` lines must name distinct
/// coordinates, and any other line is an unknown field. The end of the file
/// yields the accumulated state; fields never seen keep their defaults.
pub open spec fn parse_lines(s: Seq<u8>, i: int, st: ParsedLevel) -> Result<
    ParsedLevel,
    LevelError,
>
    decreases s.len() - i,
        via parse_lines_decreases
{
    if i >= s.len() {
        Ok(st)
    } else if has_prefix(s, i, pos_tag()) {
        match parse_pos_body(s, i + 4) {
            Err(e) => Err(e),
            Ok((p, n)) => {
                if st.seen_pos {
                    Err(LevelError::DuplicateField)
                } else {
                    parse_lines(s, n, ParsedLevel { seen_pos: true, pos: p, ..st })
                }
            },
        }
    } else if has_prefix(s, i, dimens_tag()) {
        match parse_pos_body(s, i + 7) {
            Err(e) => Err(e),
            Ok((p, n)) => {
                if st.seen_dimens {
                    Err(LevelError::DuplicateField)
                } else {
                    parse_lines(s, n, ParsedLevel { seen_dimens: true, dimens: p, ..st })
                }
            },
        }
    } else if has_prefix(s, i, tile_tag()) {
        match parse_tile_body(s, i + 5) {
            Err(e) => Err(e),
            Ok((e, n)) => {
                if st.tiles.contains_key(e.0) {
                    Err(LevelError::DuplicateTile)
                } else {
                    parse_lines(s, n, ParsedLevel { tiles: st.tiles.insert(e.0, e.1), ..st })
                }
            },
        }
    } else {
        Err(LevelError::UnknownField)
    }
}

#[via_fn]
proof fn parse_lines_decreases(s: Seq<u8>, i: int, st: ParsedLevel) {
    if i < s.len() {
        if has_prefix(s, i, pos_tag()) {
            lemma_parse_pos_body_bounds(s, i + 4);
        } else if has_prefix(s, i, dimens_tag()) {
            lemma_parse_pos_body_bounds(s, i + 7);
        } else if has_prefix(s, i, tile_tag()) {
            lemma_parse_tile_body_bounds(s, i + 5);
        }
    }
}

/// The state a parse starts from: nothing seen, origin and dimensions zero,
/// no tiles.
pub open spec fn initial_parse_state() -> ParsedLevel {
    ParsedLevel {
        seen_pos: false,
        seen_dimens: false,
        pos: Pos { x: 0, y: 0 },
        dimens: Pos { x: 0, y: 0 },
        tiles: Map::empty(),
    }
}

/// What loading a level file yields: the parsed header fields and tiles, or
/// the first rejection.
pub open spec fn parse_spec(s: Seq<u8>) -> Result<ParsedLevel, LevelError> {
    parse_lines(s, 0, initial_parse_state())
}

/// One step of `parse_lines` at the end of the file.
proof fn lemma_parse_lines_eof(s: Seq<u8>, i: int, st: ParsedLevel)
    requires
        i >= s.len(),
    ensures
        parse_lines(s, i, st) == Ok::<ParsedLevel, LevelError>(st),
{
}

/// One step of `parse_lines` on a `pos` line.
proof fn lemma_parse_lines_at_pos(s: Seq<u8>, i: int, st: ParsedLevel)
    requires
        0 <= i < s.len(),
        has_prefix(s, i, pos_tag()),
    ensures
        parse_lines(s, i, st) == (match parse_pos_body(s, i + 4) {
            Err(e) => Err(e),
            Ok((p, n)) => {
                if st.seen_pos {
                    Err(LevelError::DuplicateField)
                } else {
                    parse_lines(s, n, ParsedLevel { seen_pos: true, pos: p, ..st })
                }
            },
        }),
{
}

/// One step of `parse_lines` on a `dimens` line.
proof fn lemma_parse_lines_at_dimens(s: Seq<u8>, i: int, st: ParsedLevel)
    requires
        0 <= i < s.len(),
        !has_prefix(s, i, pos_tag()),
        has_prefix(s, i, dimens_tag()),
    ensures
        parse_lines(s, i, st) == (match parse_pos_body(s, i + 7) {
            Err(e) => Err(e),
            Ok((p, n)) => {
                if st.seen_dimens {
                    Err(LevelError::DuplicateField)
                } else {
                    parse_lines(s, n, ParsedLevel { seen_dimens: true, dimens: p, ..st })
                }
            },
        }),
{
}

/// One step of `parse_lines` on a `tile` line.
proof fn lemma_parse_lines_at_tile(s: Seq<u8>, i: int, st: ParsedLevel)
    requires
        0 <= i < s.len(),
        !has_prefix(s, i, pos_tag()),
        !has_prefix(s, i, dimens_tag()),
        has_prefix(s, i, tile_tag()),
    ensures
        parse_lines(s, i, st) == (match parse_tile_body(s, i + 5) {
            Err(e) => Err(e),
            Ok((e, n)) => {
                if st.tiles.contains_key(e.0) {
                    Err(LevelError::DuplicateTile)
                } else {
                    parse_lines(s, n, ParsedLevel { tiles: st.tiles.insert(e.0, e.1), ..st })
                }
            },
        }),
{
}

/// One step of `parse_lines` on an undeclared field.
proof fn lemma_parse_lines_unknown(s: Seq<u8>, i: int, st: ParsedLevel)
    requires
        0 <= i < s.len(),
        !has_prefix(s, i, pos_tag()),
        !has_prefix(s, i, dimens_tag()),
        !has_prefix(s, i, tile_tag()),
    ensures
        parse_lines(s, i, st) == Err::<ParsedLevel, LevelError>(LevelError::UnknownField),
{
}

/// Splitting a run of digits: the run from `a` continues at `b`.
proof fn lemma_digit_run_split(s: Seq<u8>, a: int, b: int)
    requires
        0 <= a <= b <= s.len(),
        forall|x: int| a <= x < b ==> is_digit(#[trigger] s[x]),
    ensures
        digit_run_len(s, a) == (b - a) + digit_run_len(s, b),
    decreases b - a,
{
    if a < b {
        lemma_digit_run_split(s, a + 1, b);
    }
}

/// Finds the first line break at or after `i`. `Some` gives its position;
/// the bytes before it on the line are no line breaks.
fn scan_nl(s: &Vec<u8>, i: usize) -> (r: Option<usize>)
    requires
        i <= s@.len(),
    ensures
        match r {
            Some(n) => find_nl(s@, i as int) == n as int && i <= n < s@.len() && s@[n as int]
                == NEWLINE && forall|x: int| i <= x < n ==> s@[x] != NEWLINE,
            None => find_nl(s@, i as int) == -1,
        },
{
    let mut j: usize = i;
    while j < s.len()
        invariant
            i <= j <= s@.len(),
            find_nl(s@, i as int) == find_nl(s@, j as int),
            forall|x: int| i <= x < j ==> s@[x] != NEWLINE,
        decreases s@.len() - j,
    {
        if s[j] == NEWLINE {
            return Some(j);
        }
        j += 1;
    }
    None
}

/// Reads an optionally signed decimal number, as `parse_int_at` describes.
fn parse_int_exec(s: &Vec<u8>, i: usize) -> (r: Option<(i32, usize)>)
    requires
        i <= s@.len(),
    ensures
        match r {
            Some((v, n)) => parse_int_at(s@, i as int) == Ok::<(int, int), ()>((
                v as int,
                n as int,
            )) && i < n <= s@.len(),
            None => parse_int_at(s@, i as int) is Err,
        },
{
    let mut j: usize = i;
    let mut neg = false;
    if j < s.len() && s[j] == MINUS {
        neg = true;
        j += 1;
    }
    let start: usize = j;
    let mut acc: i64 = 0;
    let mut count: usize = 0;
    proof {
        assert(s@.subrange(start as int, start as int) =~= Seq::<u8>::empty());
    }
    while j < s.len() && s[j] >= 48 && s[j] <= 57
        invariant
            i <= start <= j <= s@.len(),
            neg == (i < s@.len() && s@[i as int] == MINUS),
            start as int == if neg {
                i as int + 1
            } else {
                i as int
            },
            count == j - start,
            count <= 10,
            forall|x: int| start <= x < j ==> is_digit(#[trigger] s@[x]),
            acc == dec_val(s@.subrange(start as int, j as int)),
            0 <= acc < pow10(count as nat),
        decreases s@.len() - j,
    {
        if count == 10 {
            proof {
                lemma_digit_run_split(s@, start as int, j as int);
                lemma_digit_run_bounds(s@, j as int + 1);
                assert(digit_run_len(s@, j as int) >= 1);
                assert(digit_run_len(s@, start as int) > 10);
            }
            return None;
        }
        let d: u8 = s[j] - 48;
        proof {
            reveal_with_fuel(pow10, 11);
            lemma_pow10_mono(count as nat, 9);
            assert(acc * 10 + d <= (pow10(9) - 1) * 10 + 9) by (nonlinear_arith)
                requires
                    0 <= acc <= pow10(9) - 1,
                    0 <= d <= 9,
            ;
        }
        acc = acc * 10 + (d as i64);
        proof {
            let sub1 = s@.subrange(start as int, j as int + 1);
            assert(sub1.drop_last() =~= s@.subrange(start as int, j as int));
            assert(sub1.last() == s@[j as int]);
            assert(acc == dec_val(sub1));
            assert(acc < pow10((count + 1) as nat)) by {
                assert(pow10((count + 1) as nat) == 10 * pow10(count as nat));
                assert(dec_val(sub1.drop_last()) * 10 + (sub1.last() - 48) < 10 * pow10(
                    count as nat,
                )) by (nonlinear_arith)
                    requires
                        dec_val(sub1.drop_last()) < pow10(count as nat),
                        sub1.last() - 48 <= 9,
                ;
            }
        }
        count += 1;
        j += 1;
    }
    proof {
        lemma_digit_run_split(s@, start as int, j as int);
        assert(digit_run_len(s@, j as int) == 0);
        assert(digit_run_len(s@, start as int) == count);
    }
    if count == 0 {
        return None;
    }
    if neg {
        if acc > 2147483648 {
            return None;
        }
        let v: i32 = (-acc) as i32;
        Some((v, j))
    } else {
        if acc > 2147483647 {
            return None;
        }
        Some((acc as i32, j))
    }
}

/// `10^k` grows with `k`.
proof fn lemma_pow10_mono(a: nat, b: nat)
    requires
        a <= b,
    ensures
        pow10(a) <= pow10(b),
    decreases b,
{
    if a < b {
        lemma_pow10_mono(a, (b - 1) as nat);
        assert(pow10(b) == 10 * pow10((b - 1) as nat));
    }
}

/// Reads the body of a `pos` or `dimens` line, as `parse_pos_body`
/// describes.
fn parse_pos_body_exec(s: &Vec<u8>, i: usize) -> (r: Option<(Pos, usize)>)
    requires
        i <= s@.len(),
    ensures
        match r {
            Some((p, n)) => parse_pos_body(s@, i as int) == Ok::<(Pos, int), LevelError>((
                p,
                n as int,
            )) && i < n <= s@.len(),
            None => parse_pos_body(s@, i as int) == Err::<(Pos, int), LevelError>(
                LevelError::Malformed,
            ),
        },
{
    match parse_int_exec(s, i) {
        None => None,
        Some((x, n1)) => {
            if n1 >= s.len() || s[n1] != SPACE {
                return None;
            }
            match parse_int_exec(s, n1 + 1) {
                None => None,
                Some((y, n2)) => {
                    if n2 >= s.len() || s[n2] != NEWLINE {
                        return None;
                    }
                    Some((Pos::new(x, y), n2 + 1))
                },
            }
        },
    }
}

/// Reads the body of a `tile` line, as `parse_tile_body` describes.
fn parse_tile_body_exec(s: &Vec<u8>, i: usize) -> (r: Option<(Pos, Vec<u8>, usize)>)
    requires
        i <= s@.len(),
    ensures
        match r {
            Some((p, key, n)) => parse_tile_body(s@, i as int) == Ok::<
                ((Pos, Seq<u8>), int),
                LevelError,
            >(((p, key@), n as int)) && i < n <= s@.len() && !key@.contains(NEWLINE),
            None => parse_tile_body(s@, i as int) == Err::<((Pos, Seq<u8>), int), LevelError>(
                LevelError::Malformed,
            ),
        },
{
    match parse_int_exec(s, i) {
        None => None,
        Some((x, n1)) => {
            if n1 >= s.len() || s[n1] != SPACE {
                return None;
            }
            match parse_int_exec(s, n1 + 1) {
                None => None,
                Some((y, n2)) => {
                    if n2 >= s.len() || s[n2] != SPACE {
                        return None;
                    }
                    match scan_nl(s, n2 + 1) {
                        None => None,
                        Some(nl) => {
                            let mut key: Vec<u8> = Vec::new();
                            let mut x2: usize = n2 + 1;
                            proof {
                                assert(s@.subrange(n2 as int + 1, n2 as int + 1) =~= Seq::<
                                    u8,
                                >::empty());
                            }
                            while x2 < nl
                                invariant
                                    n2 + 1 <= x2 <= nl < s@.len(),
                                    key@ == s@.subrange(n2 as int + 1, x2 as int),
                                    forall|z: int| n2 + 1 <= z < nl ==> s@[z] != NEWLINE,
                                decreases nl - x2,
                            {
                                key.push(s[x2]);
                                proof {
                                    assert(s@.subrange(n2 as int + 1, x2 as int + 1) =~= s@
                                        .subrange(n2 as int + 1, x2 as int).push(s@[x2 as int]));
                                }
                                x2 += 1;
                            }
                            proof {
                                if key@.contains(NEWLINE) {
                                    let z = choose|z: int|
                                        0 <= z < key@.len() && key@[z] == NEWLINE;
                                    assert(s@[n2 + 1 + z] == NEWLINE);
                                }
                            }
                            Some((Pos::new(x, y), key, nl + 1))
                        },
                    }
                },
            }
        },
    }
}

/// Whether line `i` opens with the `pos` field name.
fn has_pos_tag(s: &Vec<u8>, i: usize) -> (r: bool)
    requires
        i <= s@.len(),
    ensures
        r == has_prefix(s@, i as int, pos_tag()),
{
    if s.len() - i >= 4 {
        let r = s[i] == 112 && s[i + 1] == 111 && s[i + 2] == 115 && s[i + 3] == 32;
        proof {
            if r {
                assert(s@.subrange(i as int, i as int + 4) =~= pos_tag());
            } else if has_prefix(s@, i as int, pos_tag()) {
                let sub = s@.subrange(i as int, i as int + 4);
                assert(s@[i as int] == sub[0]);
                assert(s@[i as int + 1] == sub[1]);
                assert(s@[i as int + 2] == sub[2]);
                assert(s@[i as int + 3] == sub[3]);
            }
        }
        r
    } else {
        false
    }
}

/// Whether line `i` opens with the `dimens` field name.
fn has_dimens_tag(s: &Vec<u8>, i: usize) -> (r: bool)
    requires
        i <= s@.len(),
    ensures
        r == has_prefix(s@, i as int, dimens_tag()),
{
    if s.len() - i >= 7 {
        let r = s[i] == 100 && s[i + 1] == 105 && s[i + 2] == 109 && s[i + 3] == 101 && s[i + 4]
            == 110 && s[i + 5] == 115 && s[i + 6] == 32;
        proof {
            if r {
                assert(s@.subrange(i as int, i as int + 7) =~= dimens_tag());
            } else if has_prefix(s@, i as int, dimens_tag()) {
                let sub = s@.subrange(i as int, i as int + 7);
                assert(s@[i as int] == sub[0]);
                assert(s@[i as int + 1] == sub[1]);
                assert(s@[i as int + 2] == sub[2]);
                assert(s@[i as int + 3] == sub[3]);
                assert(s@[i as int + 4] == sub[4]);
                assert(s@[i as int + 5] == sub[5]);
                assert(s@[i as int + 6] == sub[6]);
            }
        }
        r
    } else {
        false
    }
}

/// Whether line `i` opens with the `tile` field name.
fn has_tile_tag(s: &Vec<u8>, i: usize) -> (r: bool)
    requires
        i <= s@.len(),
    ensures
        r == has_prefix(s@, i as int, tile_tag()),
{
    if s.len() - i >= 5 {
        let r = s[i] == 116 && s[i + 1] == 105 && s[i + 2] == 108 && s[i + 3] == 101 && s[i + 4]
            == 32;
        proof {
            if r {
                assert(s@.subrange(i as int, i as int + 5) =~= tile_tag());
            } else if has_prefix(s@, i as int, tile_tag()) {
                let sub = s@.subrange(i as int, i as int + 5);
                assert(s@[i as int] == sub[0]);
                assert(s@[i as int + 1] == sub[1]);
                assert(s@[i as int + 2] == sub[2]);
                assert(s@[i as int + 3] == sub[3]);
                assert(s@[i as int + 4] == sub[4]);
            }
        }
        r
    } else {
        false
    }
}

/// Loads a level from its file. Accepts exactly the files that
/// `parse_spec` accepts: `pos`, `dimens` and `tile` lines in any order,
/// each header field at most once, each coordinate at most once, any other
/// field name rejected as unknown; omitted header fields keep their
/// defaults. On success the level holds exactly the parsed content.
#[verifier::spinoff_prover]
#[verifier::rlimit(100)]
pub fn parse_level(s: &Vec<u8>) -> (r: Result<Level, LevelError>)
    ensures
        match r {
            Ok(l) => parse_spec(s@) is Ok && l.wf() && l.spec_pos() == parse_spec(s@)->Ok_0.pos
                && l.spec_dimens() == parse_spec(s@)->Ok_0.dimens && l.tile_map() == parse_spec(
                s@,
            )->Ok_0.tiles,
            Err(e) => parse_spec(s@) == Err::<ParsedLevel, LevelError>(e),
        },
{
    let mut level = Level::new(Pos::new(0, 0), Pos::new(0, 0));
    let mut seen_pos = false;
    let mut seen_dimens = false;
    let mut i: usize = 0;
    while i < s.len()
        invariant
            i <= s@.len(),
            level.wf(),
            parse_lines(
                s@,
                i as int,
                ParsedLevel {
                    seen_pos: seen_pos,
                    seen_dimens: seen_dimens,
                    pos: level.spec_pos(),
                    dimens: level.spec_dimens(),
                    tiles: level.tile_map(),
                },
            ) == parse_spec(s@),
        decreases s@.len() - i,
    {
        let ghost st = ParsedLevel {
            seen_pos: seen_pos,
            seen_dimens: seen_dimens,
            pos: level.spec_pos(),
            dimens: level.spec_dimens(),
            tiles: level.tile_map(),
        };
        if has_pos_tag(s, i) {
            proof {
                assert(i + 4 <= s@.len());
                lemma_parse_lines_at_pos(s@, i as int, st);
            }
            match parse_pos_body_exec(s, i + 4) {
                None => {
                    return Err(LevelError::Malformed);
                },
                Some((p, n)) => {
                    if seen_pos {
                        return Err(LevelError::DuplicateField);
                    }
                    proof {
                        assert(parse_lines(s@, i as int, st) == parse_lines(
                            s@,
                            n as int,
                            ParsedLevel { seen_pos: true, pos: p, ..st },
                        ));
                    }
                    level.set_pos(p);
                    seen_pos = true;
                    i = n;
                },
            }
        } else if has_dimens_tag(s, i) {
            proof {
                assert(i + 7 <= s@.len());
                lemma_parse_lines_at_dimens(s@, i as int, st);
            }
            match parse_pos_body_exec(s, i + 7) {
                None => {
                    return Err(LevelError::Malformed);
                },
                Some((p, n)) => {
                    if seen_dimens {
                        return Err(LevelError::DuplicateField);
                    }
                    proof {
                        assert(parse_lines(s@, i as int, st) == parse_lines(
                            s@,
                            n as int,
                            ParsedLevel { seen_dimens: true, dimens: p, ..st },
                        ));
                    }
                    level.set_dimens(p);
                    seen_dimens = true;
                    i = n;
                },
            }
        } else if has_tile_tag(s, i) {
            proof {
                assert(i + 5 <= s@.len());
                lemma_parse_lines_at_tile(s@, i as int, st);
            }
            match parse_tile_body_exec(s, i + 5) {
                None => {
                    return Err(LevelError::Malformed);
                },
                Some((p, key, n)) => {
                    if level.tile_at(p).is_some() {
                        return Err(LevelError::DuplicateTile);
                    }
                    proof {
                        assert(parse_lines(s@, i as int, st) == parse_lines(
                            s@,
                            n as int,
                            ParsedLevel { tiles: st.tiles.insert(p, key@), ..st },
                        ));
                    }
                    match level.insert(p, key) {
                        Ok(()) => {},
                        Err(_) => {
                            proof {
                                assert(false);
                            }
                            return Err(LevelError::Malformed);
                        },
                    }
                    i = n;
                },
            }
        } else {
            proof {
                lemma_parse_lines_unknown(s@, i as int, st);
            }
            return Err(LevelError::UnknownField);
        }
    }
    proof {
        lemma_parse_lines_eof(
            s@,
            i as int,
            ParsedLevel {
                seen_pos: seen_pos,
                seen_dimens: seen_dimens,
                pos: level.spec_pos(),
                dimens: level.spec_dimens(),
                tiles: level.tile_map(),
            },
        );
    }
    Ok(level)
}

/// A serialized number surrounded by non-digits parses back to itself.
proof fn lemma_parse_int_serialized(s: Seq<u8>, i: int, v: int)
    requires
        in_i32(v),
        0 <= i,
        i + ser_i32(v).len() <= s.len(),
        s.subrange(i, i + ser_i32(v).len()) == ser_i32(v),
        i + ser_i32(v).len() == s.len() || !is_digit(s[i + ser_i32(v).len()]),
    ensures
        parse_int_at(s, i) == Ok::<(int, int), ()>((v, i + ser_i32(v).len())),
{
    lemma_pow10_ten();
    if v >= 0 {
        let d = dec_digits(v as nat);
        lemma_dec_digits_digits(v as nat);
        lemma_dec_digits_value(v as nat);
        lemma_dec_digits_len(v as nat, 10);
        assert forall|x: int| 0 <= x < d.len() implies s[i + x] == d[x] by {
            assert(s.subrange(i, i + d.len() as int)[x] == s[i + x]);
        }
        assert(s[i + 0] == d[0]);
        assert(is_digit(d[0]));
        assert(is_digit(s[i]));
        assert(s[i] != MINUS);
        assert forall|x: int| i <= x < i + d.len() implies is_digit(#[trigger] s[x]) by {
            assert(s[x] == d[x - i]);
        }
        lemma_digit_run_split(s, i, i + d.len() as int);
        assert(digit_run_len(s, i + d.len() as int) == 0);
        let k = digit_run_len(s, i);
        assert(k == d.len());
        assert(1 <= k <= 10);
        assert(s.subrange(i, i + k) =~= d);
        assert(dec_val(s.subrange(i, i + k)) == v);
    } else {
        let d = dec_digits((-v) as nat);
        let m = seq![MINUS] + d;
        assert(ser_i32(v) == m);
        lemma_dec_digits_digits((-v) as nat);
        lemma_dec_digits_value((-v) as nat);
        assert(-v <= 2147483648);
        lemma_dec_digits_len((-v) as nat, 10);
        assert(s[i] == MINUS) by {
            assert(s.subrange(i, i + m.len() as int)[0] == s[i]);
            assert(m[0] == MINUS);
        }
        assert forall|x: int| 0 <= x < d.len() implies s[i + 1 + x] == d[x] by {
            assert(s.subrange(i, i + m.len() as int)[1 + x] == s[i + 1 + x]);
            assert(m[1 + x] == d[x]);
        }
        assert forall|x: int| i + 1 <= x < i + 1 + d.len() implies is_digit(#[trigger] s[x]) by {
            assert(s[x] == d[x - i - 1]);
        }
        lemma_digit_run_split(s, i + 1, i + 1 + d.len() as int);
        assert(digit_run_len(s, i + 1 + d.len() as int) == 0);
        let k = digit_run_len(s, i + 1);
        assert(k == d.len());
        assert(1 <= k <= 10);
        assert(s.subrange(i + 1, i + 1 + k) =~= d);
        assert(dec_val(s.subrange(i + 1, i + 1 + k)) == -v);
    }
}

/// The first line break after `a` is the one at `b`.
proof fn lemma_find_nl_skip(s: Seq<u8>, a: int, b: int)
    requires
        0 <= a <= b < s.len(),
        forall|x: int| a <= x < b ==> s[x] != NEWLINE,
        s[b] == NEWLINE,
    ensures
        find_nl(s, a) == b,
    decreases b - a,
{
    if a < b {
        lemma_find_nl_skip(s, a + 1, b);
    }
}

/// A serialized coordinate body followed by its line break parses back to
/// itself.
proof fn lemma_parse_pos_body_serialized(s: Seq<u8>, i: int, p: Pos)
    requires
        0 <= i,
        i + ser_pos_body(p).len() + 1 <= s.len(),
        s.subrange(i, i + ser_pos_body(p).len() + 1) == ser_pos_body(p) + seq![NEWLINE],
    ensures
        parse_pos_body(s, i) == Ok::<(Pos, int), LevelError>((
            p,
            i + ser_pos_body(p).len() + 1,
        )),
{
    let sx = ser_i32(p.x as int);
    let sy = ser_i32(p.y as int);
    let body = ser_pos_body(p) + seq![NEWLINE];
    let bl = body.len() as int;
    assert forall|x: int| 0 <= x < bl implies s[i + x] == body[x] by {
        assert(s.subrange(i, i + bl)[x] == s[i + x]);
    }
    assert forall|x: int| 0 <= x < sx.len() implies body[x] == sx[x] by {
        assert((ser_pos_body(p) + seq![NEWLINE])[x] == ser_pos_body(p)[x]);
        assert((sx + seq![SPACE] + sy)[x] == sx[x]);
    }
    assert(s.subrange(i, i + sx.len() as int) =~= sx);
    assert(body[sx.len() as int] == SPACE) by {
        assert((sx + seq![SPACE] + sy)[sx.len() as int] == SPACE);
    }
    assert(s[i + sx.len()] == SPACE);
    assert(!is_digit(SPACE));
    lemma_parse_int_serialized(s, i, p.x as int);
    let n1 = i + sx.len() as int;
    assert forall|x: int| 0 <= x < sy.len() implies body[sx.len() + 1 + x] == sy[x] by {
        assert((ser_pos_body(p) + seq![NEWLINE])[sx.len() + 1 + x] == ser_pos_body(p)[sx.len() + 1
            + x]);
        assert((sx + seq![SPACE] + sy)[sx.len() + 1 + x] == sy[x]);
    }
    assert(s.subrange(n1 + 1, n1 + 1 + sy.len() as int) =~= sy) by {
        assert forall|x: int| 0 <= x < sy.len()
            implies s.subrange(n1 + 1, n1 + 1 + sy.len() as int)[x] == sy[x] by {
            assert(s[n1 + 1 + x] == body[sx.len() + 1 + x]);
        }
    }
    let n2 = n1 + 1 + sy.len() as int;
    assert(body[bl - 1] == NEWLINE);
    assert(n2 == i + bl - 1);
    assert(s[n2] == NEWLINE);
    assert(!is_digit(NEWLINE));
    lemma_parse_int_serialized(s, n1 + 1, p.y as int);
    assert(parse_int_at(s, i) == Ok::<(int, int), ()>((p.x as int, n1)));
    assert(parse_int_at(s, n1 + 1) == Ok::<(int, int), ()>((p.y as int, n2)));
    assert((p.x as int) as i32 == p.x);
    assert((p.y as int) as i32 == p.y);
}

/// A serialized tile-line body parses back to its coordinate and key.
proof fn lemma_parse_tile_body_serialized(s: Seq<u8>, i: int, e: (Pos, Seq<u8>))
    requires
        0 <= i,
        !e.1.contains(NEWLINE),
        i + ser_pos_body(e.0).len() + 1 + e.1.len() + 1 <= s.len(),
        s.subrange(i, i + ser_pos_body(e.0).len() + 1 + e.1.len() + 1) == ser_pos_body(e.0)
            + seq![SPACE] + e.1 + seq![NEWLINE],
    ensures
        parse_tile_body(s, i) == Ok::<((Pos, Seq<u8>), int), LevelError>((
            e,
            i + ser_pos_body(e.0).len() + 1 + e.1.len() + 1,
        )),
{
    let p = e.0;
    let sx = ser_i32(p.x as int);
    let sy = ser_i32(p.y as int);
    let body = ser_pos_body(p) + seq![SPACE] + e.1 + seq![NEWLINE];
    let bl = body.len() as int;
    assert forall|x: int| 0 <= x < bl implies s[i + x] == body[x] by {
        assert(s.subrange(i, i + bl)[x] == s[i + x]);
    }
    assert forall|x: int| 0 <= x < sx.len() implies body[x] == sx[x] by {
        assert(body[x] == ser_pos_body(p)[x]);
        assert((sx + seq![SPACE] + sy)[x] == sx[x]);
    }
    assert(s.subrange(i, i + sx.len() as int) =~= sx);
    assert(body[sx.len() as int] == SPACE) by {
        assert(body[sx.len() as int] == ser_pos_body(p)[sx.len() as int]);
        assert((sx + seq![SPACE] + sy)[sx.len() as int] == SPACE);
    }
    assert(s[i + sx.len()] == SPACE);
    assert(!is_digit(SPACE));
    lemma_parse_int_serialized(s, i, p.x as int);
    let n1 = i + sx.len() as int;
    assert forall|x: int| 0 <= x < sy.len() implies body[sx.len() + 1 + x] == sy[x] by {
        assert(body[sx.len() + 1 + x] == ser_pos_body(p)[sx.len() + 1 + x]);
        assert((sx + seq![SPACE] + sy)[sx.len() + 1 + x] == sy[x]);
    }
    assert(s.subrange(n1 + 1, n1 + 1 + sy.len() as int) =~= sy) by {
        assert forall|x: int| 0 <= x < sy.len()
            implies s.subrange(n1 + 1, n1 + 1 + sy.len() as int)[x] == sy[x] by {
            assert(s[n1 + 1 + x] == body[sx.len() + 1 + x]);
        }
    }
    let n2 = n1 + 1 + sy.len() as int;
    assert(n2 - i == ser_pos_body(p).len());
    assert(body[n2 - i] == SPACE) by {
        assert((ser_pos_body(p) + seq![SPACE])[n2 - i] == SPACE);
        assert(body[n2 - i] == (ser_pos_body(p) + seq![SPACE])[n2 - i]);
    }
    assert(s[n2] == NEWLINE || s[n2] == SPACE);
    assert(s[n2] == SPACE);
    assert(!is_digit(NEWLINE));
    assert(!is_digit(SPACE));
    lemma_parse_int_serialized(s, n1 + 1, p.y as int);
    assert(parse_int_at(s, i) == Ok::<(int, int), ()>((p.x as int, n1)));
    assert(parse_int_at(s, n1 + 1) == Ok::<(int, int), ()>((p.y as int, n2)));
    let ks = n2 + 1;
    let kl = e.1.len() as int;
    assert forall|x: int| 0 <= x < kl implies s[ks + x] == e.1[x] by {
        assert(body[(n2 - i) + 1 + x] == e.1[x]) by {
            assert((ser_pos_body(p) + seq![SPACE] + e.1)[(n2 - i) + 1 + x] == e.1[x]);
        }
        assert(s[ks + x] == body[(n2 - i) + 1 + x]);
    }
    assert forall|x: int| ks <= x < ks + kl implies s[x] != NEWLINE by {
        assert(s[x] == e.1[x - ks]);
        if s[x] == NEWLINE {
            assert(e.1.contains(NEWLINE));
        }
    }
    assert(body[bl - 1] == NEWLINE);
    assert(s[ks + kl] == NEWLINE);
    lemma_find_nl_skip(s, ks, ks + kl);
    assert(s.subrange(ks, ks + kl) =~= e.1);
    assert((p.x as int) as i32 == p.x);
    assert((p.y as int) as i32 == p.y);
}

/// A run of serialized tile lines parses into exactly those tiles, on top
/// of the tiles already accumulated.
#[verifier::spinoff_prover]
#[verifier::rlimit(100)]
proof fn lemma_parse_tiles(
    s: Seq<u8>,
    i: int,
    st: ParsedLevel,
    prefix: Seq<(Pos, Seq<u8>)>,
    entries: Seq<(Pos, Seq<u8>)>,
)
    requires
        0 <= i <= s.len(),
        s.subrange(i, s.len() as int) == ser_tiles(entries),
        unique_keys(prefix + entries),
        line_safe_entries(entries),
        st.tiles == assoc_map(prefix),
    ensures
        parse_lines(s, i, st) == Ok::<ParsedLevel, LevelError>(
            ParsedLevel { tiles: assoc_map(prefix + entries), ..st },
        ),
    decreases entries.len(),
{
    if entries.len() == 0 {
        assert(s.subrange(i, s.len() as int).len() == 0);
        assert(i == s.len());
        assert(prefix + entries =~= prefix);
        assert(st == ParsedLevel { tiles: assoc_map(prefix + entries), ..st });
    } else {
        let e = entries[0];
        let line = ser_tile_line(e);
        let rest = ser_tiles(entries.drop_first());
        assert(ser_tiles(entries) == line + rest);
        let ll = line.len() as int;
        assert forall|x: int| 0 <= x < s.len() - i implies s[i + x] == ser_tiles(entries)[x] by {
            assert(s.subrange(i, s.len() as int)[x] == s[i + x]);
        }
        assert(i + ll <= s.len());
        assert forall|x: int| 0 <= x < ll implies s[i + x] == line[x] by {
            assert((line + rest)[x] == line[x]);
        }
        assert forall|x: int| 0 <= x < tile_tag().len() implies line[x] == tile_tag()[x] by {
            assert((tile_tag() + (ser_pos_body(e.0) + seq![SPACE] + e.1 + seq![NEWLINE]))[x]
                == tile_tag()[x]) by {
                assert(line =~= tile_tag() + (ser_pos_body(e.0) + seq![SPACE] + e.1
                    + seq![NEWLINE]));
            }
            assert(line[x] == (tile_tag() + (ser_pos_body(e.0) + seq![SPACE] + e.1
                + seq![NEWLINE]))[x]);
        }
        assert(has_prefix(s, i, tile_tag())) by {
            assert(s.subrange(i, i + tile_tag().len() as int) =~= tile_tag());
        }
        assert(!has_prefix(s, i, pos_tag())) by {
            if has_prefix(s, i, pos_tag()) {
                assert(s.subrange(i, i + pos_tag().len() as int)[0] == s[i]);
            }
            assert(s[i] == tile_tag()[0]);
        }
        assert(!has_prefix(s, i, dimens_tag())) by {
            if has_prefix(s, i, dimens_tag()) {
                assert(s.subrange(i, i + dimens_tag().len() as int)[0] == s[i]);
            }
            assert(s[i] == tile_tag()[0]);
        }
        assert(!e.1.contains(NEWLINE)) by {
            assert(entries[0].1 == e.1);
        }
        let bstart = i + 5;
        let blen = ser_pos_body(e.0).len() as int + 1 + e.1.len() as int + 1;
        assert(ll == 5 + blen);
        assert(s.subrange(bstart, bstart + blen) =~= ser_pos_body(e.0) + seq![SPACE] + e.1
            + seq![NEWLINE]) by {
            let tail = ser_pos_body(e.0) + seq![SPACE] + e.1 + seq![NEWLINE];
            assert forall|x: int| 0 <= x < blen
                implies s.subrange(bstart, bstart + blen)[x] == tail[x] by {
                assert(s.subrange(bstart, bstart + blen)[x] == s[bstart + x]);
                assert(s[bstart + x] == line[5 + x]);
                assert(line =~= tile_tag() + tail);
                assert((tile_tag() + tail)[5 + x] == tail[x]);
            }
        }
        lemma_parse_tile_body_serialized(s, bstart, e);
        let n = bstart + blen;
        assert(parse_tile_body(s, i + 5) == Ok::<((Pos, Seq<u8>), int), LevelError>((e, n)));
        lemma_assoc_map_dom(prefix);
        assert(!st.tiles.contains_key(e.0)) by {
            if has_key(prefix, e.0) {
                let x = choose|x: int| 0 <= x < prefix.len() && prefix[x].0 == e.0;
                assert((prefix + entries)[x].0 == e.0);
                assert((prefix + entries)[prefix.len() as int].0 == e.0);
            }
        }
        assert forall|a: int, b: int| 0 <= a < b < prefix.len() implies prefix[a].0 != prefix[b].0
            by {
            assert((prefix + entries)[a] == prefix[a]);
            assert((prefix + entries)[b] == prefix[b]);
        }
        assert(!has_key(prefix, e.0));
        lemma_assoc_map_push(prefix, e);
        let st2 = ParsedLevel { tiles: st.tiles.insert(e.0, e.1), ..st };
        assert(st2.tiles == assoc_map(prefix.push(e)));
        assert(s.subrange(n, s.len() as int) =~= rest) by {
            assert forall|x: int| 0 <= x < s.len() - n
                implies s.subrange(n, s.len() as int)[x] == rest[x] by {
                assert(s.subrange(n, s.len() as int)[x] == s[n + x]);
                assert(s[n + x] == ser_tiles(entries)[ll + x]);
                assert((line + rest)[ll + x] == rest[x]);
            }
        }
        assert(prefix.push(e) + entries.drop_first() =~= prefix + entries);
        assert(forall|x: int| 0 <= x < entries.drop_first().len()
            ==> #[trigger] entries.drop_first()[x] == entries[x + 1]);
        lemma_parse_tiles(s, n, st2, prefix.push(e), entries.drop_first());
        assert(parse_lines(s, i, st) == parse_lines(s, n, st2));
        assert(ParsedLevel { tiles: assoc_map(prefix.push(e) + entries.drop_first()), ..st2 }
            == ParsedLevel { tiles: assoc_map(prefix + entries), ..st });
    }
}

/// A serialized `dimens` line followed by serialized tile lines parses into
/// exactly that dimension and those tiles.
#[verifier::spinoff_prover]
#[verifier::rlimit(100)]
proof fn lemma_parse_dimens_then_tiles(
    s: Seq<u8>,
    i: int,
    st: ParsedLevel,
    d: Pos,
    entries: Seq<(Pos, Seq<u8>)>,
)
    requires
        0 <= i <= s.len(),
        s.subrange(i, s.len() as int) == dimens_line(d) + ser_tiles(entries),
        !st.seen_dimens,
        unique_keys(entries),
        line_safe_entries(entries),
        st.tiles == Map::<Pos, Seq<u8>>::empty(),
    ensures
        parse_lines(s, i, st) == Ok::<ParsedLevel, LevelError>(
            ParsedLevel {
                seen_dimens: true,
                dimens: d,
                tiles: assoc_map(entries),
                ..st
            },
        ),
{
    let b = dimens_line(d);
    let t = ser_tiles(entries);
    let bl = b.len() as int;
    assert(s.subrange(i, s.len() as int).len() == s.len() - i);
    assert((b + t).len() == b.len() + t.len());
    assert(s.len() - i == bl + t.len());
    assert(bl == 7 + ser_pos_body(d).len() + 1);
    assert(s.subrange(i, s.len() as int) =~= b + t);
    assert forall|x: int| 0 <= x < s.len() - i implies s[i + x] == (b + t)[x] by {
        assert(s.subrange(i, s.len() as int)[x] == s[i + x]);
    }
    assert forall|x: int| 0 <= x < bl implies s[i + x] == b[x] by {
        assert((b + t)[x] == b[x]);
    }
    assert(b[0] == dimens_tag()[0]) by {
        assert(b =~= dimens_tag() + (ser_pos_body(d) + seq![NEWLINE]));
    }
    assert(s[i] == 100);
    assert(i < s.len());
    assert(!has_prefix(s, i, pos_tag())) by {
        if has_prefix(s, i, pos_tag()) {
            assert(s.subrange(i, i + 4)[0] == s[i]);
        }
    }
    assert(has_prefix(s, i, dimens_tag())) by {
        assert forall|x: int| 0 <= x < 7 implies s[i + x] == dimens_tag()[x] by {
            assert(b[x] == (dimens_tag() + (ser_pos_body(d) + seq![NEWLINE]))[x]) by {
                assert(b =~= dimens_tag() + (ser_pos_body(d) + seq![NEWLINE]));
            }
        }
        assert(s.subrange(i, i + 7) =~= dimens_tag());
    }
    assert(s.subrange(i + 7, i + bl) =~= ser_pos_body(d) + seq![NEWLINE]) by {
        let tail = ser_pos_body(d) + seq![NEWLINE];
        assert(b =~= dimens_tag() + tail);
        assert forall|x: int| 0 <= x < bl - 7 implies s.subrange(i + 7, i + bl)[x] == tail[x] by {
            assert(s.subrange(i + 7, i + bl)[x] == s[i + 7 + x]);
            assert(b[7 + x] == (dimens_tag() + tail)[7 + x]);
        }
    }
    lemma_parse_pos_body_serialized(s, i + 7, d);
    assert(parse_pos_body(s, i + 7) == Ok::<(Pos, int), LevelError>((d, i + bl)));
    let st2 = ParsedLevel { seen_dimens: true, dimens: d, ..st };
    assert(parse_lines(s, i, st) == parse_lines(s, i + bl, st2));
    assert(s.subrange(i + bl, s.len() as int) =~= t) by {
        assert forall|x: int| 0 <= x < s.len() - i - bl
            implies s.subrange(i + bl, s.len() as int)[x] == t[x] by {
            assert(s.subrange(i + bl, s.len() as int)[x] == s[i + bl + x]);
            assert((b + t)[bl + x] == t[x]);
        }
    }
    assert(Seq::<(Pos, Seq<u8>)>::empty() + entries =~= entries);
    assert(assoc_map(Seq::<(Pos, Seq<u8>)>::empty()) == Map::<Pos, Seq<u8>>::empty());
    lemma_parse_tiles(s, i + bl, st2, Seq::<(Pos, Seq<u8>)>::empty(), entries);
}

/// A level's canonical file loads back to exactly that level: the origin,
/// the dimensions and the tile mapping all survive the round trip, and both
/// header fields are present.
/// How a canonical file decomposes: the `pos` line in front, then the
/// `dimens` line and the tile lines.
#[verifier::spinoff_prover]
#[verifier::rlimit(100)]
proof fn lemma_serialize_layout(l: Level)
    ensures
        pos_line(l.spec_pos()).len() <= spec_serialize(l).len(),
        has_prefix(spec_serialize(l), 0, pos_tag()),
        spec_serialize(l).subrange(4, pos_line(l.spec_pos()).len() as int) == ser_pos_body(
            l.spec_pos(),
        ) + seq![NEWLINE],
        spec_serialize(l).subrange(
            pos_line(l.spec_pos()).len() as int,
            spec_serialize(l).len() as int,
        ) == dimens_line(l.spec_dimens()) + ser_tiles(l.tile_entries()),
{
    let s = spec_serialize(l);
    let a = pos_line(l.spec_pos());
    let rest = dimens_line(l.spec_dimens()) + ser_tiles(l.tile_entries());
    assert(s == a + rest);
    let al = a.len() as int;
    assert forall|x: int| 0 <= x < al implies s[x] == a[x] by {
        assert((a + rest)[x] == a[x]);
    }
    assert(has_prefix(s, 0, pos_tag())) by {
        assert forall|x: int| 0 <= x < 4 implies s[x] == pos_tag()[x] by {
            assert(a[x] == (pos_tag() + (ser_pos_body(l.spec_pos()) + seq![NEWLINE]))[x]) by {
                assert(a =~= pos_tag() + (ser_pos_body(l.spec_pos()) + seq![NEWLINE]));
            }
        }
        assert(s.subrange(0, 4) =~= pos_tag());
    }
    assert(s.subrange(4, al) =~= ser_pos_body(l.spec_pos()) + seq![NEWLINE]) by {
        let tail = ser_pos_body(l.spec_pos()) + seq![NEWLINE];
        assert(a =~= pos_tag() + tail);
        assert forall|x: int| 0 <= x < al - 4 implies s.subrange(4, al)[x] == tail[x] by {
            assert(s.subrange(4, al)[x] == s[4 + x]);
            assert(a[4 + x] == (pos_tag() + tail)[4 + x]);
        }
    }
    assert(s.subrange(al, s.len() as int) =~= rest) by {
        assert forall|x: int| 0 <= x < s.len() - al
            implies s.subrange(al, s.len() as int)[x] == rest[x] by {
            assert(s.subrange(al, s.len() as int)[x] == s[al + x]);
            assert((a + rest)[al + x] == rest[x]);
        }
    }
}

/// A level's canonical file loads back to exactly that level: the origin,
/// the dimensions and the tile mapping all survive the round trip, and both
/// header fields are present.
#[verifier::spinoff_prover]
#[verifier::rlimit(100)]
pub proof fn lemma_round_trip(l: Level)
    requires
        l.wf(),
    ensures
        parse_spec(spec_serialize(l)) == Ok::<ParsedLevel, LevelError>(
            ParsedLevel {
                seen_pos: true,
                seen_dimens: true,
                pos: l.spec_pos(),
                dimens: l.spec_dimens(),
                tiles: l.tile_map(),
            },
        ),
{
    let s = spec_serialize(l);
    let al = pos_line(l.spec_pos()).len() as int;
    lemma_serialize_layout(l);
    assert(al == 4 + ser_pos_body(l.spec_pos()).len() + 1);
    lemma_parse_pos_body_serialized(s, 4, l.spec_pos());
    assert(parse_pos_body(s, 4) == Ok::<(Pos, int), LevelError>((l.spec_pos(), al)));
    let st0 = initial_parse_state();
    assert(0 < s.len());
    lemma_parse_lines_at_pos(s, 0, st0);
    let st1 = ParsedLevel { seen_pos: true, pos: l.spec_pos(), ..st0 };
    assert(parse_lines(s, 0, st0) == parse_lines(s, al, st1));
    let entries = l.tile_entries();
    lemma_sorted_unique(entries);
    lemma_parse_dimens_then_tiles(s, al, st1, l.spec_dimens(), entries);
}

} // verus!
