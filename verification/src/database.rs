//! Pure decoding steps of the navigation database rows.

use vstd::prelude::*;
use vstd::string::*;
use crate::models::NavConfig;
use std::collections::{HashMap, HashSet};

verus! {

/// Decimal text of a nibble value (0..=15), as `format!("{}", n)` writes it.
pub open spec fn nibble_text(n: int) -> Seq<char> {
    if n == 0 { seq!['0'] }
    else if n == 1 { seq!['1'] }
    else if n == 2 { seq!['2'] }
    else if n == 3 { seq!['3'] }
    else if n == 4 { seq!['4'] }
    else if n == 5 { seq!['5'] }
    else if n == 6 { seq!['6'] }
    else if n == 7 { seq!['7'] }
    else if n == 8 { seq!['8'] }
    else if n == 9 { seq!['9'] }
    else if n == 10 { seq!['1', '0'] }
    else if n == 11 { seq!['1', '1'] }
    else if n == 12 { seq!['1', '2'] }
    else if n == 13 { seq!['1', '3'] }
    else if n == 14 { seq!['1', '4'] }
    else { seq!['1', '5'] }
}

/// The byte of `raw` that starts at bit `shift`.
pub open spec fn raw_byte(raw: i32, shift: i32) -> u8 {
    ((raw >> shift) & 0xff) as u8
}

/// Text of one byte read as two BCD nibbles, high nibble first.
pub open spec fn bcd_byte_text(b: u8) -> Seq<char> {
    nibble_text(((b >> 4u8) & 0xfu8) as int) + nibble_text((b & 0xfu8) as int)
}

/// The six nibbles of the three high bytes of `raw`, each written in decimal.
pub open spec fn bcd_digits(raw: i32) -> Seq<char> {
    bcd_byte_text(raw_byte(raw, 24)) + bcd_byte_text(raw_byte(raw, 16)) + bcd_byte_text(raw_byte(raw, 8))
}

/// The frequency text: digits 1..4 of the BCD digits, a dot, digits 4..6.
pub open spec fn bcd_freq_text(raw: i32) -> Seq<char> {
    bcd_digits(raw).subrange(1, 4) + seq!['.'] + bcd_digits(raw).subrange(4, 6)
}

/// Every decoded frequency has six characters with the dot in the middle,
/// as in "118.35".
pub proof fn lemma_bcd_freq_shape(raw: i32)
    ensures
        bcd_freq_text(raw).len() == 6,
        bcd_freq_text(raw)[3] == '.',
{
    assert forall|n: int| #[trigger] nibble_text(n).len() >= 1 by {}
    assert(bcd_digits(raw).len() >= 6);
}

/// The decimal digit of `d` (0..=9).
pub open spec fn digit_char(d: int) -> char {
    (48 + d) as char
}

/// A nibble is written as the decimal numeral of its value: one digit below
/// ten, and "1" followed by the units digit from ten to fifteen.
pub proof fn lemma_nibble_text_is_decimal(n: int)
    requires
        0 <= n < 16,
    ensures
        n < 10 ==> nibble_text(n) == seq![digit_char(n)],
        n >= 10 ==> nibble_text(n) == seq!['1', digit_char(n - 10)],
{
}

/// The four bits of `raw` that start at bit `shift`.
pub open spec fn nibble_at(raw: i32, shift: i32) -> int {
    ((raw >> shift) & 15i32) as int
}

/// When the six high nibbles of `raw` are decimal digits, the frequency
/// text is the second to sixth of them, high to low, with a dot after the
/// fourth: `0x0116_7000` reads "116.70".
pub proof fn lemma_bcd_freq_digits(raw: i32)
    requires
        nibble_at(raw, 28) < 10,
        nibble_at(raw, 24) < 10,
        nibble_at(raw, 20) < 10,
        nibble_at(raw, 16) < 10,
        nibble_at(raw, 12) < 10,
        nibble_at(raw, 8) < 10,
    ensures
        bcd_freq_text(raw) == seq![
            digit_char(nibble_at(raw, 24)),
            digit_char(nibble_at(raw, 20)),
            digit_char(nibble_at(raw, 16)),
            '.',
            digit_char(nibble_at(raw, 12)),
            digit_char(nibble_at(raw, 8)),
        ],
{
    let b3 = raw_byte(raw, 24);
    let b2 = raw_byte(raw, 16);
    let b1 = raw_byte(raw, 8);
    assert(((b3 >> 4u8) & 0xfu8) as int == nibble_at(raw, 28) && (b3 & 0xfu8) as int == nibble_at(raw, 24)) by (bit_vector)
        requires
            b3 == ((raw >> 24i32) & 0xffi32) as u8,
    ;
    assert(((b2 >> 4u8) & 0xfu8) as int == nibble_at(raw, 20) && (b2 & 0xfu8) as int == nibble_at(raw, 16)) by (bit_vector)
        requires
            b2 == ((raw >> 16i32) & 0xffi32) as u8,
    ;
    assert(((b1 >> 4u8) & 0xfu8) as int == nibble_at(raw, 12) && (b1 & 0xfu8) as int == nibble_at(raw, 8)) by (bit_vector)
        requires
            b1 == ((raw >> 8i32) & 0xffi32) as u8,
    ;
    lemma_nibble_text_is_decimal(nibble_at(raw, 28));
    lemma_nibble_text_is_decimal(nibble_at(raw, 24));
    lemma_nibble_text_is_decimal(nibble_at(raw, 20));
    lemma_nibble_text_is_decimal(nibble_at(raw, 16));
    lemma_nibble_text_is_decimal(nibble_at(raw, 12));
    lemma_nibble_text_is_decimal(nibble_at(raw, 8));
    assert(bcd_digits(raw) =~= seq![
        digit_char(nibble_at(raw, 28)),
        digit_char(nibble_at(raw, 24)),
        digit_char(nibble_at(raw, 20)),
        digit_char(nibble_at(raw, 16)),
        digit_char(nibble_at(raw, 12)),
        digit_char(nibble_at(raw, 8)),
    ]);
    assert(bcd_freq_text(raw) =~= seq![
        digit_char(nibble_at(raw, 24)),
        digit_char(nibble_at(raw, 20)),
        digit_char(nibble_at(raw, 16)),
        '.',
        digit_char(nibble_at(raw, 12)),
        digit_char(nibble_at(raw, 8)),
    ]);
}

fn nibble_str(n: u8) -> (s: &'static str)
    requires
        n < 16,
    ensures
        s@ == nibble_text(n as int),
{
    proof {
        reveal_strlit("0");
        reveal_strlit("1");
        reveal_strlit("2");
        reveal_strlit("3");
        reveal_strlit("4");
        reveal_strlit("5");
        reveal_strlit("6");
        reveal_strlit("7");
        reveal_strlit("8");
        reveal_strlit("9");
        reveal_strlit("10");
        reveal_strlit("11");
        reveal_strlit("12");
        reveal_strlit("13");
        reveal_strlit("14");
        reveal_strlit("15");
    }
    match n {
        0 => "0",
        1 => "1",
        2 => "2",
        3 => "3",
        4 => "4",
        5 => "5",
        6 => "6",
        7 => "7",
        8 => "8",
        9 => "9",
        10 => "10",
        11 => "11",
        12 => "12",
        13 => "13",
        14 => "14",
        _ => "15",
    }
}

fn append_bcd_byte(out: &mut String, b: u8)
    ensures
        final(out)@ == old(out)@ + bcd_byte_text(b),
{
    let hi = (b >> 4u8) & 0xfu8;
    let lo = b & 0xfu8;
    assert(hi < 16) by (bit_vector)
        requires
            hi == (b >> 4u8) & 0xfu8,
    ;
    assert(lo < 16) by (bit_vector)
        requires
            lo == b & 0xfu8,
    ;
    out.append(nibble_str(hi));
    out.append(nibble_str(lo));
}

/// Decodes a frequency stored as BCD in the three high bytes of `raw`
/// (for example `0x0118_3500` gives `"118.35"`: the first digit is dropped).
pub fn decode_bcd_freq(raw: i32) -> (s: String)
    ensures
        s@ == bcd_freq_text(raw),
{
    let b3 = ((raw >> 24i32) & 0xffi32) as u8;
    let b2 = ((raw >> 16i32) & 0xffi32) as u8;
    let b1 = ((raw >> 8i32) & 0xffi32) as u8;
    let mut digits = String::new();
    append_bcd_byte(&mut digits, b3);
    append_bcd_byte(&mut digits, b2);
    append_bcd_byte(&mut digits, b1);
    assert(digits@ == bcd_digits(raw));
    if digits.as_str().unicode_len() >= 6 {
        let head = String::from_str(digits.as_str().substring_char(1, 4));
        let with_dot = head.concat(".");
        let s = with_dot.concat(digits.as_str().substring_char(4, 6));
        proof {
            reveal_strlit(".");
        }
        s
    } else {
        proof {
            assert(bcd_digits(raw).len() >= 6);
        }
        digits
    }
}


/// The value of the last row whose key is `key`, or the empty text.
pub open spec fn last_value(rows: Seq<(String, String)>, key: Seq<char>) -> Seq<char>
    decreases rows.len(),
{
    if rows.len() == 0 {
        Seq::empty()
    } else if rows.last().0@ == key {
        rows.last().1@
    } else {
        last_value(rows.drop_last(), key)
    }
}

/// The value of a key is that of its last row, and empty when no row has
/// the key.
pub proof fn lemma_last_value_is_last_row(rows: Seq<(String, String)>, key: Seq<char>)
    ensures
        (forall|i: int| 0 <= i < rows.len() ==> (#[trigger] rows[i]).0@ != key) ==> last_value(rows, key)
            == Seq::<char>::empty(),
        forall|i: int|
            0 <= i < rows.len() && (#[trigger] rows[i]).0@ == key && (forall|j: int|
                i < j < rows.len() ==> (#[trigger] rows[j]).0@ != key) ==> last_value(rows, key) == rows[i].1@,
    decreases rows.len(),
{
    if rows.len() > 0 {
        let rest = rows.drop_last();
        lemma_last_value_is_last_row(rest, key);
        assert forall|i: int| 0 <= i < rest.len() implies rest[i] == rows[i] by {}
        assert forall|i: int|
            0 <= i < rows.len() && (#[trigger] rows[i]).0@ == key && (forall|j: int|
                i < j < rows.len() ==> (#[trigger] rows[j]).0@ != key) implies last_value(rows, key) == rows[i].1@ by {
            if i < rows.len() - 1 {
                assert(rows[rows.len() - 1].0@ != key);
                assert forall|j: int| i < j < rest.len() implies (#[trigger] rest[j]).0@ != key by {
                    assert(rows[j].0@ != key);
                }
                assert(rest[i].0@ == key);
            }
        }
        if forall|i: int| 0 <= i < rows.len() ==> (#[trigger] rows[i]).0@ != key {
            assert(rows[rows.len() - 1].0@ != key);
        }
    }
}

/// Reads the navigation data cycle from the `(key, value)` rows of the
/// configuration table: `CycleName`, `CycleStartDate` and `CycleEndDate`;
/// a later row overrides an earlier one, other keys are ignored.
pub fn nav_config_from_rows(rows: &Vec<(String, String)>) -> (cfg: NavConfig)
    ensures
        cfg.cycle_name@ == last_value(rows@, "CycleName"@),
        cfg.cycle_start@ == last_value(rows@, "CycleStartDate"@),
        cfg.cycle_end@ == last_value(rows@, "CycleEndDate"@),
{
    let mut cfg = NavConfig::default();
    let name_key = String::from_str("CycleName");
    let start_key = String::from_str("CycleStartDate");
    let end_key = String::from_str("CycleEndDate");
    let mut i: usize = 0;
    while i < rows.len()
        invariant
            i <= rows@.len(),
            name_key@ == "CycleName"@,
            start_key@ == "CycleStartDate"@,
            end_key@ == "CycleEndDate"@,
            cfg.cycle_name@ == last_value(rows@.take(i as int), "CycleName"@),
            cfg.cycle_start@ == last_value(rows@.take(i as int), "CycleStartDate"@),
            cfg.cycle_end@ == last_value(rows@.take(i as int), "CycleEndDate"@),
        decreases rows@.len() - i,
    {
        assert(rows@.take(i + 1).drop_last() =~= rows@.take(i as int));
        proof {
            reveal_strlit("CycleName");
            reveal_strlit("CycleStartDate");
            reveal_strlit("CycleEndDate");
            assert("CycleName"@.len() == 9);
            assert("CycleStartDate"@.len() == 14);
            assert("CycleEndDate"@.len() == 12);
        }
        let (k, v) = &rows[i];
        if *k == name_key {
            cfg.cycle_name = v.clone();
        } else if *k == start_key {
            cfg.cycle_start = v.clone();
        } else if *k == end_key {
            cfg.cycle_end = v.clone();
        }
        i += 1;
    }
    assert(rows@.take(rows@.len() as int) =~= rows@);
    cfg
}

/// The departure links `(airport, waypoint)` and arrival links
/// `(waypoint, airport)` of the terminal procedures, in order: procedure
/// type "1" is a departure, "2" an arrival, any other is skipped.
pub open spec fn terminal_links(airport_id: i32, terminals: Seq<(String, Vec<i32>)>) -> (Seq<(i32, i32)>, Seq<(i32, i32)>)
    decreases terminals.len(),
{
    if terminals.len() == 0 {
        (Seq::empty(), Seq::empty())
    } else {
        let (sid, star) = terminal_links(airport_id, terminals.drop_last());
        let t = terminals.last();
        let wpts = t.1@;
        if t.0@ == "1"@ {
            (sid + wpts.map_values(|w: i32| (airport_id, w)), star)
        } else if t.0@ == "2"@ {
            (sid, star + wpts.map_values(|w: i32| (w, airport_id)))
        } else {
            (sid, star)
        }
    }
}

/// Every waypoint of a departure procedure (type "1") gives the link
/// `(airport, waypoint)` and every waypoint of an arrival procedure (type
/// "2") the link `(waypoint, airport)`, each once, in the order of the
/// procedures and of their waypoints; procedures of other types give none.
pub proof fn lemma_terminal_links_every_waypoint(airport_id: i32, terminals: Seq<(String, Vec<i32>)>)
    ensures
        terminal_links(airport_id, terminals).0 == terminals.filter(|t: (String, Vec<i32>)| t.0@ == "1"@).map_values(
            |t: (String, Vec<i32>)| t.1@.map_values(|w: i32| (airport_id, w)),
        ).flatten(),
        terminal_links(airport_id, terminals).1 == terminals.filter(|t: (String, Vec<i32>)| t.0@ == "2"@).map_values(
            |t: (String, Vec<i32>)| t.1@.map_values(|w: i32| (w, airport_id)),
        ).flatten(),
        forall|i: int, j: int|
            0 <= i < terminals.len() && 0 <= j < terminals[i].1@.len() && terminals[i].0@ == "1"@
                ==> terminal_links(airport_id, terminals).0.contains((airport_id, #[trigger] terminals[i].1@[j])),
        forall|i: int, j: int|
            0 <= i < terminals.len() && 0 <= j < terminals[i].1@.len() && terminals[i].0@ == "2"@
                ==> terminal_links(airport_id, terminals).1.contains((#[trigger] terminals[i].1@[j], airport_id)),
    decreases terminals.len(),
{
    reveal_strlit("1");
    reveal_strlit("2");
    let is1 = |t: (String, Vec<i32>)| t.0@ == "1"@;
    let is2 = |t: (String, Vec<i32>)| t.0@ == "2"@;
    let to_sid = |t: (String, Vec<i32>)| t.1@.map_values(|w: i32| (airport_id, w));
    let to_star = |t: (String, Vec<i32>)| t.1@.map_values(|w: i32| (w, airport_id));
    if terminals.len() > 0 {
        let rest = terminals.drop_last();
        let t = terminals.last();
        lemma_terminal_links_every_waypoint(airport_id, rest);
        let (sid, star) = terminal_links(airport_id, rest);
        let (sid2, star2) = terminal_links(airport_id, terminals);
        assert("1"@[0] != "2"@[0]);
        assert(is1(t) ==> !is2(t));
        assert(terminals =~= rest.push(t));
        rest.lemma_filter_push(t, is1);
        rest.lemma_filter_push(t, is2);
        if is1(t) {
            assert(terminals.filter(is1) == rest.filter(is1).push(t));
            assert(terminals.filter(is1).map_values(to_sid) =~= rest.filter(is1).map_values(to_sid).push(to_sid(t)));
            rest.filter(is1).map_values(to_sid).lemma_flatten_push(to_sid(t));
            assert(terminals.filter(is2) == rest.filter(is2));
        } else if is2(t) {
            assert(terminals.filter(is2) == rest.filter(is2).push(t));
            assert(terminals.filter(is2).map_values(to_star) =~= rest.filter(is2).map_values(to_star).push(to_star(t)));
            rest.filter(is2).map_values(to_star).lemma_flatten_push(to_star(t));
            assert(terminals.filter(is1) == rest.filter(is1));
        } else {
            assert(terminals.filter(is1) == rest.filter(is1));
            assert(terminals.filter(is2) == rest.filter(is2));
        }
        assert forall|i: int, j: int|
            0 <= i < terminals.len() && 0 <= j < terminals[i].1@.len() && terminals[i].0@ == "1"@
                implies sid2.contains((airport_id, #[trigger] terminals[i].1@[j])) by {
            let x = (airport_id, terminals[i].1@[j]);
            if i == terminals.len() - 1 {
                assert(sid2[sid.len() + j] == x);
            } else {
                assert(rest[i] == terminals[i]);
                assert(sid.contains((airport_id, rest[i].1@[j])));
                let k = choose|k: int| 0 <= k < sid.len() && sid[k] == x;
                assert(sid2[k] == x);
            }
        }
        assert forall|i: int, j: int|
            0 <= i < terminals.len() && 0 <= j < terminals[i].1@.len() && terminals[i].0@ == "2"@
                implies star2.contains((#[trigger] terminals[i].1@[j], airport_id)) by {
            let x = (terminals[i].1@[j], airport_id);
            if i == terminals.len() - 1 {
                assert(star2[star.len() + j] == x);
            } else {
                assert(rest[i] == terminals[i]);
                assert(star.contains((rest[i].1@[j], airport_id)));
                let k = choose|k: int| 0 <= k < star.len() && star[k] == x;
                assert(star2[k] == x);
            }
        }
    }
}

/// Splits the waypoints of an airport's terminal procedures, each given
/// with its procedure type, into departure and arrival links.
pub fn terminal_fixes(airport_id: i32, terminals: &Vec<(String, Vec<i32>)>) -> (res: (Vec<(i32, i32)>, Vec<(i32, i32)>))
    ensures
        (res.0@, res.1@) == terminal_links(airport_id, terminals@),
{
    let mut sid: Vec<(i32, i32)> = Vec::new();
    let mut star: Vec<(i32, i32)> = Vec::new();
    let one = String::from_str("1");
    let two = String::from_str("2");
    let mut i: usize = 0;
    while i < terminals.len()
        invariant
            i <= terminals@.len(),
            one@ == "1"@,
            two@ == "2"@,
            (sid@, star@) == terminal_links(airport_id, terminals@.take(i as int)),
        decreases terminals@.len() - i,
    {
        assert(terminals@.take(i + 1).drop_last() =~= terminals@.take(i as int));
        let (proc_type, wpts) = &terminals[i];
        let ghost sid0 = sid@;
        let ghost star0 = star@;
        let mut j: usize = 0;
        while j < wpts.len()
            invariant
                j <= wpts@.len(),
                sid@ == sid0 + (if proc_type@ == one@ { wpts@.take(j as int).map_values(|w: i32| (airport_id, w)) } else { Seq::empty() }),
                star@ == star0 + (if proc_type@ != one@ && proc_type@ == two@ { wpts@.take(j as int).map_values(|w: i32| (w, airport_id)) } else { Seq::empty() }),
            decreases wpts@.len() - j,
        {
            let w = wpts[j];
            if *proc_type == one {
                sid.push((airport_id, w));
            } else if *proc_type == two {
                star.push((w, airport_id));
            }
            proof {
                assert(wpts@.take(j + 1).map_values(|w: i32| (airport_id, w)) =~= wpts@.take(j as int).map_values(|w: i32| (airport_id, w)).push((airport_id, w)));
                assert(wpts@.take(j + 1).map_values(|w: i32| (w, airport_id)) =~= wpts@.take(j as int).map_values(|w: i32| (w, airport_id)).push((w, airport_id)));
            }
            j += 1;
        }
        proof {
            assert(wpts@.take(wpts@.len() as int) =~= wpts@);
            assert(sid0 + Seq::<(i32, i32)>::empty() =~= sid0);
            assert(star0 + Seq::<(i32, i32)>::empty() =~= star0);
        }
        i += 1;
    }
    assert(terminals@.take(terminals@.len() as int) =~= terminals@);
    (sid, star)
}

/// The display name of a waypoint: the name read from the database, unless
/// it is empty or only repeats the identifier.
pub fn waypoint_display_name(name: Option<String>, ident: &String) -> (res: Option<String>)
    ensures
        res matches Some(n) ==> name matches Some(m) && n@ == m@,
        res is Some <==> (name matches Some(m) && m@.len() > 0 && m@ != ident@),
{
    match name {
        Some(n) => {
            if !n.as_str().is_empty() && !(n == *ident) {
                Some(n)
            } else {
                None
            }
        },
        None => None,
    }
}

/// Name, full name and type of a terminal procedure: the name falls back
/// to the full name when empty; procedure type "1" is a `SID`, any other a `STAR`.
pub fn procedure_header(full: &String, name: &String, ptype: &String) -> (res: (String, String, String))
    ensures
        res.0@ == if name@.len() == 0 { full@ } else { name@ },
        res.1@ == full@,
        res.2@ == if ptype@ == "1"@ { "SID"@ } else { "STAR"@ },
{
    let shown = if name.as_str().is_empty() {
        full.clone()
    } else {
        name.clone()
    };
    let kind = if *ptype == String::from_str("1") {
        String::from_str("SID")
    } else {
        String::from_str("STAR")
    };
    (shown, full.clone(), kind)
}

/// The waypoint identifiers of a procedure without the empty ones, in order.
pub fn non_empty_fixes(fixes: &Vec<String>) -> (res: Vec<String>)
    ensures
        res@.map_values(|f: String| f@) == fixes@.map_values(|f: String| f@).filter(|f: Seq<char>| f.len() > 0),
{
    let mut res: Vec<String> = Vec::new();
    let mut i: usize = 0;
    while i < fixes.len()
        invariant
            i <= fixes@.len(),
            res@.map_values(|f: String| f@) == fixes@.take(i as int).map_values(|f: String| f@).filter(|f: Seq<char>| f.len() > 0),
        decreases fixes@.len() - i,
    {
        let ghost before = res@;
        proof {
            let a = fixes@.take(i + 1).map_values(|f: String| f@);
            let b = fixes@.take(i as int).map_values(|f: String| f@);
            assert(a.drop_last() =~= b);
            reveal(Seq::filter);
        }
        if !fixes[i].as_str().is_empty() {
            res.push(fixes[i].clone());
        }
        assert(res@.map_values(|f: String| f@) =~= fixes@.take(i + 1).map_values(|f: String| f@).filter(|f: Seq<char>| f.len() > 0));
        i += 1;
    }
    assert(fixes@.take(fixes@.len() as int) =~= fixes@);
    res
}


/// The waypoint after `w` along an airway: the second end of the last leg
/// whose first end is `w`.
pub open spec fn next_in_chain(legs: Seq<(i32, i32)>, w: i32) -> Option<i32>
    decreases legs.len(),
{
    if legs.len() == 0 {
        None
    } else if legs.last().0 == w {
        Some(legs.last().1)
    } else {
        next_in_chain(legs.drop_last(), w)
    }
}

/// The waypoint after `w` is the second end of the last leg (in row order)
/// whose first end is `w`, and there is none when no leg starts at `w`.
pub proof fn lemma_next_in_chain_last_leg(legs: Seq<(i32, i32)>, w: i32)
    ensures
        next_in_chain(legs, w) is None <==> forall|i: int| 0 <= i < legs.len() ==> (#[trigger] legs[i]).0 != w,
        next_in_chain(legs, w) matches Some(x) ==> exists|i: int|
            {
                &&& 0 <= i < legs.len()
                &&& #[trigger] legs[i] == (w, x)
                &&& forall|j: int| i < j < legs.len() ==> (#[trigger] legs[j]).0 != w
            },
    decreases legs.len(),
{
    if legs.len() > 0 {
        let rest = legs.drop_last();
        lemma_next_in_chain_last_leg(rest, w);
        if legs.last().0 == w {
            assert(legs[legs.len() - 1] == (w, legs.last().1));
        } else {
            assert forall|i: int| 0 <= i < rest.len() implies rest[i] == legs[i] by {}
            if next_in_chain(rest, w) is Some {
                let i = choose|i: int| 0 <= i < rest.len() && #[trigger] rest[i] == (w, next_in_chain(rest, w)->Some_0)
                    && forall|j: int| i < j < rest.len() ==> (#[trigger] rest[j]).0 != w;
                assert(legs[i] == rest[i]);
                assert forall|j: int| i < j < legs.len() implies (#[trigger] legs[j]).0 != w by {
                    if j < rest.len() {
                        assert(legs[j] == rest[j]);
                    }
                }
            }
        }
    }
}

/// The first end of leg `i` is the second end of no leg.
pub open spec fn is_chain_start(legs: Seq<(i32, i32)>, i: int) -> bool {
    forall|j: int| 0 <= j < legs.len() ==> (#[trigger] legs[j]).1 != legs[i].0
}

/// Both ends of every leg, in leg order: first end, then second end.
pub open spec fn leg_ends(legs: Seq<(i32, i32)>) -> Seq<i32>
    decreases legs.len(),
{
    if legs.len() == 0 {
        Seq::empty()
    } else {
        leg_ends(legs.drop_last()) + seq![legs.last().0, legs.last().1]
    }
}

/// How many entries of `e` are not in `listed`.
pub open spec fn count_missing(e: Seq<i32>, listed: Seq<i32>) -> nat
    decreases e.len(),
{
    if e.len() == 0 {
        0
    } else {
        count_missing(e.drop_last(), listed) + if listed.contains(e.last()) {
            0nat
        } else {
            1nat
        }
    }
}

/// Listing one more waypoint never adds to the count of missing ones, and
/// lowers it when the waypoint is one of them and was not listed.
pub proof fn lemma_count_missing_push(e: Seq<i32>, listed: Seq<i32>, w: i32)
    ensures
        count_missing(e, listed.push(w)) <= count_missing(e, listed),
        e.contains(w) && !listed.contains(w) ==> count_missing(e, listed.push(w)) < count_missing(e, listed),
    decreases e.len(),
{
    if e.len() > 0 {
        let l2 = listed.push(w);
        lemma_count_missing_push(e.drop_last(), listed, w);
        assert(l2.contains(e.last()) <==> (listed.contains(e.last()) || e.last() == w)) by {
            if l2.contains(e.last()) && e.last() != w {
                let k = choose|k: int| 0 <= k < l2.len() && l2[k] == e.last();
                assert(listed[k] == e.last());
            }
            if listed.contains(e.last()) {
                let k = choose|k: int| 0 <= k < listed.len() && listed[k] == e.last();
                assert(l2[k] == e.last());
            }
            if e.last() == w {
                assert(l2[listed.len() as int] == w);
            }
        }
        if e.contains(w) && !listed.contains(w) && e.last() != w {
            let k = choose|k: int| 0 <= k < e.len() && e[k] == w;
            assert(e.drop_last()[k] == w);
        }
    }
}

/// `listed` followed by the chain from `w`, up to its end or up to the
/// first waypoint already listed.
pub open spec fn follow_chain(legs: Seq<(i32, i32)>, listed: Seq<i32>, w: i32) -> Seq<i32>
    decreases count_missing(leg_ends(legs), listed),
{
    if listed.contains(w) || !leg_ends(legs).contains(w) {
        listed
    } else {
        proof {
            lemma_count_missing_push(leg_ends(legs), listed, w);
        }
        match next_in_chain(legs, w) {
            None => listed.push(w),
            Some(x) => follow_chain(legs, listed.push(w), x),
        }
    }
}

proof fn lemma_prefix_trans(a: Seq<i32>, b: Seq<i32>, c: Seq<i32>)
    requires
        a.is_prefix_of(b),
        b.is_prefix_of(c),
    ensures
        a.is_prefix_of(c),
{
    assert forall|k: int| 0 <= k < a.len() implies a[k] == c[k] by {
        assert(a[k] == b[k]);
        assert(b[k] == c[k]);
    }
    assert(a =~= c.subrange(0, a.len() as int));
}

/// Following the chain from `w` keeps what was listed and appends `w`, then
/// the next waypoint of each appended one in turn, stopping exactly when the
/// chain ends or reaches a waypoint already listed.
pub proof fn lemma_follow_chain_follows(legs: Seq<(i32, i32)>, listed: Seq<i32>, w: i32)
    ensures
        listed.is_prefix_of(follow_chain(legs, listed, w)),
        !listed.contains(w) && leg_ends(legs).contains(w) ==> {
            let r = follow_chain(legs, listed, w);
            &&& r.len() > listed.len()
            &&& r[listed.len() as int] == w
            &&& forall|k: int| listed.len() <= k < r.len() - 1 ==> next_in_chain(legs, #[trigger] r[k]) == Some(r[k + 1])
            &&& next_in_chain(legs, r.last()) matches Some(x) ==> r.contains(x)
        },
    decreases count_missing(leg_ends(legs), listed),
{
    let r = follow_chain(legs, listed, w);
    if listed.contains(w) || !leg_ends(legs).contains(w) {
        assert(listed =~= r.subrange(0, listed.len() as int));
    } else {
        let l2 = listed.push(w);
        lemma_count_missing_push(leg_ends(legs), listed, w);
        match next_in_chain(legs, w) {
            None => {
                assert(listed =~= r.subrange(0, listed.len() as int));
            },
            Some(x) => {
                lemma_next_in_ends(legs, w);
                lemma_follow_chain_follows(legs, l2, x);
                assert(listed.is_prefix_of(l2)) by {
                    assert(listed =~= l2.subrange(0, listed.len() as int));
                }
                lemma_prefix_trans(listed, l2, r);
                assert(r[listed.len() as int] == l2[listed.len() as int]);
                if l2.contains(x) {
                    assert(r == l2);
                    assert(r.last() == w);
                } else {
                    assert forall|k: int| listed.len() <= k < r.len() - 1 implies next_in_chain(legs, #[trigger] r[k])
                        == Some(r[k + 1]) by {
                        if k == listed.len() {
                            assert(r[k] == w);
                            assert(r[k + 1] == x);
                        }
                    }
                }
            },
        }
    }
}

/// The waypoints listed after following, in leg order, the chain from the
/// first end of each of legs `0..i` that starts a chain.
pub open spec fn heads_listed(legs: Seq<(i32, i32)>, i: nat) -> Seq<i32>
    decreases i,
{
    if i == 0 {
        Seq::empty()
    } else {
        let l = heads_listed(legs, (i - 1) as nat);
        if is_chain_start(legs, i - 1) {
            follow_chain(legs, l, legs[i - 1].0)
        } else {
            l
        }
    }
}

/// `listed` followed by the ends of `e` not listed yet, in order, each once.
pub open spec fn add_missing(listed: Seq<i32>, e: Seq<i32>) -> Seq<i32>
    decreases e.len(),
{
    if e.len() == 0 {
        listed
    } else {
        let l = add_missing(listed, e.drop_last());
        if l.contains(e.last()) {
            l
        } else {
            l.push(e.last())
        }
    }
}

/// The first ends of the legs, in leg order.
pub open spec fn first_ends(legs: Seq<(i32, i32)>) -> Seq<i32> {
    legs.map_values(|l: (i32, i32)| l.0)
}

/// The waypoints of an airway in order: the chain from each head (a first
/// end that is no leg's second end) in leg order, each chain up to its end
/// or to a waypoint already listed; then the first ends not listed yet, in
/// leg order (all of an airway that has no head); then the second ends not
/// listed yet.
pub open spec fn airway_order(legs: Seq<(i32, i32)>) -> Seq<i32> {
    add_missing(add_missing(heads_listed(legs, legs.len()), first_ends(legs)), leg_ends(legs))
}

proof fn lemma_add_missing_prefix(listed: Seq<i32>, e: Seq<i32>)
    ensures
        listed.is_prefix_of(add_missing(listed, e)),
    decreases e.len(),
{
    if e.len() > 0 {
        let l = add_missing(listed, e.drop_last());
        lemma_add_missing_prefix(listed, e.drop_last());
        if !l.contains(e.last()) {
            assert(l.is_prefix_of(l.push(e.last()))) by {
                assert(l =~= l.push(e.last()).subrange(0, l.len() as int));
            }
            lemma_prefix_trans(listed, l, l.push(e.last()));
        }
    }
}

proof fn lemma_heads_listed_prefix(legs: Seq<(i32, i32)>, i: nat, j: nat)
    requires
        i <= j,
    ensures
        heads_listed(legs, i).is_prefix_of(heads_listed(legs, j)),
    decreases j,
{
    if i == j {
        assert(heads_listed(legs, i) =~= heads_listed(legs, j).subrange(0, heads_listed(legs, i).len() as int));
    } else {
        lemma_heads_listed_prefix(legs, i, (j - 1) as nat);
        let l = heads_listed(legs, (j - 1) as nat);
        if is_chain_start(legs, j - 1) {
            lemma_follow_chain_follows(legs, l, legs[j - 1].0);
            lemma_prefix_trans(heads_listed(legs, i), l, heads_listed(legs, j));
        }
    }
}

proof fn lemma_heads_listed_none_before(legs: Seq<(i32, i32)>, i: nat)
    requires
        forall|j: int| 0 <= j < i ==> !is_chain_start(legs, j),
    ensures
        heads_listed(legs, i) == Seq::<i32>::empty(),
    decreases i,
{
    if i > 0 {
        lemma_heads_listed_none_before(legs, (i - 1) as nat);
    }
}

/// An airway's order begins with the whole chain from its first head (the
/// first leg, in row order, whose first end is no leg's second end): that
/// head, then the next waypoint of each in turn, up to the chain's end or
/// its first repeat.
pub proof fn lemma_airway_order_starts_with_first_chain(legs: Seq<(i32, i32)>, i0: int)
    requires
        0 <= i0 < legs.len(),
        is_chain_start(legs, i0),
        forall|j: int| 0 <= j < i0 ==> !is_chain_start(legs, j),
    ensures
        ({
            let c = follow_chain(legs, Seq::empty(), legs[i0].0);
            let r = airway_order(legs);
            &&& c.is_prefix_of(r)
            &&& c.len() >= 1
            &&& c[0] == legs[i0].0
            &&& forall|k: int| 0 <= k < c.len() - 1 ==> next_in_chain(legs, #[trigger] c[k]) == Some(c[k + 1])
            &&& next_in_chain(legs, c.last()) matches Some(x) ==> c.contains(x)
        }),
{
    let c = follow_chain(legs, Seq::empty(), legs[i0].0);
    lemma_leg_ends_contain(legs, i0);
    lemma_follow_chain_follows(legs, Seq::empty(), legs[i0].0);
    lemma_heads_listed_none_before(legs, i0 as nat);
    assert(heads_listed(legs, (i0 + 1) as nat) == c);
    lemma_heads_listed_prefix(legs, (i0 + 1) as nat, legs.len());
    let h = heads_listed(legs, legs.len());
    let a1 = add_missing(h, first_ends(legs));
    lemma_add_missing_prefix(h, first_ends(legs));
    lemma_add_missing_prefix(a1, leg_ends(legs));
    lemma_prefix_trans(c, h, a1);
    lemma_prefix_trans(c, a1, airway_order(legs));
}

/// The ends listed are exactly the first and second ends of the legs.
pub proof fn lemma_leg_ends_exactly(legs: Seq<(i32, i32)>, x: i32)
    ensures
        leg_ends(legs).contains(x) <==> exists|i: int| 0 <= i < legs.len() && ((#[trigger] legs[i]).0 == x || legs[i].1 == x),
    decreases legs.len(),
{
    if legs.len() > 0 {
        let rest = legs.drop_last();
        lemma_leg_ends_exactly(rest, x);
        let d = leg_ends(rest);
        let e = leg_ends(legs);
        if e.contains(x) {
            let k = choose|k: int| 0 <= k < e.len() && e[k] == x;
            if k < d.len() {
                assert(d[k] == x);
                let i = choose|i: int| 0 <= i < rest.len() && ((#[trigger] rest[i]).0 == x || rest[i].1 == x);
                assert(legs[i] == rest[i]);
            } else {
                assert(legs[legs.len() - 1] == legs.last());
            }
        }
        if exists|i: int| 0 <= i < legs.len() && ((#[trigger] legs[i]).0 == x || legs[i].1 == x) {
            let i = choose|i: int| 0 <= i < legs.len() && ((#[trigger] legs[i]).0 == x || legs[i].1 == x);
            lemma_leg_ends_contain(legs, i);
        }
    }
}

/// Both ends of every leg are listed.
pub proof fn lemma_leg_ends_contain(legs: Seq<(i32, i32)>, j: int)
    requires
        0 <= j < legs.len(),
    ensures
        leg_ends(legs).contains(legs[j].0),
        leg_ends(legs).contains(legs[j].1),
    decreases legs.len(),
{
    let e = leg_ends(legs);
    let d = leg_ends(legs.drop_last());
    if j == legs.len() - 1 {
        assert(e[d.len() as int] == legs[j].0);
        assert(e[d.len() as int + 1] == legs[j].1);
    } else {
        lemma_leg_ends_contain(legs.drop_last(), j);
        let k0 = choose|k: int| 0 <= k < d.len() && d[k] == legs[j].0;
        let k1 = choose|k: int| 0 <= k < d.len() && d[k] == legs[j].1;
        assert(e[k0] == legs[j].0);
        assert(e[k1] == legs[j].1);
    }
}

proof fn lemma_next_in_ends(legs: Seq<(i32, i32)>, w: i32)
    requires
        next_in_chain(legs, w) is Some,
    ensures
        leg_ends(legs).contains(next_in_chain(legs, w)->Some_0),
    decreases legs.len(),
{
    if legs.last().0 == w {
        lemma_leg_ends_contain(legs, legs.len() - 1);
    } else {
        lemma_next_in_ends(legs.drop_last(), w);
        let d = leg_ends(legs.drop_last());
        let k = choose|k: int| 0 <= k < d.len() && d[k] == next_in_chain(legs, w)->Some_0;
        assert(leg_ends(legs)[k] == d[k]);
    }
}

/// The map from each waypoint to the next one along the airway: the second
/// end of the last leg leaving it.
fn next_map(legs: &Vec<(i32, i32)>) -> (m: HashMap<i32, i32>)
    ensures
        forall|w: i32| #[trigger] m@.contains_key(w) <==> next_in_chain(legs@, w) is Some,
        forall|w: i32| #[trigger] m@.contains_key(w) ==> next_in_chain(legs@, w) == Some(m@[w]),
{
    broadcast use vstd::std_specs::hash::group_hash_axioms;
    let mut m: HashMap<i32, i32> = HashMap::new();
    let mut i: usize = 0;
    while i < legs.len()
        invariant
            i <= legs@.len(),
            forall|w: i32| #[trigger] m@.contains_key(w) <==> next_in_chain(legs@.take(i as int), w) is Some,
            forall|w: i32| #[trigger] m@.contains_key(w) ==> next_in_chain(legs@.take(i as int), w) == Some(m@[w]),
        decreases legs@.len() - i,
    {
        assert(legs@.take(i + 1).drop_last() =~= legs@.take(i as int));
        assert(legs@.take(i + 1).last() == legs@[i as int]);
        m.insert(legs[i].0, legs[i].1);
        i += 1;
    }
    assert(legs@.take(legs@.len() as int) =~= legs@);
    m
}

/// Appends the chain from the first end `w` of some leg to `out`; `seen`
/// holds the waypoints of `out`.
fn follow_chain_exec(
    legs: &Vec<(i32, i32)>,
    next: &HashMap<i32, i32>,
    out: &mut Vec<i32>,
    seen: &mut HashSet<i32>,
    w: i32,
)
    requires
        leg_ends(legs@).contains(w),
        forall|x: i32| #[trigger] next@.contains_key(x) <==> next_in_chain(legs@, x) is Some,
        forall|x: i32| #[trigger] next@.contains_key(x) ==> next_in_chain(legs@, x) == Some(next@[x]),
        forall|x: i32| #[trigger] old(seen)@.contains(x) <==> old(out)@.contains(x),
        old(out)@.no_duplicates(),
        forall|k: int| 0 <= k < old(out)@.len() ==> leg_ends(legs@).contains(#[trigger] old(out)@[k]),
    ensures
        final(out)@ == follow_chain(legs@, old(out)@, w),
        forall|x: i32| #[trigger] final(seen)@.contains(x) <==> final(out)@.contains(x),
        final(out)@.no_duplicates(),
        forall|k: int| 0 <= k < final(out)@.len() ==> leg_ends(legs@).contains(#[trigger] final(out)@[k]),
{
    broadcast use vstd::std_specs::hash::group_hash_axioms;
    let ghost e = leg_ends(legs@);
    let mut cur = w;
    loop
        invariant
            e == leg_ends(legs@),
            e.contains(cur),
            forall|x: i32| #[trigger] next@.contains_key(x) <==> next_in_chain(legs@, x) is Some,
            forall|x: i32| #[trigger] next@.contains_key(x) ==> next_in_chain(legs@, x) == Some(next@[x]),
            follow_chain(legs@, out@, cur) == follow_chain(legs@, old(out)@, w),
            forall|x: i32| #[trigger] seen@.contains(x) <==> out@.contains(x),
            out@.no_duplicates(),
            forall|k: int| 0 <= k < out@.len() ==> e.contains(#[trigger] out@[k]),
        ensures
            out@ == follow_chain(legs@, old(out)@, w),
            forall|x: i32| #[trigger] seen@.contains(x) <==> out@.contains(x),
            out@.no_duplicates(),
            forall|k: int| 0 <= k < out@.len() ==> e.contains(#[trigger] out@[k]),
        decreases count_missing(e, out@),
    {
        if seen.contains(&cur) {
            return;
        }
        proof {
            lemma_count_missing_push(e, out@, cur);
        }
        let ghost before = out@;
        out.push(cur);
        seen.insert(cur);
        proof {
            lemma_push_keeps_distinct(before, cur);
            lemma_push_contains(before, cur);
        }
        match next.get(&cur) {
            None => {
                return;
            },
            Some(x) => {
                proof {
                    lemma_next_in_ends(legs@, cur);
                }
                cur = *x;
            },
        }
    }
}

proof fn lemma_push_keeps_distinct(s: Seq<i32>, x: i32)
    requires
        s.no_duplicates(),
        !s.contains(x),
    ensures
        s.push(x).no_duplicates(),
{
    let t = s.push(x);
    assert forall|a: int, b: int| 0 <= a < t.len() && 0 <= b < t.len() && a != b implies t[a] != t[b] by {
        if a == s.len() {
            assert(t[b] == s[b]);
        } else if b == s.len() {
            assert(t[a] == s[a]);
        } else {
            assert(t[a] == s[a] && t[b] == s[b]);
        }
    }
}

proof fn lemma_push_contains(s: Seq<i32>, x: i32)
    ensures
        forall|y: i32| #[trigger] s.push(x).contains(y) <==> (s.contains(y) || y == x),
{
    let t = s.push(x);
    assert forall|y: i32| #[trigger] t.contains(y) <==> (s.contains(y) || y == x) by {
        if t.contains(y) && y != x {
            let k = choose|k: int| 0 <= k < t.len() && t[k] == y;
            assert(s[k] == y);
        }
        if s.contains(y) {
            let k = choose|k: int| 0 <= k < s.len() && s[k] == y;
            assert(t[k] == y);
        }
        if y == x {
            assert(t[s.len() as int] == x);
        }
    }
}

/// Orders the waypoints of an airway from its legs `(first end, second end)`:
/// from each head (a first end that is no leg's second end), in leg order,
/// the chain that follows each waypoint to the second end of the last leg
/// leaving it, stopping at the chain's end or at a waypoint already listed;
/// then the first ends not listed yet, in leg order (an airway without a
/// head is listed so), then the second ends not listed yet. Every end of
/// every leg is listed exactly once.
pub fn order_airway_waypoints(legs: &Vec<(i32, i32)>) -> (res: Vec<i32>)
    ensures
        res@ == airway_order(legs@),
        res@.no_duplicates(),
        forall|x: i32| res@.contains(x) <==> leg_ends(legs@).contains(x),
{
    broadcast use vstd::std_specs::hash::group_hash_axioms;
    let n = legs.len();
    let ghost e = leg_ends(legs@);
    let next = next_map(legs);
    let seconds = second_ends(legs);
    let mut out: Vec<i32> = Vec::new();
    let mut seen: HashSet<i32> = HashSet::new();
    let mut i: usize = 0;
    while i < n
        invariant
            i <= n == legs@.len(),
            e == leg_ends(legs@),
            forall|x: i32| #[trigger] next@.contains_key(x) <==> next_in_chain(legs@, x) is Some,
            forall|x: i32| #[trigger] next@.contains_key(x) ==> next_in_chain(legs@, x) == Some(next@[x]),
            forall|x: i32| #[trigger] seconds@.contains(x) <==> exists|j: int| 0 <= j < legs@.len() && (#[trigger] legs@[j]).1 == x,
            out@ == heads_listed(legs@, i as nat),
            forall|x: i32| #[trigger] seen@.contains(x) <==> out@.contains(x),
            out@.no_duplicates(),
            forall|k: int| 0 <= k < out@.len() ==> e.contains(#[trigger] out@[k]),
        decreases n - i,
    {
        let w1 = legs[i].0;
        if !seconds.contains(&w1) {
            proof {
                assert(is_chain_start(legs@, i as int)) by {
                    assert forall|j: int| 0 <= j < legs@.len() implies (#[trigger] legs@[j]).1 != legs@[i as int].0 by {
                        if legs@[j].1 == w1 {
                            assert(seconds@.contains(w1));
                        }
                    }
                }
                lemma_leg_ends_contain(legs@, i as int);
            }
            follow_chain_exec(legs, &next, &mut out, &mut seen, w1);
        } else {
            proof {
                let j = choose|j: int| 0 <= j < legs@.len() && (#[trigger] legs@[j]).1 == w1;
                assert(!is_chain_start(legs@, i as int));
            }
        }
        i += 1;
    }
    let mut firsts: Vec<i32> = Vec::new();
    let mut ends: Vec<i32> = Vec::new();
    let mut i: usize = 0;
    while i < n
        invariant
            i <= n == legs@.len(),
            ends@ == leg_ends(legs@.take(i as int)),
            firsts@ == first_ends(legs@.take(i as int)),
        decreases n - i,
    {
        assert(legs@.take(i + 1).drop_last() =~= legs@.take(i as int));
        firsts.push(legs[i].0);
        ends.push(legs[i].0);
        ends.push(legs[i].1);
        assert(ends@ =~= leg_ends(legs@.take(i + 1)));
        assert(firsts@ =~= first_ends(legs@.take(i + 1)));
        i += 1;
    }
    assert(legs@.take(n as int) =~= legs@);
    assert forall|m: int| 0 <= m < firsts@.len() implies e.contains(#[trigger] firsts@[m]) by {
        lemma_leg_ends_contain(legs@, m);
    }
    append_missing(&mut out, &mut seen, &firsts, Ghost(e));
    append_missing(&mut out, &mut seen, &ends, Ghost(e));
    proof {
        assert forall|x: i32| out@.contains(x) <==> e.contains(x) by {
            if e.contains(x) {
                let m = choose|m: int| 0 <= m < e.len() && e[m] == x;
                assert(out@.contains(ends@[m]));
            }
            if out@.contains(x) {
                let m = choose|m: int| 0 <= m < out@.len() && out@[m] == x;
                assert(e.contains(out@[m]));
            }
        }
    }
    out
}

/// Appends to `out` the entries of `xs` that it does not hold yet, in
/// order, each once; `seen` holds the entries of `out`.
fn append_missing(out: &mut Vec<i32>, seen: &mut HashSet<i32>, xs: &Vec<i32>, Ghost(e): Ghost<Seq<i32>>)
    requires
        forall|x: i32| #[trigger] old(seen)@.contains(x) <==> old(out)@.contains(x),
        old(out)@.no_duplicates(),
        forall|m: int| 0 <= m < old(out)@.len() ==> e.contains(#[trigger] old(out)@[m]),
        forall|m: int| 0 <= m < xs@.len() ==> e.contains(#[trigger] xs@[m]),
    ensures
        final(out)@ == add_missing(old(out)@, xs@),
        forall|x: i32| #[trigger] final(seen)@.contains(x) <==> final(out)@.contains(x),
        final(out)@.no_duplicates(),
        forall|m: int| 0 <= m < final(out)@.len() ==> e.contains(#[trigger] final(out)@[m]),
        forall|m: int| 0 <= m < xs@.len() ==> final(out)@.contains(#[trigger] xs@[m]),
{
    broadcast use vstd::std_specs::hash::group_hash_axioms;
    let ghost start = out@;
    let mut k: usize = 0;
    while k < xs.len()
        invariant
            k <= xs@.len(),
            forall|m: int| 0 <= m < xs@.len() ==> e.contains(#[trigger] xs@[m]),
            out@ == add_missing(start, xs@.take(k as int)),
            forall|x: i32| #[trigger] seen@.contains(x) <==> out@.contains(x),
            out@.no_duplicates(),
            forall|m: int| 0 <= m < out@.len() ==> e.contains(#[trigger] out@[m]),
            forall|m: int| 0 <= m < k ==> out@.contains(#[trigger] xs@[m]),
        decreases xs@.len() - k,
    {
        assert(xs@.take(k + 1).drop_last() =~= xs@.take(k as int));
        let x = xs[k];
        let ghost before = out@;
        if !seen.contains(&x) {
            out.push(x);
            seen.insert(x);
            proof {
                lemma_push_keeps_distinct(before, x);
            }
        }
        proof {
            assert(xs@[k as int] == x);
            lemma_push_contains(before, x);
            assert forall|m: int| 0 <= m <= k implies out@.contains(#[trigger] xs@[m]) by {
                if m < k {
                    assert(before.contains(xs@[m]));
                }
            }
            assert forall|m: int| 0 <= m < out@.len() implies e.contains(#[trigger] out@[m]) by {
                if m == before.len() {
                    assert(xs@[k as int] == out@[m]);
                } else {
                    assert(before[m] == out@[m]);
                }
            }
        }
        k += 1;
    }
    assert(xs@.take(xs@.len() as int) =~= xs@);
}

/// The second ends of the legs.
fn second_ends(legs: &Vec<(i32, i32)>) -> (s: HashSet<i32>)
    ensures
        forall|x: i32| #[trigger] s@.contains(x) <==> exists|j: int| 0 <= j < legs@.len() && (#[trigger] legs@[j]).1 == x,
{
    broadcast use vstd::std_specs::hash::group_hash_axioms;
    let mut s: HashSet<i32> = HashSet::new();
    let mut i: usize = 0;
    while i < legs.len()
        invariant
            i <= legs@.len(),
            forall|x: i32| #[trigger] s@.contains(x) <==> exists|j: int| 0 <= j < i && (#[trigger] legs@[j]).1 == x,
        decreases legs@.len() - i,
    {
        s.insert(legs[i].1);
        proof {
            assert forall|x: i32| #[trigger] s@.contains(x) <==> exists|j: int| 0 <= j < i + 1 && (#[trigger] legs@[j]).1 == x by {
                if x == legs@[i as int].1 {
                    assert(legs@[i as int].1 == x);
                }
            }
        }
        i += 1;
    }
    s
}

/// `c` with an ASCII lower-case letter turned upper-case.
pub open spec fn ascii_upper(c: char) -> char {
    if 'a' <= c && c <= 'z' {
        ((c as u32) - 32) as char
    } else {
        c
    }
}

/// `s` equals "STAR" when ASCII letter case is ignored.
pub open spec fn is_star_request(s: Seq<char>) -> bool {
    &&& s.len() == 4
    &&& ascii_upper(s[0]) == 'S'
    &&& ascii_upper(s[1]) == 'T'
    &&& ascii_upper(s[2]) == 'A'
    &&& ascii_upper(s[3]) == 'R'
}

fn upper_is(c: char, upper: char, lower: char) -> (b: bool)
    requires
        'A' <= upper <= 'Z',
        lower as u32 == upper as u32 + 32,
    ensures
        b == (ascii_upper(c) == upper),
{
    c == upper || c == lower
}

/// Procedure type code of the database for a requested type: "2" (arrivals)
/// for "STAR" in any ASCII letter case, "1" (departures) for anything else.
pub fn procedure_type_code(ptype: &str) -> (code: &'static str)
    ensures
        code@ == if is_star_request(ptype@) { "2"@ } else { "1"@ },
{
    let star = ptype.unicode_len() == 4 && upper_is(ptype.get_char(0), 'S', 's') && upper_is(
        ptype.get_char(1),
        'T',
        't',
    ) && upper_is(ptype.get_char(2), 'A', 'a') && upper_is(ptype.get_char(3), 'R', 'r');
    if star {
        "2"
    } else {
        "1"
    }
}
} // verus!
