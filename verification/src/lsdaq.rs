//! Reading a board's PXI address out of the kernel driver's device listing.
//!
//! The driver lists the boards it serves one per line; a board is named by
//! a VISA resource string `PXI<bus>::<device>::INSTR`. The board that the
//! driver is opened on is the one named on the last line of the listing:
//! the leftmost resource string on that line gives its bus and device
//! numbers, each in decimal and each within the range of an `i32`.
//!
//! Everything here works on the bytes of the listing. The resource string
//! is pure ASCII, so a match in the bytes is a match in the text.
use vstd::prelude::*;

verus! {

/// Line feed.
pub const NL: u8 = 10;

/// Carriage return.
pub const CR: u8 = 13;

// ---------------------------------------------------------------------------
// The listing's lines
// ---------------------------------------------------------------------------

/// Where the last line of `s` starts: just after its last line feed, or at
/// the beginning when `s` holds none.
pub open spec fn line_start(s: Seq<u8>) -> int
    decreases s.len(),
{
    if s.len() == 0 {
        0
    } else if s.last() == NL {
        s.len() as int
    } else {
        line_start(s.drop_last())
    }
}

/// The last line of a listing, as a line-by-line reader yields it: `None`
/// for an empty listing; otherwise the text after the last line feed that
/// is not the listing's final byte, without its line feed, and without the
/// carriage return before that line feed, if the line ends with one.
pub open spec fn last_line_of(s: Seq<u8>) -> Option<Seq<u8>> {
    if s.len() == 0 {
        None
    } else {
        let terminated = s.last() == NL;
        let body = if terminated { s.drop_last() } else { s };
        let line = body.subrange(line_start(body), body.len() as int);
        if terminated && line.len() > 0 && line.last() == CR {
            Some(line.drop_last())
        } else {
            Some(line)
        }
    }
}

// ---------------------------------------------------------------------------
// The resource string `PXI<digits>::<digits>::INSTR`
// ---------------------------------------------------------------------------

/// An ASCII decimal digit.
pub open spec fn is_digit(b: u8) -> bool {
    48 <= b <= 57
}

/// The number of consecutive ASCII digits in `s` from index `i` on.
pub open spec fn digit_run(s: Seq<u8>, i: int) -> nat
    decreases s.len() - i,
{
    if 0 <= i < s.len() && is_digit(s[i]) {
        1 + digit_run(s, i + 1)
    } else {
        0
    }
}

/// `s` holds `PXI` at index `i`.
pub open spec fn has_pxi_at(s: Seq<u8>, i: int) -> bool {
    &&& 0 <= i
    &&& i + 3 <= s.len()
    &&& s[i] == 80
    &&& s[i + 1] == 88
    &&& s[i + 2] == 73
}

/// `s` holds `::` at index `i`.
pub open spec fn has_separator_at(s: Seq<u8>, i: int) -> bool {
    &&& 0 <= i
    &&& i + 2 <= s.len()
    &&& s[i] == 58
    &&& s[i + 1] == 58
}

/// `s` holds `::INSTR` at index `i`.
pub open spec fn has_instr_at(s: Seq<u8>, i: int) -> bool {
    &&& has_separator_at(s, i)
    &&& i + 7 <= s.len()
    &&& s[i + 2] == 73
    &&& s[i + 3] == 78
    &&& s[i + 4] == 83
    &&& s[i + 5] == 84
    &&& s[i + 6] == 82
}

/// Where the bus digits end in a resource string starting at `i`.
pub open spec fn bus_end(s: Seq<u8>, i: int) -> int {
    i + 3 + digit_run(s, i + 3)
}

/// Where the device digits start in a resource string starting at `i`.
pub open spec fn device_start(s: Seq<u8>, i: int) -> int {
    bus_end(s, i) + 2
}

/// Where the device digits end in a resource string starting at `i`.
pub open spec fn device_end(s: Seq<u8>, i: int) -> int {
    device_start(s, i) + digit_run(s, device_start(s, i))
}

/// A resource string `PXI<digits>::<digits>::INSTR` starts at index `i` of
/// `s`. A run of digits can only be followed by `::` where it ends, so
/// each run is the longest one at its place.
pub open spec fn pxi_match_at(s: Seq<u8>, i: int) -> bool {
    &&& has_pxi_at(s, i)
    &&& bus_end(s, i) > i + 3
    &&& has_separator_at(s, bus_end(s, i))
    &&& device_end(s, i) > device_start(s, i)
    &&& has_instr_at(s, device_end(s, i))
}

/// The first index at or after `i` where a resource string starts.
pub open spec fn first_match_from(s: Seq<u8>, i: int) -> Option<int>
    decreases s.len() - i,
{
    if 0 <= i < s.len() {
        if pxi_match_at(s, i) {
            Some(i)
        } else {
            first_match_from(s, i + 1)
        }
    } else {
        None
    }
}

/// Where the leftmost resource string of `s` starts, if there is one.
pub open spec fn first_match(s: Seq<u8>) -> Option<int> {
    first_match_from(s, 0)
}

/// The bus digits of the resource string starting at `i`.
pub open spec fn bus_digits(s: Seq<u8>, i: int) -> Seq<u8> {
    s.subrange(i + 3, bus_end(s, i))
}

/// The device digits of the resource string starting at `i`.
pub open spec fn device_digits(s: Seq<u8>, i: int) -> Seq<u8> {
    s.subrange(device_start(s, i), device_end(s, i))
}

// ---------------------------------------------------------------------------
// Numbers
// ---------------------------------------------------------------------------

/// The number that a string of decimal digits denotes.
pub open spec fn decimal_value(d: Seq<u8>) -> int
    decreases d.len(),
{
    if d.len() == 0 {
        0
    } else {
        decimal_value(d.drop_last()) * 10 + (d.last() - 48)
    }
}

/// Ten to the power `n`.
pub open spec fn pow10(n: nat) -> nat
    decreases n,
{
    if n == 0 {
        1
    } else {
        10 * pow10((n - 1) as nat)
    }
}

/// A field of digits read as an `i32`: its value, or `None` where the value
/// does not fit.
pub open spec fn field_value(d: Seq<u8>) -> Option<i32> {
    if decimal_value(d) <= i32::MAX {
        Some(decimal_value(d) as i32)
    } else {
        None
    }
}

/// The decimal digits of `n`, without leading zeros.
pub open spec fn decimal_digits(n: nat) -> Seq<u8>
    decreases n,
{
    if n < 10 {
        seq![(48 + n) as u8]
    } else {
        decimal_digits(n / 10).push((48 + n % 10) as u8)
    }
}

/// Every byte of `d` is an ASCII decimal digit.
pub open spec fn all_digits(d: Seq<u8>) -> bool {
    forall|k: int| 0 <= k < d.len() ==> is_digit(#[trigger] d[k])
}

/// The text `PXI<bus digits>::<device digits>::INSTR`.
pub open spec fn resource_string(bus_text: Seq<u8>, device_text: Seq<u8>) -> Seq<u8> {
    seq![80u8, 88u8, 73u8] + bus_text + seq![58u8, 58u8] + device_text + seq![
        58u8,
        58u8,
        73u8,
        78u8,
        83u8,
        84u8,
        82u8,
    ]
}

/// Some text `PXI<digits>::<digits>::INSTR`, with at least one digit in
/// each field, stands in `s` from index `i` on, whatever bytes surround it.
pub open spec fn resource_at(s: Seq<u8>, i: int) -> bool {
    exists|bus_text: Seq<u8>, device_text: Seq<u8>|
        #![trigger resource_string(bus_text, device_text)]
        {
            &&& bus_text.len() > 0
            &&& device_text.len() > 0
            &&& all_digits(bus_text)
            &&& all_digits(device_text)
            &&& 0 <= i
            &&& i + resource_string(bus_text, device_text).len() <= s.len()
            &&& s.subrange(i, i + resource_string(bus_text, device_text).len())
                == resource_string(bus_text, device_text)
        }
}

/// The resource string that names the board at `bus` and `device`.
pub open spec fn pxi_line(bus: nat, device: nat) -> Seq<u8> {
    seq![80u8, 88u8, 73u8] + decimal_digits(bus) + seq![58u8, 58u8] + decimal_digits(device)
        + seq![58u8, 58u8, 73u8, 78u8, 83u8, 84u8, 82u8]
}

// ---------------------------------------------------------------------------
// The board's address
// ---------------------------------------------------------------------------

/// The PXI address of a board.
#[derive(Clone, Copy, Debug, PartialEq, Eq, Structural)]
pub struct DeviceAddress {
    pub bus: i32,
    pub device: i32,
}

/// Why a listing names no board.
#[derive(Clone, Copy, Debug, PartialEq, Eq, Structural)]
pub enum LocateError {
    /// The listing holds no line.
    NoLines,
    /// The last line holds no resource string.
    NoMatch,
    /// The bus number does not fit in an `i32`.
    BusOutOfRange,
    /// The device number does not fit in an `i32`.
    DeviceOutOfRange,
}

/// The board that a listing names, or why it names none. The bus number is
/// read before the device number.
pub open spec fn locate_spec(contents: Seq<u8>) -> Result<DeviceAddress, LocateError> {
    match last_line_of(contents) {
        None => Err(LocateError::NoLines),
        Some(line) => match first_match(line) {
            None => Err(LocateError::NoMatch),
            Some(i) => match field_value(bus_digits(line, i)) {
                None => Err(LocateError::BusOutOfRange),
                Some(bus) => match field_value(device_digits(line, i)) {
                    None => Err(LocateError::DeviceOutOfRange),
                    Some(device) => Ok(DeviceAddress { bus, device }),
                },
            },
        },
    }
}

// ---------------------------------------------------------------------------
// Lemmas
// ---------------------------------------------------------------------------

proof fn lemma_line_start_bounds(s: Seq<u8>)
    ensures
        0 <= line_start(s) <= s.len(),
    decreases s.len(),
{
    if s.len() > 0 && s.last() != NL {
        lemma_line_start_bounds(s.drop_last());
    }
}

proof fn lemma_line_start(s: Seq<u8>, i: int)
    requires
        0 <= i <= s.len(),
        forall|k: int| i <= k < s.len() ==> s[k] != NL,
        i == 0 || s[i - 1] == NL,
    ensures
        line_start(s) == i,
    decreases s.len(),
{
    lemma_line_start_bounds(s);
    if s.len() > i {
        lemma_line_start(s.drop_last(), i);
    }
}

proof fn lemma_line_start_concat(e: Seq<u8>, t: Seq<u8>)
    requires
        e.len() == 0 || e.last() == NL,
    ensures
        line_start(e + t) == e.len() + line_start(t),
    decreases t.len(),
{
    if t.len() == 0 {
        assert(e + t =~= e);
    } else if t.last() != NL {
        assert((e + t).drop_last() =~= e + t.drop_last());
        lemma_line_start_concat(e, t.drop_last());
    }
}

proof fn lemma_digit_run_digits(s: Seq<u8>, i: int)
    requires
        0 <= i,
    ensures
        digit_run(s, i) > 0 ==> i + digit_run(s, i) <= s.len(),
        forall|k: int| i <= k < i + digit_run(s, i) ==> is_digit(#[trigger] s[k]),
    decreases s.len() - i,
{
    if 0 <= i < s.len() && is_digit(s[i]) {
        lemma_digit_run_digits(s, i + 1);
    }
}

proof fn lemma_digit_run_exact(s: Seq<u8>, i: int, n: int)
    requires
        0 <= i,
        0 <= n,
        i + n <= s.len(),
        forall|k: int| i <= k < i + n ==> is_digit(#[trigger] s[k]),
        i + n == s.len() || !is_digit(s[i + n]),
    ensures
        digit_run(s, i) == n,
    decreases n,
{
    if n > 0 {
        lemma_digit_run_exact(s, i + 1, n - 1);
    }
}

proof fn lemma_decimal_value_prefix(d: Seq<u8>, m: int)
    requires
        0 <= m <= d.len(),
        forall|k: int| 0 <= k < d.len() ==> is_digit(#[trigger] d[k]),
    ensures
        0 <= decimal_value(d.take(m)) <= decimal_value(d),
    decreases d.len(),
{
    if m == d.len() {
        assert(d.take(m) =~= d);
    } else {
        assert(d.take(m) =~= d.drop_last().take(m));
        lemma_decimal_value_prefix(d.drop_last(), m);
    }
    if d.len() > 0 {
        lemma_decimal_value_prefix(d.drop_last(), d.len() - 1);
        assert(d.drop_last().take(d.len() - 1) =~= d.drop_last());
    }
}

proof fn lemma_decimal_digits(n: nat)
    ensures
        decimal_digits(n).len() >= 1,
        forall|k: int| 0 <= k < decimal_digits(n).len() ==> is_digit(#[trigger] decimal_digits(n)[k]),
        decimal_value(decimal_digits(n)) == n,
    decreases n,
{
    let d = decimal_digits(n);
    assert(decimal_value(d) == decimal_value(d.drop_last()) * 10 + (d.last() - 48));
    if n < 10 {
        assert(decimal_value(Seq::<u8>::empty()) == 0);
        assert(d.drop_last() =~= Seq::<u8>::empty());
        assert(d.last() == 48 + n);
    } else {
        lemma_decimal_digits(n / 10);
        assert(d.drop_last() =~= decimal_digits(n / 10));
        assert(n % 10 < 10);
        assert(d.last() == 48 + n % 10);
        assert(n == (n / 10) * 10 + n % 10);
    }
}

/// The leftmost resource string starting at or after `i`.
proof fn lemma_first_match_from(s: Seq<u8>, i: int)
    requires
        0 <= i <= s.len(),
    ensures
        match first_match_from(s, i) {
            Some(m) => i <= m < s.len() && pxi_match_at(s, m) && forall|j: int|
                i <= j < m ==> !pxi_match_at(s, j),
            None => forall|j: int| i <= j < s.len() ==> !pxi_match_at(s, j),
        },
    decreases s.len() - i,
{
    if i < s.len() && !pxi_match_at(s, i) {
        lemma_first_match_from(s, i + 1);
    }
}

/// The resource string that a listing is read by is the leftmost one on
/// its line: it starts at `first_match(s)`, and none starts before it.
pub proof fn lemma_first_match_is_leftmost(s: Seq<u8>)
    ensures
        match first_match(s) {
            Some(m) => 0 <= m < s.len() && pxi_match_at(s, m) && forall|j: int|
                0 <= j < m ==> !pxi_match_at(s, j),
            None => forall|j: int| 0 <= j < s.len() ==> !pxi_match_at(s, j),
        },
{
    lemma_first_match_from(s, 0);
}

/// Lines before the last one do not matter: a listing whose last lines are
/// `rest` names the board that `rest` names alone.
pub proof fn lemma_earlier_lines_ignored(earlier: Seq<u8>, rest: Seq<u8>)
    requires
        earlier.len() == 0 || earlier.last() == NL,
        rest.len() > 0,
    ensures
        last_line_of(earlier + rest) == last_line_of(rest),
        locate_spec(earlier + rest) == locate_spec(rest),
{
    let s = earlier + rest;
    let terminated = rest.last() == NL;
    assert(s.last() == rest.last());
    let body_r = if terminated { rest.drop_last() } else { rest };
    let body_s = if terminated { s.drop_last() } else { s };
    assert(body_s =~= earlier + body_r);
    lemma_line_start_concat(earlier, body_r);
    lemma_line_start_bounds(body_r);
    assert(body_s.subrange(line_start(body_s), body_s.len() as int) =~= body_r.subrange(
        line_start(body_r),
        body_r.len() as int,
    ));
}

proof fn lemma_pxi_line_layout(bus: nat, device: nat)
    ensures
        ({
            let l = pxi_line(bus, device);
            let nb = decimal_digits(bus).len() as int;
            let nd = decimal_digits(device).len() as int;
            &&& nb >= 1 && nd >= 1
            &&& l.len() == 12 + nb + nd
            &&& forall|k: int| 0 <= k < nb ==> l[3 + k] == decimal_digits(bus)[k]
            &&& forall|k: int| 0 <= k < nd ==> l[5 + nb + k] == decimal_digits(device)[k]
            &&& forall|k: int| 3 <= k < 3 + nb ==> is_digit(#[trigger] l[k])
            &&& forall|k: int| 5 + nb <= k < 5 + nb + nd ==> is_digit(#[trigger] l[k])
            &&& l[0] == 80 && l[1] == 88 && l[2] == 73
            &&& l[3 + nb] == 58 && l[4 + nb] == 58
            &&& l[5 + nb + nd] == 58 && l[6 + nb + nd] == 58 && l[7 + nb + nd] == 73
            &&& l[8 + nb + nd] == 78 && l[9 + nb + nd] == 83 && l[10 + nb + nd] == 84
            &&& l[11 + nb + nd] == 82
        }),
{
    let db = decimal_digits(bus);
    let dd = decimal_digits(device);
    lemma_decimal_digits(bus);
    lemma_decimal_digits(device);
    let p = seq![80u8, 88u8, 73u8];
    let c = seq![58u8, 58u8];
    let t = seq![58u8, 58u8, 73u8, 78u8, 83u8, 84u8, 82u8];
    let l = pxi_line(bus, device);
    let nb = db.len() as int;
    let nd = dd.len() as int;
    assert(l =~= p + db + c + dd + t);
    assert forall|k: int| 0 <= k < nb implies l[3 + k] == db[k] by {
        assert((p + db)[3 + k] == db[k]);
    }
    assert forall|k: int| 0 <= k < nd implies l[5 + nb + k] == dd[k] by {
        assert((p + db + c + dd)[5 + nb + k] == dd[k]);
    }
    assert forall|k: int| 3 <= k < 3 + nb implies is_digit(#[trigger] l[k]) by {
        assert(l[3 + (k - 3)] == db[k - 3]);
    }
    assert forall|k: int| 5 + nb <= k < 5 + nb + nd implies is_digit(#[trigger] l[k]) by {
        assert(l[5 + nb + (k - 5 - nb)] == dd[k - 5 - nb]);
    }
    assert((p + db)[3 + nb - 1] == db[nb - 1]);
    assert((p + db + c)[3 + nb] == 58 && (p + db + c)[4 + nb] == 58);
    let h = p + db + c + dd;
    assert(h.len() == 5 + nb + nd);
    assert((h + t)[5 + nb + nd] == 58 && (h + t)[6 + nb + nd] == 58);
    assert((h + t)[7 + nb + nd] == 73 && (h + t)[8 + nb + nd] == 78);
    assert((h + t)[9 + nb + nd] == 83 && (h + t)[10 + nb + nd] == 84);
    assert((h + t)[11 + nb + nd] == 82);
}

proof fn lemma_pxi_line_matches(bus: nat, device: nat)
    ensures
        first_match(pxi_line(bus, device)) == Some(0int),
        bus_digits(pxi_line(bus, device), 0) == decimal_digits(bus),
        device_digits(pxi_line(bus, device), 0) == decimal_digits(device),
        forall|k: int| 0 <= k < pxi_line(bus, device).len() ==> #[trigger] pxi_line(bus, device)[k] != NL,
        pxi_line(bus, device).len() > 0,
        pxi_line(bus, device).last() == 82,
{
    lemma_pxi_line_layout(bus, device);
    let l = pxi_line(bus, device);
    let db = decimal_digits(bus);
    let dd = decimal_digits(device);
    let nb = db.len() as int;
    let nd = dd.len() as int;
    lemma_digit_run_exact(l, 3, nb);
    lemma_digit_run_exact(l, 5 + nb, nd);
    assert(pxi_match_at(l, 0));
    assert(bus_digits(l, 0) =~= db);
    assert(device_digits(l, 0) =~= dd);
    assert forall|k: int| 0 <= k < l.len() implies #[trigger] l[k] != NL by {
        if 3 <= k < 3 + nb {
            assert(is_digit(l[k]));
        } else if 5 + nb <= k < 5 + nb + nd {
            assert(is_digit(l[k]));
        }
    }
}

/// A listing whose last line is the resource string of the board at `bus`
/// and `device` names that board, whatever lines come before it and
/// whether or not the line is terminated.
pub proof fn lemma_locate_formatted(earlier: Seq<u8>, bus: nat, device: nat, terminated: bool)
    requires
        earlier.len() == 0 || earlier.last() == NL,
        bus <= i32::MAX,
        device <= i32::MAX,
    ensures
        locate_spec(
            earlier + pxi_line(bus, device) + (if terminated {
                seq![NL]
            } else {
                Seq::<u8>::empty()
            }),
        ) == Ok::<DeviceAddress, LocateError>(DeviceAddress { bus: bus as i32, device: device as i32 }),
{
    let l = pxi_line(bus, device);
    lemma_pxi_line_matches(bus, device);
    lemma_decimal_digits(bus);
    lemma_decimal_digits(device);
    lemma_line_start(l, 0);
    let tail = if terminated {
        seq![NL]
    } else {
        Seq::<u8>::empty()
    };
    let rest = l + tail;
    assert(earlier + l + tail =~= earlier + rest);
    lemma_earlier_lines_ignored(earlier, rest);
    if terminated {
        assert(rest.drop_last() =~= l);
    } else {
        assert(rest =~= l);
    }
    assert(l.subrange(0, l.len() as int) =~= l);
    assert(last_line_of(rest) == Some(l));
}

proof fn lemma_resource_layout(bt: Seq<u8>, dt: Seq<u8>)
    requires
        bt.len() > 0,
        dt.len() > 0,
        all_digits(bt),
        all_digits(dt),
    ensures
        ({
            let r = resource_string(bt, dt);
            let nb = bt.len() as int;
            let nd = dt.len() as int;
            &&& r.len() == 12 + nb + nd
            &&& forall|k: int| 0 <= k < nb ==> r[3 + k] == bt[k]
            &&& forall|k: int| 0 <= k < nd ==> r[5 + nb + k] == dt[k]
            &&& r[0] == 80 && r[1] == 88 && r[2] == 73
            &&& r[3 + nb] == 58 && r[4 + nb] == 58
            &&& r[5 + nb + nd] == 58 && r[6 + nb + nd] == 58 && r[7 + nb + nd] == 73
            &&& r[8 + nb + nd] == 78 && r[9 + nb + nd] == 83 && r[10 + nb + nd] == 84
            &&& r[11 + nb + nd] == 82
            &&& forall|k: int| 0 <= k < r.len() ==> #[trigger] r[k] != NL
            &&& forall|k: int| 0 < k < r.len() ==> #[trigger] r[k] != 80
        }),
{
    let p = seq![80u8, 88u8, 73u8];
    let c = seq![58u8, 58u8];
    let t = seq![58u8, 58u8, 73u8, 78u8, 83u8, 84u8, 82u8];
    let r = resource_string(bt, dt);
    let nb = bt.len() as int;
    let nd = dt.len() as int;
    assert(r =~= p + bt + c + dt + t);
    assert forall|k: int| 0 <= k < nb implies r[3 + k] == bt[k] by {
        assert((p + bt)[3 + k] == bt[k]);
    }
    assert forall|k: int| 0 <= k < nd implies r[5 + nb + k] == dt[k] by {
        assert((p + bt + c + dt)[5 + nb + k] == dt[k]);
    }
    assert((p + bt + c)[3 + nb] == 58 && (p + bt + c)[4 + nb] == 58);
    let h = p + bt + c + dt;
    assert(h.len() == 5 + nb + nd);
    assert((h + t)[5 + nb + nd] == 58 && (h + t)[6 + nb + nd] == 58);
    assert((h + t)[7 + nb + nd] == 73 && (h + t)[8 + nb + nd] == 78);
    assert((h + t)[9 + nb + nd] == 83 && (h + t)[10 + nb + nd] == 84);
    assert((h + t)[11 + nb + nd] == 82);
    assert forall|k: int| 0 < k < r.len() implies #[trigger] r[k] != 80 && r[k] != NL by {
        if 3 <= k < 3 + nb {
            assert(r[3 + (k - 3)] == bt[k - 3]);
            assert(is_digit(bt[k - 3]));
        } else if 5 + nb <= k < 5 + nb + nd {
            assert(r[5 + nb + (k - 5 - nb)] == dt[k - 5 - nb]);
            assert(is_digit(dt[k - 5 - nb]));
        }
    }
}

/// A resource string standing at index `i` of `s` is matched there, and
/// its two digit fields are the captured bus and device digits.
proof fn lemma_resource_text_matches(s: Seq<u8>, i: int, bt: Seq<u8>, dt: Seq<u8>)
    requires
        bt.len() > 0,
        dt.len() > 0,
        all_digits(bt),
        all_digits(dt),
        0 <= i,
        i + resource_string(bt, dt).len() <= s.len(),
        s.subrange(i, i + resource_string(bt, dt).len()) == resource_string(bt, dt),
    ensures
        pxi_match_at(s, i),
        bus_digits(s, i) == bt,
        device_digits(s, i) == dt,
{
    lemma_resource_layout(bt, dt);
    let r = resource_string(bt, dt);
    let nb = bt.len() as int;
    let nd = dt.len() as int;
    assert forall|k: int| 0 <= k < r.len() implies s[i + k] == r[k] by {
        assert(s.subrange(i, i + r.len())[k] == s[i + k]);
    }
    assert forall|k: int| i + 3 <= k < i + 3 + nb implies is_digit(#[trigger] s[k]) by {
        assert(s[i + (k - i)] == r[k - i]);
        assert(r[3 + (k - i - 3)] == bt[k - i - 3]);
    }
    assert(s[i + (3 + nb)] == r[3 + nb]);
    lemma_digit_run_exact(s, i + 3, nb);
    assert forall|k: int| i + 5 + nb <= k < i + 5 + nb + nd implies is_digit(#[trigger] s[k]) by {
        assert(s[i + (k - i)] == r[k - i]);
        assert(r[5 + nb + (k - i - 5 - nb)] == dt[k - i - 5 - nb]);
    }
    assert(s[i + (5 + nb + nd)] == r[5 + nb + nd]);
    lemma_digit_run_exact(s, i + 5 + nb, nd);
    assert(s[i + 0] == r[0] && s[i + 1] == r[1] && s[i + 2] == r[2]);
    assert(s[i + (4 + nb)] == r[4 + nb]);
    assert(s[i + (6 + nb + nd)] == r[6 + nb + nd] && s[i + (7 + nb + nd)] == r[7 + nb + nd]);
    assert(s[i + (8 + nb + nd)] == r[8 + nb + nd] && s[i + (9 + nb + nd)] == r[9 + nb + nd]);
    assert(s[i + (10 + nb + nd)] == r[10 + nb + nd] && s[i + (11 + nb + nd)] == r[11 + nb
        + nd]);
    assert(pxi_match_at(s, i));
    assert forall|k: int| 0 <= k < nb implies bus_digits(s, i)[k] == bt[k] by {
        assert(s[i + (3 + k)] == r[3 + k]);
    }
    assert(bus_digits(s, i) =~= bt);
    assert forall|k: int| 0 <= k < nd implies device_digits(s, i)[k] == dt[k] by {
        assert(s[i + (5 + nb + k)] == r[5 + nb + k]);
    }
    assert(device_digits(s, i) =~= dt);
}

/// A match at `i` is resource text standing at `i`.
proof fn lemma_match_is_resource_text(s: Seq<u8>, i: int)
    requires
        pxi_match_at(s, i),
    ensures
        bus_digits(s, i).len() > 0,
        device_digits(s, i).len() > 0,
        all_digits(bus_digits(s, i)),
        all_digits(device_digits(s, i)),
        i + resource_string(bus_digits(s, i), device_digits(s, i)).len() <= s.len(),
        s.subrange(i, i + resource_string(bus_digits(s, i), device_digits(s, i)).len())
            == resource_string(bus_digits(s, i), device_digits(s, i)),
{
    let bt = bus_digits(s, i);
    let dt = device_digits(s, i);
    lemma_digit_run_digits(s, i + 3);
    lemma_digit_run_digits(s, device_start(s, i));
    assert forall|k: int| 0 <= k < bt.len() implies is_digit(#[trigger] bt[k]) by {
        assert(bt[k] == s[i + 3 + k]);
    }
    assert forall|k: int| 0 <= k < dt.len() implies is_digit(#[trigger] dt[k]) by {
        assert(dt[k] == s[device_start(s, i) + k]);
    }
    lemma_resource_layout(bt, dt);
    let r = resource_string(bt, dt);
    let nb = bt.len() as int;
    let nd = dt.len() as int;
    assert(device_start(s, i) == i + 5 + nb);
    assert(device_end(s, i) == i + 5 + nb + nd);
    assert forall|k: int| 0 <= k < r.len() implies #[trigger] s.subrange(i, i + r.len())[k]
        == r[k] by {
        if 3 <= k < 3 + nb {
            assert(r[3 + (k - 3)] == bt[k - 3]);
        } else if 5 + nb <= k < 5 + nb + nd {
            assert(r[5 + nb + (k - 5 - nb)] == dt[k - 5 - nb]);
        }
    }
    assert(s.subrange(i, i + r.len()) =~= r);
}

/// A resource string is found at index `i` exactly when the text
/// `PXI<digits>::<digits>::INSTR` (one or more digits in each field)
/// stands in `s` from `i` on; the bytes before and after it play no part.
pub proof fn lemma_match_is_resource_string(s: Seq<u8>, i: int)
    ensures
        pxi_match_at(s, i) <==> resource_at(s, i),
{
    if pxi_match_at(s, i) {
        lemma_match_is_resource_text(s, i);
        let bt = bus_digits(s, i);
        let dt = device_digits(s, i);
        assert(resource_string(bt, dt) == resource_string(bt, dt));
        assert(resource_at(s, i));
    }
    if resource_at(s, i) {
        let (bt, dt) = choose|bt: Seq<u8>, dt: Seq<u8>|
            #![trigger resource_string(bt, dt)]
            {
                &&& bt.len() > 0
                &&& dt.len() > 0
                &&& all_digits(bt)
                &&& all_digits(dt)
                &&& 0 <= i
                &&& i + resource_string(bt, dt).len() <= s.len()
                &&& s.subrange(i, i + resource_string(bt, dt).len()) == resource_string(bt, dt)
            };
        lemma_resource_text_matches(s, i, bt, dt);
    }
}

/// Resource text placed anywhere in a line is matched where it stands, with
/// its own digit fields captured, whatever bytes come before and after it.
pub proof fn lemma_resource_string_in_line(
    pre: Seq<u8>,
    bus_text: Seq<u8>,
    device_text: Seq<u8>,
    post: Seq<u8>,
)
    requires
        bus_text.len() > 0,
        device_text.len() > 0,
        all_digits(bus_text),
        all_digits(device_text),
    ensures
        pxi_match_at(pre + resource_string(bus_text, device_text) + post, pre.len() as int),
        bus_digits(pre + resource_string(bus_text, device_text) + post, pre.len() as int)
            == bus_text,
        device_digits(pre + resource_string(bus_text, device_text) + post, pre.len() as int)
            == device_text,
{
    let r = resource_string(bus_text, device_text);
    let s = pre + r + post;
    assert(s.subrange(pre.len() as int, (pre.len() + r.len()) as int) =~= r);
    lemma_resource_text_matches(s, pre.len() as int, bus_text, device_text);
}

/// No resource string starts inside `pre` in `pre + r + post` when `pre`
/// holds none: one that started there and reached past `pre` would hold
/// the `P` of `r` somewhere after its own first byte.
proof fn lemma_none_before(pre: Seq<u8>, bt: Seq<u8>, dt: Seq<u8>, post: Seq<u8>)
    requires
        bt.len() > 0,
        dt.len() > 0,
        all_digits(bt),
        all_digits(dt),
        forall|j: int| !resource_at(pre, j),
    ensures
        forall|j: int|
            0 <= j < pre.len() ==> !pxi_match_at(pre + resource_string(bt, dt) + post, j),
{
    let r = resource_string(bt, dt);
    let s = pre + r + post;
    lemma_resource_layout(bt, dt);
    assert forall|j: int| 0 <= j < pre.len() implies !pxi_match_at(s, j) by {
        if pxi_match_at(s, j) {
            lemma_match_is_resource_text(s, j);
            let b2 = bus_digits(s, j);
            let d2 = device_digits(s, j);
            let r2 = resource_string(b2, d2);
            lemma_resource_layout(b2, d2);
            if j + r2.len() <= pre.len() {
                assert(pre.subrange(j, j + r2.len()) =~= s.subrange(j, j + r2.len()));
                assert(resource_at(pre, j));
            } else {
                let k = pre.len() - j;
                assert(s.subrange(j, j + r2.len())[k] == s[pre.len() as int]);
                assert(s[pre.len() as int] == r[0]);
                assert(r2[k] != 80);
            }
        }
    }
}

/// The leftmost resource string of a line is the first resource text in
/// it: with none inside `pre`, the match of `pre + text + post` starts
/// where the text does and captures its digit fields.
pub proof fn lemma_leftmost_resource_string(
    pre: Seq<u8>,
    bus_text: Seq<u8>,
    device_text: Seq<u8>,
    post: Seq<u8>,
)
    requires
        bus_text.len() > 0,
        device_text.len() > 0,
        all_digits(bus_text),
        all_digits(device_text),
        forall|j: int| !resource_at(pre, j),
    ensures
        first_match(pre + resource_string(bus_text, device_text) + post) == Some(
            pre.len() as int,
        ),
{
    let s = pre + resource_string(bus_text, device_text) + post;
    lemma_resource_string_in_line(pre, bus_text, device_text, post);
    lemma_none_before(pre, bus_text, device_text, post);
    lemma_first_match_is_leftmost(s);
}

/// The last line is returned whole, whatever bytes it holds: after any
/// complete lines, a line without line feeds is the last line, less the
/// carriage return of a CRLF ending when it is terminated.
pub proof fn lemma_last_line_whole(earlier: Seq<u8>, line: Seq<u8>, terminated: bool)
    requires
        earlier.len() == 0 || earlier.last() == NL,
        forall|k: int| 0 <= k < line.len() ==> #[trigger] line[k] != NL,
        terminated || line.len() > 0,
    ensures
        last_line_of(
            earlier + line + (if terminated {
                seq![NL]
            } else {
                Seq::<u8>::empty()
            }),
        ) == Some(
            if terminated && line.len() > 0 && line.last() == CR {
                line.drop_last()
            } else {
                line
            },
        ),
{
    let tail = if terminated {
        seq![NL]
    } else {
        Seq::<u8>::empty()
    };
    let rest = line + tail;
    assert(earlier + line + tail =~= earlier + rest);
    lemma_earlier_lines_ignored(earlier, rest);
    lemma_line_start(line, 0);
    if terminated {
        assert(rest.drop_last() =~= line);
        assert(rest.last() == NL);
    } else {
        assert(rest =~= line);
    }
    assert(line.subrange(0, line.len() as int) =~= line);
}

/// The board named on the last line of a listing is the one whose resource
/// text comes first on that line, whatever surrounds it: its bus number is
/// the value of the first digit field and its device number the value of
/// the second, or the listing is refused when either does not fit an `i32`
/// (the bus being checked first).
pub proof fn lemma_locate_in_line(
    earlier: Seq<u8>,
    pre: Seq<u8>,
    bus_text: Seq<u8>,
    device_text: Seq<u8>,
    post: Seq<u8>,
    terminated: bool,
)
    requires
        earlier.len() == 0 || earlier.last() == NL,
        forall|k: int| 0 <= k < pre.len() ==> #[trigger] pre[k] != NL,
        forall|k: int| 0 <= k < post.len() ==> #[trigger] post[k] != NL,
        forall|j: int| !resource_at(pre, j),
        bus_text.len() > 0,
        device_text.len() > 0,
        all_digits(bus_text),
        all_digits(device_text),
    ensures
        locate_spec(
            earlier + (pre + resource_string(bus_text, device_text) + post) + (if terminated {
                seq![NL]
            } else {
                Seq::<u8>::empty()
            }),
        ) == (if decimal_value(bus_text) > i32::MAX {
            Err::<DeviceAddress, LocateError>(LocateError::BusOutOfRange)
        } else if decimal_value(device_text) > i32::MAX {
            Err::<DeviceAddress, LocateError>(LocateError::DeviceOutOfRange)
        } else {
            Ok::<DeviceAddress, LocateError>(
                DeviceAddress {
                    bus: decimal_value(bus_text) as i32,
                    device: decimal_value(device_text) as i32,
                },
            )
        }),
{
    let r = resource_string(bus_text, device_text);
    let line = pre + r + post;
    let tail = if terminated {
        seq![NL]
    } else {
        Seq::<u8>::empty()
    };
    let post2 = lemma_last_line_of_resource_line(earlier, pre, bus_text, device_text, post, terminated);
    let l2 = pre + r + post2;
    assert(last_line_of(earlier + line + tail) == Some(l2));
    lemma_leftmost_resource_string(pre, bus_text, device_text, post2);
    lemma_resource_string_in_line(pre, bus_text, device_text, post2);
    assert(first_match(l2) == Some(pre.len() as int));
    assert(bus_digits(l2, pre.len() as int) == bus_text);
    assert(device_digits(l2, pre.len() as int) == device_text);
}

proof fn lemma_last_line_of_resource_line(
    earlier: Seq<u8>,
    pre: Seq<u8>,
    bus_text: Seq<u8>,
    device_text: Seq<u8>,
    post: Seq<u8>,
    terminated: bool,
) -> (post2: Seq<u8>)
    requires
        earlier.len() == 0 || earlier.last() == NL,
        forall|k: int| 0 <= k < pre.len() ==> #[trigger] pre[k] != NL,
        forall|k: int| 0 <= k < post.len() ==> #[trigger] post[k] != NL,
        bus_text.len() > 0,
        device_text.len() > 0,
        all_digits(bus_text),
        all_digits(device_text),
    ensures
        last_line_of(
            earlier + (pre + resource_string(bus_text, device_text) + post) + (if terminated {
                seq![NL]
            } else {
                Seq::<u8>::empty()
            }),
        ) == Some(pre + resource_string(bus_text, device_text) + post2),
{
    let r = resource_string(bus_text, device_text);
    let line = pre + r + post;
    lemma_resource_layout(bus_text, device_text);
    assert forall|k: int| 0 <= k < line.len() implies #[trigger] line[k] != NL by {
        if k < pre.len() {
        } else if k < pre.len() + r.len() {
            assert(line[k] == r[k - pre.len()]);
        } else {
            assert(line[k] == post[k - pre.len() - r.len()]);
        }
    }
    lemma_last_line_whole(earlier, line, terminated);
    if terminated && line.len() > 0 && line.last() == CR {
        if post.len() == 0 {
            assert(line.last() == r[r.len() - 1]);
        }
        assert(line.drop_last() =~= pre + r + post.drop_last());
        post.drop_last()
    } else {
        post
    }
}

/// The board at `bus` and `device`, named anywhere on the last line of a
/// listing (after no other resource string on that line), is the board the
/// listing names: bus and device in that order, whatever bytes surround it.
pub proof fn lemma_locate_address_in_line(
    earlier: Seq<u8>,
    pre: Seq<u8>,
    bus: nat,
    device: nat,
    post: Seq<u8>,
    terminated: bool,
)
    requires
        earlier.len() == 0 || earlier.last() == NL,
        forall|k: int| 0 <= k < pre.len() ==> #[trigger] pre[k] != NL,
        forall|k: int| 0 <= k < post.len() ==> #[trigger] post[k] != NL,
        forall|j: int| !resource_at(pre, j),
        bus <= i32::MAX,
        device <= i32::MAX,
    ensures
        locate_spec(
            earlier + (pre + pxi_line(bus, device) + post) + (if terminated {
                seq![NL]
            } else {
                Seq::<u8>::empty()
            }),
        ) == Ok::<DeviceAddress, LocateError>(DeviceAddress { bus: bus as i32, device: device as i32 }),
{
    lemma_decimal_digits(bus);
    lemma_decimal_digits(device);
    assert(pxi_line(bus, device) == resource_string(decimal_digits(bus), decimal_digits(device)));
    lemma_locate_in_line(earlier, pre, decimal_digits(bus), decimal_digits(device), post, terminated);
}

/// A single digit denotes its own value.
pub proof fn lemma_decimal_value_digit(c: u8)
    requires
        is_digit(c),
    ensures
        decimal_value(seq![c]) == c - 48,
        0 <= decimal_value(seq![c]) <= 9,
{
    assert(seq![c].drop_last() =~= Seq::<u8>::empty());
    assert(decimal_value(Seq::<u8>::empty()) == 0);
}

/// Digits are read in positional decimal: the digits `a` followed by the
/// digits `b` denote `a`'s value times ten to the length of `b`, plus `b`'s
/// value. With the value of a single digit this fixes the value of every
/// digit string, leading zeros included.
pub proof fn lemma_decimal_value_append(a: Seq<u8>, b: Seq<u8>)
    ensures
        decimal_value(a + b) == decimal_value(a) * pow10(b.len()) + decimal_value(b),
    decreases b.len(),
{
    if b.len() == 0 {
        assert(a + b =~= a);
        assert(decimal_value(b) == 0);
        assert(decimal_value(a) * 1 == decimal_value(a));
    } else {
        let b2 = b.drop_last();
        assert((a + b).drop_last() =~= a + b2);
        assert((a + b).last() == b.last());
        lemma_decimal_value_append(a, b2);
        let va = decimal_value(a);
        let p = pow10(b2.len());
        assert(pow10(b.len()) == 10 * p);
        assert((va * p + decimal_value(b2)) * 10 + (b.last() - 48) == va * (10 * p) + (
        decimal_value(b2) * 10 + (b.last() - 48))) by (nonlinear_arith);
    }
}

/// An empty listing, and only an empty one, has no last line; it is
/// refused for that reason.
pub proof fn lemma_no_lines(s: Seq<u8>)
    ensures
        last_line_of(s) is None <==> s.len() == 0,
        (locate_spec(s) == Err::<DeviceAddress, LocateError>(LocateError::NoLines)) <==> s.len()
            == 0,
{
}

/// A listing whose last line holds no resource text anywhere is refused as
/// naming no board.
pub proof fn lemma_no_resource_no_match(earlier: Seq<u8>, line: Seq<u8>, terminated: bool)
    requires
        earlier.len() == 0 || earlier.last() == NL,
        forall|k: int| 0 <= k < line.len() ==> #[trigger] line[k] != NL,
        terminated || line.len() > 0,
        forall|j: int| !resource_at(line, j),
    ensures
        locate_spec(
            earlier + line + (if terminated {
                seq![NL]
            } else {
                Seq::<u8>::empty()
            }),
        ) == Err::<DeviceAddress, LocateError>(LocateError::NoMatch),
{
    lemma_last_line_whole(earlier, line, terminated);
    let l2 = if terminated && line.len() > 0 && line.last() == CR {
        line.drop_last()
    } else {
        line
    };
    assert forall|j: int| 0 <= j < l2.len() implies !pxi_match_at(l2, j) by {
        if pxi_match_at(l2, j) {
            lemma_match_is_resource_text(l2, j);
            let b2 = bus_digits(l2, j);
            let d2 = device_digits(l2, j);
            let r2 = resource_string(b2, d2);
            assert(line.subrange(j, j + r2.len()) =~= l2.subrange(j, j + r2.len()));
            assert(resource_at(line, j));
        }
    }
    lemma_first_match_is_leftmost(l2);
}

// ---------------------------------------------------------------------------
// Executable code
// ---------------------------------------------------------------------------

/// The bounds of the listing's last line, as in [`last_line_of`].
fn last_line_bounds(s: &[u8]) -> (r: Option<(usize, usize)>)
    ensures
        match r {
            None => last_line_of(s@) is None,
            Some((a, b)) => a <= b <= s@.len() && last_line_of(s@) == Some(
                s@.subrange(a as int, b as int),
            ),
        },
{
    let n = s.len();
    if n == 0 {
        return None;
    }
    let terminated = s[n - 1] == NL;
    let body_len = if terminated {
        n - 1
    } else {
        n
    };
    let ghost body = if terminated {
        s@.drop_last()
    } else {
        s@
    };
    assert(body =~= s@.subrange(0, body_len as int));
    let mut i = body_len;
    while i > 0 && s[i - 1] != NL
        invariant
            i <= body_len,
            body_len <= n,
            n == s.len(),
            body == s@.subrange(0, body_len as int),
            forall|k: int| i <= k < body_len ==> s@[k] != NL,
        decreases i,
    {
        i = i - 1;
    }
    proof {
        lemma_line_start(body, i as int);
    }
    assert(body.subrange(i as int, body_len as int) =~= s@.subrange(i as int, body_len as int));
    let mut end = body_len;
    if terminated && end > i && s[end - 1] == CR {
        end = end - 1;
        assert(s@.subrange(i as int, body_len as int).drop_last() =~= s@.subrange(
            i as int,
            end as int,
        ));
    }
    Some((i, end))
}

/// The last line of a listing, as a line-by-line reader yields it.
pub fn last_line(contents: &[u8]) -> (r: Option<Vec<u8>>)
    ensures
        match r {
            None => last_line_of(contents@) is None,
            Some(line) => last_line_of(contents@) == Some(line@),
        },
{
    match last_line_bounds(contents) {
        None => None,
        Some((a, b)) => Some(copy_range(contents, a, b)),
    }
}

/// A copy of `s[a..b]`.
fn copy_range(s: &[u8], a: usize, b: usize) -> (r: Vec<u8>)
    requires
        a <= b <= s@.len(),
    ensures
        r@ == s@.subrange(a as int, b as int),
{
    let mut r: Vec<u8> = Vec::new();
    let mut k = a;
    while k < b
        invariant
            a <= k <= b,
            b <= s@.len(),
            r@ == s@.subrange(a as int, k as int),
        decreases b - k,
    {
        r.push(s[k]);
        k = k + 1;
        assert(r@ =~= s@.subrange(a as int, k as int));
    }
    r
}

fn is_digit_byte(b: u8) -> (r: bool)
    ensures
        r == is_digit(b),
{
    48 <= b && b <= 57
}

/// The number of consecutive digits from index `i` on.
fn digit_run_at(s: &[u8], i: usize) -> (r: usize)
    requires
        i <= s@.len(),
    ensures
        r == digit_run(s@, i as int),
        i + r <= s@.len(),
{
    let mut j = i;
    while j < s.len() && is_digit_byte(s[j])
        invariant
            i <= j <= s@.len(),
            digit_run(s@, i as int) == (j - i) + digit_run(s@, j as int),
        decreases s@.len() - j,
    {
        j = j + 1;
    }
    j - i
}

fn pxi_at(s: &[u8], i: usize) -> (r: bool)
    ensures
        r == has_pxi_at(s@, i as int),
{
    i <= s.len() && s.len() - i >= 3 && s[i] == 80 && s[i + 1] == 88 && s[i + 2] == 73
}

fn separator_at(s: &[u8], i: usize) -> (r: bool)
    ensures
        r == has_separator_at(s@, i as int),
{
    i <= s.len() && s.len() - i >= 2 && s[i] == 58 && s[i + 1] == 58
}

fn instr_at(s: &[u8], i: usize) -> (r: bool)
    ensures
        r == has_instr_at(s@, i as int),
{
    i <= s.len() && s.len() - i >= 7 && s[i] == 58 && s[i + 1] == 58 && s[i + 2] == 73 && s[i + 3]
        == 78 && s[i + 4] == 83 && s[i + 5] == 84 && s[i + 6] == 82
}

/// Whether a resource string starts at index `i`.
fn match_at(s: &[u8], i: usize) -> (r: bool)
    ensures
        r == pxi_match_at(s@, i as int),
{
    let n = s.len();
    if !pxi_at(s, i) {
        return false;
    }
    let nb = digit_run_at(s, i + 3);
    if nb == 0 {
        return false;
    }
    let j = i + 3 + nb;
    if !separator_at(s, j) {
        return false;
    }
    let nd = digit_run_at(s, j + 2);
    if nd == 0 {
        return false;
    }
    instr_at(s, j + 2 + nd)
}

/// Where the leftmost resource string `PXI<digits>::<digits>::INSTR` of a
/// line starts, if the line holds one.
pub fn find_pxi(line: &[u8]) -> (r: Option<usize>)
    ensures
        match r {
            Some(i) => first_match(line@) == Some(i as int),
            None => first_match(line@) is None,
        },
{
    let mut i: usize = 0;
    while i < line.len()
        invariant
            i <= line@.len(),
            first_match(line@) == first_match_from(line@, i as int),
        decreases line@.len() - i,
    {
        if match_at(line, i) {
            return Some(i);
        }
        i = i + 1;
    }
    None
}

/// The `i32` that the digits `s[from..to]` denote, or `None` where it does
/// not fit.
fn parse_field(s: &[u8], from: usize, to: usize) -> (r: Option<i32>)
    requires
        from <= to <= s@.len(),
        forall|k: int| from <= k < to ==> is_digit(#[trigger] s@[k]),
    ensures
        r == field_value(s@.subrange(from as int, to as int)),
{
    let ghost d = s@.subrange(from as int, to as int);
    assert forall|k: int| 0 <= k < d.len() implies is_digit(#[trigger] d[k]) by {
        assert(d[k] == s@[from + k]);
    }
    let mut v: u64 = 0;
    let mut k = from;
    assert(d.take(0) =~= Seq::<u8>::empty());
    while k < to
        invariant
            from <= k <= to,
            to <= s@.len(),
            d == s@.subrange(from as int, to as int),
            forall|j: int| 0 <= j < d.len() ==> is_digit(#[trigger] d[j]),
            v == decimal_value(d.take(k - from)),
            v <= i32::MAX,
        decreases to - k,
    {
        assert(d[k - from] == s@[k as int]);
        let digit = (s[k] - 48) as u64;
        v = v * 10 + digit;
        k = k + 1;
        assert(d.take(k - from).drop_last() =~= d.take(k - 1 - from));
        if v > 0x7fff_ffff {
            proof {
                lemma_decimal_value_prefix(d, k - from);
            }
            return None;
        }
    }
    assert(d.take(k - from) =~= d);
    Some(v as i32)
}

/// Reads the board's PXI address out of the driver's device listing: the
/// leftmost `PXI<bus>::<device>::INSTR` on the listing's last line.
pub fn locate_device(contents: &[u8]) -> (r: Result<DeviceAddress, LocateError>)
    ensures
        r == locate_spec(contents@),
{
    let line = match last_line(contents) {
        None => {
            return Err(LocateError::NoLines);
        },
        Some(line) => line,
    };
    let l = line.as_slice();
    let i = match find_pxi(l) {
        None => {
            return Err(LocateError::NoMatch);
        },
        Some(i) => i,
    };
    proof {
        lemma_first_match_is_leftmost(l@);
        lemma_digit_run_digits(l@, i + 3);
        lemma_digit_run_digits(l@, device_start(l@, i as int));
    }
    let nb = digit_run_at(l, i + 3);
    let bus_to = i + 3 + nb;
    let nd = digit_run_at(l, bus_to + 2);
    let device_to = bus_to + 2 + nd;
    let bus = match parse_field(l, i + 3, bus_to) {
        None => {
            return Err(LocateError::BusOutOfRange);
        },
        Some(v) => v,
    };
    let device = match parse_field(l, bus_to + 2, device_to) {
        None => {
            return Err(LocateError::DeviceOutOfRange);
        },
        Some(v) => v,
    };
    Ok(DeviceAddress { bus, device })
}

} // verus!
