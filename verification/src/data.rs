//! The persisted record as text.
//!
//! The configuration record is stored as a small JSON-shaped object with
//! the global ceiling and the per-device overrides.  The writer emits a
//! canonical form; the reader accepts exactly that form and reports
//! anything else as malformed, so that the caller can substitute the
//! default record.  Volumes are written with six decimal places, which
//! renders every representable fixed-point volume exactly.

use vstd::prelude::*;

use crate::audio::{limits_wf, AudioDeviceConfig};
use crate::volume::{valid_volume, VOLUME_SCALE};

verus! {

/// Relies on std's `String::push`: appends exactly the given character.
pub assume_specification[ String::push ](s: &mut String, c: char)
    ensures
        final(s)@ == old(s)@.push(c),
;

/// The character for one decimal digit.
pub open spec fn digit_char(d: int) -> char {
    if d == 0 {
        '0'
    } else if d == 1 {
        '1'
    } else if d == 2 {
        '2'
    } else if d == 3 {
        '3'
    } else if d == 4 {
        '4'
    } else if d == 5 {
        '5'
    } else if d == 6 {
        '6'
    } else if d == 7 {
        '7'
    } else if d == 8 {
        '8'
    } else {
        '9'
    }
}

/// The decimal digit a character stands for, or `-1`.
pub open spec fn digit_val(c: char) -> int {
    if c == '0' {
        0
    } else if c == '1' {
        1
    } else if c == '2' {
        2
    } else if c == '3' {
        3
    } else if c == '4' {
        4
    } else if c == '5' {
        5
    } else if c == '6' {
        6
    } else if c == '7' {
        7
    } else if c == '8' {
        8
    } else if c == '9' {
        9
    } else {
        -1
    }
}

/// A volume as text: one integer digit, a point, six fraction digits.
pub open spec fn encode_volume(v: u32) -> Seq<char> {
    seq![
        digit_char(v as int / 1000000),
        '.',
        digit_char((v as int / 100000) % 10),
        digit_char((v as int / 10000) % 10),
        digit_char((v as int / 1000) % 10),
        digit_char((v as int / 100) % 10),
        digit_char((v as int / 10) % 10),
        digit_char(v as int % 10),
    ]
}

/// How one character of a device id is written inside a quoted string.
pub open spec fn escape_char(c: char) -> Seq<char> {
    if c == '"' {
        seq!['\\', '"']
    } else if c == '\\' {
        seq!['\\', '\\']
    } else {
        seq![c]
    }
}

/// A device id with its quote and backslash characters escaped.
pub open spec fn escape_string(s: Seq<char>) -> Seq<char>
    decreases s.len(),
{
    if s.len() == 0 {
        Seq::empty()
    } else {
        escape_char(s[0]) + escape_string(s.skip(1))
    }
}

/// One override entry: the quoted id, a colon, and the volume.
pub open spec fn encode_entry(id: Seq<char>, v: u32) -> Seq<char> {
    seq!['"'] + escape_string(id) + seq!['"', ':'] + encode_volume(v)
}

/// The override entries, separated by commas.
pub open spec fn encode_entries(entries: Seq<(Seq<char>, u32)>) -> Seq<char>
    decreases entries.len(),
{
    if entries.len() == 0 {
        Seq::empty()
    } else if entries.len() == 1 {
        encode_entry(entries[0].0, entries[0].1)
    } else {
        encode_entry(entries[0].0, entries[0].1) + seq![','] + encode_entries(entries.skip(1))
    }
}

/// The whole record as text.
pub open spec fn encode_record(global: u32, entries: Seq<(Seq<char>, u32)>) -> Seq<char> {
    "{\"global_max_volume\":"@ + encode_volume(global) + ",\"device_max_volumes\":{"@
        + encode_entries(entries) + "}}"@
}

/// Reads a volume from the front of `s`; the remainder follows.
pub open spec fn parse_volume(s: Seq<char>) -> Option<(u32, Seq<char>)> {
    if s.len() < 8 {
        None
    } else if s[1] != '.' {
        None
    } else if digit_val(s[0]) < 0 || digit_val(s[2]) < 0 || digit_val(s[3]) < 0 || digit_val(s[4])
        < 0 || digit_val(s[5]) < 0 || digit_val(s[6]) < 0 || digit_val(s[7]) < 0 {
        None
    } else {
        let v = digit_val(s[0]) * 1000000 + digit_val(s[2]) * 100000 + digit_val(s[3]) * 10000
            + digit_val(s[4]) * 1000 + digit_val(s[5]) * 100 + digit_val(s[6]) * 10 + digit_val(
            s[7],
        );
        if v <= VOLUME_SCALE {
            Some((v as u32, s.skip(8)))
        } else {
            None
        }
    }
}

/// Reads the body of a quoted string up to its closing quote, undoing
/// the escapes; the remainder follows the quote.
pub open spec fn parse_string_body(s: Seq<char>) -> Option<(Seq<char>, Seq<char>)>
    decreases s.len(),
{
    if s.len() == 0 {
        None
    } else if s[0] == '"' {
        Some((Seq::empty(), s.skip(1)))
    } else if s[0] == '\\' {
        if s.len() >= 2 && (s[1] == '"' || s[1] == '\\') {
            match parse_string_body(s.skip(2)) {
                Some((body, rest)) => Some((seq![s[1]] + body, rest)),
                None => None,
            }
        } else {
            None
        }
    } else {
        match parse_string_body(s.skip(1)) {
            Some((body, rest)) => Some((seq![s[0]] + body, rest)),
            None => None,
        }
    }
}

/// Reads one override entry.
pub open spec fn parse_entry(s: Seq<char>) -> Option<((Seq<char>, u32), Seq<char>)> {
    if s.len() == 0 || s[0] != '"' {
        None
    } else {
        match parse_string_body(s.skip(1)) {
            Some((id, rest)) => {
                if rest.len() == 0 || rest[0] != ':' {
                    None
                } else {
                    match parse_volume(rest.skip(1)) {
                        Some((v, rest2)) => Some(((id, v), rest2)),
                        None => None,
                    }
                }
            },
            None => None,
        }
    }
}

/// Reads one or more comma-separated override entries.  `fuel` bounds
/// the recursion; any value at least the number of entries suffices.
pub open spec fn parse_entries(s: Seq<char>, fuel: nat) -> Option<
    (Seq<(Seq<char>, u32)>, Seq<char>),
>
    decreases fuel,
{
    if fuel == 0 {
        None
    } else {
        match parse_entry(s) {
            Some((e, rest)) => {
                if rest.len() > 0 && rest[0] == ',' {
                    match parse_entries(rest.skip(1), (fuel - 1) as nat) {
                        Some((es, rest2)) => Some((seq![e] + es, rest2)),
                        None => None,
                    }
                } else {
                    Some((seq![e], rest))
                }
            },
            None => None,
        }
    }
}

/// Reads a whole record, accepting exactly the canonical form that
/// [`encode_record`] writes.
pub open spec fn parse_record(s: Seq<char>) -> Option<(u32, Seq<(Seq<char>, u32)>)> {
    let h1 = "{\"global_max_volume\":"@;
    let h2 = ",\"device_max_volumes\":{"@;
    if s.len() < h1.len() || s.take(h1.len() as int) != h1 {
        None
    } else {
        match parse_volume(s.skip(h1.len() as int)) {
            Some((g, rest)) => {
                if rest.len() < h2.len() || rest.take(h2.len() as int) != h2 {
                    None
                } else {
                    let body = rest.skip(h2.len() as int);
                    if body.len() > 0 && body[0] == '}' {
                        if body.len() == 2 && body[1] == '}' {
                            Some((g, Seq::empty()))
                        } else {
                            None
                        }
                    } else {
                        match parse_entries(body, body.len()) {
                            Some((es, rest2)) => {
                                if rest2.len() == 2 && rest2[0] == '}' && rest2[1] == '}' {
                                    Some((g, es))
                                } else {
                                    None
                                }
                            },
                            None => None,
                        }
                    }
                }
            },
            None => None,
        }
    }
}

/// What loading a stored text yields: the parsed record, provided its
/// override keys are unique; anything else is malformed.
pub open spec fn decode_record(s: Seq<char>) -> Option<(u32, Seq<(Seq<char>, u32)>)> {
    match parse_record(s) {
        Some((g, es)) => if limits_wf(es) {
            Some((g, es))
        } else {
            None
        },
        None => None,
    }
}

/// Writes one decimal digit.
fn digit_to_char(d: u32) -> (c: char)
    requires
        d < 10,
    ensures
        c == digit_char(d as int),
{
    if d == 0 {
        '0'
    } else if d == 1 {
        '1'
    } else if d == 2 {
        '2'
    } else if d == 3 {
        '3'
    } else if d == 4 {
        '4'
    } else if d == 5 {
        '5'
    } else if d == 6 {
        '6'
    } else if d == 7 {
        '7'
    } else if d == 8 {
        '8'
    } else {
        '9'
    }
}

/// Reads one decimal digit.
fn char_to_digit(c: char) -> (r: Option<u32>)
    ensures
        r is Some ==> r->Some_0 < 10 && digit_val(c) == r->Some_0,
        r is None ==> digit_val(c) == -1,
{
    if c == '0' {
        Some(0)
    } else if c == '1' {
        Some(1)
    } else if c == '2' {
        Some(2)
    } else if c == '3' {
        Some(3)
    } else if c == '4' {
        Some(4)
    } else if c == '5' {
        Some(5)
    } else if c == '6' {
        Some(6)
    } else if c == '7' {
        Some(7)
    } else if c == '8' {
        Some(8)
    } else if c == '9' {
        Some(9)
    } else {
        None
    }
}

/// Appends a volume to `out` in the canonical form.
fn push_volume(out: &mut String, v: u32)
    requires
        valid_volume(v),
    ensures
        final(out)@ == old(out)@ + encode_volume(v),
{
    out.push(digit_to_char(v / 1000000));
    out.push('.');
    out.push(digit_to_char((v / 100000) % 10));
    out.push(digit_to_char((v / 10000) % 10));
    out.push(digit_to_char((v / 1000) % 10));
    out.push(digit_to_char((v / 100) % 10));
    out.push(digit_to_char((v / 10) % 10));
    out.push(digit_to_char(v % 10));
    proof {
        assert(out@ =~= old(out)@ + encode_volume(v));
    }
}

/// Appends a device id to `out`, escaped.
fn push_escaped(out: &mut String, id: &str)
    ensures
        final(out)@ == old(out)@ + escape_string(id@),
{
    let len = id.unicode_len();
    let mut i: usize = 0;
    proof {
        assert(id@.skip(0) =~= id@);
    }
    while i < len
        invariant
            i <= len,
            len == id@.len(),
            out@ + escape_string(id@.skip(i as int)) == old(out)@ + escape_string(id@),
        decreases len - i,
    {
        let c = id.get_char(i);
        if c == '"' {
            out.push('\\');
            out.push('"');
        } else if c == '\\' {
            out.push('\\');
            out.push('\\');
        } else {
            out.push(c);
        }
        proof {
            assert(id@.skip(i as int)[0] == id@[i as int]);
            assert(id@.skip(i as int).skip(1) =~= id@.skip(i as int + 1));
            assert(escape_string(id@.skip(i as int)) =~= escape_char(id@[i as int])
                + escape_string(id@.skip(i as int + 1)));
            assert(out@ + escape_string(id@.skip(i as int + 1)) =~= old(out)@ + escape_string(
                id@,
            ));
        }
        i += 1;
    }
    proof {
        assert(escape_string(id@.skip(len as int)) =~= Seq::<char>::empty());
        assert(out@ =~= out@ + escape_string(id@.skip(len as int)));
    }
}

/// Writes the record in its canonical text form.
pub fn write_device_data(config: &AudioDeviceConfig) -> (r: String)
    requires
        config.wf(),
    ensures
        r@ == encode_record(config.global_max_volume, config.limits()),
{
    let mut out = String::new();
    out.append("{\"global_max_volume\":");
    push_volume(&mut out, config.global_max_volume);
    out.append(",\"device_max_volumes\":{");
    let ghost before_entries = out@;
    let mut i: usize = 0;
    while i < config.device_max_volumes.len()
        invariant
            config.wf(),
            i <= config.device_max_volumes@.len(),
            out@ == before_entries + encode_entries(config.limits().take(i as int)),
        decreases config.device_max_volumes@.len() - i,
    {
        let ghost pre = out@;
        proof {
            assert(config.limits()[i as int].1 == config.device_max_volumes@[i as int].1);
            assert(valid_volume(config.device_max_volumes@[i as int].1));
        }
        if i > 0 {
            out.push(',');
        }
        out.push('"');
        push_escaped(&mut out, config.device_max_volumes[i].0.as_str());
        out.push('"');
        out.push(':');
        push_volume(&mut out, config.device_max_volumes[i].1);
        proof {
            let lim = config.limits();
            assert(lim[i as int].0 == config.device_max_volumes@[i as int].0@);
            assert(lim[i as int].1 == config.device_max_volumes@[i as int].1);
            if i == 0 {
                assert(out@ =~= pre + encode_entry(lim[0].0, lim[0].1));
                assert(lim.take(1) =~= seq![lim[0]]);
                assert(encode_entries(lim.take(1)) =~= encode_entry(lim[0].0, lim[0].1));
            } else {
                assert(out@ =~= pre + seq![','] + encode_entry(lim[i as int].0, lim[i as int].1));
                lemma_encode_entries_take(lim, i as int);
                assert(out@ =~= before_entries + encode_entries(lim.take(i as int + 1)));
            }
        }
        i += 1;
    }
    out.push('}');
    out.push('}');
    proof {
        reveal_strlit("}}");
        assert("}}"@ =~= seq!['}', '}']);
        assert(config.limits().take(config.limits().len() as int) =~= config.limits());
        assert(out@ =~= encode_record(config.global_max_volume, config.limits()));
    }
    out
}

/// Reads a volume at `pos`; mirrors [`parse_volume`].
fn parse_volume_at(s: &str, pos: usize) -> (r: Option<(u32, usize)>)
    requires
        pos <= s@.len(),
    ensures
        r is Some ==> {
            &&& parse_volume(s@.skip(pos as int)) == Some(
                (r->Some_0.0, s@.skip(r->Some_0.1 as int)),
            )
            &&& pos < r->Some_0.1 <= s@.len()
            &&& valid_volume(r->Some_0.0)
        },
        r is None ==> parse_volume(s@.skip(pos as int)) is None,
{
    let len = s.unicode_len();
    if len - pos < 8 {
        return None;
    }
    proof {
        assert forall|k: int| 0 <= k < 8 implies #[trigger] s@.skip(pos as int)[k] == s@[pos
            + k] by {}
    }
    let cdot = s.get_char(pos + 1);
    if cdot != '.' {
        return None;
    }
    let d0 = match char_to_digit(s.get_char(pos)) {
        Some(d) => d,
        None => {
            return None;
        },
    };
    let d2 = match char_to_digit(s.get_char(pos + 2)) {
        Some(d) => d,
        None => {
            return None;
        },
    };
    let d3 = match char_to_digit(s.get_char(pos + 3)) {
        Some(d) => d,
        None => {
            return None;
        },
    };
    let d4 = match char_to_digit(s.get_char(pos + 4)) {
        Some(d) => d,
        None => {
            return None;
        },
    };
    let d5 = match char_to_digit(s.get_char(pos + 5)) {
        Some(d) => d,
        None => {
            return None;
        },
    };
    let d6 = match char_to_digit(s.get_char(pos + 6)) {
        Some(d) => d,
        None => {
            return None;
        },
    };
    let d7 = match char_to_digit(s.get_char(pos + 7)) {
        Some(d) => d,
        None => {
            return None;
        },
    };
    let v = d0 * 1000000 + d2 * 100000 + d3 * 10000 + d4 * 1000 + d5 * 100 + d6 * 10 + d7;
    if v > VOLUME_SCALE {
        return None;
    }
    proof {
        assert(s@.skip(pos as int).skip(8) =~= s@.skip(pos as int + 8));
    }
    Some((v, pos + 8))
}

/// Reads a quoted string body at `pos`; mirrors [`parse_string_body`].
fn parse_string_at(s: &str, pos: usize) -> (r: Option<(String, usize)>)
    requires
        pos <= s@.len(),
    ensures
        r is Some ==> {
            &&& parse_string_body(s@.skip(pos as int)) == Some(
                (r->Some_0.0@, s@.skip(r->Some_0.1 as int)),
            )
            &&& pos < r->Some_0.1 <= s@.len()
        },
        r is None ==> parse_string_body(s@.skip(pos as int)) is None,
    decreases s@.len() - pos,
{
    let len = s.unicode_len();
    if pos >= len {
        return None;
    }
    let c = s.get_char(pos);
    proof {
        assert(s@.skip(pos as int)[0] == s@[pos as int]);
        assert(s@.skip(pos as int).skip(1) =~= s@.skip(pos as int + 1));
    }
    if c == '"' {
        return Some((String::new(), pos + 1));
    }
    if c == '\\' {
        if pos + 1 >= len {
            return None;
        }
        let c2 = s.get_char(pos + 1);
        proof {
            assert(s@.skip(pos as int)[1] == s@[pos as int + 1]);
            assert(s@.skip(pos as int).skip(2) =~= s@.skip(pos as int + 2));
        }
        if c2 == '"' || c2 == '\\' {
            match parse_string_at(s, pos + 2) {
                Some((body, p2)) => {
                    let mut t = String::new();
                    t.push(c2);
                    t.append(body.as_str());
                    proof {
                        assert(t@ =~= seq![c2] + body@);
                    }
                    Some((t, p2))
                },
                None => None,
            }
        } else {
            None
        }
    } else {
        match parse_string_at(s, pos + 1) {
            Some((body, p2)) => {
                let mut t = String::new();
                t.push(c);
                t.append(body.as_str());
                proof {
                    assert(t@ =~= seq![c] + body@);
                }
                Some((t, p2))
            },
            None => None,
        }
    }
}

/// Reads one override entry at `pos`; mirrors [`parse_entry`].
fn parse_entry_at(s: &str, pos: usize) -> (r: Option<((String, u32), usize)>)
    requires
        pos <= s@.len(),
    ensures
        r is Some ==> {
            &&& parse_entry(s@.skip(pos as int)) == Some(
                ((r->Some_0.0.0@, r->Some_0.0.1), s@.skip(r->Some_0.1 as int)),
            )
            &&& pos < r->Some_0.1 <= s@.len()
            &&& valid_volume(r->Some_0.0.1)
        },
        r is None ==> parse_entry(s@.skip(pos as int)) is None,
{
    let len = s.unicode_len();
    if pos >= len {
        return None;
    }
    proof {
        assert(s@.skip(pos as int)[0] == s@[pos as int]);
        assert(s@.skip(pos as int).skip(1) =~= s@.skip(pos as int + 1));
    }
    if s.get_char(pos) != '"' {
        return None;
    }
    let (id, p) = match parse_string_at(s, pos + 1) {
        Some(x) => x,
        None => {
            return None;
        },
    };
    proof {
        if p < s@.len() {
            assert(s@.skip(p as int)[0] == s@[p as int]);
            assert(s@.skip(p as int).skip(1) =~= s@.skip(p as int + 1));
        }
    }
    if p >= len {
        return None;
    }
    if s.get_char(p) != ':' {
        return None;
    }
    match parse_volume_at(s, p + 1) {
        Some((v, p2)) => Some(((id, v), p2)),
        None => None,
    }
}

/// The override table a parsed vector stands for.
spec fn entries_model(v: Seq<(String, u32)>) -> Seq<(Seq<char>, u32)> {
    v.map_values(|p: (String, u32)| (p.0@, p.1))
}

/// Reads comma-separated override entries at `pos`; mirrors
/// [`parse_entries`].
fn parse_entries_at(s: &str, pos: usize, fuel: usize) -> (r: Option<(Vec<(String, u32)>, usize)>)
    requires
        pos <= s@.len(),
    ensures
        r is Some ==> {
            &&& parse_entries(s@.skip(pos as int), fuel as nat) == Some(
                (entries_model(r->Some_0.0@), s@.skip(r->Some_0.1 as int)),
            )
            &&& pos < r->Some_0.1 <= s@.len()
            &&& forall|k: int|
                0 <= k < r->Some_0.0@.len() ==> valid_volume((#[trigger] r->Some_0.0@[k]).1)
        },
        r is None ==> parse_entries(s@.skip(pos as int), fuel as nat) is None,
    decreases fuel,
{
    if fuel == 0 {
        return None;
    }
    let ((id, v), p) = match parse_entry_at(s, pos) {
        Some(x) => x,
        None => {
            return None;
        },
    };
    let len = s.unicode_len();
    proof {
        if p < s@.len() {
            assert(s@.skip(p as int)[0] == s@[p as int]);
            assert(s@.skip(p as int).skip(1) =~= s@.skip(p as int + 1));
        }
    }
    if p < len && s.get_char(p) == ',' {
        match parse_entries_at(s, p + 1, fuel - 1) {
            Some((mut es, p2)) => {
                es.insert(0, (id, v));
                proof {
                    assert(entries_model(es@) =~= seq![(id@, v)] + entries_model(
                        es@.skip(1),
                    ));
                }
                Some((es, p2))
            },
            None => None,
        }
    } else {
        let mut one: Vec<(String, u32)> = Vec::new();
        one.push((id, v));
        proof {
            assert(entries_model(one@) =~= seq![(id@, v)]);
        }
        Some((one, p))
    }
}

/// Whether two override entries carry the same key.
fn has_dup_keys(v: &Vec<(String, u32)>) -> (r: bool)
    ensures
        r == exists|i: int, j: int| 0 <= i < j < v@.len() && (#[trigger] v@[i].0@) == (#[trigger] v@[j].0@),
{
    let mut i: usize = 0;
    while i < v.len()
        invariant
            i <= v@.len(),
            forall|a: int, b: int|
                0 <= a < b < v@.len() && a < i ==> (#[trigger] v@[a].0@) != (#[trigger] v@[b].0@),
        decreases v@.len() - i,
    {
        let mut j: usize = i + 1;
        while j < v.len()
            invariant
                i < j <= v@.len() || (i + 1 == j && j > v@.len()),
                i < v@.len(),
                forall|b: int| i < b < j ==> (#[trigger] v@[b].0@) != v@[i as int].0@,
            decreases v@.len() - j,
        {
            if v[i].0 == v[j].0 {
                return true;
            }
            j += 1;
        }
        i += 1;
    }
    false
}

/// Loads a stored text: the record it holds, or nothing when the text
/// is not in the canonical form.
///
/// Strictness: only the exact canonical form that
/// [`write_device_data`] produces is accepted — fields in order, no
/// whitespace between tokens, and volumes with one integer digit and
/// six fraction digits.  Any other text, including a hand-edited
/// record with extra whitespace or short numbers, counts as malformed.
pub fn read_device_data(s: &str) -> (r: Option<AudioDeviceConfig>)
    ensures
        r is Some ==> {
            &&& decode_record(s@) == Some(
                (r->Some_0.global_max_volume, r->Some_0.limits()),
            )
            &&& r->Some_0.wf()
        },
        r is None ==> decode_record(s@) is None,
{
    let slen = s.unicode_len();
    let h1 = "{\"global_max_volume\":";
    let h2 = ",\"device_max_volumes\":{";
    proof {
        assert(s@.skip(0) =~= s@);
    }
    if !starts_with_at(s, 0, h1) {
        return None;
    }
    let p1 = h1.unicode_len();
    let (g, p2) = match parse_volume_at(s, p1) {
        Some(x) => x,
        None => {
            return None;
        },
    };
    if !starts_with_at(s, p2, h2) {
        return None;
    }
    let p3 = p2 + h2.unicode_len();
    let ghost body = s@.skip(p2 as int).skip(h2@.len() as int);
    proof {
        assert(body =~= s@.skip(p3 as int));
    }
    if p3 < slen && s.get_char(p3) == '}' {
        proof {
            assert(body[0] == s@[p3 as int]);
        }
        if slen - p3 == 2 && s.get_char(p3 + 1) == '}' {
            proof {
                assert(body[1] == s@[p3 as int + 1]);
                assert(limits_wf(Seq::<(Seq<char>, u32)>::empty()));
            }
            let c = AudioDeviceConfig { global_max_volume: g, device_max_volumes: Vec::new() };
            proof {
                assert(c.limits() =~= Seq::<(Seq<char>, u32)>::empty());
            }
            return Some(c);
        }
        proof {
            if body.len() == 2 {
                assert(body[1] == s@[p3 as int + 1]);
            }
        }
        return None;
    }
    match parse_entries_at(s, p3, slen - p3) {
        None => None,
        Some((entries, p4)) => {
            proof {
                assert(parse_entries(body, body.len()) == Some(
                    (entries_model(entries@), s@.skip(p4 as int)),
                ));
                if p4 < s@.len() {
                    assert(s@.skip(p4 as int)[0] == s@[p4 as int]);
                }
                if p4 + 1 < s@.len() {
                    assert(s@.skip(p4 as int)[1] == s@[p4 as int + 1]);
                }
            }
            if !(slen - p4 == 2 && s.get_char(p4) == '}' && s.get_char(p4 + 1) == '}') {
                return None;
            }
            if has_dup_keys(&entries) {
                proof {
                    let (di, dj) = choose|di: int, dj: int|
                        0 <= di < dj < entries@.len() && (#[trigger] entries@[di].0@) == (
                        #[trigger] entries@[dj].0@);
                    assert(entries_model(entries@)[di].0 == entries_model(entries@)[dj].0);
                    assert(!limits_wf(entries_model(entries@)));
                }
                return None;
            }
            let c = AudioDeviceConfig { global_max_volume: g, device_max_volumes: entries };
            proof {
                assert(c.limits() =~= entries_model(c.device_max_volumes@));
                assert(limits_wf(c.limits()));
            }
            Some(c)
        },
    }
}

/// Loads a stored text, substituting the default record when the text
/// is malformed.  "Malformed" is as strict as [`read_device_data`]:
/// anything but the canonical form written by [`write_device_data`] is
/// replaced by the default record.
pub fn init_device_data(s: &str) -> (c: AudioDeviceConfig)
    ensures
        c.wf(),
        decode_record(s@) is Some ==> Some(
            (c.global_max_volume, c.limits()),
        ) == decode_record(s@),
        decode_record(s@) is None ==> c.global_max_volume == VOLUME_SCALE && c.limits()
            == Seq::<(Seq<char>, u32)>::empty(),
{
    match read_device_data(s) {
        Some(c) => c,
        None => {
            let c = AudioDeviceConfig::default();
            proof {
                assert(c.limits() =~= Seq::<(Seq<char>, u32)>::empty());
            }
            c
        },
    }
}

/// Whether `lit` stands at `pos` in `s`.
fn starts_with_at(s: &str, pos: usize, lit: &str) -> (r: bool)
    requires
        pos <= s@.len(),
    ensures
        r == (pos + lit@.len() <= s@.len() && s@.skip(pos as int).take(lit@.len() as int)
            == lit@),
{
    let llen = lit.unicode_len();
    let slen = s.unicode_len();
    if slen - pos < llen {
        return false;
    }
    let mut k: usize = 0;
    while k < llen
        invariant
            k <= llen,
            pos + llen <= slen,
            llen == lit@.len(),
            slen == s@.len(),
            forall|m: int| 0 <= m < k ==> s@[pos + m] == lit@[m],
        decreases llen - k,
    {
        if s.get_char(pos + k) != lit.get_char(k) {
            proof {
                assert(s@.skip(pos as int).take(llen as int)[k as int] == s@[pos + k as int]);
            }
            return false;
        }
        k += 1;
    }
    proof {
        assert(s@.skip(pos as int).take(llen as int) =~= lit@);
    }
    true
}

/// Reading back an encoded volume yields the volume.
proof fn lemma_parse_volume_inverts(v: u32, rest: Seq<char>)
    requires
        valid_volume(v),
    ensures
        parse_volume(encode_volume(v) + rest) == Some((v, rest)),
{
    let e = encode_volume(v);
    let s = e + rest;
    assert(e.len() == 8);
    assert forall|k: int| 0 <= k < 8 implies #[trigger] s[k] == e[k] by {}
    assert(v as int / 1000000 <= 1);
    assert(digit_val(digit_char(v as int / 1000000)) == v as int / 1000000);
    assert(digit_val(digit_char((v as int / 100000) % 10)) == (v as int / 100000) % 10);
    assert(digit_val(digit_char((v as int / 10000) % 10)) == (v as int / 10000) % 10);
    assert(digit_val(digit_char((v as int / 1000) % 10)) == (v as int / 1000) % 10);
    assert(digit_val(digit_char((v as int / 100) % 10)) == (v as int / 100) % 10);
    assert(digit_val(digit_char((v as int / 10) % 10)) == (v as int / 10) % 10);
    assert(digit_val(digit_char(v as int % 10)) == v as int % 10);
    assert(v as int / 1000000 * 1000000 + (v as int / 100000) % 10 * 100000 + (v as int / 10000)
        % 10 * 10000 + (v as int / 1000) % 10 * 1000 + (v as int / 100) % 10 * 100 + (v as int
        / 10) % 10 * 10 + v as int % 10 == v as int) by {
        lemma_digits_recompose(v as int);
    }
    assert(s.skip(8) =~= rest);
}

/// A number below one million and one is the weighted sum of its
/// decimal digits.
proof fn lemma_digits_recompose(v: int)
    requires
        0 <= v <= 1000000,
    ensures
        v / 1000000 * 1000000 + (v / 100000) % 10 * 100000 + (v / 10000) % 10 * 10000 + (v / 1000)
            % 10 * 1000 + (v / 100) % 10 * 100 + (v / 10) % 10 * 10 + v % 10 == v,
{
    vstd::arithmetic::div_mod::lemma_fundamental_div_mod(v, 10);
    vstd::arithmetic::div_mod::lemma_fundamental_div_mod(v / 10, 10);
    vstd::arithmetic::div_mod::lemma_fundamental_div_mod(v / 10 / 10, 10);
    vstd::arithmetic::div_mod::lemma_fundamental_div_mod(v / 10 / 10 / 10, 10);
    vstd::arithmetic::div_mod::lemma_fundamental_div_mod(v / 10 / 10 / 10 / 10, 10);
    vstd::arithmetic::div_mod::lemma_fundamental_div_mod(v / 10 / 10 / 10 / 10 / 10, 10);
    assert(v / 10 / 10 == v / 100) by (nonlinear_arith);
    assert(v / 100 / 10 == v / 1000) by (nonlinear_arith);
    assert(v / 1000 / 10 == v / 10000) by (nonlinear_arith);
    assert(v / 10000 / 10 == v / 100000) by (nonlinear_arith);
    assert(v / 100000 / 10 == v / 1000000) by (nonlinear_arith)
        requires
            0 <= v,
    ;
}

/// Reading back an escaped and quoted id yields the id.
proof fn lemma_parse_string_inverts(id: Seq<char>, rest: Seq<char>)
    ensures
        parse_string_body(escape_string(id) + seq!['"'] + rest) == Some((id, rest)),
    decreases id.len(),
{
    let s = escape_string(id) + seq!['"'] + rest;
    if id.len() == 0 {
        assert(escape_string(id) =~= Seq::<char>::empty());
        assert(s[0] == '"');
        assert(s.skip(1) =~= rest);
        assert(Seq::<char>::empty() =~= id);
    } else {
        let c = id[0];
        let e = escape_char(c);
        assert(escape_string(id) =~= e + escape_string(id.skip(1)));
        let s2 = escape_string(id.skip(1)) + seq!['"'] + rest;
        lemma_parse_string_inverts(id.skip(1), rest);
        if c == '"' {
            assert(s[0] == '\\');
            assert(s[1] == '"');
            assert(s.len() >= 2);
            assert(s.skip(2) =~= s2);
            assert(seq![s[1]] + id.skip(1) =~= id);
        } else if c == '\\' {
            assert(s[0] == '\\');
            assert(s[1] == '\\');
            assert(s.len() >= 2);
            assert(s.skip(2) =~= s2);
            assert(seq![s[1]] + id.skip(1) =~= id);
        } else {
            assert(s[0] == c);
            assert(s.skip(1) =~= s2);
            assert(seq![s[0]] + id.skip(1) =~= id);
        }
    }
}

/// Reading back an encoded entry yields the entry.
proof fn lemma_parse_entry_inverts(id: Seq<char>, v: u32, rest: Seq<char>)
    requires
        valid_volume(v),
    ensures
        parse_entry(encode_entry(id, v) + rest) == Some(((id, v), rest)),
{
    let s = encode_entry(id, v) + rest;
    assert(s[0] == '"');
    let r1 = seq![':'] + encode_volume(v) + rest;
    assert(s.skip(1) =~= escape_string(id) + seq!['"'] + r1);
    lemma_parse_string_inverts(id, r1);
    assert(parse_string_body(s.skip(1)) == Some((id, r1)));
    assert(r1[0] == ':');
    assert(r1.skip(1) =~= encode_volume(v) + rest);
    lemma_parse_volume_inverts(v, rest);
}

/// An encoded entry list is at least as long as the list.
proof fn lemma_encode_entries_len(es: Seq<(Seq<char>, u32)>)
    ensures
        encode_entries(es).len() >= es.len(),
    decreases es.len(),
{
    if es.len() > 1 {
        lemma_encode_entries_len(es.skip(1));
    }
}

/// Reading back an encoded entry list yields the list, provided what
/// follows does not begin with another entry separator.
proof fn lemma_parse_entries_inverts(entries: Seq<(Seq<char>, u32)>, rest: Seq<char>, fuel: nat)
    requires
        entries.len() > 0,
        forall|k: int| 0 <= k < entries.len() ==> valid_volume((#[trigger] entries[k]).1),
        fuel >= entries.len(),
        rest.len() == 0 || rest[0] != ',',
    ensures
        parse_entries(encode_entries(entries) + rest, fuel) == Some((entries, rest)),
    decreases entries.len(),
{
    let s = encode_entries(entries) + rest;
    if entries.len() == 1 {
        assert(s =~= encode_entry(entries[0].0, entries[0].1) + rest);
        lemma_parse_entry_inverts(entries[0].0, entries[0].1, rest);
        assert(seq![entries[0]] =~= entries);
    } else {
        let e0 = entries[0];
        let tail = entries.skip(1);
        let r1 = seq![','] + (encode_entries(tail) + rest);
        assert(s =~= encode_entry(e0.0, e0.1) + r1);
        lemma_parse_entry_inverts(e0.0, e0.1, r1);
        assert(r1[0] == ',');
        assert(r1.skip(1) =~= encode_entries(tail) + rest);
        assert(forall|k: int| 0 <= k < tail.len() ==> valid_volume((#[trigger] tail[k]).1));
        lemma_parse_entries_inverts(tail, rest, (fuel - 1) as nat);
        assert(seq![e0] + tail =~= entries);
    }
}

/// Law: writing a record and reading the text back yields a
/// structurally identical record, for every record whose limits are
/// well formed.
pub proof fn lemma_record_round_trip(global: u32, entries: Seq<(Seq<char>, u32)>)
    requires
        valid_volume(global),
        limits_wf(entries),
    ensures
        decode_record(encode_record(global, entries)) == Some((global, entries)),
{
    let h1 = "{\"global_max_volume\":"@;
    let h2 = ",\"device_max_volumes\":{"@;
    let s = encode_record(global, entries);
    reveal_strlit("}}");
    assert("}}"@ =~= seq!['}', '}']);
    let vol_rest = h2 + encode_entries(entries) + "}}"@;
    assert(s.len() >= h1.len());
    assert(s.take(h1.len() as int) =~= h1);
    assert(s.skip(h1.len() as int) =~= encode_volume(global) + vol_rest);
    lemma_parse_volume_inverts(global, vol_rest);
    assert(parse_volume(s.skip(h1.len() as int)) == Some((global, vol_rest)));
    assert(vol_rest.len() >= h2.len());
    assert(vol_rest.take(h2.len() as int) =~= h2);
    let body = vol_rest.skip(h2.len() as int);
    assert(body =~= encode_entries(entries) + "}}"@);
    if entries.len() == 0 {
        assert(encode_entries(entries) =~= Seq::<char>::empty());
        assert(body =~= seq!['}', '}']);
        assert(body[0] == '}' && body.len() == 2 && body[1] == '}');
        assert(parse_record(s) == Some((global, Seq::<(Seq<char>, u32)>::empty())));
        assert(Seq::<(Seq<char>, u32)>::empty() =~= entries);
    } else {
        assert(encode_entries(entries)[0] == '"') by {
            assert(encode_entry(entries[0].0, entries[0].1)[0] == '"');
        }
        assert(body[0] == '"');
        lemma_encode_entries_len(entries);
        assert(body.len() >= entries.len() + 2);
        assert(seq!['}', '}'].len() == 2 && seq!['}', '}'][0] == '}');
        lemma_parse_entries_inverts(entries, "}}"@, body.len());
        assert(parse_entries(body, body.len()) == Some((entries, "}}"@)));
        assert(parse_record(s) == Some((global, entries)));
    }
}

/// Appending one more entry extends the encoded prefix by a comma and
/// that entry, once at least one entry has been written.
proof fn lemma_encode_entries_take(lim: Seq<(Seq<char>, u32)>, i: int)
    requires
        1 <= i < lim.len(),
    ensures
        encode_entries(lim.take(i + 1)) == encode_entries(lim.take(i)) + seq![','] + encode_entry(
            lim[i].0,
            lim[i].1,
        ),
    decreases i,
{
    if i == 1 {
        assert(lim.take(2) =~= seq![lim[0], lim[1]]);
        assert(lim.take(2).skip(1) =~= seq![lim[1]]);
        assert(lim.take(1) =~= seq![lim[0]]);
        assert(encode_entries(seq![lim[1]]) =~= encode_entry(lim[1].0, lim[1].1));
        assert(encode_entries(lim.take(2)) =~= encode_entry(lim[0].0, lim[0].1) + seq![',']
            + encode_entry(lim[1].0, lim[1].1));
    } else {
        lemma_encode_entries_take(lim.skip(1), i - 1);
        assert(lim.take(i + 1).skip(1) =~= lim.skip(1).take(i));
        assert(lim.take(i).skip(1) =~= lim.skip(1).take(i - 1));
        assert(lim.skip(1)[i - 1] == lim[i]);
        assert(encode_entries(lim.take(i + 1)) =~= encode_entry(lim[0].0, lim[0].1) + seq![',']
            + encode_entries(lim.skip(1).take(i)));
        assert(encode_entries(lim.take(i)) =~= encode_entry(lim[0].0, lim[0].1) + seq![',']
            + encode_entries(lim.skip(1).take(i - 1)));
        assert(encode_entries(lim.take(i + 1)) =~= encode_entries(lim.take(i)) + seq![',']
            + encode_entry(lim[i].0, lim[i].1));
    }
}

} // verus!
