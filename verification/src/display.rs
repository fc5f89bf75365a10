//! Reading `xrandr --query` reports and building the `xrandr` and `i3-msg`
//! commands that place, position and remove the virtual display.

use crate::config::Direction;
use crate::error::WasdError;
use crate::text::{
    char_is, chars_of, contains, decimal, push_decimal, find_char, find_first, find_sign, first_some, first_word,
    has_prefix, has_substring, is_ws, lemma_find_first_spec, lemma_first_some_witness,
    lemma_first_some_at, lemma_first_some_none,
    lemma_first_word_prefix, lemma_find_first_concat, lemma_find_first_head, lemma_nat_digits,
    nat_digits, is_digit, lemma_first_some_prefix,
    lemma_first_some_step, lines, occurs_at, parse_i16, parse_i16_exec, sign_pred, split_lines,
    split_words, starts_with, string_of, views, words, words_acc,
};
use vstd::prelude::*;

verus! {

// ---------------------------------------------------------------------------
// Reading an `xrandr --query` report
// ---------------------------------------------------------------------------

/// Output names of VKMS virtual displays begin with this.
pub open spec fn virtual_prefix() -> Seq<char> {
    "Virtual-"@
}

/// A report line of a connected output holds this.
pub open spec fn connected_marker() -> Seq<char> {
    " connected"@
}

/// A report line of the connected primary output holds this.
pub open spec fn primary_marker() -> Seq<char> {
    " connected primary"@
}

/// The name of a virtual output.
pub open spec fn is_virtual_name(name: Seq<char>) -> bool {
    starts_with(name, virtual_prefix())
}

/// The output that a report line names, if the line is that of a connected
/// virtual output.
pub open spec fn virtual_output_of(line: Seq<char>) -> Option<Seq<char>> {
    if starts_with(line, virtual_prefix()) && contains(line, connected_marker()) {
        first_word(line)
    } else {
        None
    }
}

pub open spec fn virtual_output_fn() -> spec_fn(Seq<char>) -> Option<Seq<char>> {
    |line: Seq<char>| virtual_output_of(line)
}

/// The first connected virtual output of a report.
pub open spec fn spec_virtual_output(report: Seq<char>) -> Option<Seq<char>> {
    first_some(lines(report), virtual_output_fn())
}

/// The output that a report line names, if the line holds `marker` and
/// the output is not virtual.
pub open spec fn physical_output_of(line: Seq<char>, marker: Seq<char>) -> Option<Seq<char>> {
    if contains(line, marker) {
        match first_word(line) {
            Some(name) => if is_virtual_name(name) {
                None
            } else {
                Some(name)
            },
            None => None,
        }
    } else {
        None
    }
}

pub open spec fn physical_output_fn(marker: Seq<char>) -> spec_fn(Seq<char>) -> Option<Seq<char>> {
    |line: Seq<char>| physical_output_of(line, marker)
}

/// The physical output to place the virtual display beside: the first
/// non-virtual output marked primary, else the first connected non-virtual
/// output.
pub open spec fn spec_primary_output(report: Seq<char>) -> Option<Seq<char>> {
    match first_some(lines(report), physical_output_fn(primary_marker())) {
        Some(name) => Some(name),
        None => first_some(lines(report), physical_output_fn(connected_marker())),
    }
}

/// The position in a geometry word such as `1024x768+1366+0` or
/// `1024x768-1024+0`: after the first `x`, the first signed number is the x
/// coordinate and the rest, which starts at the next sign, the y coordinate.
pub open spec fn word_position(word: Seq<char>) -> Option<(i16, i16)> {
    match find_first(word, char_is('x')) {
        None => None,
        Some(x_pos) => {
            let geometry = word.skip(x_pos + 1);
            match find_first(geometry, sign_pred()) {
                None => None,
                Some(first_sign) => {
                    let coords = geometry.skip(first_sign);
                    match find_first(coords.skip(1), sign_pred()) {
                        None => None,
                        Some(k) => {
                            let second_sign = k + 1;
                            match (parse_i16(coords.take(second_sign)), parse_i16(coords.skip(second_sign))) {
                                (Some(x), Some(y)) => Some((x, y)),
                                _ => None,
                            }
                        },
                    }
                },
            }
        },
    }
}

pub open spec fn word_position_fn() -> spec_fn(Seq<char>) -> Option<(i16, i16)> {
    |word: Seq<char>| word_position(word)
}

/// The position that a report line gives for `name`: the line must begin
/// with `name` and be that of a connected output; its first word that reads
/// as a geometry gives the position.
pub open spec fn line_position(name: Seq<char>, line: Seq<char>) -> Option<(i16, i16)> {
    if starts_with(line, name) && contains(line, connected_marker()) {
        first_some(words(line), word_position_fn())
    } else {
        None
    }
}

pub open spec fn line_position_fn(name: Seq<char>) -> spec_fn(Seq<char>) -> Option<(i16, i16)> {
    |line: Seq<char>| line_position(name, line)
}

/// The position of output `name` in a report: that of its first line that
/// gives one.
pub open spec fn spec_geometry(report: Seq<char>, name: Seq<char>) -> Option<(i16, i16)> {
    first_some(lines(report), line_position_fn(name))
}

// ---------------------------------------------------------------------------
// Lemmas
// ---------------------------------------------------------------------------

proof fn lemma_words_acc_nonempty(s: Seq<char>, i: int)
    requires
        0 <= i < s.len(),
        !is_ws(s[i]),
    ensures
        words_acc(s).0.len() > 0 || words_acc(s).1.len() > 0,
    decreases s.len(),
{
    if i < s.len() - 1 {
        assert(s.drop_last()[i] == s[i]);
        lemma_words_acc_nonempty(s.drop_last(), i);
    }
}

/// A line with a non-whitespace character has a first word.
pub proof fn lemma_first_word_exists(s: Seq<char>, i: int)
    requires
        0 <= i < s.len(),
        !is_ws(s[i]),
    ensures
        first_word(s) is Some,
{
    lemma_words_acc_nonempty(s, i);
}

/// A line that holds a marker beginning with a space and then a
/// non-whitespace character has a first word.
proof fn lemma_marked_line_has_word(line: Seq<char>, marker: Seq<char>)
    requires
        contains(line, marker),
        marker.len() >= 2,
        !is_ws(marker[1]),
    ensures
        first_word(line) is Some,
{
    let j = choose|j: int| occurs_at(line, marker, j);
    assert(line.subrange(j, j + marker.len())[1] == marker[1]);
    lemma_first_word_exists(line, j + 1);
}

proof fn lemma_markers()
    ensures
        connected_marker().len() >= 2,
        !is_ws(connected_marker()[1]),
        primary_marker().len() >= 2,
        !is_ws(primary_marker()[1]),
        virtual_prefix().len() >= 1,
        !is_ws(virtual_prefix()[0]),
{
    reveal_strlit(" connected");
    reveal_strlit(" connected primary");
    reveal_strlit("Virtual-");
}

// ---------------------------------------------------------------------------
// Laws
// ---------------------------------------------------------------------------

/// The virtual output found is named as a virtual output: its name begins
/// with `Virtual-`, and it comes from a report line of a connected output.
pub proof fn law_virtual_output_is_virtual(report: Seq<char>)
    ensures
        spec_virtual_output(report) matches Some(name) ==> is_virtual_name(name) && exists|i: int|
            0 <= i < lines(report).len() && contains(#[trigger] lines(report)[i], connected_marker())
                && first_word(lines(report)[i]) == Some(name),
{
    lemma_first_some_witness(lines(report), virtual_output_fn());
    if let Some(name) = spec_virtual_output(report) {
        let i = choose|i: int|
            0 <= i < lines(report).len() && virtual_output_fn()(#[trigger] lines(report)[i]) == Some(name);
        let line = lines(report)[i];
        lemma_markers();
        reveal_strlit("Virtual-");
        let m = virtual_prefix().len() as int;
        assert forall|j: int| 0 <= j < m implies !is_ws(#[trigger] line[j]) by {
            assert(line.take(m)[j] == line[j]);
        }
        lemma_first_word_prefix(line, m);
        assert(name.take(m) == virtual_prefix());
    }
}

/// The output the virtual display is placed beside is never a virtual
/// output, and it comes from a report line of a connected output.
pub proof fn law_primary_output_is_physical(report: Seq<char>)
    ensures
        spec_primary_output(report) matches Some(name) ==> !is_virtual_name(name) && exists|i: int|
            0 <= i < lines(report).len() && contains(#[trigger] lines(report)[i], connected_marker())
                && first_word(lines(report)[i]) == Some(name),
{
    let ls = lines(report);
    lemma_first_some_witness(ls, physical_output_fn(primary_marker()));
    lemma_first_some_witness(ls, physical_output_fn(connected_marker()));
    if let Some(name) = first_some(ls, physical_output_fn(primary_marker())) {
        let i = choose|i: int|
            0 <= i < ls.len() && physical_output_fn(primary_marker())(#[trigger] ls[i]) == Some(name);
        lemma_primary_line_connected(ls[i]);
    } else if let Some(name) = first_some(ls, physical_output_fn(connected_marker())) {
        let i = choose|i: int|
            0 <= i < ls.len() && physical_output_fn(connected_marker())(#[trigger] ls[i]) == Some(name);
        assert(physical_output_of(ls[i], connected_marker()) == Some(name));
    }
}

/// The text of a signed coordinate: a sign, then the magnitude in decimal.
pub open spec fn signed_text(negative: bool, magnitude: nat) -> Seq<char> {
    seq![if negative { '-' } else { '+' }] + nat_digits(magnitude)
}

/// The value of a signed coordinate.
pub open spec fn signed_value(negative: bool, magnitude: nat) -> int {
    if negative {
        -magnitude
    } else {
        magnitude as int
    }
}

proof fn lemma_parse_signed(negative: bool, magnitude: nat)
    requires
        magnitude <= 32767,
    ensures
        parse_i16(signed_text(negative, magnitude)) == Some(signed_value(negative, magnitude) as i16),
{
    lemma_nat_digits(magnitude);
    let t = signed_text(negative, magnitude);
    assert(t.drop_first() == nat_digits(magnitude));
}

/// A geometry word `WIDTHxHEIGHT±X±Y` gives the position `(±X, ±Y)`: each
/// coordinate is read with its own sign, whatever the mode's size.
pub proof fn law_geometry_word_position(
    width: nat,
    height: nat,
    x_negative: bool,
    x_magnitude: nat,
    y_negative: bool,
    y_magnitude: nat,
)
    requires
        x_magnitude <= 32767,
        y_magnitude <= 32767,
    ensures
        word_position(
            nat_digits(width) + seq!['x'] + nat_digits(height) + signed_text(x_negative, x_magnitude)
                + signed_text(y_negative, y_magnitude),
        ) == Some(
            (
                signed_value(x_negative, x_magnitude) as i16,
                signed_value(y_negative, y_magnitude) as i16,
            ),
        ),
{
    let dw = nat_digits(width);
    let dh = nat_digits(height);
    let sx = signed_text(x_negative, x_magnitude);
    let sy = signed_text(y_negative, y_magnitude);
    let dx = nat_digits(x_magnitude);
    lemma_nat_digits(width);
    lemma_nat_digits(height);
    lemma_nat_digits(x_magnitude);
    let word = dw + seq!['x'] + dh + sx + sy;
    // The `x` after the width.
    let after_width = seq!['x'] + dh + sx + sy;
    assert(word == dw + after_width);
    assert(forall|j: int| 0 <= j < dw.len() ==> is_digit(#[trigger] dw[j]));
    lemma_find_first_concat(dw, after_width, char_is('x'));
    lemma_find_first_head(after_width, char_is('x'));
    assert(find_first(word, char_is('x')) == Some(dw.len() as int));
    // The sign after the height.
    let geometry = word.skip(dw.len() as int + 1);
    assert(geometry == dh + (sx + sy));
    assert(forall|j: int| 0 <= j < dh.len() ==> is_digit(#[trigger] dh[j]));
    lemma_find_first_concat(dh, sx + sy, sign_pred());
    lemma_find_first_head(sx + sy, sign_pred());
    assert(find_first(geometry, sign_pred()) == Some(dh.len() as int));
    // The sign after the x coordinate.
    let coords = geometry.skip(dh.len() as int);
    assert(coords == sx + sy);
    assert(coords.skip(1) == dx + sy);
    assert(forall|j: int| 0 <= j < dx.len() ==> is_digit(#[trigger] dx[j]));
    lemma_find_first_concat(dx, sy, sign_pred());
    lemma_find_first_head(sy, sign_pred());
    assert(find_first(coords.skip(1), sign_pred()) == Some(dx.len() as int));
    let second_sign = dx.len() as int + 1;
    assert(coords.take(second_sign) == sx);
    assert(coords.skip(second_sign) == sy);
    lemma_parse_signed(x_negative, x_magnitude);
    lemma_parse_signed(y_negative, y_magnitude);
}

/// The virtual output is found exactly when some report line begins with
/// `Virtual-` and holds ` connected`, whatever else the line holds; it is
/// then the first word of the first such line.
pub proof fn law_virtual_output_first_connected_line(report: Seq<char>)
    ensures
        spec_virtual_output(report) is Some <==> exists|i: int|
            0 <= i < lines(report).len() && starts_with(#[trigger] lines(report)[i], "Virtual-"@)
                && contains(lines(report)[i], " connected"@),
        forall|i: int|
            0 <= i < lines(report).len() && starts_with(#[trigger] lines(report)[i], "Virtual-"@)
                && contains(lines(report)[i], " connected"@) && (forall|j: int|
                0 <= j < i ==> !(starts_with(#[trigger] lines(report)[j], "Virtual-"@) && contains(
                    lines(report)[j],
                    " connected"@,
                ))) ==> first_word(lines(report)[i]) is Some && spec_virtual_output(report)
                == first_word(lines(report)[i]),
{
    let ls = lines(report);
    let f = virtual_output_fn();
    lemma_markers();
    assert forall|l: Seq<char>| (starts_with(l, "Virtual-"@) && contains(l, " connected"@)) implies
        #[trigger] virtual_output_of(l) is Some by {
        let m = virtual_prefix().len() as int;
        assert(l.take(m)[0] == l[0]);
        lemma_first_word_exists(l, 0);
    }
    lemma_first_some_none(ls, f);
    assert forall|i: int|
        0 <= i < ls.len() && starts_with(#[trigger] ls[i], "Virtual-"@) && contains(ls[i], " connected"@)
            && (forall|j: int|
            0 <= j < i ==> !(starts_with(#[trigger] ls[j], "Virtual-"@) && contains(ls[j], " connected"@)))
            implies first_word(ls[i]) is Some && spec_virtual_output(report) == first_word(ls[i]) by {
        assert(virtual_output_of(ls[i]) is Some);
        assert forall|j: int| 0 <= j < i implies f(#[trigger] ls[j]) is None by {
            assert(!(starts_with(ls[j], "Virtual-"@) && contains(ls[j], " connected"@)));
        }
        lemma_first_some_at(ls, i, f);
    }
    if spec_virtual_output(report) is Some {
        let i = choose|i: int| 0 <= i < ls.len() && f(#[trigger] ls[i]) is Some;
        assert(starts_with(ls[i], "Virtual-"@));
    }
}

/// The `xrandr` call that configures the virtual output names it, gives it
/// the mode `WIDTHxHEIGHT`, and places it on the configured side of the
/// primary output: left of it, right of it, above or below it.
pub proof fn law_configure_args_placement(
    width: u16,
    height: u16,
    direction: Direction,
    virtual_output: Seq<char>,
    primary_output: Seq<char>,
)
    ensures
        ({
            let args = spec_configure_args(width, height, direction, virtual_output, primary_output);
            &&& args.len() == 6
            &&& args[0] == "--output"@
            &&& args[1] == virtual_output
            &&& args[2] == "--mode"@
            &&& args[3] == decimal(width as int) + "x"@ + decimal(height as int)
            &&& direction == Direction::Left ==> args[4] == "--left-of"@
            &&& direction == Direction::Right ==> args[4] == "--right-of"@
            &&& direction == Direction::Top ==> args[4] == "--above"@
            &&& direction == Direction::Bottom ==> args[4] == "--below"@
            &&& args[5] == primary_output
        }),
{
}

/// A line marked primary is a line of a connected output.
proof fn lemma_primary_line_connected(line: Seq<char>)
    ensures
        contains(line, primary_marker()) ==> contains(line, connected_marker()),
{
    reveal_strlit(" connected");
    reveal_strlit(" connected primary");
    if contains(line, primary_marker()) {
        let j = choose|j: int| occurs_at(line, primary_marker(), j);
        let n = connected_marker().len() as int;
        assert(primary_marker().take(n) =~= connected_marker());
        assert(line.subrange(j, j + n) =~= line.subrange(j, j + primary_marker().len()).take(n));
        assert(occurs_at(line, connected_marker(), j));
    }
}

// ---------------------------------------------------------------------------
// Executable functions over a report
// ---------------------------------------------------------------------------

/// The name of the first connected virtual output that the `xrandr --query`
/// report `report` lists.
pub fn find_virtual_output(report: &str) -> (r: Result<String, WasdError>)
    ensures
        spec_virtual_output(report@) matches Some(name) ==> (r matches Ok(s) && s@ == name),
        spec_virtual_output(report@) is None ==> r matches Err(WasdError::VirtualOutputNotFound),
{
    let chars = chars_of(report);
    let ls = split_lines(chars.as_slice());
    let prefix = chars_of("Virtual-");
    let marker = chars_of(" connected");
    let ghost all = lines(report@);
    proof {
        lemma_markers();
    }
    for i in 0..ls.len()
        invariant
            views(ls@) == all,
            all == lines(report@),
            prefix@ == virtual_prefix(),
            marker@ == connected_marker(),
            virtual_prefix().len() >= 1,
            !is_ws(virtual_prefix()[0]),
            first_some(all.take(i as int), virtual_output_fn()) is None,
    {
        proof {
            lemma_first_some_step(all, i as int, virtual_output_fn());
        }
        let line = ls[i].as_slice();
        assert(line@ == all[i as int]);
        if has_prefix(line, prefix.as_slice()) && has_substring(line, marker.as_slice()) {
            proof {
                assert(line@.take(prefix@.len() as int)[0] == line@[0]);
                lemma_first_word_exists(line@, 0);
                lemma_first_some_prefix(all, i + 1, virtual_output_fn());
            }
            let ws = split_words(line);
            assert(ws@[0]@ == views(ws@)[0]);
            return Ok(string_of(ws[0].as_slice()));
        }
    }
    assert(all.take(ls.len() as int) == all);
    Err(WasdError::VirtualOutputNotFound)
}

/// The name of the first non-virtual output of a report line that holds
/// `marker`.
fn find_physical_output(ls: &Vec<Vec<char>>, marker: &[char], prefix: &[char]) -> (r: Option<String>)
    requires
        prefix@ == virtual_prefix(),
        marker@.len() >= 2,
        !is_ws(marker@[1]),
    ensures
        first_some(views(ls@), physical_output_fn(marker@)) matches Some(name) ==> (r matches Some(s) && s@ == name),
        first_some(views(ls@), physical_output_fn(marker@)) is None ==> r is None,
{
    let ghost all = views(ls@);
    for i in 0..ls.len()
        invariant
            all == views(ls@),
            prefix@ == virtual_prefix(),
            marker@.len() >= 2,
            !is_ws(marker@[1]),
            first_some(all.take(i as int), physical_output_fn(marker@)) is None,
    {
        proof {
            lemma_first_some_step(all, i as int, physical_output_fn(marker@));
        }
        let line = ls[i].as_slice();
        assert(line@ == all[i as int]);
        if has_substring(line, marker) {
            proof {
                lemma_marked_line_has_word(line@, marker@);
            }
            let ws = split_words(line);
            let name = ws[0].as_slice();
            assert(name@ == views(ws@)[0]);
            if !has_prefix(name, prefix) {
                proof {
                    lemma_first_some_prefix(all, i + 1, physical_output_fn(marker@));
                }
                return Some(string_of(name));
            }
        }
    }
    assert(all.take(ls.len() as int) == all);
    None
}

/// The name of the physical output that the virtual display is placed
/// beside: the first non-virtual output that the report marks primary, else
/// the first connected non-virtual output.
pub fn find_primary_output(report: &str) -> (r: Result<String, WasdError>)
    ensures
        spec_primary_output(report@) matches Some(name) ==> (r matches Ok(s) && s@ == name),
        spec_primary_output(report@) is None ==> r matches Err(WasdError::PhysicalDisplayNotFound),
{
    let chars = chars_of(report);
    let ls = split_lines(chars.as_slice());
    let prefix = chars_of("Virtual-");
    let primary = chars_of(" connected primary");
    let connected = chars_of(" connected");
    proof {
        lemma_markers();
    }
    if let Some(name) = find_physical_output(&ls, primary.as_slice(), prefix.as_slice()) {
        return Ok(name);
    }
    if let Some(name) = find_physical_output(&ls, connected.as_slice(), prefix.as_slice()) {
        return Ok(name);
    }
    Err(WasdError::PhysicalDisplayNotFound)
}

/// The position that a geometry word such as `1024x768+1366+0` gives.
pub fn word_position_exec(word: &[char]) -> (r: Option<(i16, i16)>)
    ensures
        r == word_position(word@),
{
    let x_pos = match find_char(word, 'x') {
        None => return None,
        Some(p) => p,
    };
    proof {
        lemma_find_first_spec(word@, char_is('x'));
    }
    assert(x_pos < word.len());
    let geometry = &word[x_pos + 1..word.len()];
    assert(geometry@ == word@.skip(x_pos + 1));
    let first_sign = match find_sign(geometry) {
        None => return None,
        Some(p) => p,
    };
    proof {
        lemma_find_first_spec(geometry@, sign_pred());
    }
    let coords = &geometry[first_sign..geometry.len()];
    assert(coords@ == geometry@.skip(first_sign as int));
    let rest = &coords[1..coords.len()];
    assert(rest@ == coords@.skip(1));
    let k = match find_sign(rest) {
        None => return None,
        Some(p) => p,
    };
    proof {
        lemma_find_first_spec(rest@, sign_pred());
    }
    let second_sign = k + 1;
    let x_text = &coords[0..second_sign];
    let y_text = &coords[second_sign..coords.len()];
    assert(x_text@ == coords@.take(second_sign as int));
    assert(y_text@ == coords@.skip(second_sign as int));
    match (parse_i16_exec(x_text), parse_i16_exec(y_text)) {
        (Some(x), Some(y)) => Some((x, y)),
        _ => None,
    }
}

/// The position of output `output_name` that the `xrandr --query` report
/// `report` gives.
pub fn get_geometry(report: &str, output_name: &str) -> (r: Result<(i16, i16), WasdError>)
    ensures
        spec_geometry(report@, output_name@) matches Some(g) ==> (r matches Ok(p) && p == g),
        spec_geometry(report@, output_name@) is None ==> (r matches Err(
            WasdError::GeometryNotFound { output },
        ) && output@ == output_name@),
{
    let chars = chars_of(report);
    let ls = split_lines(chars.as_slice());
    let name = chars_of(output_name);
    let marker = chars_of(" connected");
    let ghost all = lines(report@);
    let ghost f = line_position_fn(output_name@);
    for i in 0..ls.len()
        invariant
            views(ls@) == all,
            all == lines(report@),
            f == line_position_fn(output_name@),
            name@ == output_name@,
            marker@ == connected_marker(),
            first_some(all.take(i as int), f) is None,
    {
        proof {
            lemma_first_some_step(all, i as int, f);
        }
        let line = ls[i].as_slice();
        assert(line@ == all[i as int]);
        if has_prefix(line, name.as_slice()) && has_substring(line, marker.as_slice()) {
            let ws = split_words(line);
            let ghost parts = words(line@);
            for j in 0..ws.len()
                invariant
                    views(ws@) == parts,
                    parts == words(line@),
                    views(ls@) == all,
                    line@ == all[i as int],
                    all == lines(report@),
                    i < all.len(),
                    f == line_position_fn(output_name@),
                    first_some(all.take(i as int), f) is None,
                    first_some(parts.take(j as int), word_position_fn()) is None,
                    first_some(all.take(i + 1), f) == first_some(parts, word_position_fn()),
            {
                proof {
                    lemma_first_some_step(parts, j as int, word_position_fn());
                }
                let part = ws[j].as_slice();
                assert(part@ == parts[j as int]);
                if let Some(p) = word_position_exec(part) {
                    proof {
                        lemma_first_some_prefix(parts, j + 1, word_position_fn());
                        lemma_first_some_prefix(all, i + 1, f);
                    }
                    return Ok(p);
                }
            }
            assert(parts.take(ws.len() as int) == parts);
        }
    }
    assert(all.take(ls.len() as int) == all);
    Err(WasdError::GeometryNotFound { output: String::from_str(output_name) })
}

// ---------------------------------------------------------------------------
// Commands
// ---------------------------------------------------------------------------

/// The character sequences held by a sequence of strings.
pub open spec fn string_views(v: Seq<String>) -> Seq<Seq<char>> {
    v.map_values(|s: String| s@)
}

/// The `xrandr` option that places an output on the given side of another.
pub open spec fn placement_option(direction: Direction) -> Seq<char> {
    match direction {
        Direction::Left => "--left-of"@,
        Direction::Right => "--right-of"@,
        Direction::Top => "--above"@,
        Direction::Bottom => "--below"@,
    }
}

/// The name of the `xrandr` mode `WIDTHxHEIGHT`.
pub open spec fn mode_text(width: u16, height: u16) -> Seq<char> {
    decimal(width as int) + "x"@ + decimal(height as int)
}

/// The arguments of the `xrandr` call that gives the virtual output its mode
/// and places it beside the primary output.
pub open spec fn spec_configure_args(
    width: u16,
    height: u16,
    direction: Direction,
    virtual_output: Seq<char>,
    primary_output: Seq<char>,
) -> Seq<Seq<char>> {
    seq![
        "--output"@,
        virtual_output,
        "--mode"@,
        mode_text(width, height),
        placement_option(direction),
        primary_output,
    ]
}

/// The arguments of the `xrandr` call that turns the virtual output off.
pub open spec fn spec_cleanup_args(output: Seq<char>) -> Seq<Seq<char>> {
    seq!["--output"@, output, "--off"@]
}

/// The `i3-msg` command that moves `workspace` to `output`.
pub open spec fn spec_workspace_command(workspace: u32, output: Seq<char>) -> Seq<char> {
    "workspace "@ + decimal(workspace as int) + "; move workspace to output "@ + output
}

/// The `xrandr` option that places an output on `direction`'s side of
/// another.
pub fn placement_flag(direction: Direction) -> (s: String)
    ensures
        s@ == placement_option(direction),
{
    match direction {
        Direction::Left => String::from_str("--left-of"),
        Direction::Right => String::from_str("--right-of"),
        Direction::Top => String::from_str("--above"),
        Direction::Bottom => String::from_str("--below"),
    }
}

/// The mode name `WIDTHxHEIGHT`, such as `1024x768`.
pub fn mode_name(width: u16, height: u16) -> (s: String)
    ensures
        s@ == mode_text(width, height),
{
    let mut s = String::new();
    push_decimal(&mut s, width as i64);
    s.append("x");
    push_decimal(&mut s, height as i64);
    assert(s@ =~= mode_text(width, height));
    s
}

/// The arguments of the `xrandr` call that sets the virtual output to
/// `width`x`height` and places it on `direction`'s side of the primary output.
pub fn configure_args(
    width: u16,
    height: u16,
    direction: Direction,
    virtual_output: &str,
    primary_output: &str,
) -> (args: Vec<String>)
    ensures
        string_views(args@) == spec_configure_args(
            width,
            height,
            direction,
            virtual_output@,
            primary_output@,
        ),
{
    let mut args: Vec<String> = Vec::new();
    args.push(String::from_str("--output"));
    args.push(String::from_str(virtual_output));
    args.push(String::from_str("--mode"));
    args.push(mode_name(width, height));
    args.push(placement_flag(direction));
    args.push(String::from_str(primary_output));
    assert(string_views(args@) =~= spec_configure_args(
        width,
        height,
        direction,
        virtual_output@,
        primary_output@,
    ));
    args
}

/// The arguments of the `xrandr` call that turns `output` off.
pub fn cleanup_args(output: &str) -> (args: Vec<String>)
    ensures
        string_views(args@) == spec_cleanup_args(output@),
{
    let mut args: Vec<String> = Vec::new();
    args.push(String::from_str("--output"));
    args.push(String::from_str(output));
    args.push(String::from_str("--off"));
    assert(string_views(args@) =~= spec_cleanup_args(output@));
    args
}

/// The `i3-msg` command that moves `workspace` to `output`.
pub fn workspace_command(workspace: u32, output: &str) -> (s: String)
    ensures
        s@ == spec_workspace_command(workspace, output@),
{
    let mut s = String::from_str("workspace ");
    push_decimal(&mut s, workspace as i64);
    s.append("; move workspace to output ");
    s.append(output);
    assert(s@ =~= spec_workspace_command(workspace, output@));
    s
}

} // verus!
