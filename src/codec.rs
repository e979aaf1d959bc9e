//! Text form of presets: one record per line, fields separated by `|` or
//! `=`, names as upper-case hexadecimal of their UTF-8 bytes and continuous
//! values as decimals with six fraction digits.
use crate::fields::{
    hex, index_text, is_word, lemma_free_decimal, lemma_free_hex, lemma_free_index,
    lemma_free_micro, lemma_join_head, micro_text, parse_hex_text, parse_index_field, parse_micro,
    push_hex_text, push_micro, starts_with, text_chars,
};
use crate::presets::{
    control_position, has_assignment, Kit, KitView, Pattern, PatternStep, PatternView, Project,
    ProjectView, TrackAssignment, TrackControlAssignment, TrackControls,
};
use crate::recall::{
    active_kit_of, active_pattern_of, engine_updates, first_stray_assignment, recall_error,
    recalled_sequencer, recalled_track, track_updates,
};
use crate::sequencer::{cell_index, DEFAULT_VELOCITY, MAX_SWING, PATTERN_CELLS, TRACK_COUNT};
use crate::text::{
    all_free_of, decimal, digits_field, free_of, join, lemma_decimal, lemma_decimal_len,
    lemma_join_unique, lemma_pow10_ten, parse_digits, push_decimal, split_at_char, views,
};
use vstd::prelude::*;
use vstd::string::StringExecFns;
use vstd::utf8::encode_utf8;

verus! {

pub open spec fn name_line(name: Seq<char>) -> Seq<char> {
    join(seq!["name"@, hex(encode_utf8(name))], '=')
}

pub open spec fn track_line(t: (u8, Seq<char>)) -> Seq<char> {
    join(seq!["track"@, decimal(t.0 as nat), hex(encode_utf8(t.1))], '|')
}

pub open spec fn choke_index(choke_group: Option<u8>) -> Option<int> {
    match choke_group {
        Some(g) => Some(g as int),
        None => None,
    }
}

pub open spec fn control_line(c: TrackControlAssignment) -> Seq<char> {
    join(
        seq![
            "control"@,
            decimal(c.track_index as nat),
            micro_text(c.controls.gain as int),
            micro_text(c.controls.pan as int),
            micro_text(c.controls.filter_cutoff as int),
            micro_text(c.controls.envelope_decay as int),
            micro_text(c.controls.pitch_semitones as int),
            index_text(choke_index(c.controls.choke_group)),
        ],
        '|',
    )
}

pub open spec fn swing_line(swing: u32) -> Seq<char> {
    join(seq!["swing"@, micro_text(swing as int)], '=')
}

pub open spec fn flag_text(b: bool) -> Seq<char> {
    if b {
        "1"@
    } else {
        "0"@
    }
}

pub open spec fn step_line(cell: int, step: PatternStep) -> Seq<char> {
    join(
        seq![
            "step"@,
            decimal((cell / 16) as nat),
            decimal((cell % 16) as nat),
            flag_text(step.active),
            decimal(step.velocity as nat),
        ],
        '|',
    )
}

/// The lines of a kit after its header.
pub open spec fn kit_lines(k: KitView) -> Seq<Seq<char>> {
    seq![name_line(k.name)] + k.tracks.map_values(|t: (u8, Seq<char>)| track_line(t))
        + k.controls.map_values(|c: TrackControlAssignment| control_line(c))
}

/// The lines of a pattern after its header.
pub open spec fn pattern_lines(p: PatternView) -> Seq<Seq<char>> {
    seq![name_line(p.name), swing_line(p.swing)] + Seq::new(
        PATTERN_CELLS as nat,
        |i: int| step_line(i, p.steps[i]),
    )
}

pub open spec fn kit_text(k: KitView) -> Seq<char> {
    join(seq!["FF_KIT_V1"@] + kit_lines(k), '\n')
}

pub open spec fn pattern_text(p: PatternView) -> Seq<char> {
    join(seq!["FF_PATTERN_V1"@] + pattern_lines(p), '\n')
}

pub open spec fn kit_blocks(kits: Seq<KitView>) -> Seq<Seq<char>>
    decreases kits.len(),
{
    if kits.len() == 0 {
        Seq::empty()
    } else {
        kit_blocks(kits.drop_last()) + seq!["BEGIN_KIT"@] + kit_lines(kits.last()) + seq!["END_KIT"@]
    }
}

pub open spec fn pattern_blocks(patterns: Seq<PatternView>) -> Seq<Seq<char>>
    decreases patterns.len(),
{
    if patterns.len() == 0 {
        Seq::empty()
    } else {
        pattern_blocks(patterns.drop_last()) + seq!["BEGIN_PATTERN"@] + pattern_lines(patterns.last())
            + seq!["END_PATTERN"@]
    }
}

pub open spec fn selection_index(selection: Option<usize>) -> Option<int> {
    match selection {
        Some(i) => Some(i as int),
        None => None,
    }
}

pub open spec fn project_lines(p: ProjectView) -> Seq<Seq<char>> {
    seq![
        "FF_PROJECT_V1"@,
        name_line(p.name),
        join(seq!["active_kit"@, index_text(selection_index(p.active_kit))], '='),
        join(seq!["active_pattern"@, index_text(selection_index(p.active_pattern))], '='),
    ] + kit_blocks(p.kits) + pattern_blocks(p.patterns)
}

pub open spec fn project_text(p: ProjectView) -> Seq<char> {
    join(project_lines(p), '\n')
}

proof fn lemma_join_push(parts: Seq<Seq<char>>, part: Seq<char>, sep: char)
    requires
        parts.len() > 0,
    ensures
        join(parts.push(part), sep) == join(parts, sep) + seq![sep] + part,
{
    assert(parts.push(part).drop_last() =~= parts);
}

/// Appends a field, preceded by `sep` unless it is the first one.
fn push_field(out: &mut String, field: &str, sep: &str, Ghost(parts): Ghost<Seq<Seq<char>>>, Ghost(base): Ghost<Seq<char>>)
    requires
        old(out)@ == base + join(parts, sep@[0]),
        sep@.len() == 1,
        parts.len() > 0,
    ensures
        final(out)@ == base + join(parts.push(field@), sep@[0]),
{
    out.append(sep);
    out.append(field);
    proof {
        lemma_join_push(parts, field@, sep@[0]);
        assert(sep@ =~= seq![sep@[0]]);
    }
    assert(out@ =~= base + join(parts.push(field@), sep@[0]));
}

/// Starts a new line after `lines`.
fn push_line_break(out: &mut String, Ghost(lines): Ghost<Seq<Seq<char>>>)
    requires
        old(out)@ == join(lines, '\n'),
        lines.len() > 0,
    ensures
        forall|line: Seq<char>| final(out)@ + line == #[trigger] join(lines.push(line), '\n'),
{
    out.append("\n");
    proof {
        reveal_strlit("\n");
        assert forall|line: Seq<char>| out@ + line == #[trigger] join(lines.push(line), '\n') by {
            lemma_join_push(lines, line, '\n');
            assert(out@ + line =~= join(lines, '\n') + seq!['\n'] + line);
        }
    }
}

fn push_name_line(out: &mut String, name: &str)
    ensures
        final(out)@ == old(out)@ + name_line(name@),
{
    out.append("name=");
    push_hex_text(out, name);
    proof {
        reveal_strlit("name=");
        reveal_strlit("name");
        lemma_join_push(seq!["name"@], hex(encode_utf8(name@)), '=');
        assert(seq!["name"@].push(hex(encode_utf8(name@))) =~= seq!["name"@, hex(encode_utf8(name@))]);
    }
    assert(out@ =~= old(out)@ + name_line(name@));
}

fn push_track_line(out: &mut String, track: &TrackAssignment)
    ensures
        final(out)@ == old(out)@ + track_line((track.track_index, track.sample_id@)),
{
    out.append("track|");
    push_decimal(out, track.track_index as u64);
    out.append("|");
    push_hex_text(out, track.sample_id.as_str());
    proof {
        reveal_strlit("track|");
        reveal_strlit("track");
        reveal_strlit("|");
        let d = decimal(track.track_index as nat);
        let h = hex(encode_utf8(track.sample_id@));
        lemma_join_push(seq!["track"@], d, '|');
        lemma_join_push(seq!["track"@, d], h, '|');
        assert(seq!["track"@].push(d) =~= seq!["track"@, d]);
        assert(seq!["track"@, d].push(h) =~= seq!["track"@, d, h]);
    }
    assert(out@ =~= old(out)@ + track_line((track.track_index, track.sample_id@)));
}

/// Appends `|` and a value in millionths.
fn push_micro_field(out: &mut String, v: i32, Ghost(parts): Ghost<Seq<Seq<char>>>, Ghost(base): Ghost<Seq<char>>)
    requires
        old(out)@ == base + join(parts, '|'),
        parts.len() > 0,
    ensures
        final(out)@ == base + join(parts.push(micro_text(v as int)), '|'),
{
    out.append("|");
    push_micro(out, v as i64);
    proof {
        reveal_strlit("|");
        lemma_join_push(parts, micro_text(v as int), '|');
    }
    assert(out@ =~= base + join(parts.push(micro_text(v as int)), '|'));
}

/// Appends an optional index: its digits, or `-1`.
fn push_index(out: &mut String, x: Option<u64>)
    ensures
        final(out)@ == old(out)@ + index_text(match x {
            Some(n) => Some(n as int),
            None => None,
        }),
{
    match x {
        Some(n) => push_decimal(out, n),
        None => {
            out.append("-1");
        },
    }
}

fn push_control_line(out: &mut String, control: &TrackControlAssignment)
    ensures
        final(out)@ == old(out)@ + control_line(*control),
{
    let ghost base = old(out)@;
    let c = control.controls;
    out.append("control|");
    push_decimal(out, control.track_index as u64);
    let ghost with_index = seq!["control"@, decimal(control.track_index as nat)];
    proof {
        reveal_strlit("control|");
        reveal_strlit("control");
        lemma_join_push(seq!["control"@], decimal(control.track_index as nat), '|');
        assert(seq!["control"@].push(decimal(control.track_index as nat)) =~= with_index);
    }
    assert(out@ =~= base + join(with_index, '|'));
    push_micro_field(out, c.gain, Ghost(with_index), Ghost(base));
    let ghost with_gain = with_index.push(micro_text(c.gain as int));
    push_micro_field(out, c.pan, Ghost(with_gain), Ghost(base));
    let ghost with_pan = with_gain.push(micro_text(c.pan as int));
    push_micro_field(out, c.filter_cutoff, Ghost(with_pan), Ghost(base));
    let ghost with_cutoff = with_pan.push(micro_text(c.filter_cutoff as int));
    push_micro_field(out, c.envelope_decay, Ghost(with_cutoff), Ghost(base));
    let ghost with_decay = with_cutoff.push(micro_text(c.envelope_decay as int));
    push_micro_field(out, c.pitch_semitones, Ghost(with_decay), Ghost(base));
    let ghost with_pitch = with_decay.push(micro_text(c.pitch_semitones as int));
    out.append("|");
    push_index(out, match c.choke_group {
        Some(g) => Some(g as u64),
        None => None,
    });
    proof {
        reveal_strlit("|");
        let last = index_text(choke_index(c.choke_group));
        lemma_join_push(with_pitch, last, '|');
        assert(with_pitch.push(last) =~= seq![
            "control"@,
            decimal(control.track_index as nat),
            micro_text(c.gain as int),
            micro_text(c.pan as int),
            micro_text(c.filter_cutoff as int),
            micro_text(c.envelope_decay as int),
            micro_text(c.pitch_semitones as int),
            last,
        ]);
        assert(out@ =~= base + join(with_pitch.push(last), '|'));
    }
}

fn push_swing_line(out: &mut String, swing: u32)
    ensures
        final(out)@ == old(out)@ + swing_line(swing),
{
    out.append("swing=");
    push_micro(out, swing as i64);
    proof {
        reveal_strlit("swing=");
        reveal_strlit("swing");
        lemma_join_push(seq!["swing"@], micro_text(swing as int), '=');
        assert(seq!["swing"@].push(micro_text(swing as int)) =~= seq!["swing"@, micro_text(swing as int)]);
    }
    assert(out@ =~= old(out)@ + swing_line(swing));
}

fn push_step_line(out: &mut String, cell: usize, step: PatternStep)
    requires
        cell < PATTERN_CELLS,
    ensures
        final(out)@ == old(out)@ + step_line(cell as int, step),
{
    out.append("step|");
    push_decimal(out, (cell / 16) as u64);
    out.append("|");
    push_decimal(out, (cell % 16) as u64);
    out.append("|");
    out.append(if step.active {
        "1"
    } else {
        "0"
    });
    out.append("|");
    push_decimal(out, step.velocity as u64);
    proof {
        reveal_strlit("step|");
        reveal_strlit("step");
        reveal_strlit("|");
        reveal_strlit("1");
        reveal_strlit("0");
        let a = decimal((cell / 16) as nat);
        let b = decimal((cell % 16) as nat);
        let f = flag_text(step.active);
        let v = decimal(step.velocity as nat);
        lemma_join_push(seq!["step"@], a, '|');
        lemma_join_push(seq!["step"@, a], b, '|');
        lemma_join_push(seq!["step"@, a, b], f, '|');
        lemma_join_push(seq!["step"@, a, b, f], v, '|');
        assert(seq!["step"@].push(a) =~= seq!["step"@, a]);
        assert(seq!["step"@, a].push(b) =~= seq!["step"@, a, b]);
        assert(seq!["step"@, a, b].push(f) =~= seq!["step"@, a, b, f]);
        assert(seq!["step"@, a, b, f].push(v) =~= seq!["step"@, a, b, f, v]);
    }
    assert(out@ =~= old(out)@ + step_line(cell as int, step));
}

/// Appends a line holding just `word`.
fn push_word_line(out: &mut String, word: &str, Ghost(lines): Ghost<Seq<Seq<char>>>)
    requires
        old(out)@ == join(lines, '\n'),
        lines.len() > 0,
    ensures
        final(out)@ == join(lines.push(word@), '\n'),
{
    push_line_break(out, Ghost(lines));
    out.append(word);
}

fn push_kit_lines(out: &mut String, kit: &Kit, Ghost(lines): Ghost<Seq<Seq<char>>>)
    requires
        old(out)@ == join(lines, '\n'),
        lines.len() > 0,
    ensures
        final(out)@ == join(lines + kit_lines(kit@), '\n'),
{
    push_line_break(out, Ghost(lines));
    push_name_line(out, kit.name.as_str());
    let ghost head = lines.push(name_line(kit.name@));
    let mut i: usize = 0;
    while i < kit.tracks.len()
        invariant
            i <= kit.tracks@.len(),
            head.len() > 0,
            out@ == join(head + kit@.tracks.take(i as int).map_values(|t: (u8, Seq<char>)| track_line(t)), '\n'),
        decreases kit.tracks@.len() - i,
    {
        let ghost cur = head + kit@.tracks.take(i as int).map_values(|t: (u8, Seq<char>)| track_line(t));
        push_line_break(out, Ghost(cur));
        push_track_line(out, &kit.tracks[i]);
        assert(cur.push(track_line(kit@.tracks[i as int])) =~= head + kit@.tracks.take(i as int + 1).map_values(|t: (u8, Seq<char>)| track_line(t)));
        i = i + 1;
    }
    let ghost mid = head + kit@.tracks.map_values(|t: (u8, Seq<char>)| track_line(t));
    assert(kit@.tracks.take(kit@.tracks.len() as int) =~= kit@.tracks);
    let mut j: usize = 0;
    while j < kit.controls.len()
        invariant
            j <= kit.controls@.len(),
            mid.len() > 0,
            out@ == join(mid + kit@.controls.take(j as int).map_values(|c: TrackControlAssignment| control_line(c)), '\n'),
        decreases kit.controls@.len() - j,
    {
        let ghost cur = mid + kit@.controls.take(j as int).map_values(|c: TrackControlAssignment| control_line(c));
        push_line_break(out, Ghost(cur));
        push_control_line(out, &kit.controls[j]);
        assert(cur.push(control_line(kit@.controls[j as int])) =~= mid + kit@.controls.take(j as int + 1).map_values(|c: TrackControlAssignment| control_line(c)));
        j = j + 1;
    }
    assert(kit@.controls.take(kit@.controls.len() as int) =~= kit@.controls);
    assert(mid + kit@.controls.map_values(|c: TrackControlAssignment| control_line(c)) =~= lines + kit_lines(kit@));
}

fn push_pattern_lines(out: &mut String, pattern: &Pattern, Ghost(lines): Ghost<Seq<Seq<char>>>)
    requires
        old(out)@ == join(lines, '\n'),
        lines.len() > 0,
    ensures
        final(out)@ == join(lines + pattern_lines(pattern@), '\n'),
{
    push_line_break(out, Ghost(lines));
    push_name_line(out, pattern.name.as_str());
    let ghost l1 = lines.push(name_line(pattern.name@));
    push_line_break(out, Ghost(l1));
    push_swing_line(out, pattern.swing);
    let ghost head = l1.push(swing_line(pattern.swing));
    let ghost all = Seq::new(PATTERN_CELLS as nat, |i: int| step_line(i, pattern@.steps[i]));
    let mut i: usize = 0;
    while i < PATTERN_CELLS
        invariant
            i <= PATTERN_CELLS,
            head.len() > 0,
            all == Seq::new(PATTERN_CELLS as nat, |i: int| step_line(i, pattern@.steps[i])),
            out@ == join(head + all.take(i as int), '\n'),
        decreases PATTERN_CELLS - i,
    {
        let ghost cur = head + all.take(i as int);
        push_line_break(out, Ghost(cur));
        push_step_line(out, i, pattern.steps[i]);
        assert(cur.push(step_line(i as int, pattern@.steps[i as int])) =~= head + all.take(i as int + 1));
        i = i + 1;
    }
    assert(head + all.take(PATTERN_CELLS as int) =~= lines + pattern_lines(pattern@));
}

/// The text form of a kit: a header line, the name, each sample assignment
/// and each control entry, in stored order.
pub fn save_kit_to_text(kit: &Kit) -> (r: String)
    ensures
        r@ == kit_text(kit@),
{
    let mut out = String::from_str("FF_KIT_V1");
    proof {
        reveal_strlit("FF_KIT_V1");
    }
    let ghost head = seq!["FF_KIT_V1"@];
    push_kit_lines(&mut out, kit, Ghost(head));
    out
}

/// The text form of a pattern: a header line, the name, the swing and the
/// 128 cells by track then step.
pub fn save_pattern_to_text(pattern: &Pattern) -> (r: String)
    ensures
        r@ == pattern_text(pattern@),
{
    let mut out = String::from_str("FF_PATTERN_V1");
    let ghost head = seq!["FF_PATTERN_V1"@];
    push_pattern_lines(&mut out, pattern, Ghost(head));
    out
}

fn push_selection_line(out: &mut String, key: &str, selection: Option<usize>, Ghost(lines): Ghost<Seq<Seq<char>>>)
    requires
        old(out)@ == join(lines, '\n'),
        lines.len() > 0,
    ensures
        final(out)@ == join(lines.push(join(seq![key@, index_text(selection_index(selection))], '=')), '\n'),
{
    push_line_break(out, Ghost(lines));
    let ghost mid = out@;
    out.append(key);
    out.append("=");
    push_index(out, match selection {
        Some(i) => Some(i as u64),
        None => None,
    });
    proof {
        reveal_strlit("=");
        let v = index_text(selection_index(selection));
        lemma_join_push(seq![key@], v, '=');
        assert(seq![key@].push(v) =~= seq![key@, v]);
        assert(out@ =~= mid + join(seq![key@, v], '='));
    }
}

/// The text form of a project: header, name, the two selections (`-1` for
/// none), then every kit and every pattern in a block of its own.
pub fn save_project_to_text(project: &Project) -> (r: String)
    ensures
        r@ == project_text(project@),
{
    let mut out = String::from_str("FF_PROJECT_V1");
    let ghost l0 = seq!["FF_PROJECT_V1"@];
    push_line_break(&mut out, Ghost(l0));
    push_name_line(&mut out, project.name.as_str());
    let ghost l1 = l0.push(name_line(project.name@));
    proof {
        reveal_strlit("active_kit");
        reveal_strlit("active_pattern");
    }
    push_selection_line(&mut out, "active_kit", project.active_kit, Ghost(l1));
    let ghost l2 = l1.push(join(seq!["active_kit"@, index_text(selection_index(project.active_kit))], '='));
    push_selection_line(&mut out, "active_pattern", project.active_pattern, Ghost(l2));
    let ghost head = l2.push(join(seq!["active_pattern"@, index_text(selection_index(project.active_pattern))], '='));
    let mut i: usize = 0;
    while i < project.kits.len()
        invariant
            i <= project@.kits.len(),
            head.len() > 0,
            project@.kits.len() == project.kits@.len(),
            out@ == join(head + kit_blocks(project@.kits.take(i as int)), '\n'),
        decreases project.kits@.len() - i,
    {
        let ghost cur = head + kit_blocks(project@.kits.take(i as int));
        push_word_line(&mut out, "BEGIN_KIT", Ghost(cur));
        push_kit_lines(&mut out, &project.kits[i], Ghost(cur.push("BEGIN_KIT"@)));
        let ghost cur2 = cur.push("BEGIN_KIT"@) + kit_lines(project@.kits[i as int]);
        push_word_line(&mut out, "END_KIT", Ghost(cur2));
        assert(project@.kits.take(i as int + 1).drop_last() =~= project@.kits.take(i as int));
        assert(cur2.push("END_KIT"@) =~= head + kit_blocks(project@.kits.take(i as int + 1)));
        i = i + 1;
    }
    assert(project@.kits.take(project@.kits.len() as int) =~= project@.kits);
    let ghost mid = head + kit_blocks(project@.kits);
    let mut j: usize = 0;
    while j < project.patterns.len()
        invariant
            j <= project@.patterns.len(),
            mid.len() > 0,
            project@.patterns.len() == project.patterns@.len(),
            out@ == join(mid + pattern_blocks(project@.patterns.take(j as int)), '\n'),
        decreases project.patterns@.len() - j,
    {
        let ghost cur = mid + pattern_blocks(project@.patterns.take(j as int));
        push_word_line(&mut out, "BEGIN_PATTERN", Ghost(cur));
        push_pattern_lines(&mut out, &project.patterns[j], Ghost(cur.push("BEGIN_PATTERN"@)));
        let ghost cur2 = cur.push("BEGIN_PATTERN"@) + pattern_lines(project@.patterns[j as int]);
        push_word_line(&mut out, "END_PATTERN", Ghost(cur2));
        assert(project@.patterns.take(j as int + 1).drop_last() =~= project@.patterns.take(j as int));
        assert(cur2.push("END_PATTERN"@) =~= mid + pattern_blocks(project@.patterns.take(j as int + 1)));
        j = j + 1;
    }
    assert(project@.patterns.take(project@.patterns.len() as int) =~= project@.patterns);
    assert(mid + pattern_blocks(project@.patterns) =~= project_lines(project@));
    out
}

/// Reads a `name=` line.
fn parse_name_line(line: &Vec<char>) -> (r: Option<String>)
    ensures
        forall|n: Seq<char>| #[trigger] name_line(n) == line@ ==> (r matches Some(s) && s@ == n),
{
    let parts = split_at_char(line, '=');
    proof {
        reveal_strlit("name");
        assert forall|n: Seq<char>| #[trigger] name_line(n) == line@ implies views(parts@) == seq!["name"@, hex(encode_utf8(n))] by {
            let ps = seq!["name"@, hex(encode_utf8(n))];
            lemma_free_hex(encode_utf8(n), '=');
            assert(all_free_of(ps, '='));
        }
    }
    if parts.len() != 2 || !is_word(&parts[0], "name") {
        return None;
    }
    proof {
        assert forall|n: Seq<char>| #[trigger] name_line(n) == line@ implies hex(encode_utf8(n)) == parts@[1]@ by {
            assert(views(parts@)[1] == parts@[1]@);
        }
    }
    parse_hex_text(&parts[1])
}

/// Reads a `track|` line.
fn parse_track_line(line: &Vec<char>) -> (r: Option<TrackAssignment>)
    ensures
        forall|t: (u8, Seq<char>)|
            #[trigger] track_line(t) == line@ ==> (r matches Some(a) && a.track_index == t.0 && a.sample_id@ == t.1),
{
    let parts = split_at_char(line, '|');
    proof {
        reveal_strlit("track");
        assert forall|t: (u8, Seq<char>)| #[trigger] track_line(t) == line@ implies views(parts@) == seq![
            "track"@,
            decimal(t.0 as nat),
            hex(encode_utf8(t.1)),
        ] by {
            let ps = seq!["track"@, decimal(t.0 as nat), hex(encode_utf8(t.1))];
            lemma_free_hex(encode_utf8(t.1), '|');
            lemma_free_decimal(t.0 as nat, '|');
            assert(all_free_of(ps, '|'));
        }
    }
    if parts.len() != 3 || !is_word(&parts[0], "track") {
        return None;
    }
    proof {
        assert forall|t: (u8, Seq<char>)| #[trigger] track_line(t) == line@ implies digits_field(parts@[1]@) == Some(t.0 as int) && hex(encode_utf8(t.1)) == parts@[2]@ by {
            assert(views(parts@)[1] == parts@[1]@);
            assert(views(parts@)[2] == parts@[2]@);
            lemma_decimal(t.0 as nat);
            lemma_pow10_ten();
            lemma_decimal_len(t.0 as nat, 10);
        }
    }
    let index = match parse_digits(&parts[1]) {
        Some(v) => v,
        None => {
            return None;
        },
    };
    if index > 255 {
        return None;
    }
    let sample_id = match parse_hex_text(&parts[2]) {
        Some(s) => s,
        None => {
            return None;
        },
    };
    Some(TrackAssignment { track_index: index as u8, sample_id })
}

pub open spec fn control_fields(c: TrackControlAssignment) -> Seq<Seq<char>> {
    seq![
        "control"@,
        decimal(c.track_index as nat),
        micro_text(c.controls.gain as int),
        micro_text(c.controls.pan as int),
        micro_text(c.controls.filter_cutoff as int),
        micro_text(c.controls.envelope_decay as int),
        micro_text(c.controls.pitch_semitones as int),
        index_text(choke_index(c.controls.choke_group)),
    ]
}

/// Reads a value in millionths that fits an `i32`.
fn parse_control_value(field: &Vec<char>) -> (r: Option<i32>)
    ensures
        forall|v: i32| #[trigger] micro_text(v as int) == field@ ==> r == Some(v),
{
    match parse_micro(field) {
        Some(v) => if v < i32::MIN as i64 || v > i32::MAX as i64 {
            None
        } else {
            Some(v as i32)
        },
        None => None,
    }
}

proof fn lemma_control_fields_free(c: TrackControlAssignment)
    ensures
        all_free_of(control_fields(c), '|'),
        control_line(c) == join(control_fields(c), '|'),
{
    reveal_strlit("control");
    let ps = control_fields(c);
    lemma_free_decimal(c.track_index as nat, '|');
    lemma_free_micro(c.controls.gain as int, '|');
    lemma_free_micro(c.controls.pan as int, '|');
    lemma_free_micro(c.controls.filter_cutoff as int, '|');
    lemma_free_micro(c.controls.envelope_decay as int, '|');
    lemma_free_micro(c.controls.pitch_semitones as int, '|');
    lemma_free_index(choke_index(c.controls.choke_group), '|');
    assert(all_free_of(ps, '|'));
}

/// Reads a `control|` line.
#[verifier::spinoff_prover]
#[verifier::rlimit(60)]
fn parse_control_line(line: &Vec<char>) -> (r: Option<TrackControlAssignment>)
    ensures
        forall|c: TrackControlAssignment| #[trigger] control_line(c) == line@ ==> r == Some(c),
{
    let parts = split_at_char(line, '|');
    proof {
        reveal_strlit("control");
        assert forall|c: TrackControlAssignment| #[trigger] control_line(c) == line@ implies views(parts@) == control_fields(c) by {
            lemma_control_fields_free(c);
        }
    }
    if parts.len() != 8 || !is_word(&parts[0], "control") {
        return None;
    }
    proof {
        assert forall|c: TrackControlAssignment| #[trigger] control_line(c) == line@ implies {
            &&& digits_field(parts@[1]@) == Some(c.track_index as int)
            &&& parts@[2]@ == micro_text(c.controls.gain as int)
            &&& parts@[3]@ == micro_text(c.controls.pan as int)
            &&& parts@[4]@ == micro_text(c.controls.filter_cutoff as int)
            &&& parts@[5]@ == micro_text(c.controls.envelope_decay as int)
            &&& parts@[6]@ == micro_text(c.controls.pitch_semitones as int)
            &&& parts@[7]@ == index_text(choke_index(c.controls.choke_group))
        } by {
            assert(views(parts@)[1] == parts@[1]@);
            assert(views(parts@)[2] == parts@[2]@);
            assert(views(parts@)[3] == parts@[3]@);
            assert(views(parts@)[4] == parts@[4]@);
            assert(views(parts@)[5] == parts@[5]@);
            assert(views(parts@)[6] == parts@[6]@);
            assert(views(parts@)[7] == parts@[7]@);
            lemma_decimal(c.track_index as nat);
            lemma_pow10_ten();
            lemma_decimal_len(c.track_index as nat, 10);
        }
    }
    let index = match parse_digits(&parts[1]) {
        Some(v) => v,
        None => {
            return None;
        },
    };
    if index > 255 {
        return None;
    }
    let gain = match parse_control_value(&parts[2]) {
        Some(v) => v,
        None => {
            return None;
        },
    };
    let pan = match parse_control_value(&parts[3]) {
        Some(v) => v,
        None => {
            return None;
        },
    };
    let filter_cutoff = match parse_control_value(&parts[4]) {
        Some(v) => v,
        None => {
            return None;
        },
    };
    let envelope_decay = match parse_control_value(&parts[5]) {
        Some(v) => v,
        None => {
            return None;
        },
    };
    let pitch_semitones = match parse_control_value(&parts[6]) {
        Some(v) => v,
        None => {
            return None;
        },
    };
    let choke_group = match parse_index_field(&parts[7]) {
        Some(None) => None,
        Some(Some(g)) => if g > 255 {
            return None;
        } else {
            Some(g as u8)
        },
        None => {
            return None;
        },
    };
    Some(
        TrackControlAssignment {
            track_index: index as u8,
            controls: TrackControls {
                gain,
                pan,
                filter_cutoff,
                envelope_decay,
                pitch_semitones,
                choke_group,
            },
        },
    )
}

/// Reads a `swing=` line.
fn parse_swing_line(line: &Vec<char>) -> (r: Option<u32>)
    ensures
        forall|w: u32| #[trigger] swing_line(w) == line@ ==> r == Some(w),
{
    let parts = split_at_char(line, '=');
    proof {
        reveal_strlit("swing");
        assert forall|w: u32| #[trigger] swing_line(w) == line@ implies views(parts@) == seq!["swing"@, micro_text(w as int)] by {
            lemma_free_micro(w as int, '=');
            assert(all_free_of(seq!["swing"@, micro_text(w as int)], '='));
        }
    }
    if parts.len() != 2 || !is_word(&parts[0], "swing") {
        return None;
    }
    proof {
        assert forall|w: u32| #[trigger] swing_line(w) == line@ implies parts@[1]@ == micro_text(w as int) by {
            assert(views(parts@)[1] == parts@[1]@);
        }
    }
    match parse_micro(&parts[1]) {
        Some(v) => if v < 0 || v > u32::MAX as i64 {
            None
        } else {
            Some(v as u32)
        },
        None => None,
    }
}

pub open spec fn step_fields(cell: int, step: PatternStep) -> Seq<Seq<char>> {
    seq![
        "step"@,
        decimal((cell / 16) as nat),
        decimal((cell % 16) as nat),
        flag_text(step.active),
        decimal(step.velocity as nat),
    ]
}

/// Reads a `step|` line as track, step and cell.
fn parse_step_line(line: &Vec<char>) -> (r: Option<(usize, usize, PatternStep)>)
    ensures
        forall|cell: int, step: PatternStep|
            0 <= cell < PATTERN_CELLS && #[trigger] step_line(cell, step) == line@ ==> r == Some(
                ((cell / 16) as usize, (cell % 16) as usize, step),
            ),
{
    let parts = split_at_char(line, '|');
    proof {
        reveal_strlit("step");
        reveal_strlit("1");
        reveal_strlit("0");
        assert forall|cell: int, step: PatternStep|
            0 <= cell < PATTERN_CELLS && #[trigger] step_line(cell, step) == line@ implies views(parts@) == step_fields(cell, step) by {
            lemma_free_decimal((cell / 16) as nat, '|');
            lemma_free_decimal((cell % 16) as nat, '|');
            lemma_free_decimal(step.velocity as nat, '|');
            assert(all_free_of(step_fields(cell, step), '|'));
        }
    }
    if parts.len() != 5 || !is_word(&parts[0], "step") {
        return None;
    }
    proof {
        assert forall|cell: int, step: PatternStep|
            0 <= cell < PATTERN_CELLS && #[trigger] step_line(cell, step) == line@ implies {
            &&& digits_field(parts@[1]@) == Some(cell / 16)
            &&& digits_field(parts@[2]@) == Some(cell % 16)
            &&& parts@[3]@ == flag_text(step.active)
            &&& digits_field(parts@[4]@) == Some(step.velocity as int)
        } by {
            assert(views(parts@)[1] == parts@[1]@);
            assert(views(parts@)[2] == parts@[2]@);
            assert(views(parts@)[3] == parts@[3]@);
            assert(views(parts@)[4] == parts@[4]@);
            lemma_pow10_ten();
            lemma_decimal((cell / 16) as nat);
            lemma_decimal_len((cell / 16) as nat, 10);
            lemma_decimal((cell % 16) as nat);
            lemma_decimal_len((cell % 16) as nat, 10);
            lemma_decimal(step.velocity as nat);
            lemma_decimal_len(step.velocity as nat, 10);
        }
    }
    let track_index = match parse_digits(&parts[1]) {
        Some(v) => v,
        None => {
            return None;
        },
    };
    let step_index = match parse_digits(&parts[2]) {
        Some(v) => v,
        None => {
            return None;
        },
    };
    proof {
        assert("0"@ != "1"@) by {
            assert("0"@[0] != "1"@[0]);
        }
    }
    let active = if is_word(&parts[3], "1") {
        true
    } else if is_word(&parts[3], "0") {
        false
    } else {
        return None;
    };
    let velocity = match parse_digits(&parts[4]) {
        Some(v) => v,
        None => {
            return None;
        },
    };
    if velocity > 255 || track_index > 255 || step_index > 255 {
        return None;
    }
    Some((track_index as usize, step_index as usize, PatternStep { active, velocity: velocity as u8 }))
}

/// A join of parts free of `c`, with a separator other than `c`, is free of
/// `c`.
proof fn lemma_join_free(parts: Seq<Seq<char>>, sep: char, c: char)
    requires
        all_free_of(parts, c),
        sep != c,
    ensures
        free_of(join(parts, sep), c),
    decreases parts.len(),
{
    if parts.len() > 1 {
        assert forall|i: int| 0 <= i < parts.drop_last().len() implies free_of(#[trigger] parts.drop_last()[i], c) by {
            assert(free_of(parts[i], c));
        }
        lemma_join_free(parts.drop_last(), sep, c);
        assert(free_of(parts.last(), c));
        let j = join(parts, sep);
        let a = join(parts.drop_last(), sep);
        assert forall|i: int| 0 <= i < j.len() implies j[i] != c by {
            if i < a.len() {
                assert(j[i] == a[i]);
            } else if i > a.len() {
                assert(j[i] == parts.last()[i - a.len() - 1]);
            }
        }
    } else if parts.len() == 1 {
        assert(free_of(parts[0], c));
    }
}

/// Facts about a line built from fields: it has no line break, and it
/// begins with its first field and the separator.
proof fn lemma_line_shape(fields: Seq<Seq<char>>, sep: char)
    requires
        fields.len() >= 2,
        all_free_of(fields, '\n'),
        sep != '\n',
    ensures
        free_of(join(fields, sep), '\n'),
        join(fields, sep).len() > fields[0].len(),
        join(fields, sep).take(fields[0].len() as int + 1) == fields[0] + seq![sep],
{
    lemma_join_free(fields, sep, '\n');
    lemma_join_head(fields, sep);
}

pub open spec fn unique_tracks(k: KitView) -> bool {
    forall|i: int, j: int|
        0 <= i < k.tracks.len() && 0 <= j < k.tracks.len() && i != j ==> #[trigger] k.tracks[i].0 != #[trigger] k.tracks[j].0
}

pub open spec fn unique_controls(k: KitView) -> bool {
    forall|i: int, j: int|
        0 <= i < k.controls.len() && 0 <= j < k.controls.len() && i != j ==> #[trigger] k.controls[i].track_index
            != #[trigger] k.controls[j].track_index
}

/// A kit that its text form carries exactly: no track has two sample
/// assignments or two control entries.
pub open spec fn kit_storable(k: KitView) -> bool {
    unique_tracks(k) && unique_controls(k)
}

pub open spec fn clamp_index(v: int, hi: int) -> int {
    if v < 0 {
        0
    } else if v > hi {
        hi
    } else {
        v
    }
}

/// The kit read from its first `j` lines.
pub open spec fn kit_prefix(k: KitView, j: int) -> KitView {
    KitView {
        name: if j >= 1 {
            k.name
        } else {
            Seq::empty()
        },
        tracks: k.tracks.take(clamp_index(j - 1, k.tracks.len() as int)),
        controls: k.controls.take(clamp_index(j - 1 - k.tracks.len(), k.controls.len() as int)),
    }
}

proof fn lemma_name_line_shape(n: Seq<char>)
    ensures
        free_of(name_line(n), '\n'),
        name_line(n).len() >= 5,
        name_line(n)[0] == 'n',
        name_line(n).take(5) == "name="@,
{
    reveal_strlit("name=");
    reveal_strlit("name");
    let f = seq!["name"@, hex(encode_utf8(n))];
    lemma_free_hex(encode_utf8(n), '\n');
    assert(all_free_of(f, '\n'));
    lemma_line_shape(f, '=');
    assert("name"@ + seq!['='] =~= "name="@);
    assert(name_line(n)[0] == name_line(n).take(5)[0]);
}

proof fn lemma_track_line_shape(e: (u8, Seq<char>))
    ensures
        free_of(track_line(e), '\n'),
        track_line(e).len() >= 6,
        track_line(e)[0] == 't',
        track_line(e).take(6) == "track|"@,
{
    reveal_strlit("track|");
    reveal_strlit("track");
    let f = seq!["track"@, decimal(e.0 as nat), hex(encode_utf8(e.1))];
    lemma_free_hex(encode_utf8(e.1), '\n');
    lemma_free_decimal(e.0 as nat, '\n');
    assert(all_free_of(f, '\n'));
    lemma_line_shape(f, '|');
    assert("track"@ + seq!['|'] =~= "track|"@);
    assert(track_line(e)[0] == track_line(e).take(6)[0]);
}

#[verifier::spinoff_prover]
proof fn lemma_control_line_shape(c: TrackControlAssignment)
    ensures
        free_of(control_line(c), '\n'),
        control_line(c).len() >= 8,
        control_line(c)[0] == 'c',
        control_line(c).take(8) == "control|"@,
{
    reveal_strlit("control|");
    reveal_strlit("control");
    let f = control_fields(c);
    lemma_free_decimal(c.track_index as nat, '\n');
    lemma_free_micro(c.controls.gain as int, '\n');
    lemma_free_micro(c.controls.pan as int, '\n');
    lemma_free_micro(c.controls.filter_cutoff as int, '\n');
    lemma_free_micro(c.controls.envelope_decay as int, '\n');
    lemma_free_micro(c.controls.pitch_semitones as int, '\n');
    lemma_free_index(choke_index(c.controls.choke_group), '\n');
    assert(all_free_of(f, '\n'));
    lemma_line_shape(f, '|');
    lemma_control_fields_free(c);
    assert("control"@ + seq!['|'] =~= "control|"@);
    assert(control_line(c)[0] == control_line(c).take(8)[0]);
}

proof fn lemma_kit_line(k: KitView, j: int)
    requires
        0 <= j < kit_lines(k).len(),
    ensures
        kit_lines(k).len() == 1 + k.tracks.len() + k.controls.len(),
        j == 0 ==> kit_lines(k)[j] == name_line(k.name),
        1 <= j <= k.tracks.len() ==> kit_lines(k)[j] == track_line(k.tracks[j - 1]),
        k.tracks.len() < j ==> kit_lines(k)[j] == control_line(k.controls[j - 1 - k.tracks.len()]),
        free_of(kit_lines(k)[j], '\n'),
{
    let t = k.tracks.len() as int;
    if j == 0 {
        lemma_name_line_shape(k.name);
    } else if j <= t {
        lemma_track_line_shape(k.tracks[j - 1]);
    } else {
        lemma_control_line_shape(k.controls[j - 1 - t]);
    }
}


/// Line `j` of kit `k`, read on top of its first `j` lines.
pub open spec fn kit_step(k: KitView, j: int, line: Seq<char>, before: KitView) -> bool {
    kit_storable(k) && 0 <= j < kit_lines(k).len() && line == kit_lines(k)[j] && before == kit_prefix(k, j)
}

#[verifier::spinoff_prover]
proof fn lemma_kit_line_kind(k: KitView, j: int)
    requires
        0 <= j < kit_lines(k).len(),
    ensures
        kit_lines(k)[j].len() >= 5,
        j == 0 ==> kit_lines(k)[j][0] == 'n' && kit_lines(k)[j].take(5) == "name="@,
        1 <= j <= k.tracks.len() ==> kit_lines(k)[j][0] == 't' && kit_lines(k)[j].len() >= 6 && kit_lines(k)[j].take(6) == "track|"@,
        k.tracks.len() < j ==> kit_lines(k)[j][0] == 'c' && kit_lines(k)[j].len() >= 8 && kit_lines(k)[j].take(8) == "control|"@,
{
    lemma_kit_line(k, j);
    if j == 0 {
        lemma_name_line_shape(k.name);
    } else if j <= k.tracks.len() {
        lemma_track_line_shape(k.tracks[j - 1]);
    } else {
        lemma_control_line_shape(k.controls[j - 1 - k.tracks.len()]);
    }
}

#[verifier::spinoff_prover]
fn apply_track_line(kit: &mut Kit, line: &Vec<char>) -> (r: bool)
    ensures
        forall|k: KitView, j: int|
            #[trigger] kit_step(k, j, line@, old(kit)@) && 1 <= j <= k.tracks.len() ==> r && final(kit)@ == kit_prefix(k, j + 1),
{
    let assignment = match parse_track_line(line) {
        Some(a) => a,
        None => {
            proof {
                assert forall|k: KitView, j: int|
                    #[trigger] kit_step(k, j, line@, old(kit)@) && 1 <= j <= k.tracks.len() implies false by {
                    lemma_kit_line(k, j);
                }
            }
            return false;
        },
    };
    let ghost a = (assignment.track_index, assignment.sample_id@);
    let ghost before = kit@;
    let ghost before_exec = kit.tracks@;
    let added = kit.add_assignment(assignment);
    proof {
        assert forall|k: KitView, j: int|
            #[trigger] kit_step(k, j, line@, old(kit)@) && 1 <= j <= k.tracks.len() implies added && kit@ == kit_prefix(k, j + 1) by {
            lemma_kit_line(k, j);
            assert(a == k.tracks[j - 1]);
            if has_assignment(before_exec, a.0) {
                let x = choose|x: int| 0 <= x < before_exec.len() && (#[trigger] before_exec[x]).track_index == a.0;
                assert(before == kit_prefix(k, j));
                assert(clamp_index(j - 1, k.tracks.len() as int) == j - 1);
                assert(before.tracks == k.tracks.take(j - 1));
                assert(before.tracks[x] == k.tracks[x]);
                assert(before.tracks[x].0 == before_exec[x].track_index);
                assert(k.tracks[x].0 != k.tracks[j - 1].0);
                assert(false);
            }
            assert(kit.tracks@ == before_exec.push(assignment));
            assert(before.tracks == k.tracks.take(j - 1)) by {
                assert(clamp_index(j - 1, k.tracks.len() as int) == j - 1);
            }
            assert(clamp_index(j, k.tracks.len() as int) == j);
            assert(kit@.tracks =~= before.tracks.push(a));
            assert(kit@.tracks =~= kit_prefix(k, j + 1).tracks);
            assert(kit@.controls =~= kit_prefix(k, j + 1).controls);
        }
    }
    added
}

#[verifier::spinoff_prover]
fn apply_control_line(kit: &mut Kit, line: &Vec<char>) -> (r: bool)
    ensures
        forall|k: KitView, j: int|
            #[trigger] kit_step(k, j, line@, old(kit)@) && k.tracks.len() < j ==> r && final(kit)@ == kit_prefix(k, j + 1),
{
    let control = match parse_control_line(line) {
        Some(c) => c,
        None => {
            proof {
                assert forall|k: KitView, j: int|
                    #[trigger] kit_step(k, j, line@, old(kit)@) && k.tracks.len() < j implies false by {
                    lemma_kit_line(k, j);
                }
            }
            return false;
        },
    };
    let ghost before_exec = kit.controls@;
    kit.set_track_controls(control.track_index, control.controls);
    proof {
        assert forall|k: KitView, j: int|
            #[trigger] kit_step(k, j, line@, old(kit)@) && k.tracks.len() < j implies kit@ == kit_prefix(k, j + 1) by {
            lemma_kit_line(k, j);
            let t = k.tracks.len() as int;
            assert(control == k.controls[j - 1 - t]);
            if exists|x: int| 0 <= x < before_exec.len() && (#[trigger] before_exec[x]).track_index == control.track_index {
                let x = choose|x: int| 0 <= x < before_exec.len() && (#[trigger] before_exec[x]).track_index == control.track_index;
                assert(old(kit)@ == kit_prefix(k, j));
                assert(clamp_index(j - 1 - t, k.controls.len() as int) == j - 1 - t);
                assert(before_exec == k.controls.take(j - 1 - t));
                assert(before_exec[x] == k.controls[x]);
                assert(k.controls[x].track_index != k.controls[j - 1 - t].track_index);
                assert(false);
            }
            assert(control_position(before_exec, control.track_index) is None);
            assert(kit@.tracks =~= kit_prefix(k, j + 1).tracks);
            assert(kit@.controls =~= kit_prefix(k, j + 1).controls);
        }
    }
    true
}

/// Reads one line of a kit into `kit`: a `name=`, `track|` or `control|`
/// record. A second assignment to one track fails; a second control entry
/// replaces the first.
#[verifier::spinoff_prover]
fn apply_kit_line(kit: &mut Kit, line: &Vec<char>) -> (r: bool)
    ensures
        forall|k: KitView, j: int| #[trigger] kit_step(k, j, line@, old(kit)@) ==> r && final(kit)@ == kit_prefix(k, j + 1),
{
    proof {
        reveal_strlit("name=");
        reveal_strlit("track|");
        reveal_strlit("control|");
    }
    if starts_with(line, "name=") {
        proof {
            assert forall|k: KitView, j: int| #[trigger] kit_step(k, j, line@, old(kit)@) implies j == 0 by {
                lemma_kit_line_kind(k, j);
                assert(line@[0] == line@.take(5)[0]);
            }
        }
        match parse_name_line(line) {
            Some(name) => {
                kit.name = name;
                proof {
                    assert forall|k: KitView, j: int| #[trigger] kit_step(k, j, line@, old(kit)@) implies kit@ == kit_prefix(k, j + 1) by {
                        lemma_kit_line(k, j);
                        assert(kit@.tracks =~= kit_prefix(k, j + 1).tracks);
                        assert(kit@.controls =~= kit_prefix(k, j + 1).controls);
                    }
                }
                true
            },
            None => {
                proof {
                    assert forall|k: KitView, j: int| #[trigger] kit_step(k, j, line@, old(kit)@) implies false by {
                        lemma_kit_line(k, j);
                    }
                }
                false
            },
        }
    } else if starts_with(line, "track|") {
        proof {
            assert forall|k: KitView, j: int| #[trigger] kit_step(k, j, line@, old(kit)@) implies 1 <= j <= k.tracks.len() by {
                lemma_kit_line_kind(k, j);
                assert(line@[0] == line@.take(6)[0]);
            }
        }
        apply_track_line(kit, line)
    } else if starts_with(line, "control|") {
        proof {
            assert forall|k: KitView, j: int| #[trigger] kit_step(k, j, line@, old(kit)@) implies k.tracks.len() < j by {
                lemma_kit_line_kind(k, j);
                assert(line@[0] == line@.take(8)[0]);
            }
        }
        apply_control_line(kit, line)
    } else {
        proof {
            assert forall|k: KitView, j: int| #[trigger] kit_step(k, j, line@, old(kit)@) implies false by {
                lemma_kit_line_kind(k, j);
            }
        }
        false
    }
}

/// `lines[start..end]` are the lines of kit `k`.
pub open spec fn holds_kit(lines: Seq<Seq<char>>, start: int, end: int, k: KitView) -> bool {
    0 <= start <= end <= lines.len() && lines.subrange(start, end) == kit_lines(k)
}

/// Reads the lines of a kit.
fn load_kit_lines(lines: &Vec<Vec<char>>, start: usize, end: usize) -> (r: Result<Kit, String>)
    requires
        start <= end <= lines@.len(),
    ensures
        forall|k: KitView|
            kit_storable(k) && #[trigger] holds_kit(views(lines@), start as int, end as int, k) ==> (r matches Ok(
                kit,
            ) && kit@ == k),
{
    let mut kit = Kit::default();
    proof {
        assert forall|k: KitView| kit_storable(k) && #[trigger] holds_kit(views(lines@), start as int, end as int, k) implies kit@ == kit_prefix(k, 0) by {
            assert(kit@.name =~= kit_prefix(k, 0).name);
            assert(kit@.tracks =~= kit_prefix(k, 0).tracks);
            assert(kit@.controls =~= kit_prefix(k, 0).controls);
        }
    }
    let mut i: usize = start;
    while i < end
        invariant
            start <= i <= end,
            end <= lines@.len(),
            forall|k: KitView|
                kit_storable(k) && #[trigger] holds_kit(views(lines@), start as int, end as int, k) ==> kit@ == kit_prefix(k, i - start),
        decreases end - i,
    {
        let ghost j = i - start;
        proof {
            assert forall|k: KitView| kit_storable(k) && #[trigger] holds_kit(views(lines@), start as int, end as int, k) implies kit_step(k, j, lines@[i as int]@, kit@) by {
                assert(views(lines@).subrange(start as int, end as int)[j] == views(lines@)[i as int]);
            }
        }
        if !apply_kit_line(&mut kit, &lines[i]) {
            return Err(String::from_str("invalid kit line"));
        }
        i = i + 1;
    }
    proof {
        assert forall|k: KitView| kit_storable(k) && #[trigger] holds_kit(views(lines@), start as int, end as int, k) implies kit@ == k by {
            lemma_kit_line(k, 0);
            assert(k.tracks.take(k.tracks.len() as int) =~= k.tracks);
            assert(k.controls.take(k.controls.len() as int) =~= k.controls);
        }
    }
    Ok(kit)
}

proof fn lemma_kit_text_lines(k: KitView)
    ensures
        all_free_of(seq!["FF_KIT_V1"@] + kit_lines(k), '\n'),
        (seq!["FF_KIT_V1"@] + kit_lines(k)).len() > 0,
{
    reveal_strlit("FF_KIT_V1");
    let ls = seq!["FF_KIT_V1"@] + kit_lines(k);
    assert forall|i: int| 0 <= i < ls.len() implies free_of(#[trigger] ls[i], '\n') by {
        if i > 0 {
            lemma_kit_line(k, i - 1);
            assert(ls[i] == kit_lines(k)[i - 1]);
        }
    }
}

/// Reads a whole kit text: the `FF_KIT_V1` header, then the kit's lines.
/// Every kit without two assignments or two control entries for one track
/// reads back from `save_kit_to_text` as itself.
/// Where the lines of a text split as `lines`, and the text is that of kit
/// `k`, the lines are its header and its lines.
proof fn lemma_kit_text_split(k: KitView, lines: Seq<Seq<char>>)
    requires
        lines.len() > 0,
        all_free_of(lines, '\n'),
        join(lines, '\n') == kit_text(k),
    ensures
        lines[0] == "FF_KIT_V1"@,
        lines.subrange(1, lines.len() as int) == kit_lines(k),
{
    lemma_kit_text_lines(k);
    lemma_join_unique(lines, seq!["FF_KIT_V1"@] + kit_lines(k), '\n');
    assert(lines.subrange(1, lines.len() as int) =~= kit_lines(k));
}

/// Reads a whole kit text: the `FF_KIT_V1` header, then the kit's lines.
/// Every kit without two assignments or two control entries for one track
/// reads back from `save_kit_to_text` as itself.
pub fn load_kit_from_text(text: &str) -> (r: Result<Kit, String>)
    ensures
        forall|k: KitView| kit_storable(k) && #[trigger] kit_text(k) == text@ ==> (r matches Ok(kit) && kit@ == k),
{
    let chars = text_chars(text);
    let lines = split_at_char(&chars, '\n');
    proof {
        reveal_strlit("FF_KIT_V1");
    }
    if !is_word(&lines[0], "FF_KIT_V1") {
        proof {
            assert forall|k: KitView| kit_storable(k) && #[trigger] kit_text(k) == text@ implies false by {
                lemma_kit_text_split(k, views(lines@));
            }
        }
        return Err(String::from_str("unexpected kit header"));
    }
    proof {
        assert forall|k: KitView| kit_storable(k) && #[trigger] kit_text(k) == text@ implies holds_kit(views(lines@), 1, lines@.len() as int, k) by {
            lemma_kit_text_split(k, views(lines@));
        }
    }
    load_kit_lines(&lines, 1, lines.len())
}

/// A pattern that its text form carries exactly: a swing in range and the
/// full grid.
pub open spec fn pattern_storable(p: PatternView) -> bool {
    p.swing <= MAX_SWING && p.steps.len() == PATTERN_CELLS
}

pub open spec fn default_step() -> PatternStep {
    PatternStep { active: false, velocity: DEFAULT_VELOCITY }
}

/// The pattern read from its first `j` lines.
pub open spec fn pattern_prefix(p: PatternView, j: int) -> PatternView {
    PatternView {
        name: if j >= 1 {
            p.name
        } else {
            "pattern"@
        },
        swing: if j >= 2 {
            p.swing
        } else {
            0
        },
        steps: Seq::new(PATTERN_CELLS as nat, |i: int| if i < j - 2 {
            p.steps[i]
        } else {
            default_step()
        }),
    }
}

proof fn lemma_swing_line_shape(w: u32)
    ensures
        free_of(swing_line(w), '\n'),
        swing_line(w).len() >= 6,
        swing_line(w).take(6) == "swing="@,
{
    reveal_strlit("swing=");
    reveal_strlit("swing");
    let f = seq!["swing"@, micro_text(w as int)];
    lemma_free_micro(w as int, '\n');
    assert(all_free_of(f, '\n'));
    lemma_line_shape(f, '=');
    assert("swing"@ + seq!['='] =~= "swing="@);
}

proof fn lemma_step_line_shape(cell: int, st: PatternStep)
    requires
        0 <= cell < PATTERN_CELLS,
    ensures
        free_of(step_line(cell, st), '\n'),
        step_line(cell, st).len() >= 5,
        step_line(cell, st).take(5) == "step|"@,
{
    reveal_strlit("step|");
    reveal_strlit("step");
    reveal_strlit("1");
    reveal_strlit("0");
    let f = step_fields(cell, st);
    lemma_free_decimal((cell / 16) as nat, '\n');
    lemma_free_decimal((cell % 16) as nat, '\n');
    lemma_free_decimal(st.velocity as nat, '\n');
    assert(all_free_of(f, '\n'));
    lemma_line_shape(f, '|');
    assert("step"@ + seq!['|'] =~= "step|"@);
}

#[verifier::spinoff_prover]
proof fn lemma_pattern_line(p: PatternView, j: int)
    requires
        pattern_storable(p),
        0 <= j < pattern_lines(p).len(),
    ensures
        pattern_lines(p).len() == 2 + PATTERN_CELLS,
        j == 0 ==> pattern_lines(p)[j] == name_line(p.name),
        j == 1 ==> pattern_lines(p)[j] == swing_line(p.swing),
        j >= 2 ==> pattern_lines(p)[j] == step_line(j - 2, p.steps[j - 2]),
        free_of(pattern_lines(p)[j], '\n'),
        pattern_lines(p)[j].len() >= 5,
        j == 0 ==> pattern_lines(p)[j].take(5) == "name="@,
        j == 1 ==> pattern_lines(p)[j].take(6) == "swing="@,
        j >= 2 ==> pattern_lines(p)[j].take(5) == "step|"@,
{
    if j == 0 {
        lemma_name_line_shape(p.name);
    } else if j == 1 {
        lemma_swing_line_shape(p.swing);
    } else {
        lemma_step_line_shape(j - 2, p.steps[j - 2]);
    }
}

/// Line `j` of pattern `p`, read on top of its first `j` lines.
pub open spec fn pattern_step(p: PatternView, j: int, line: Seq<char>, before: PatternView) -> bool {
    pattern_storable(p) && 0 <= j < pattern_lines(p).len() && line == pattern_lines(p)[j] && before
        == pattern_prefix(p, j)
}

/// Reads one line of a pattern into `pattern`: a `name=`, `swing=` or
/// `step|` record; a cell out of the grid fails.
#[verifier::spinoff_prover]
fn apply_pattern_line(pattern: &mut Pattern, line: &Vec<char>) -> (r: bool)
    ensures
        forall|p: PatternView, j: int| #[trigger] pattern_step(p, j, line@, old(pattern)@) ==> r && final(pattern)@
            == pattern_prefix(p, j + 1),
{
    proof {
        reveal_strlit("name=");
        reveal_strlit("swing=");
        reveal_strlit("step|");
    }
    if starts_with(line, "name=") {
        proof {
            assert forall|p: PatternView, j: int| #[trigger] pattern_step(p, j, line@, old(pattern)@) implies j == 0 by {
                lemma_pattern_line(p, j);
                assert(line@[0] == line@.take(5)[0]);
                if j == 1 {
                    assert(line@.take(6)[1] == line@.take(5)[1]);
                }
                if j >= 2 {
                    assert(line@.take(5)[0] == 's');
                }
            }
        }
        match parse_name_line(line) {
            Some(name) => {
                pattern.name = name;
                proof {
                    assert forall|p: PatternView, j: int| #[trigger] pattern_step(p, j, line@, old(pattern)@) implies pattern@ == pattern_prefix(p, j + 1) by {
                        lemma_pattern_line(p, j);
                        assert(pattern@.steps =~= pattern_prefix(p, j + 1).steps);
                    }
                }
                true
            },
            None => {
                proof {
                    assert forall|p: PatternView, j: int| #[trigger] pattern_step(p, j, line@, old(pattern)@) implies false by {
                        lemma_pattern_line(p, j);
                    }
                }
                false
            },
        }
    } else if starts_with(line, "swing=") {
        proof {
            assert forall|p: PatternView, j: int| #[trigger] pattern_step(p, j, line@, old(pattern)@) implies j == 1 by {
                lemma_pattern_line(p, j);
                if j == 0 {
                    assert(line@.take(6)[0] == line@.take(5)[0]);
                }
                if j >= 2 {
                    assert(line@.take(6)[1] == line@.take(5)[1]);
                }
            }
        }
        match parse_swing_line(line) {
            Some(w) => {
                pattern.set_swing(w);
                proof {
                    assert forall|p: PatternView, j: int| #[trigger] pattern_step(p, j, line@, old(pattern)@) implies pattern@ == pattern_prefix(p, j + 1) by {
                        lemma_pattern_line(p, j);
                        assert(pattern@.steps =~= pattern_prefix(p, j + 1).steps);
                    }
                }
                true
            },
            None => {
                proof {
                    assert forall|p: PatternView, j: int| #[trigger] pattern_step(p, j, line@, old(pattern)@) implies false by {
                        lemma_pattern_line(p, j);
                    }
                }
                false
            },
        }
    } else if starts_with(line, "step|") {
        proof {
            assert forall|p: PatternView, j: int| #[trigger] pattern_step(p, j, line@, old(pattern)@) implies j >= 2 by {
                lemma_pattern_line(p, j);
                if j == 0 {
                    assert(line@.take(5)[0] == 'n');
                }
                if j == 1 {
                    assert(line@.take(6)[1] == line@.take(5)[1]);
                }
            }
        }
        match parse_step_line(line) {
            Some((track_index, step_index, cell)) => {
                let placed = pattern.set_step(track_index, step_index, cell);
                proof {
                    assert forall|p: PatternView, j: int| #[trigger] pattern_step(p, j, line@, old(pattern)@) implies placed && pattern@ == pattern_prefix(p, j + 1) by {
                        lemma_pattern_line(p, j);
                        let c = j - 2;
                        assert(cell_index(c / 16, c % 16) == c);
                        assert(pattern@.steps =~= pattern_prefix(p, j + 1).steps);
                    }
                }
                placed
            },
            None => {
                proof {
                    assert forall|p: PatternView, j: int| #[trigger] pattern_step(p, j, line@, old(pattern)@) implies false by {
                        lemma_pattern_line(p, j);
                    }
                }
                false
            },
        }
    } else {
        proof {
            assert forall|p: PatternView, j: int| #[trigger] pattern_step(p, j, line@, old(pattern)@) implies false by {
                lemma_pattern_line(p, j);
            }
        }
        false
    }
}

pub open spec fn holds_pattern(lines: Seq<Seq<char>>, start: int, end: int, p: PatternView) -> bool {
    0 <= start <= end <= lines.len() && lines.subrange(start, end) == pattern_lines(p)
}

/// Reads the lines of a pattern.
fn load_pattern_lines(lines: &Vec<Vec<char>>, start: usize, end: usize) -> (r: Result<Pattern, String>)
    requires
        start <= end <= lines@.len(),
    ensures
        forall|p: PatternView|
            pattern_storable(p) && #[trigger] holds_pattern(views(lines@), start as int, end as int, p) ==> (r matches Ok(
                pattern,
            ) && pattern@ == p),
{
    let mut pattern = Pattern::default();
    proof {
        reveal_strlit("pattern");
        assert forall|p: PatternView| pattern_storable(p) && #[trigger] holds_pattern(views(lines@), start as int, end as int, p) implies pattern@ == pattern_prefix(p, 0) by {
            assert(pattern@.steps =~= pattern_prefix(p, 0).steps);
        }
    }
    let mut i: usize = start;
    while i < end
        invariant
            start <= i <= end,
            end <= lines@.len(),
            forall|p: PatternView|
                pattern_storable(p) && #[trigger] holds_pattern(views(lines@), start as int, end as int, p) ==> pattern@ == pattern_prefix(p, i - start),
        decreases end - i,
    {
        let ghost j = i - start;
        proof {
            assert forall|p: PatternView| pattern_storable(p) && #[trigger] holds_pattern(views(lines@), start as int, end as int, p) implies pattern_step(p, j, lines@[i as int]@, pattern@) by {
                assert(views(lines@).subrange(start as int, end as int)[j] == views(lines@)[i as int]);
            }
        }
        if !apply_pattern_line(&mut pattern, &lines[i]) {
            return Err(String::from_str("invalid pattern line"));
        }
        i = i + 1;
    }
    proof {
        assert forall|p: PatternView| pattern_storable(p) && #[trigger] holds_pattern(views(lines@), start as int, end as int, p) implies pattern@ == p by {
            lemma_pattern_line(p, 0);
            assert(pattern@.steps =~= p.steps);
        }
    }
    Ok(pattern)
}

proof fn lemma_pattern_text_split(p: PatternView, lines: Seq<Seq<char>>)
    requires
        pattern_storable(p),
        lines.len() > 0,
        all_free_of(lines, '\n'),
        join(lines, '\n') == pattern_text(p),
    ensures
        lines[0] == "FF_PATTERN_V1"@,
        lines.subrange(1, lines.len() as int) == pattern_lines(p),
{
    reveal_strlit("FF_PATTERN_V1");
    let ls = seq!["FF_PATTERN_V1"@] + pattern_lines(p);
    assert forall|i: int| 0 <= i < ls.len() implies free_of(#[trigger] ls[i], '\n') by {
        if i > 0 {
            lemma_pattern_line(p, i - 1);
            assert(ls[i] == pattern_lines(p)[i - 1]);
        }
    }
    lemma_join_unique(lines, ls, '\n');
    assert(lines.subrange(1, lines.len() as int) =~= pattern_lines(p));
}

/// Reads a whole pattern text: the `FF_PATTERN_V1` header, then the
/// pattern's lines. Every pattern whose swing is in range reads back from
/// `save_pattern_to_text` as itself.
pub fn load_pattern_from_text(text: &str) -> (r: Result<Pattern, String>)
    ensures
        forall|p: PatternView| pattern_storable(p) && #[trigger] pattern_text(p) == text@ ==> (r matches Ok(pattern) && pattern@ == p),
{
    let chars = text_chars(text);
    let lines = split_at_char(&chars, '\n');
    proof {
        reveal_strlit("FF_PATTERN_V1");
    }
    if !is_word(&lines[0], "FF_PATTERN_V1") {
        proof {
            assert forall|p: PatternView| pattern_storable(p) && #[trigger] pattern_text(p) == text@ implies false by {
                lemma_pattern_text_split(p, views(lines@));
            }
        }
        return Err(String::from_str("unexpected pattern header"));
    }
    proof {
        assert forall|p: PatternView| pattern_storable(p) && #[trigger] pattern_text(p) == text@ implies holds_pattern(views(lines@), 1, lines@.len() as int, p) by {
            lemma_pattern_text_split(p, views(lines@));
        }
    }
    load_pattern_lines(&lines, 1, lines.len())
}

pub open spec fn kit_block(k: KitView) -> Seq<Seq<char>> {
    seq!["BEGIN_KIT"@] + kit_lines(k) + seq!["END_KIT"@]
}

pub open spec fn pattern_block(p: PatternView) -> Seq<Seq<char>> {
    seq!["BEGIN_PATTERN"@] + pattern_lines(p) + seq!["END_PATTERN"@]
}

proof fn lemma_kit_blocks_prefix(ks: Seq<KitView>, m: int)
    requires
        0 <= m <= ks.len(),
    ensures
        kit_blocks(ks.take(m)).len() <= kit_blocks(ks).len(),
        kit_blocks(ks).subrange(0, kit_blocks(ks.take(m)).len() as int) == kit_blocks(ks.take(m)),
    decreases ks.len() - m,
{
    if m == ks.len() {
        assert(ks.take(m) =~= ks);
        assert(kit_blocks(ks).subrange(0, kit_blocks(ks).len() as int) =~= kit_blocks(ks));
    } else {
        lemma_kit_blocks_prefix(ks, m + 1);
        assert(ks.take(m + 1).drop_last() =~= ks.take(m));
        let a = kit_blocks(ks.take(m));
        let b = kit_blocks(ks.take(m + 1));
        assert(b.subrange(0, a.len() as int) =~= a);
        assert(kit_blocks(ks).subrange(0, a.len() as int) =~= b.subrange(0, a.len() as int));
    }
}

proof fn lemma_pattern_blocks_prefix(ps: Seq<PatternView>, n: int)
    requires
        0 <= n <= ps.len(),
    ensures
        pattern_blocks(ps.take(n)).len() <= pattern_blocks(ps).len(),
        pattern_blocks(ps).subrange(0, pattern_blocks(ps.take(n)).len() as int) == pattern_blocks(ps.take(n)),
    decreases ps.len() - n,
{
    if n == ps.len() {
        assert(ps.take(n) =~= ps);
        assert(pattern_blocks(ps).subrange(0, pattern_blocks(ps).len() as int) =~= pattern_blocks(ps));
    } else {
        lemma_pattern_blocks_prefix(ps, n + 1);
        assert(ps.take(n + 1).drop_last() =~= ps.take(n));
        let a = pattern_blocks(ps.take(n));
        let b = pattern_blocks(ps.take(n + 1));
        assert(b.subrange(0, a.len() as int) =~= a);
        assert(pattern_blocks(ps).subrange(0, a.len() as int) =~= b.subrange(0, a.len() as int));
    }
}

pub open spec fn project_head(pv: ProjectView) -> Seq<Seq<char>> {
    seq![
        "FF_PROJECT_V1"@,
        name_line(pv.name),
        join(seq!["active_kit"@, index_text(selection_index(pv.active_kit))], '='),
        join(seq!["active_pattern"@, index_text(selection_index(pv.active_pattern))], '='),
    ]
}

/// Where block `m` of the kits begins among the project's lines.
pub open spec fn kit_block_start(pv: ProjectView, m: int) -> int {
    4 + kit_blocks(pv.kits.take(m)).len() as int
}

/// Where block `n` of the patterns begins among the project's lines.
pub open spec fn pattern_block_start(pv: ProjectView, n: int) -> int {
    4 + kit_blocks(pv.kits).len() as int + pattern_blocks(pv.patterns.take(n)).len() as int
}

proof fn lemma_kit_block_at(pv: ProjectView, m: int)
    requires
        0 <= m < pv.kits.len(),
    ensures
        kit_block_start(pv, m + 1) == kit_block_start(pv, m) + kit_block(pv.kits[m]).len(),
        kit_block_start(pv, m + 1) <= pattern_block_start(pv, 0),
        forall|t: int|
            0 <= t < kit_block(pv.kits[m]).len() ==> project_lines(pv)[kit_block_start(pv, m) + t]
                == #[trigger] kit_block(pv.kits[m])[t],
{
    let ks = pv.kits;
    assert(ks.take(m + 1).drop_last() =~= ks.take(m));
    assert(kit_blocks(ks.take(m + 1)) =~= kit_blocks(ks.take(m)) + kit_block(ks[m]));
    lemma_kit_blocks_prefix(ks, m + 1);
    assert(pv.patterns.take(0) =~= Seq::<PatternView>::empty());
    let st = kit_block_start(pv, m);
    let a = kit_blocks(ks.take(m));
    assert forall|t: int| 0 <= t < kit_block(ks[m]).len() implies project_lines(pv)[st + t] == #[trigger] kit_block(ks[m])[t] by {
        assert(project_lines(pv)[st + t] == kit_blocks(ks)[a.len() + t]);
        assert(kit_blocks(ks)[a.len() + t] == kit_blocks(ks.take(m + 1))[a.len() + t]);
    }
}

proof fn lemma_pattern_block_at(pv: ProjectView, n: int)
    requires
        0 <= n < pv.patterns.len(),
    ensures
        pattern_block_start(pv, n + 1) == pattern_block_start(pv, n) + pattern_block(pv.patterns[n]).len(),
        pattern_block_start(pv, n + 1) <= project_lines(pv).len(),
        forall|t: int|
            0 <= t < pattern_block(pv.patterns[n]).len() ==> project_lines(pv)[pattern_block_start(pv, n) + t]
                == #[trigger] pattern_block(pv.patterns[n])[t],
{
    let ps = pv.patterns;
    assert(ps.take(n + 1).drop_last() =~= ps.take(n));
    assert(pattern_blocks(ps.take(n + 1)) =~= pattern_blocks(ps.take(n)) + pattern_block(ps[n]));
    lemma_pattern_blocks_prefix(ps, n + 1);
    let st = pattern_block_start(pv, n);
    let a = pattern_blocks(ps.take(n));
    let kb = kit_blocks(pv.kits).len() as int;
    assert forall|t: int| 0 <= t < pattern_block(ps[n]).len() implies project_lines(pv)[st + t] == #[trigger] pattern_block(ps[n])[t] by {
        assert(project_lines(pv)[st + t] == pattern_blocks(ps)[a.len() + t]);
        assert(pattern_blocks(ps)[a.len() + t] == pattern_blocks(ps.take(n + 1))[a.len() + t]);
    }
}

/// The first line at or after `from` that is exactly `word`, or the number
/// of lines when there is none.
fn find_line(lines: &Vec<Vec<char>>, from: usize, word: &str) -> (r: usize)
    requires
        from <= lines@.len(),
    ensures
        from <= r <= lines@.len(),
        forall|j: int| from <= j < r ==> lines@[j]@ != word@,
        r < lines@.len() ==> lines@[r as int]@ == word@,
{
    let mut i = from;
    while i < lines.len()
        invariant
            from <= i <= lines@.len(),
            forall|j: int| from <= j < i ==> lines@[j]@ != word@,
        decreases lines@.len() - i,
    {
        if is_word(&lines[i], word) {
            return i;
        }
        i = i + 1;
    }
    i
}

pub open spec fn selection_line(key: Seq<char>, x: Option<int>) -> Seq<char> {
    join(seq![key, index_text(x)], '=')
}

pub open spec fn as_raw(x: Option<int>) -> Option<u64> {
    match x {
        Some(n) => Some(n as u64),
        None => None,
    }
}

/// Reads a `key=` line holding an optional index.
fn parse_selection_line(line: &Vec<char>, key: &str) -> (r: Option<Option<u64>>)
    requires
        free_of(key@, '='),
    ensures
        forall|x: Option<int>|
            (x matches Some(n) ==> 0 <= n < 10_000_000_000) && #[trigger] selection_line(key@, x) == line@ ==> r == Some(
                as_raw(x),
            ),
{
    let parts = split_at_char(line, '=');
    proof {
        assert forall|x: Option<int>|
            (x matches Some(n) ==> 0 <= n < 10_000_000_000) && #[trigger] selection_line(key@, x) == line@ implies views(parts@)
            == seq![key@, index_text(x)] by {
            lemma_free_index(x, '=');
            assert(all_free_of(seq![key@, index_text(x)], '='));
        }
    }
    if parts.len() != 2 || !is_word(&parts[0], key) {
        return None;
    }
    proof {
        assert forall|x: Option<int>|
            (x matches Some(n) ==> 0 <= n < 10_000_000_000) && #[trigger] selection_line(key@, x) == line@ implies parts@[1]@
            == index_text(x) by {
            assert(views(parts@)[1] == parts@[1]@);
        }
    }
    parse_index_field(&parts[1])
}

/// A project that its text form carries exactly: every kit and pattern
/// storable, and each selection naming an existing entry.
pub open spec fn project_storable(pv: ProjectView) -> bool {
    &&& forall|m: int| 0 <= m < pv.kits.len() ==> kit_storable(#[trigger] pv.kits[m])
    &&& forall|n: int| 0 <= n < pv.patterns.len() ==> pattern_storable(#[trigger] pv.patterns[n])
    &&& pv.active_kit matches Some(a) ==> a < pv.kits.len()
    &&& pv.active_pattern matches Some(a) ==> a < pv.patterns.len()
    &&& pv.kits.len() < 10_000_000_000
    &&& pv.patterns.len() < 10_000_000_000
}

/// `lines` are the lines of project `pv`.
#[verifier::opaque]
pub open spec fn holds_project(lines: Seq<Seq<char>>, pv: ProjectView) -> bool {
    project_storable(pv) && lines == project_lines(pv)
}

proof fn lemma_kit_block_lines(pv: ProjectView, m: int, lines: Seq<Seq<char>>, i: int)
    requires
        holds_project(lines, pv),
        0 <= m < pv.kits.len(),
        i == kit_block_start(pv, m),
    ensures
        ({
            let k = pv.kits[m];
            let len = kit_lines(k).len() as int;
            &&& kit_storable(k)
            &&& i + 1 + len < lines.len()
            &&& lines[i + 1 + len] == "END_KIT"@
            &&& forall|t: int| i + 1 <= t < i + 1 + len ==> #[trigger] lines[t] != "END_KIT"@
            &&& lines.subrange(i + 1, i + 1 + len) == kit_lines(k)
            &&& kit_block_start(pv, m + 1) == i + 2 + len
        }),
{
    reveal(holds_project);
    reveal_strlit("END_KIT");
    let k = pv.kits[m];
    assert(kit_storable(k));
    let len = kit_lines(k).len() as int;
    lemma_kit_block_at(pv, m);
    lemma_pattern_blocks_prefix(pv.patterns, 0);
    assert(kit_block(k)[len + 1] == "END_KIT"@);
    assert forall|t: int| i + 1 <= t < i + 1 + len implies #[trigger] lines[t] != "END_KIT"@ by {
        let u = t - i - 1;
        assert(kit_block(k)[u + 1] == kit_lines(k)[u]);
        assert(lines[t] == kit_block(k)[u + 1]);
        lemma_kit_line_kind(k, u);
        assert(kit_lines(k)[u][0] != "END_KIT"@[0]);
    }
    assert forall|t: int| 0 <= t < len implies #[trigger] lines.subrange(i + 1, i + 1 + len)[t] == kit_lines(k)[t] by {
        assert(kit_block(k)[t + 1] == kit_lines(k)[t]);
        assert(lines[i + 1 + t] == kit_block(k)[t + 1]);
    }
    assert(lines.subrange(i + 1, i + 1 + len) =~= kit_lines(k));
}

proof fn lemma_pattern_block_lines(pv: ProjectView, n: int, lines: Seq<Seq<char>>, i: int)
    requires
        holds_project(lines, pv),
        0 <= n < pv.patterns.len(),
        i == pattern_block_start(pv, n),
    ensures
        ({
            let p = pv.patterns[n];
            let len = pattern_lines(p).len() as int;
            &&& pattern_storable(p)
            &&& i + 1 + len < lines.len()
            &&& lines[i + 1 + len] == "END_PATTERN"@
            &&& forall|t: int| i + 1 <= t < i + 1 + len ==> #[trigger] lines[t] != "END_PATTERN"@
            &&& lines.subrange(i + 1, i + 1 + len) == pattern_lines(p)
            &&& pattern_block_start(pv, n + 1) == i + 2 + len
        }),
{
    reveal(holds_project);
    reveal_strlit("END_PATTERN");
    let p = pv.patterns[n];
    assert(pattern_storable(p));
    let len = pattern_lines(p).len() as int;
    lemma_pattern_block_at(pv, n);
    assert(pattern_block(p)[len + 1] == "END_PATTERN"@);
    assert forall|t: int| i + 1 <= t < i + 1 + len implies #[trigger] lines[t] != "END_PATTERN"@ by {
        let u = t - i - 1;
        assert(pattern_block(p)[u + 1] == pattern_lines(p)[u]);
        assert(lines[t] == pattern_block(p)[u + 1]);
        lemma_pattern_line(p, u);
        assert(pattern_lines(p)[u][0] == pattern_lines(p)[u].take(5)[0]);
        reveal_strlit("name=");
        reveal_strlit("swing=");
        reveal_strlit("step|");
        assert(pattern_lines(p)[u][0] != "END_PATTERN"@[0]);
    }
    assert forall|t: int| 0 <= t < len implies #[trigger] lines.subrange(i + 1, i + 1 + len)[t] == pattern_lines(p)[t] by {
        assert(pattern_block(p)[t + 1] == pattern_lines(p)[t]);
        assert(lines[i + 1 + t] == pattern_block(p)[t + 1]);
    }
    assert(lines.subrange(i + 1, i + 1 + len) =~= pattern_lines(p));
}

/// Reads a kit block that begins at line `i`; returns the kit and the line
/// after the block.
#[verifier::spinoff_prover]
#[verifier::rlimit(100)]
fn load_kit_block(lines: &Vec<Vec<char>>, i: usize) -> (r: Result<(Kit, usize), String>)
    requires
        i < lines@.len(),
    ensures
        forall|pv: ProjectView, m: int|
            #[trigger] holds_project(views(lines@), pv) && 0 <= m < pv.kits.len() && i == #[trigger] kit_block_start(pv, m)
                ==> (r matches Ok((kit, e)) && kit@ == pv.kits[m] && e == kit_block_start(pv, m + 1)),
        r matches Ok((_, e)) ==> i < e <= lines@.len(),
{
    let count = lines.len();
    let e = find_line(lines, i + 1, "END_KIT");
    proof {
        assert forall|pv: ProjectView, m: int|
            #[trigger] holds_project(views(lines@), pv) && 0 <= m < pv.kits.len() && i == #[trigger] kit_block_start(pv, m) implies e
            == i + 1 + kit_lines(pv.kits[m]).len() && e < count && kit_storable(pv.kits[m]) && holds_kit(views(lines@), i + 1, e as int, pv.kits[m]) by {
            let len = kit_lines(pv.kits[m]).len() as int;
            lemma_kit_block_lines(pv, m, views(lines@), i as int);
            assert(lines@[i + 1 + len]@ == views(lines@)[i + 1 + len]);
            if e < i + 1 + len {
                assert(lines@[e as int]@ == views(lines@)[e as int]);
            }
        }
    }
    if e >= lines.len() {
        return Err(String::from_str("unterminated kit block"));
    }
    let kit = match load_kit_lines(lines, i + 1, e) {
        Ok(kit) => kit,
        Err(message) => {
            return Err(message);
        },
    };
    proof {
        assert forall|pv: ProjectView, m: int|
            #[trigger] holds_project(views(lines@), pv) && 0 <= m < pv.kits.len() && i == #[trigger] kit_block_start(pv, m) implies kit@
            == pv.kits[m] && e + 1 == kit_block_start(pv, m + 1) by {
            lemma_kit_block_lines(pv, m, views(lines@), i as int);
            assert(holds_kit(views(lines@), i + 1, e as int, pv.kits[m]));
        }
    }
    Ok((kit, e + 1))
}

/// Reads a pattern block that begins at line `i`; returns the pattern and
/// the line after the block.
#[verifier::spinoff_prover]
#[verifier::rlimit(100)]
fn load_pattern_block(lines: &Vec<Vec<char>>, i: usize) -> (r: Result<(Pattern, usize), String>)
    requires
        i < lines@.len(),
    ensures
        forall|pv: ProjectView, n: int|
            #[trigger] holds_project(views(lines@), pv) && 0 <= n < pv.patterns.len() && i == #[trigger] pattern_block_start(pv, n)
                ==> (r matches Ok((pattern, e)) && pattern@ == pv.patterns[n] && e == pattern_block_start(pv, n + 1)),
        r matches Ok((_, e)) ==> i < e <= lines@.len(),
{
    let count = lines.len();
    let e = find_line(lines, i + 1, "END_PATTERN");
    proof {
        assert forall|pv: ProjectView, n: int|
            #[trigger] holds_project(views(lines@), pv) && 0 <= n < pv.patterns.len() && i == #[trigger] pattern_block_start(pv, n) implies e
            == i + 1 + pattern_lines(pv.patterns[n]).len() && e < count && pattern_storable(pv.patterns[n]) && holds_pattern(views(lines@), i + 1, e as int, pv.patterns[n]) by {
            let len = pattern_lines(pv.patterns[n]).len() as int;
            lemma_pattern_block_lines(pv, n, views(lines@), i as int);
            assert(lines@[i + 1 + len]@ == views(lines@)[i + 1 + len]);
            if e < i + 1 + len {
                assert(lines@[e as int]@ == views(lines@)[e as int]);
            }
        }
    }
    if e >= lines.len() {
        return Err(String::from_str("unterminated pattern block"));
    }
    let pattern = match load_pattern_lines(lines, i + 1, e) {
        Ok(pattern) => pattern,
        Err(message) => {
            return Err(message);
        },
    };
    proof {
        assert forall|pv: ProjectView, n: int|
            #[trigger] holds_project(views(lines@), pv) && 0 <= n < pv.patterns.len() && i == #[trigger] pattern_block_start(pv, n) implies pattern@
            == pv.patterns[n] && e + 1 == pattern_block_start(pv, n + 1) by {
            lemma_pattern_block_lines(pv, n, views(lines@), i as int);
            assert(holds_pattern(views(lines@), i + 1, e as int, pv.patterns[n]));
        }
    }
    Ok((pattern, e + 1))
}

/// A project being read: what its lines have set so far.
struct ProjectDraft {
    name: String,
    kits: Vec<Kit>,
    patterns: Vec<Pattern>,
    kit_selection: Option<Option<u64>>,
    pattern_selection: Option<Option<u64>>,
}

impl ProjectDraft {
    spec fn kit_views(&self) -> Seq<KitView> {
        self.kits@.map_values(|k: Kit| k@)
    }

    spec fn pattern_views(&self) -> Seq<PatternView> {
        self.patterns@.map_values(|p: Pattern| p@)
    }

    /// The draft holds what the first `i` lines of project `pv` set.
    spec fn follows(&self, pv: ProjectView, i: int) -> bool {
        let m = self.kits@.len() as int;
        let n = self.patterns@.len() as int;
        &&& self.name@ == (if i >= 2 {
            pv.name
        } else {
            Seq::<char>::empty()
        })
        &&& self.kit_selection == (if i >= 3 {
            Some(as_raw(selection_index(pv.active_kit)))
        } else {
            None
        })
        &&& self.pattern_selection == (if i >= 4 {
            Some(as_raw(selection_index(pv.active_pattern)))
        } else {
            None
        })
        &&& 1 <= i
        &&& (i < 4 ==> m == 0 && n == 0)
        &&& (i >= 4 ==> ((n == 0 && m <= pv.kits.len() && i == kit_block_start(pv, m)) || (m == pv.kits.len()
            && n <= pv.patterns.len() && i == pattern_block_start(pv, n))))
        &&& self.kit_views() == pv.kits.take(m)
        &&& self.pattern_views() == pv.patterns.take(n)
    }
}

proof fn lemma_selection_line_shape(key: Seq<char>, x: Option<int>)
    requires
        key.len() >= 1,
        free_of(key, '\n'),
        x matches Some(n) ==> n >= 0,
    ensures
        free_of(selection_line(key, x), '\n'),
        selection_line(key, x).len() > key.len(),
        selection_line(key, x).take(key.len() as int + 1) == key + seq!['='],
{
    lemma_free_index(x, '\n');
    assert(all_free_of(seq![key, index_text(x)], '\n'));
    lemma_line_shape(seq![key, index_text(x)], '=');
}

/// What stands at line `i` of project `pv` for a draft that follows it.
proof fn lemma_project_line_at(pv: ProjectView, lines: Seq<Seq<char>>, i: int, m: int, n: int)
    requires
        holds_project(lines, pv),
        1 <= i < lines.len(),
        i < 4 ==> m == 0 && n == 0,
        i >= 4 ==> ((n == 0 && 0 <= m <= pv.kits.len() && i == kit_block_start(pv, m)) || (m == pv.kits.len()
            && 0 <= n <= pv.patterns.len() && i == pattern_block_start(pv, n))),
    ensures
        lines.len() == pattern_block_start(pv, pv.patterns.len() as int),
        i == 1 ==> lines[i] == name_line(pv.name) && lines[i].len() >= 5 && lines[i].take(5) == "name="@ && lines[i][0] == 'n',
        (i == 2 || i == 3) ==> lines[i][0] == 'a',
        i == 2 ==> lines[i] == selection_line("active_kit"@, selection_index(pv.active_kit)) && lines[i].len() >= 11
            && lines[i].take(11) == "active_kit="@,
        i == 3 ==> lines[i] == selection_line("active_pattern"@, selection_index(pv.active_pattern))
            && lines[i].len() >= 15 && lines[i].take(15) == "active_pattern="@,
        i >= 4 && m < pv.kits.len() ==> n == 0 && i == kit_block_start(pv, m) && lines[i] == "BEGIN_KIT"@,
        i >= 4 && m == pv.kits.len() ==> n < pv.patterns.len() && i == pattern_block_start(pv, n) && lines[i]
            == "BEGIN_PATTERN"@,
{
    reveal(holds_project);
    reveal_strlit("name=");
    reveal_strlit("active_kit=");
    reveal_strlit("active_kit");
    reveal_strlit("active_pattern=");
    reveal_strlit("active_pattern");
    let k = pv.kits.len() as int;
    let p = pv.patterns.len() as int;
    assert(pv.kits.take(k) =~= pv.kits);
    assert(pv.patterns.take(0) =~= Seq::<PatternView>::empty());
    assert(pv.patterns.take(p) =~= pv.patterns);
    assert(kit_block_start(pv, k) == pattern_block_start(pv, 0));
    assert(lines.len() == pattern_block_start(pv, p));
    if i == 1 {
        lemma_name_line_shape(pv.name);
        assert(lines[i][0] == lines[i].take(5)[0]);
    } else if i == 2 {
        lemma_selection_line_shape("active_kit"@, selection_index(pv.active_kit));
        assert("active_kit"@ + seq!['='] =~= "active_kit="@);
        assert(lines[i][0] == lines[i].take(11)[0]);
    } else if i == 3 {
        lemma_selection_line_shape("active_pattern"@, selection_index(pv.active_pattern));
        assert("active_pattern"@ + seq!['='] =~= "active_pattern="@);
        assert(lines[i][0] == lines[i].take(15)[0]);
    } else if m < k {
        lemma_kit_block_at(pv, m);
        assert(kit_block(pv.kits[m])[0] == "BEGIN_KIT"@);
    } else {
        if n == p {
            assert(false);
        }
        lemma_pattern_block_at(pv, n);
        assert(pattern_block(pv.patterns[n])[0] == "BEGIN_PATTERN"@);
    }
}

/// The draft follows project `pv` up to line `i` of `lines`.
pub open spec fn draft_at(lines: Seq<Seq<char>>, pv: ProjectView, m: int, n: int, i: int) -> bool {
    &&& holds_project(lines, pv)
    &&& 1 <= i < lines.len()
    &&& (i < 4 ==> m == 0 && n == 0)
    &&& (i >= 4 ==> ((n == 0 && 0 <= m <= pv.kits.len() && i == kit_block_start(pv, m)) || (m == pv.kits.len()
        && 0 <= n <= pv.patterns.len() && i == pattern_block_start(pv, n))))
}

#[verifier::spinoff_prover]
fn apply_kit_record(draft: &mut ProjectDraft, lines: &Vec<Vec<char>>, i: usize) -> (r: Result<usize, String>)
    requires
        i < lines@.len(),
        lines@[i as int]@ == "BEGIN_KIT"@,
    ensures
        r matches Ok(next) ==> i < next <= lines@.len(),
        forall|pv: ProjectView|
            #[trigger] holds_project(views(lines@), pv) && old(draft).follows(pv, i as int) ==> (r matches Ok(next)
                && final(draft).follows(pv, next as int)),
{
    let ghost m = draft.kits@.len() as int;
    let ghost n = draft.patterns@.len() as int;
    proof {
        reveal_strlit("BEGIN_KIT");
        reveal_strlit("BEGIN_PATTERN");
        assert forall|pv: ProjectView| #[trigger] holds_project(views(lines@), pv) && old(draft).follows(pv, i as int) implies i >= 4 && m < pv.kits.len() && n == 0 && i == kit_block_start(pv, m) by {
            lemma_project_line_at(pv, views(lines@), i as int, m, n);
            assert(views(lines@)[i as int] == lines@[i as int]@);
            if m == pv.kits.len() && i >= 4 {
                assert("BEGIN_PATTERN"@.len() != "BEGIN_KIT"@.len());
            }
        }
    }
    let (kit, next) = match load_kit_block(lines, i) {
        Ok(found) => found,
        Err(message) => {
            return Err(message);
        },
    };
    draft.kits.push(kit);
    proof {
        assert forall|pv: ProjectView| #[trigger] holds_project(views(lines@), pv) && old(draft).follows(pv, i as int) implies draft.follows(pv, next as int) by {
            assert(pv.kits.take(m + 1) =~= pv.kits.take(m).push(pv.kits[m]));
            assert(draft.kit_views() =~= old(draft).kit_views().push(kit@));
        }
    }
    Ok(next)
}

#[verifier::spinoff_prover]
fn apply_pattern_record(draft: &mut ProjectDraft, lines: &Vec<Vec<char>>, i: usize) -> (r: Result<usize, String>)
    requires
        i < lines@.len(),
        lines@[i as int]@ == "BEGIN_PATTERN"@,
    ensures
        r matches Ok(next) ==> i < next <= lines@.len(),
        forall|pv: ProjectView|
            #[trigger] holds_project(views(lines@), pv) && old(draft).follows(pv, i as int) ==> (r matches Ok(next)
                && final(draft).follows(pv, next as int)),
{
    let ghost m = draft.kits@.len() as int;
    let ghost n = draft.patterns@.len() as int;
    proof {
        reveal_strlit("BEGIN_KIT");
        reveal_strlit("BEGIN_PATTERN");
        assert forall|pv: ProjectView| #[trigger] holds_project(views(lines@), pv) && old(draft).follows(pv, i as int) implies i >= 4 && m == pv.kits.len() && n < pv.patterns.len() && i == pattern_block_start(pv, n) by {
            lemma_project_line_at(pv, views(lines@), i as int, m, n);
            assert(views(lines@)[i as int] == lines@[i as int]@);
            if m < pv.kits.len() && i >= 4 {
                assert("BEGIN_PATTERN"@.len() != "BEGIN_KIT"@.len());
            }
        }
    }
    let (pattern, next) = match load_pattern_block(lines, i) {
        Ok(found) => found,
        Err(message) => {
            return Err(message);
        },
    };
    draft.patterns.push(pattern);
    proof {
        assert forall|pv: ProjectView| #[trigger] holds_project(views(lines@), pv) && old(draft).follows(pv, i as int) implies draft.follows(pv, next as int) by {
            assert(pv.patterns.take(n + 1) =~= pv.patterns.take(n).push(pv.patterns[n]));
            assert(draft.pattern_views() =~= old(draft).pattern_views().push(pattern@));
        }
    }
    Ok(next)
}

proof fn lemma_block_words()
    ensures
        "BEGIN_KIT"@[0] == 'B',
        "BEGIN_PATTERN"@[0] == 'B',
        "BEGIN_KIT"@.len() == 9,
        "BEGIN_PATTERN"@.len() == 13,
{
    reveal_strlit("BEGIN_KIT");
    reveal_strlit("BEGIN_PATTERN");
}

#[verifier::spinoff_prover]
fn apply_name_record(draft: &mut ProjectDraft, lines: &Vec<Vec<char>>, i: usize) -> (r: Result<usize, String>)
    requires
        i < lines@.len(),
        "name="@.len() <= lines@[i as int]@.len(),
        lines@[i as int]@.take("name="@.len() as int) == "name="@,
    ensures
        r matches Ok(next) ==> i < next <= lines@.len(),
        forall|pv: ProjectView|
            #[trigger] holds_project(views(lines@), pv) && old(draft).follows(pv, i as int) ==> (r matches Ok(next)
                && final(draft).follows(pv, next as int)),
{
    let ghost m = draft.kits@.len() as int;
    let ghost n = draft.patterns@.len() as int;
    let line = &lines[i];
    proof {
        reveal_strlit("name=");
        lemma_block_words();
        assert(line@[0] == line@.take(5)[0]);
        assert forall|pv: ProjectView| #[trigger] holds_project(views(lines@), pv) && old(draft).follows(pv, i as int) implies i == 1 && line@ == name_line(pv.name) by {
            lemma_project_line_at(pv, views(lines@), i as int, m, n);
            assert(views(lines@)[i as int] == line@);
        }
    }
    let name = match parse_name_line(line) {
        Some(name) => name,
        None => {
            return Err(String::from_str("invalid project name line"));
        },
    };
    draft.name = name;
    let count = lines.len();
    assert(i < count);
    Ok(i + 1)
}

#[verifier::spinoff_prover]
fn apply_kit_selection_record(draft: &mut ProjectDraft, lines: &Vec<Vec<char>>, i: usize) -> (r: Result<usize, String>)
    requires
        i < lines@.len(),
        "active_kit="@.len() <= lines@[i as int]@.len(),
        lines@[i as int]@.take("active_kit="@.len() as int) == "active_kit="@,
    ensures
        r matches Ok(next) ==> i < next <= lines@.len(),
        forall|pv: ProjectView|
            #[trigger] holds_project(views(lines@), pv) && old(draft).follows(pv, i as int) ==> (r matches Ok(next)
                && final(draft).follows(pv, next as int)),
{
    let ghost m = draft.kits@.len() as int;
    let ghost n = draft.patterns@.len() as int;
    let line = &lines[i];
    proof {
        reveal_strlit("active_kit=");
        reveal_strlit("active_kit");
        reveal_strlit("active_pattern=");
        lemma_block_words();
        assert(line@[0] == line@.take(11)[0]);
        assert forall|pv: ProjectView| #[trigger] holds_project(views(lines@), pv) && old(draft).follows(pv, i as int) implies i == 2
            && line@ == selection_line("active_kit"@, selection_index(pv.active_kit)) && (selection_index(pv.active_kit) matches Some(a) ==> 0 <= a < 10_000_000_000) by {
            lemma_project_line_at(pv, views(lines@), i as int, m, n);
            assert(views(lines@)[i as int] == line@);
            if i == 3 {
                assert(line@.take(15)[7] == line@.take(11)[7]);
            }
            reveal(holds_project);
        }
    }
    let selection = match parse_selection_line(line, "active_kit") {
        Some(x) => x,
        None => {
            return Err(String::from_str("invalid active_kit line"));
        },
    };
    draft.kit_selection = Some(selection);
    let count = lines.len();
    assert(i < count);
    Ok(i + 1)
}

#[verifier::spinoff_prover]
fn apply_pattern_selection_record(draft: &mut ProjectDraft, lines: &Vec<Vec<char>>, i: usize) -> (r: Result<usize, String>)
    requires
        i < lines@.len(),
        "active_pattern="@.len() <= lines@[i as int]@.len(),
        lines@[i as int]@.take("active_pattern="@.len() as int) == "active_pattern="@,
    ensures
        r matches Ok(next) ==> i < next <= lines@.len(),
        forall|pv: ProjectView|
            #[trigger] holds_project(views(lines@), pv) && old(draft).follows(pv, i as int) ==> (r matches Ok(next)
                && final(draft).follows(pv, next as int)),
{
    let ghost m = draft.kits@.len() as int;
    let ghost n = draft.patterns@.len() as int;
    let line = &lines[i];
    proof {
        reveal_strlit("active_pattern=");
        reveal_strlit("active_pattern");
        reveal_strlit("active_kit=");
        lemma_block_words();
        assert(line@[0] == line@.take(15)[0]);
        assert forall|pv: ProjectView| #[trigger] holds_project(views(lines@), pv) && old(draft).follows(pv, i as int) implies i == 3
            && line@ == selection_line("active_pattern"@, selection_index(pv.active_pattern)) && (selection_index(pv.active_pattern) matches Some(a) ==> 0 <= a < 10_000_000_000) by {
            lemma_project_line_at(pv, views(lines@), i as int, m, n);
            assert(views(lines@)[i as int] == line@);
            if i == 2 {
                assert(line@.take(15)[7] == line@.take(11)[7]);
            }
            reveal(holds_project);
        }
    }
    let selection = match parse_selection_line(line, "active_pattern") {
        Some(x) => x,
        None => {
            return Err(String::from_str("invalid active_pattern line"));
        },
    };
    draft.pattern_selection = Some(selection);
    let count = lines.len();
    assert(i < count);
    Ok(i + 1)
}

#[verifier::spinoff_prover]
#[verifier::rlimit(100)]
proof fn lemma_kit_blocks_free(ks: Seq<KitView>)
    ensures
        all_free_of(kit_blocks(ks), '\n'),
    decreases ks.len(),
{
    reveal_strlit("BEGIN_KIT");
    reveal_strlit("END_KIT");
    if ks.len() > 0 {
        lemma_kit_blocks_free(ks.drop_last());
        let prev = kit_blocks(ks.drop_last());
        let b = kit_block(ks.last());
        let all = kit_blocks(ks);
        assert(all == prev + b);
        assert forall|i: int| 0 <= i < all.len() implies free_of(#[trigger] all[i], '\n') by {
            if i < prev.len() {
                assert(all[i] == prev[i]);
            } else {
                let t = i - prev.len();
                if t > 0 && t <= kit_lines(ks.last()).len() {
                    lemma_kit_line(ks.last(), t - 1);
                    assert(b[t] == kit_lines(ks.last())[t - 1]);
                }
            }
        }
    }
}

#[verifier::spinoff_prover]
proof fn lemma_pattern_blocks_free(ps: Seq<PatternView>)
    requires
        forall|n: int| 0 <= n < ps.len() ==> pattern_storable(#[trigger] ps[n]),
    ensures
        all_free_of(pattern_blocks(ps), '\n'),
    decreases ps.len(),
{
    reveal_strlit("BEGIN_PATTERN");
    reveal_strlit("END_PATTERN");
    if ps.len() > 0 {
        assert forall|n: int| 0 <= n < ps.drop_last().len() implies pattern_storable(#[trigger] ps.drop_last()[n]) by {
            assert(pattern_storable(ps[n]));
        }
        lemma_pattern_blocks_free(ps.drop_last());
        assert(pattern_storable(ps[ps.len() - 1]));
        let prev = pattern_blocks(ps.drop_last());
        let b = pattern_block(ps.last());
        let all = pattern_blocks(ps);
        assert(all == prev + b);
        assert forall|i: int| 0 <= i < all.len() implies free_of(#[trigger] all[i], '\n') by {
            if i < prev.len() {
                assert(all[i] == prev[i]);
            } else {
                let t = i - prev.len();
                if t > 0 && t <= pattern_lines(ps.last()).len() {
                    lemma_pattern_line(ps.last(), t - 1);
                    assert(b[t] == pattern_lines(ps.last())[t - 1]);
                }
            }
        }
    }
}

proof fn lemma_project_text_split(pv: ProjectView, lines: Seq<Seq<char>>)
    requires
        project_storable(pv),
        lines.len() > 0,
        all_free_of(lines, '\n'),
        join(lines, '\n') == project_text(pv),
    ensures
        holds_project(lines, pv),
        lines[0] == "FF_PROJECT_V1"@,
{
    reveal(holds_project);
    reveal_strlit("FF_PROJECT_V1");
    reveal_strlit("active_kit");
    reveal_strlit("active_pattern");
    let head = project_head(pv);
    lemma_name_line_shape(pv.name);
    lemma_selection_line_shape("active_kit"@, selection_index(pv.active_kit));
    lemma_selection_line_shape("active_pattern"@, selection_index(pv.active_pattern));
    lemma_kit_blocks_free(pv.kits);
    lemma_pattern_blocks_free(pv.patterns);
    let all = project_lines(pv);
    assert(all == head + kit_blocks(pv.kits) + pattern_blocks(pv.patterns));
    assert forall|i: int| 0 <= i < all.len() implies free_of(#[trigger] all[i], '\n') by {
        let k = kit_blocks(pv.kits);
        if i >= 4 && i < 4 + k.len() {
            assert(all[i] == k[i - 4]);
        } else if i >= 4 + k.len() {
            assert(all[i] == pattern_blocks(pv.patterns)[i - 4 - k.len()]);
        }
    }
    lemma_join_unique(lines, all, '\n');
}

/// Once all lines are read, every kit and pattern block has been read.
proof fn lemma_project_end(pv: ProjectView, lines: Seq<Seq<char>>, i: int, m: int, n: int)
    requires
        holds_project(lines, pv),
        i == lines.len(),
        1 <= i,
        i < 4 ==> m == 0 && n == 0,
        i >= 4 ==> ((n == 0 && 0 <= m <= pv.kits.len() && i == kit_block_start(pv, m)) || (m == pv.kits.len()
            && 0 <= n <= pv.patterns.len() && i == pattern_block_start(pv, n))),
    ensures
        i >= 4,
        m == pv.kits.len(),
        n == pv.patterns.len(),
{
    reveal(holds_project);
    let k = pv.kits.len() as int;
    let p = pv.patterns.len() as int;
    assert(pv.kits.take(k) =~= pv.kits);
    assert(pv.patterns.take(0) =~= Seq::<PatternView>::empty());
    assert(pv.patterns.take(p) =~= pv.patterns);
    assert(lines.len() == pattern_block_start(pv, p));
    lemma_pattern_blocks_prefix(pv.patterns, n);
    if m < k {
        lemma_kit_block_at(pv, m);
        lemma_pattern_blocks_prefix(pv.patterns, 0);
        assert(false);
    }
    if n < p {
        lemma_pattern_block_at(pv, n);
        assert(false);
    }
}

/// Reads the record that begins at line `i` into the draft and returns the
/// line after it.
fn apply_project_line(draft: &mut ProjectDraft, lines: &Vec<Vec<char>>, i: usize) -> (r: Result<usize, String>)
    requires
        i < lines@.len(),
    ensures
        r matches Ok(next) ==> i < next <= lines@.len(),
        forall|pv: ProjectView|
            #[trigger] holds_project(views(lines@), pv) && old(draft).follows(pv, i as int) ==> (r matches Ok(next)
                && final(draft).follows(pv, next as int)),
{
    let line = &lines[i];
    if is_word(line, "BEGIN_KIT") {
        apply_kit_record(draft, lines, i)
    } else if is_word(line, "BEGIN_PATTERN") {
        apply_pattern_record(draft, lines, i)
    } else if starts_with(line, "name=") {
        apply_name_record(draft, lines, i)
    } else if starts_with(line, "active_kit=") {
        apply_kit_selection_record(draft, lines, i)
    } else if starts_with(line, "active_pattern=") {
        apply_pattern_selection_record(draft, lines, i)
    } else {
        proof {
            assert forall|pv: ProjectView| #[trigger] holds_project(views(lines@), pv) && old(draft).follows(pv, i as int) implies false by {
                let m = draft.kits@.len() as int;
                let n = draft.patterns@.len() as int;
                lemma_project_line_at(pv, views(lines@), i as int, m, n);
                assert(views(lines@)[i as int] == line@);
                reveal_strlit("name=");
                reveal_strlit("active_kit=");
                reveal_strlit("active_pattern=");
            }
        }
        Err(String::from_str("unknown project line"))
    }
}

/// Resolves the selections once every line is read.
#[verifier::spinoff_prover]
fn finish_project(draft: ProjectDraft, lines: &Vec<Vec<char>>, i: usize) -> (r: Result<Project, String>)
    ensures
        forall|pv: ProjectView|
            #[trigger] holds_project(views(lines@), pv) && draft.follows(pv, i as int) && i == lines@.len() ==> (r matches Ok(
                p,
            ) && p@ == pv),
{
    let ghost old_draft = draft;
    proof {
        assert forall|pv: ProjectView| #[trigger] holds_project(views(lines@), pv) && draft.follows(pv, i as int) && i == lines@.len() implies
            draft.kits@.len() == pv.kits.len() && draft.patterns@.len() == pv.patterns.len() && project_storable(pv) && i >= 4 by {
            lemma_project_end(pv, views(lines@), i as int, draft.kits@.len() as int, draft.patterns@.len() as int);
            reveal(holds_project);
        }
    }
    let active_kit = match draft.kit_selection {
        Some(Some(index)) => {
            if index >= draft.kits.len() as u64 {
                return Err(String::from_str("active_kit out of range"));
            }
            Some(index as usize)
        },
        _ => None,
    };
    let active_pattern = match draft.pattern_selection {
        Some(Some(index)) => {
            if index >= draft.patterns.len() as u64 {
                return Err(String::from_str("active_pattern out of range"));
            }
            Some(index as usize)
        },
        _ => None,
    };
    let project = Project {
        name: draft.name,
        kits: draft.kits,
        active_kit,
        patterns: draft.patterns,
        active_pattern,
    };
    proof {
        assert forall|pv: ProjectView| #[trigger] holds_project(views(lines@), pv) && old_draft.follows(pv, i as int) && i == lines@.len() implies project@ == pv by {
            let m = project.kits@.len() as int;
            let n = project.patterns@.len() as int;
            assert(pv.kits.take(pv.kits.len() as int) =~= pv.kits);
            assert(pv.patterns.take(pv.patterns.len() as int) =~= pv.patterns);
            lemma_project_end(pv, views(lines@), i as int, m, n);
            reveal(holds_project);
            assert(project@.kits =~= pv.kits);
            assert(project@.patterns =~= pv.patterns);
        }
    }
    Ok(project)
}

/// Reads a whole project text: the `FF_PROJECT_V1` header, then its
/// records in any order: `name=`, `active_kit=`, `active_pattern=`, and
/// kit and pattern blocks, each between its `BEGIN_` and `END_` line. A
/// selection of a missing entry is an error; a negative one selects
/// nothing. Every project whose kits and patterns are storable and whose
/// selections exist reads back from `save_project_to_text` as itself.
pub fn load_project_from_text(text: &str) -> (r: Result<Project, String>)
    ensures
        forall|pv: ProjectView|
            project_storable(pv) && #[trigger] project_text(pv) == text@ ==> (r matches Ok(p) && p@ == pv),
{
    let chars = text_chars(text);
    let lines = split_at_char(&chars, '\n');
    proof {
        assert forall|pv: ProjectView| project_storable(pv) && #[trigger] project_text(pv) == text@ implies holds_project(
            views(lines@),
            pv,
        ) && lines@[0]@ == "FF_PROJECT_V1"@ by {
            lemma_project_text_split(pv, views(lines@));
        }
    }
    if !is_word(&lines[0], "FF_PROJECT_V1") {
        return Err(String::from_str("unexpected project header"));
    }
    let mut draft = ProjectDraft {
        name: String::new(),
        kits: Vec::new(),
        patterns: Vec::new(),
        kit_selection: None,
        pattern_selection: None,
    };
    proof {
        assert forall|pv: ProjectView| project_storable(pv) && #[trigger] project_text(pv) == text@ implies draft.follows(pv, 1) by {
            assert(draft.kit_views() =~= pv.kits.take(0));
            assert(draft.pattern_views() =~= pv.patterns.take(0));
        }
    }
    let mut i: usize = 1;
    while i < lines.len()
        invariant
            1 <= i <= lines@.len(),
            forall|pv: ProjectView|
                project_storable(pv) && #[trigger] project_text(pv) == text@ ==> holds_project(views(lines@), pv) && draft.follows(pv, i as int),
        decreases lines@.len() - i,
    {
        match apply_project_line(&mut draft, &lines, i) {
            Ok(n) => {
                i = n;
            },
            Err(message) => {
                return Err(message);
            },
        }
    }
    finish_project(draft, &lines, i)
}


proof fn lemma_same_stray(a: Seq<TrackAssignment>, b: Seq<TrackAssignment>)
    requires
        a.len() == b.len(),
        forall|i: int| 0 <= i < a.len() ==> (#[trigger] a[i]).track_index == b[i].track_index,
    ensures
        first_stray_assignment(a) == first_stray_assignment(b),
    decreases a.len(),
{
    if a.len() > 0 {
        lemma_same_stray(a.drop_last(), b.drop_last());
        assert(a.last().track_index == b[b.len() - 1].track_index);
    }
}

proof fn lemma_same_updates(a: Seq<crate::recall::TrackRecall>, b: Seq<crate::recall::TrackRecall>, n: int)
    requires
        0 <= n <= a.len(),
        a.len() == b.len(),
        forall|t: int| 0 <= t < a.len() ==> track_updates(t, #[trigger] a[t]) == track_updates(t, b[t]),
    ensures
        engine_updates(a, n) == engine_updates(b, n),
    decreases n,
{
    if n > 0 {
        lemma_same_updates(a, b, n - 1);
        assert(track_updates(n - 1, a[n - 1]) == track_updates(n - 1, b[n - 1]));
    }
}

/// Persistence round trip. `load_project_from_text(&save_project_to_text(p))`
/// gives a project `q` with `q@ == p@` whenever `p@` is storable (see both
/// contracts). Such a `q` saves to the same text as `p`, and recalls alike:
/// the same error or the same sequencer state (hence the same triggers for
/// any schedule of blocks) and the same parameter updates.
pub proof fn lemma_round_trip_recalls_alike(p: Project, q: Project, sample_rate_hz: int)
    requires
        project_storable(p@),
        q@ == p@,
    ensures
        project_text(q@) == project_text(p@),
        recall_error(q) == recall_error(p),
        recall_error(p) is None ==> recalled_sequencer(active_kit_of(q), active_pattern_of(q), sample_rate_hz)
            == recalled_sequencer(active_kit_of(p), active_pattern_of(p), sample_rate_hz),
        recall_error(p) is None ==> engine_updates(
            Seq::new(TRACK_COUNT as nat, |t: int| recalled_track(active_kit_of(q), t)),
            TRACK_COUNT as int,
        ) == engine_updates(
            Seq::new(TRACK_COUNT as nat, |t: int| recalled_track(active_kit_of(p), t)),
            TRACK_COUNT as int,
        ),
{
    assert(p.kits@.len() == p@.kits.len());
    assert(q.kits@.len() == q@.kits.len());
    assert(p.patterns@.len() == p@.patterns.len());
    assert(q.patterns@.len() == q@.patterns.len());
    let ki = crate::recall::chosen_index(p.active_kit, p.kits@.len() as int);
    let pi = crate::recall::chosen_index(p.active_pattern, p.patterns@.len() as int);
    if ki is Some && ki->Some_0 < p.kits@.len() {
        let i = ki->Some_0;
        assert(p@.kits[i] == p.kits@[i]@);
        assert(q@.kits[i] == q.kits@[i]@);
        let kp = active_kit_of(p);
        let kq = active_kit_of(q);
        assert(kp@ == kq@);
        assert(kp.controls@ == kq.controls@);
        assert(kp@.tracks.len() == kp.tracks@.len());
        assert(kq@.tracks.len() == kq.tracks@.len());
        assert forall|j: int| 0 <= j < kp.tracks@.len() implies (#[trigger] kp.tracks@[j]).track_index == kq.tracks@[j].track_index by {
            assert(kp@.tracks[j] == kq@.tracks[j]);
            assert(kp@.tracks[j].0 == kp.tracks@[j].track_index);
            assert(kq@.tracks[j].0 == kq.tracks@[j].track_index);
        }
        lemma_same_stray(kp.tracks@, kq.tracks@);
        let tp = Seq::new(TRACK_COUNT as nat, |t: int| recalled_track(kp, t));
        let tq = Seq::new(TRACK_COUNT as nat, |t: int| recalled_track(kq, t));
        assert forall|t: int| 0 <= t < tq.len() implies track_updates(t, #[trigger] tq[t]) == track_updates(t, tp[t]) by {
        }
        lemma_same_updates(tq, tp, TRACK_COUNT as int);
    }
    if pi is Some && pi->Some_0 < p.patterns@.len() {
        let i = pi->Some_0;
        assert(p@.patterns[i] == p.patterns@[i]@);
        assert(q@.patterns[i] == q.patterns@[i]@);
        assert(active_pattern_of(p)@ == active_pattern_of(q)@);
        assert(active_pattern_of(p).steps@ == active_pattern_of(q).steps@);
    }
}

} // verus!
