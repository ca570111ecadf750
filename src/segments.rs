//! The segment interpreter: one pass over the segments, left to right, with
//! format settings that each segment may change for those that follow.
use vstd::prelude::*;
use crate::args::segment_views;
use crate::temps::{alarm_of, core_no, crit_of, CoreSensor, CoreTemp, SensorError};
use crate::text::{decimal, digit_char, joined, parse_u64, parses_as_u64, push_char, push_decimal, str_eq, u64_value, views};
use crate::unit::{convert_scaled, converted, glyph, unit_named, Unit};

verus! {

/// How temperatures are written: with or without the unit's glyph, the
/// unit the readings are in, and the unit to convert them to, if any.
#[derive(Debug, Clone, Copy, PartialEq, Eq, Structural)]
pub struct FormatSettings {
    pub include_glyph: bool,
    pub base_unit: Unit,
    pub target_unit: Option<Unit>,
}

/// The settings at the start of a pass.
pub open spec fn initial_settings() -> FormatSettings {
    FormatSettings { include_glyph: false, base_unit: Unit::Celcius, target_unit: None }
}

/// A reading of `raw` millidegrees, in hundredths of a degree of the unit
/// it is shown in.
pub open spec fn hundredths(f: FormatSettings, raw: u64) -> int {
    match f.target_unit {
        Some(t) => converted(f.base_unit, t, raw as int, 100),
        None => converted(f.base_unit, f.base_unit, raw as int, 100),
    }
}

/// `h` hundredths written with two decimals.
pub open spec fn fixed2(h: int) -> Seq<char> {
    let a = if h < 0 { -h } else { h };
    let sign = if h < 0 { seq!['-'] } else { Seq::empty() };
    sign + decimal((a / 100) as nat) + seq!['.', digit_char(((a % 100) / 10) as nat), digit_char((a % 10) as nat)]
}

/// How a temperature is written: `N/A` where there is none, else its
/// value with two decimals, followed by the base unit's glyph when the
/// settings ask for it.
pub open spec fn render(f: FormatSettings, temp: Option<u64>) -> Seq<char> {
    match temp {
        None => "N/A"@,
        Some(raw) => fixed2(hundredths(f, raw)) + (if f.include_glyph {
            glyph(f.base_unit)
        } else {
            Seq::empty()
        }),
    }
}

/// How a critical alarm flag is written.
pub open spec fn render_alarm(a: Result<u64, SensorError>) -> Seq<char> {
    match a {
        Ok(0) => "false"@,
        Ok(1) => "true"@,
        _ => "N/A"@,
    }
}

/// The successful value of a result, if any.
pub open spec fn ok_of(r: Result<u64, SensorError>) -> Option<u64> {
    match r {
        Ok(v) => Some(v),
        Err(_) => None,
    }
}

/// The values that parse as core numbers, in order.
pub open spec fn parsed_cores(vals: Seq<Seq<char>>) -> Seq<u64>
    decreases vals.len(),
{
    if vals.len() == 0 {
        Seq::empty()
    } else if parses_as_u64(vals.last()) {
        parsed_cores(vals.drop_last()).push(u64_value(vals.last()))
    } else {
        parsed_cores(vals.drop_last())
    }
}

/// The cores that a multi-core segment names: every known core, ascending,
/// for `all` or `*`; else the values that parse as core numbers.
pub open spec fn selected_cores(ct: CoreTemp, vals: Seq<Seq<char>>) -> Seq<u64> {
    if vals[0] == "all"@ || vals[0] == "*"@ {
        ct.core_ids()
    } else {
        parsed_cores(vals)
    }
}

/// Which value a multi-core segment shows.
#[derive(Debug, Clone, Copy, PartialEq, Eq, Structural)]
pub enum CoreField {
    Temp,
    Critical,
    Alarm,
}

/// The text for the core at position `i` of a multi-core segment.
pub open spec fn core_item(ct: CoreTemp, f: FormatSettings, field: CoreField, i: int, core: u64) -> Seq<
    char,
> {
    match field {
        CoreField::Temp => render(f, ok_of(ct.temp_of(core))),
        CoreField::Critical => render(f, ok_of(ct.core_reading(core, |s: CoreSensor| crit_of(s)))),
        CoreField::Alarm => "Core "@ + decimal((i + 1) as nat) + ": "@ + render_alarm(
            ct.core_reading(core, |s: CoreSensor| alarm_of(s)),
        ),
    }
}

/// The items of a multi-core segment over `cores`.
pub open spec fn core_items(ct: CoreTemp, f: FormatSettings, field: CoreField, cores: Seq<u64>) -> Seq<
    Seq<char>,
> {
    Seq::new(cores.len(), |i: int| core_item(ct, f, field, i, cores[i]))
}

/// The text of a multi-core segment: its items joined by `, `.
pub open spec fn cores_text(ct: CoreTemp, f: FormatSettings, field: CoreField, cores: Seq<u64>) -> Seq<
    char,
> {
    joined(core_items(ct, f, field, cores), ", "@)
}

/// A temperature statistic written out, or its error.
pub open spec fn stat_text(f: FormatSettings, r: Result<u64, SensorError>) -> Result<Seq<char>, SensorError> {
    match r {
        Ok(v) => Ok(render(f, Some(v))),
        Err(e) => Err(e),
    }
}

/// The output of the segments that need no value.
pub open spec fn plain_output(ct: CoreTemp, f: FormatSettings, key: Seq<char>, vals: Seq<Seq<char>>) -> Result<
    Seq<char>,
    SensorError,
> {
    if key == "--glyph"@ || key == "-g"@ {
        Ok(glyph(f.base_unit))
    } else if key == "--avg"@ || key == "-av"@ {
        stat_text(f, ct.average())
    } else if key == "--median"@ || key == "-md"@ {
        stat_text(f, ct.median())
    } else if key == "--newline"@ || key == "-nl"@ || key == "-\\n"@ || key == "-cr"@ {
        Ok("\n"@)
    } else if key == "--strings"@ || key == "-s"@ {
        Ok(joined(vals, " "@))
    } else if key == "--temp-min"@ || key == "-tm"@ {
        stat_text(
            f,
            match ct.min_reading() {
                Ok(p) => Ok(p.1),
                Err(e) => Err(e),
            },
        )
    } else if key == "--temp-max"@ || key == "-tx"@ {
        stat_text(
            f,
            match ct.max_reading() {
                Ok(p) => Ok(p.1),
                Err(e) => Err(e),
            },
        )
    } else if key == "--temp-package"@ || key == "-tp"@ {
        stat_text(f, ct.package_reading())
    } else if key == "--core-count"@ || key == "-cc"@ {
        Ok(decimal(ct.spec_cores().len()))
    } else {
        Ok(Seq::empty())
    }
}

/// The settings after a segment that takes a value.
pub open spec fn next_settings(f: FormatSettings, key: Seq<char>, vals: Seq<Seq<char>>) -> FormatSettings {
    if vals.len() == 0 {
        f
    } else if key == "--base-unit"@ || key == "-bu"@ {
        match unit_named(vals[0]) {
            Some(u) => FormatSettings { base_unit: u, ..f },
            None => f,
        }
    } else if key == "--target-unit"@ || key == "-tu"@ {
        match unit_named(vals[0]) {
            Some(u) => FormatSettings { target_unit: Some(u), ..f },
            None => f,
        }
    } else if key == "--use-glyph"@ || key == "-ug"@ {
        if vals[0] == "true"@ || vals[0] == "yes"@ || vals[0] == "y"@ || vals[0] == "on"@ {
            FormatSettings { include_glyph: true, ..f }
        } else if vals[0] == "false"@ || vals[0] == "no"@ || vals[0] == "n"@ || vals[0] == "off"@ {
            FormatSettings { include_glyph: false, ..f }
        } else {
            f
        }
    } else {
        f
    }
}

/// The multi-core field that a key asks for, if any.
pub open spec fn core_field_of(key: Seq<char>) -> Option<CoreField> {
    if key == "--temp"@ || key == "-t"@ {
        Some(CoreField::Temp)
    } else if key == "--core-critical"@ || key == "-cC"@ {
        Some(CoreField::Critical)
    } else if key == "--core-alarm"@ || key == "-ca"@ {
        Some(CoreField::Alarm)
    } else {
        None
    }
}

/// The output of the segments that take at least one value.
pub open spec fn valued_output(ct: CoreTemp, f: FormatSettings, key: Seq<char>, vals: Seq<Seq<char>>) -> Seq<char> {
    if vals.len() == 0 {
        Seq::empty()
    } else {
        match core_field_of(key) {
            Some(field) => cores_text(ct, f, field, selected_cores(ct, vals)),
            None => Seq::empty(),
        }
    }
}

/// One segment's effect: the settings after it and what it writes.
pub open spec fn step(ct: CoreTemp, f: FormatSettings, key: Seq<char>, vals: Seq<Seq<char>>) -> Result<
    (FormatSettings, Seq<char>),
    SensorError,
> {
    match plain_output(ct, f, key, vals) {
        Err(e) => Err(e),
        Ok(out) => Ok((next_settings(f, key, vals), out + valued_output(ct, f, key, vals))),
    }
}

/// The settings and output after the segments `segs`, or the first error.
pub open spec fn run(ct: CoreTemp, segs: Seq<(Seq<char>, Seq<Seq<char>>)>) -> Result<
    (FormatSettings, Seq<char>),
    SensorError,
>
    decreases segs.len(),
{
    if segs.len() == 0 {
        Ok((initial_settings(), Seq::empty()))
    } else {
        match run(ct, segs.drop_last()) {
            Err(e) => Err(e),
            Ok((f, out)) => match step(ct, f, segs.last().0, segs.last().1) {
                Err(e) => Err(e),
                Ok((f2, piece)) => Ok((f2, out + piece)),
            },
        }
    }
}

/// Appends `lit` to `out`.
fn push_str(out: &mut String, lit: &str)
    ensures
        final(out)@ == old(out)@ + lit@,
{
    out.append(lit);
}

/// Appends `h` hundredths with two decimals.
fn push_fixed2(out: &mut String, h: i128)
    requires
        h > i128::MIN,
    ensures
        final(out)@ == old(out)@ + fixed2(h as int),
{
    let a: u128 = if h < 0 {
        push_char(out, '-');
        (-h) as u128
    } else {
        h as u128
    };
    push_decimal(out, a / 100);
    push_char(out, '.');
    push_char(out, (((a % 100) / 10) as u8 + 48) as char);
    push_char(out, ((a % 10) as u8 + 48) as char);
}

/// Writes a temperature as the settings say.
pub fn format_temp(temp: Option<u64>, settings: &FormatSettings) -> (r: String)
    ensures
        r@ == render(*settings, temp),
{
    let mut r = String::new();
    match temp {
        None => {
            push_str(&mut r, "N/A");
        },
        Some(raw) => {
            let to = match settings.target_unit {
                Some(t) => t,
                None => settings.base_unit,
            };
            let h = convert_scaled(settings.base_unit, to, raw as i128, 100);
            push_fixed2(&mut r, h);
            if settings.include_glyph {
                push_str(&mut r, settings.base_unit.to_str_glyph());
            }
        },
    }
    r
}

/// The values that parse as core numbers, in order.
fn parse_core_list(vals: &Vec<String>) -> (r: Vec<u64>)
    ensures
        r@ == parsed_cores(views(vals@)),
{
    let mut r: Vec<u64> = Vec::new();
    let mut i: usize = 0;
    while i < vals.len()
        invariant
            i <= vals@.len(),
            r@ == parsed_cores(views(vals@).subrange(0, i as int)),
        decreases vals@.len() - i,
    {
        assert(views(vals@).subrange(0, i + 1).drop_last() == views(vals@).subrange(0, i as int));
        assert(views(vals@).subrange(0, i + 1).last() == vals@[i as int]@);
        match parse_u64(vals[i].as_str()) {
            Some(n) => r.push(n),
            None => {},
        }
        i = i + 1;
    }
    assert(views(vals@).subrange(0, i as int) == views(vals@));
    r
}

/// The cores that a multi-core segment names.
fn select_cores(ct: &CoreTemp, vals: &Vec<String>) -> (r: Vec<u64>)
    requires
        vals@.len() > 0,
    ensures
        r@ == selected_cores(*ct, views(vals@)),
{
    assert(views(vals@)[0] == vals@[0]@);
    if str_eq(vals[0].as_str(), "all") || str_eq(vals[0].as_str(), "*") {
        ct.get_cores()
    } else {
        parse_core_list(vals)
    }
}

proof fn lemma_joined_push(items: Seq<Seq<char>>, sep: Seq<char>, x: Seq<char>)
    ensures
        joined(items.push(x), sep) == (if items.len() == 0 {
            x
        } else {
            joined(items, sep) + sep + x
        }),
{
    assert(items.push(x).drop_last() == items);
}

/// Appends `items` joined by `sep`.
fn push_joined(out: &mut String, vals: &Vec<String>, sep: &str)
    ensures
        final(out)@ == old(out)@ + joined(views(vals@), sep@),
{
    let ghost start = out@;
    let mut i: usize = 0;
    while i < vals.len()
        invariant
            i <= vals@.len(),
            out@ == start + joined(views(vals@).subrange(0, i as int), sep@),
        decreases vals@.len() - i,
    {
        proof {
            lemma_joined_push(views(vals@).subrange(0, i as int), sep@, vals@[i as int]@);
            assert(views(vals@).subrange(0, i as int).push(vals@[i as int]@) == views(vals@).subrange(
                0,
                i + 1,
            ));
        }
        if i > 0 {
            push_str(out, sep);
        }
        push_str(out, vals[i].as_str());
        i = i + 1;
    }
    assert(views(vals@).subrange(0, i as int) == views(vals@));
}

/// The text for the core at position `i` of a multi-core segment.
fn core_item_text(ct: &CoreTemp, f: &FormatSettings, field: CoreField, i: usize, core: u64) -> (r: String)
    requires
        ct.wf(),
        i < usize::MAX,
    ensures
        r@ == core_item(*ct, *f, field, i as int, core),
{
    match field {
        CoreField::Temp => {
            let t = match ct.get_temp(core) {
                Ok(v) => Some(v),
                Err(_) => None,
            };
            format_temp(t, f)
        },
        CoreField::Critical => {
            let t = match ct.get_critical(core) {
                Ok(v) => Some(v),
                Err(_) => None,
            };
            format_temp(t, f)
        },
        CoreField::Alarm => {
            let mut r = String::new();
            push_str(&mut r, "Core ");
            push_decimal(&mut r, (i + 1) as u128);
            push_str(&mut r, ": ");
            match ct.get_critical_alarm(core) {
                Ok(0) => push_str(&mut r, "false"),
                Ok(1) => push_str(&mut r, "true"),
                _ => push_str(&mut r, "N/A"),
            }
            r
        },
    }
}

/// Appends the text of a multi-core segment over `cores`.
fn push_cores_text(out: &mut String, ct: &CoreTemp, f: &FormatSettings, field: CoreField, cores: &Vec<u64>)
    requires
        ct.wf(),
    ensures
        final(out)@ == old(out)@ + cores_text(*ct, *f, field, cores@),
{
    let ghost start = out@;
    let ghost items = core_items(*ct, *f, field, cores@);
    let mut i: usize = 0;
    while i < cores.len()
        invariant
            ct.wf(),
            i <= cores@.len(),
            items == core_items(*ct, *f, field, cores@),
            out@ == start + joined(items.subrange(0, i as int), ", "@),
        decreases cores@.len() - i,
    {
        let item = core_item_text(ct, f, field, i, cores[i]);
        proof {
            lemma_joined_push(items.subrange(0, i as int), ", "@, item@);
            assert(items.subrange(0, i as int).push(item@) == items.subrange(0, i + 1));
        }
        if i > 0 {
            push_str(out, ", ");
        }
        push_str(out, item.as_str());
        i = i + 1;
    }
    assert(items.subrange(0, i as int) == items);
}

/// Appends a temperature statistic, or returns its error.
fn push_stat(out: &mut String, f: &FormatSettings, r: Result<u64, SensorError>) -> (res: Result<(), SensorError>)
    ensures
        match stat_text(*f, r) {
            Ok(t) => res is Ok && final(out)@ == old(out)@ + t,
            Err(e) => res == Err::<(), SensorError>(e),
        },
{
    match r {
        Ok(v) => {
            let t = format_temp(Some(v), f);
            push_str(out, t.as_str());
            Ok(())
        },
        Err(e) => Err(e),
    }
}

/// The reading of a (core, reading) result.
fn reading_part(r: Result<(u64, u64), SensorError>) -> (res: Result<u64, SensorError>)
    ensures
        res == match r {
            Ok(p) => Ok::<u64, SensorError>(p.1),
            Err(e) => Err(e),
        },
{
    match r {
        Ok(p) => Ok(p.1),
        Err(e) => Err(e),
    }
}

/// Appends the output of a segment that needs no value.
fn plain_segment(
    out: &mut String,
    ct: &CoreTemp,
    f: &FormatSettings,
    key: &str,
    vals: &Vec<String>,
) -> (res: Result<(), SensorError>)
    requires
        ct.wf(),
    ensures
        match plain_output(*ct, *f, key@, views(vals@)) {
            Ok(t) => res is Ok && final(out)@ == old(out)@ + t,
            Err(e) => res == Err::<(), SensorError>(e),
        },
{
    if str_eq(key, "--glyph") || str_eq(key, "-g") {
        push_str(out, f.base_unit.to_str_glyph());
        Ok(())
    } else if str_eq(key, "--avg") || str_eq(key, "-av") {
        push_stat(out, f, ct.get_average())
    } else if str_eq(key, "--median") || str_eq(key, "-md") {
        push_stat(out, f, ct.get_median())
    } else if str_eq(key, "--newline") || str_eq(key, "-nl") || str_eq(key, "-\\n") || str_eq(
        key,
        "-cr",
    ) {
        push_str(out, "\n");
        Ok(())
    } else if str_eq(key, "--strings") || str_eq(key, "-s") {
        push_joined(out, vals, " ");
        Ok(())
    } else if str_eq(key, "--temp-min") || str_eq(key, "-tm") {
        push_stat(out, f, reading_part(ct.get_min()))
    } else if str_eq(key, "--temp-max") || str_eq(key, "-tx") {
        push_stat(out, f, reading_part(ct.get_max()))
    } else if str_eq(key, "--temp-package") || str_eq(key, "-tp") {
        push_stat(out, f, ct.get_package())
    } else if str_eq(key, "--core-count") || str_eq(key, "-cc") {
        push_decimal(out, ct.get_count() as u128);
        Ok(())
    } else {
        assert(old(out)@ + Seq::<char>::empty() == old(out)@);
        Ok(())
    }
}

/// Appends the output of a segment that takes a value, and applies the
/// change of settings that it asks for.
fn valued_segment(out: &mut String, ct: &CoreTemp, f: &mut FormatSettings, key: &str, vals: &Vec<String>)
    requires
        ct.wf(),
    ensures
        final(out)@ == old(out)@ + valued_output(*ct, *old(f), key@, views(vals@)),
        *final(f) == next_settings(*old(f), key@, views(vals@)),
{
    if vals.len() == 0 {
        assert(old(out)@ + Seq::<char>::empty() == old(out)@);
        return;
    }
    assert(views(vals@)[0] == vals@[0]@);
    let first = vals[0].as_str();
    let field = if str_eq(key, "--temp") || str_eq(key, "-t") {
        Some(CoreField::Temp)
    } else if str_eq(key, "--core-critical") || str_eq(key, "-cC") {
        Some(CoreField::Critical)
    } else if str_eq(key, "--core-alarm") || str_eq(key, "-ca") {
        Some(CoreField::Alarm)
    } else {
        None
    };
    match field {
        Some(field) => {
            let cores = select_cores(ct, vals);
            push_cores_text(out, ct, f, field, &cores);
        },
        None => {
            assert(old(out)@ + Seq::<char>::empty() == old(out)@);
        },
    }
    if str_eq(key, "--base-unit") || str_eq(key, "-bu") {
        match Unit::from_str(first) {
            Some(u) => f.base_unit = u,
            None => {},
        }
    } else if str_eq(key, "--target-unit") || str_eq(key, "-tu") {
        match Unit::from_str(first) {
            Some(u) => f.target_unit = Some(u),
            None => {},
        }
    } else if str_eq(key, "--use-glyph") || str_eq(key, "-ug") {
        if str_eq(first, "true") || str_eq(first, "yes") || str_eq(first, "y") || str_eq(first, "on") {
            f.include_glyph = true;
        } else if str_eq(first, "false") || str_eq(first, "no") || str_eq(first, "n") || str_eq(
            first,
            "off",
        ) {
            f.include_glyph = false;
        }
    }
}

/// Interprets the segments in order and returns what they write, or the
/// first error of a statistic or of the package reading. A reading of a
/// single core that fails is written `N/A`; an unknown key writes nothing.
pub fn process_segments(ct: &CoreTemp, argm: Vec<(String, Vec<String>)>) -> (r: Result<String, SensorError>)
    requires
        ct.wf(),
    ensures
        match run(*ct, segment_views(argm@)) {
            Ok((_, out)) => r matches Ok(s) && s@ == out,
            Err(e) => r == Err::<String, SensorError>(e),
        },
{
    let ghost segs = segment_views(argm@);
    let mut fmts = FormatSettings { include_glyph: false, base_unit: Unit::Celcius, target_unit: None };
    let mut output = String::new();
    let mut i: usize = 0;
    while i < argm.len()
        invariant
            ct.wf(),
            i <= argm@.len(),
            segs == segment_views(argm@),
            run(*ct, segs.subrange(0, i as int)) == Ok::<(FormatSettings, Seq<char>), SensorError>(
                (fmts, output@),
            ),
        decreases argm@.len() - i,
    {
        let key = argm[i].0.as_str();
        let vals = &argm[i].1;
        assert(segs.subrange(0, i + 1).drop_last() == segs.subrange(0, i as int));
        assert(segs.subrange(0, i + 1).last() == (key@, views(vals@)));
        let ghost f0 = fmts;
        let ghost o0 = output@;
        match plain_segment(&mut output, ct, &fmts, key, vals) {
            Ok(()) => {},
            Err(e) => {
                proof {
                    lemma_run_err(*ct, segs, i as int);
                }
                return Err(e);
            },
        }
        valued_segment(&mut output, ct, &mut fmts, key, vals);
        proof {
            let p = plain_output(*ct, f0, key@, views(vals@))->Ok_0;
            let v = valued_output(*ct, f0, key@, views(vals@));
            assert(output@ =~= o0 + (p + v));
        }
        i = i + 1;
    }
    assert(segs.subrange(0, i as int) == segs);
    Ok(output)
}

proof fn lemma_run_err(ct: CoreTemp, segs: Seq<(Seq<char>, Seq<Seq<char>>)>, i: int)
    requires
        0 <= i < segs.len(),
        run(ct, segs.subrange(0, i)) is Ok,
        step(ct, run(ct, segs.subrange(0, i))->Ok_0.0, segs[i].0, segs[i].1) is Err,
    ensures
        run(ct, segs) == Err::<(FormatSettings, Seq<char>), SensorError>(
            step(ct, run(ct, segs.subrange(0, i))->Ok_0.0, segs[i].0, segs[i].1)->Err_0,
        ),
    decreases segs.len() - i,
{
    if i == segs.len() - 1 {
        assert(segs.drop_last() == segs.subrange(0, i));
    } else {
        assert(segs.drop_last().subrange(0, i) == segs.subrange(0, i));
        lemma_run_err(ct, segs.drop_last(), i);
    }
}

/// The keys that the interpreter knows.
pub open spec fn is_known_key(key: Seq<char>) -> bool {
    key == "--glyph"@ || key == "-g"@ || key == "--avg"@ || key == "-av"@ || key == "--median"@ || key == "-md"@ || key == "--newline"@ || key == "-nl"@ || key == "-\\n"@ || key == "-cr"@ || key == "--strings"@ || key == "-s"@ || key == "--temp-min"@ || key == "-tm"@ || key == "--temp-max"@ || key == "-tx"@ || key == "--temp-package"@ || key == "-tp"@ || key == "--core-count"@ || key == "-cc"@ || key == "--base-unit"@ || key == "-bu"@ || key == "--target-unit"@ || key == "-tu"@ || key == "--use-glyph"@ || key == "-ug"@ || key == "--temp"@ || key == "-t"@ || key == "--core-critical"@ || key == "-cC"@ || key == "--core-alarm"@ || key == "-ca"@
}

/// A segment with an unknown key writes nothing, leaves the settings as
/// they were and does not fail; appended to any segments, it leaves the
/// outcome of the pass as it was.
pub proof fn lemma_unknown_key_is_inert(
    ct: CoreTemp,
    segs: Seq<(Seq<char>, Seq<Seq<char>>)>,
    f: FormatSettings,
    key: Seq<char>,
    vals: Seq<Seq<char>>,
)
    requires
        !is_known_key(key),
    ensures
        step(ct, f, key, vals) == Ok::<(FormatSettings, Seq<char>), SensorError>((f, Seq::empty())),
        run(ct, segs.push((key, vals))) == run(ct, segs),
{
    assert(Seq::<char>::empty() + Seq::<char>::empty() == Seq::<char>::empty());
    assert(segs.push((key, vals)).drop_last() == segs);
    if run(ct, segs) is Ok {
        let out = run(ct, segs)->Ok_0.1;
        assert(out + Seq::<char>::empty() == out);
    }
}

/// A multi-core segment whose first value is `all` or `*` names every
/// known core once, in ascending order of core number.
pub proof fn lemma_all_cores_ascending(ct: CoreTemp, vals: Seq<Seq<char>>)
    requires
        ct.wf(),
        vals.len() > 0,
        vals[0] == "all"@ || vals[0] == "*"@,
    ensures
        selected_cores(ct, vals) == ct.core_ids(),
        ct.core_ids().len() == ct.spec_cores().len(),
        forall|i: int, j: int|
            0 <= i < j < ct.core_ids().len() ==> #[trigger] ct.core_ids()[i] < #[trigger] ct.core_ids()[j],
{
    assert forall|i: int, j: int| 0 <= i < j < ct.core_ids().len() implies #[trigger] ct.core_ids()[i]
        < #[trigger] ct.core_ids()[j] by {
        assert(core_no(ct.spec_cores()[i]) < core_no(ct.spec_cores()[j]));
    }
}

} // verus!
