//! Hardware-monitor directories: which files belong to which sensor, and
//! which monitor directories hold core temperatures.
use vstd::prelude::*;
use crate::text::{
    all_digits, chars_of, digits_value, find_char, first_at, has_prefix, parse_u64_range,
    parses_as_u64, range_eq, starts_with, trim_chars, trimmed, u64_value, views,
};

verus! {

pub type CoreNumber = u64;

/// The role of one file of a temperature sensor.
#[derive(Debug, Clone, Copy, PartialEq, Eq, Structural)]
pub enum CoreTempDataKind {
    Input,
    Max,
    Crit,
    Label,
    CritAlarm,
}

/// The kind that a file-name suffix stands for.
pub open spec fn kind_of_suffix(s: Seq<char>) -> Option<CoreTempDataKind> {
    if s == "input"@ {
        Some(CoreTempDataKind::Input)
    } else if s == "max"@ {
        Some(CoreTempDataKind::Max)
    } else if s == "crit"@ {
        Some(CoreTempDataKind::Crit)
    } else if s == "label"@ {
        Some(CoreTempDataKind::Label)
    } else if s == "crit_alarm"@ {
        Some(CoreTempDataKind::CritAlarm)
    } else {
        None
    }
}

/// A sensor file is named `temp<id>_<suffix>`: after the prefix, the first
/// underscore parts the id, which must parse as a `u64`, from a known suffix.
pub open spec fn classify(name: Seq<char>) -> Option<(CoreNumber, CoreTempDataKind)> {
    if !has_prefix(name, "temp"@) {
        None
    } else {
        let xs = name.subrange(4, name.len() as int);
        if exists|k: int| first_at(xs, '_', k) {
            let k = choose|k: int| first_at(xs, '_', k);
            let id = xs.subrange(0, k);
            match kind_of_suffix(xs.subrange(k + 1, xs.len() as int)) {
                Some(kind) => if parses_as_u64(id) {
                    Some((u64_value(id), kind))
                } else {
                    None
                },
                None => None,
            }
        } else {
            None
        }
    }
}

/// The position of the first of `names[..n]` that is the `kind` file of
/// sensor `id`.
pub open spec fn first_in(names: Seq<Seq<char>>, id: CoreNumber, kind: CoreTempDataKind, n: int) -> Option<
    usize,
>
    decreases n,
{
    if n <= 0 {
        None
    } else {
        match first_in(names, id, kind, n - 1) {
            Some(j) => Some(j),
            None => if classify(names[n - 1]) == Some((id, kind)) {
                Some((n - 1) as usize)
            } else {
                None
            },
        }
    }
}

proof fn lemma_first_in_bound(names: Seq<Seq<char>>, id: CoreNumber, kind: CoreTempDataKind, n: int)
    requires
        n <= usize::MAX,
    ensures
        first_in(names, id, kind, n) matches Some(j) ==> j < n && classify(names[j as int]) == Some(
            (id, kind),
        ),
    decreases n,
{
    if n > 0 {
        lemma_first_in_bound(names, id, kind, n - 1);
    }
}

/// The file of the given kind of sensor `id` among `names`, by position.
pub open spec fn file_of(names: Seq<Seq<char>>, id: CoreNumber, kind: CoreTempDataKind) -> Option<
    usize,
> {
    first_in(names, id, kind, names.len() as int)
}

/// All five files of sensor `id` are among `names`.
pub open spec fn complete(names: Seq<Seq<char>>, id: CoreNumber) -> bool {
    &&& file_of(names, id, CoreTempDataKind::Input) is Some
    &&& file_of(names, id, CoreTempDataKind::Max) is Some
    &&& file_of(names, id, CoreTempDataKind::Crit) is Some
    &&& file_of(names, id, CoreTempDataKind::Label) is Some
    &&& file_of(names, id, CoreTempDataKind::CritAlarm) is Some
}

/// The files of one sensor, by name within its monitor directory.
#[derive(Debug, Clone)]
pub struct TempSensorFiles {
    pub input: String,
    pub max: String,
    pub crit: String,
    pub label: String,
    pub crit_alarm: String,
}

impl TempSensorFiles {
    /// The file name of the given kind.
    pub open spec fn file(&self, kind: CoreTempDataKind) -> Seq<char> {
        match kind {
            CoreTempDataKind::Input => self.input@,
            CoreTempDataKind::Max => self.max@,
            CoreTempDataKind::Crit => self.crit@,
            CoreTempDataKind::Label => self.label@,
            CoreTempDataKind::CritAlarm => self.crit_alarm@,
        }
    }

    /// Each file is the first of `names` of its kind for sensor `id`.
    pub open spec fn chosen_from(&self, names: Seq<Seq<char>>, id: CoreNumber) -> bool {
        forall|kind: CoreTempDataKind|
            #[trigger] file_of(names, id, kind) is Some ==> self.file(kind) == names[file_of(
                names,
                id,
                kind,
            )->0 as int]
    }
}

/// The sensors of one core-temperature monitor: each sensor id with its
/// files, ids unique.
#[derive(Debug, Clone)]
pub struct HwmCoreTemp {
    groups: Vec<(CoreNumber, TempSensorFiles)>,
}

impl HwmCoreTemp {
    pub closed spec fn spec_groups(&self) -> Seq<(CoreNumber, TempSensorFiles)> {
        self.groups@
    }

    /// No two sensors share an id.
    pub open spec fn wf(&self) -> bool {
        forall|i: int, j: int|
            0 <= i < j < self.spec_groups().len() ==> #[trigger] self.spec_groups()[i].0
                != #[trigger] self.spec_groups()[j].0
    }

    /// The sensors, each id with its files.
    pub fn groups(&self) -> (r: &Vec<(CoreNumber, TempSensorFiles)>)
        ensures
            r@ == self.spec_groups(),
    {
        &self.groups
    }

    /// The number of sensors.
    pub fn count(&self) -> (r: usize)
        ensures
            r == self.spec_groups().len(),
    {
        self.groups.len()
    }
}

impl CoreTempDataKind {
    /// Classifies a file name as a sensor file of some id and kind.
    pub fn from_path(name: &str) -> (r: Option<(CoreNumber, CoreTempDataKind)>)
        ensures
            r == classify(name@),
    {
        if !starts_with(name, "temp") {
            return None;
        }
        proof {
            reveal_strlit("temp");
        }
        let cs = chars_of(name);
        let n = cs.len();
        let ghost xs = name@.subrange(4, n as int);
        let k = match find_char(&cs, 4, '_') {
            Some(k) => k,
            None => {
                assert forall|k: int| !first_at(xs, '_', k) by {
                    if first_at(xs, '_', k) {
                        assert(cs@[k + 4] == '_');
                    }
                }
                return None;
            },
        };
        proof {
            assert(first_at(xs, '_', k - 4));
            let c = choose|k: int| first_at(xs, '_', k);
            assert(c == k - 4) by {
                if c < k - 4 {
                    assert(xs[c] != '_');
                } else if c > k - 4 {
                    assert(xs[k - 4] != '_');
                }
            }
            assert(xs.subrange(0, k - 4) == cs@.subrange(4, k as int));
            assert(xs.subrange(k - 4 + 1, xs.len() as int) == cs@.subrange(k + 1, n as int));
        }
        let kind = if range_eq(&cs, k + 1, n, "input") {
            CoreTempDataKind::Input
        } else if range_eq(&cs, k + 1, n, "max") {
            CoreTempDataKind::Max
        } else if range_eq(&cs, k + 1, n, "crit") {
            CoreTempDataKind::Crit
        } else if range_eq(&cs, k + 1, n, "label") {
            CoreTempDataKind::Label
        } else if range_eq(&cs, k + 1, n, "crit_alarm") {
            CoreTempDataKind::CritAlarm
        } else {
            return None;
        };
        match parse_u64_range(&cs, 4, k) {
            Some(id) => Some((id, kind)),
            None => None,
        }
    }
}

/// The files of one sensor id found so far, by position in the listing.
struct Partial {
    id: CoreNumber,
    input: Option<usize>,
    max: Option<usize>,
    crit: Option<usize>,
    label: Option<usize>,
    crit_alarm: Option<usize>,
}

impl Partial {
    spec fn slot(&self, kind: CoreTempDataKind) -> Option<usize> {
        match kind {
            CoreTempDataKind::Input => self.input,
            CoreTempDataKind::Max => self.max,
            CoreTempDataKind::Crit => self.crit,
            CoreTempDataKind::Label => self.label,
            CoreTempDataKind::CritAlarm => self.crit_alarm,
        }
    }

    /// The slots agree with the first `n` names.
    spec fn tracks(&self, names: Seq<Seq<char>>, n: int) -> bool {
        forall|kind: CoreTempDataKind| #[trigger] self.slot(kind) == first_in(names, self.id, kind, n)
    }

    fn empty(id: CoreNumber) -> (r: Partial)
        ensures
            r.id == id,
            forall|kind: CoreTempDataKind| #[trigger] r.slot(kind) is None,
    {
        Partial { id, input: None, max: None, crit: None, label: None, crit_alarm: None }
    }

    /// Records position `i` for `kind` unless a file of that kind was seen.
    fn note(self, kind: CoreTempDataKind, i: usize) -> (r: Partial)
        ensures
            r.id == self.id,
            r.slot(kind) == (if self.slot(kind) is Some { self.slot(kind) } else { Some(i) }),
            forall|k: CoreTempDataKind| k != kind ==> #[trigger] r.slot(k) == self.slot(k),
    {
        let mut r = self;
        match kind {
            CoreTempDataKind::Input => if r.input.is_none() { r.input = Some(i) },
            CoreTempDataKind::Max => if r.max.is_none() { r.max = Some(i) },
            CoreTempDataKind::Crit => if r.crit.is_none() { r.crit = Some(i) },
            CoreTempDataKind::Label => if r.label.is_none() { r.label = Some(i) },
            CoreTempDataKind::CritAlarm => if r.crit_alarm.is_none() { r.crit_alarm = Some(i) },
        }
        r
    }
}

impl HwmCoreTemp {
    /// Groups the file names of one monitor directory by sensor id and keeps
    /// the sensors of which all five files are present. Where two names give
    /// the same id and kind, the first is taken.
    #[verifier::rlimit(30)]
    pub fn from_dir(names: &Vec<String>) -> (r: HwmCoreTemp)
        ensures
            r.wf(),
            forall|i: int|
                0 <= i < r.spec_groups().len() ==> complete(views(names@), #[trigger] r.spec_groups()[i].0)
                    && r.spec_groups()[i].1.chosen_from(views(names@), r.spec_groups()[i].0),
            forall|id: CoreNumber|
                #[trigger] complete(views(names@), id) ==> exists|i: int|
                    0 <= i < r.spec_groups().len() && #[trigger] r.spec_groups()[i].0 == id,
    {
        let ghost nv = views(names@);
        let mut parts: Vec<Partial> = Vec::new();
        let mut i: usize = 0;
        while i < names.len()
            invariant
                nv == views(names@),
                i <= names@.len(),
                forall|q: int| 0 <= q < parts@.len() ==> #[trigger] parts@[q].tracks(nv, i as int),
                forall|q: int, q2: int|
                    0 <= q < q2 < parts@.len() ==> #[trigger] parts@[q].id != #[trigger] parts@[q2].id,
                forall|id: CoreNumber, kind: CoreTempDataKind|
                    #[trigger] first_in(nv, id, kind, i as int) is Some ==> exists|q: int|
                        0 <= q < parts@.len() && #[trigger] parts@[q].id == id,
            decreases names@.len() - i,
        {
            let c = CoreTempDataKind::from_path(names[i].as_str());
            assert(nv[i as int] == names@[i as int]@);
            match c {
                None => {
                    assert forall|q: int| 0 <= q < parts@.len() implies #[trigger] parts@[q].tracks(
                        nv,
                        i + 1,
                    ) by {
                        assert forall|kind: CoreTempDataKind|
                            #[trigger] parts@[q].slot(kind) == first_in(nv, parts@[q].id, kind, i + 1) by {
                            assert(parts@[q].tracks(nv, i as int));
                        }
                    }
                    assert forall|id: CoreNumber, kind: CoreTempDataKind|
                        #[trigger] first_in(nv, id, kind, i + 1) is Some implies exists|q: int|
                            0 <= q < parts@.len() && #[trigger] parts@[q].id == id by {
                        assert(first_in(nv, id, kind, i as int) is Some);
                    }
                },
                Some((id, kind)) => {
                    let mut q: usize = 0;
                    while q < parts.len() && parts[q].id != id
                        invariant
                            q <= parts@.len(),
                            forall|j: int| 0 <= j < q ==> parts@[j].id != id,
                        decreases parts@.len() - q,
                    {
                        q = q + 1;
                    }
                    let ghost old_parts = parts@;
                    if q < parts.len() {
                        let p = parts.remove(q);
                        let updated = p.note(kind, i);
                        parts.insert(q, updated);
                        assert(parts@ == old_parts.update(q as int, updated));
                    } else {
                        proof {
                            assert forall|k: CoreTempDataKind| #[trigger] first_in(nv, id, k, i as int) is None by {
                                if first_in(nv, id, k, i as int) is Some {
                                    let qq = choose|qq: int| 0 <= qq < parts@.len() && #[trigger] parts@[qq].id == id;
                                    assert(parts@[qq].id == id);
                                }
                            }
                        }
                        let updated = Partial::empty(id).note(kind, i);
                        parts.push(updated);
                    }
                    assert forall|qi: int| 0 <= qi < parts@.len() implies #[trigger] parts@[qi].tracks(
                        nv,
                        i + 1,
                    ) by {
                        assert forall|k: CoreTempDataKind|
                            #[trigger] parts@[qi].slot(k) == first_in(nv, parts@[qi].id, k, i + 1) by {
                            if qi < old_parts.len() {
                                assert(old_parts[qi].tracks(nv, i as int));
                                assert(old_parts[qi].slot(k) == first_in(nv, old_parts[qi].id, k, i as int));
                            }
                        }
                    }
                    assert forall|id2: CoreNumber, k: CoreTempDataKind|
                        #[trigger] first_in(nv, id2, k, i + 1) is Some implies exists|q2: int|
                            0 <= q2 < parts@.len() && #[trigger] parts@[q2].id == id2 by {
                        if first_in(nv, id2, k, i as int) is Some {
                            let qq = choose|qq: int| 0 <= qq < old_parts.len() && #[trigger] old_parts[qq].id == id2;
                            assert(parts@[qq].id == id2);
                        } else {
                            assert(id2 == id);
                            assert(parts@[q as int].id == id);
                        }
                    }
                },
            }
            i = i + 1;
        }
        let groups = keep_complete(names, &parts);
        proof {
            assert forall|id: CoreNumber| #[trigger] complete(nv, id) implies exists|a: int|
                0 <= a < groups@.len() && #[trigger] groups@[a].0 == id by {
                assert(first_in(nv, id, CoreTempDataKind::Input, i as int) is Some);
                let q = choose|q: int| 0 <= q < parts@.len() && #[trigger] parts@[q].id == id;
                assert(complete(views(names@), parts@[q].id));
                let a = choose|a: int| 0 <= a < groups@.len() && #[trigger] groups@[a].0 == parts@[q].id;
                assert(groups@[a].0 == id);
            }
        }
        let r = HwmCoreTemp { groups };
        assert(r.spec_groups() == groups@);
        r
    }
}

/// The sensors among `parts` of which all five files were seen.
#[verifier::rlimit(50)]
fn keep_complete(names: &Vec<String>, parts: &Vec<Partial>) -> (groups: Vec<(CoreNumber, TempSensorFiles)>)
    requires
        forall|q: int| 0 <= q < parts@.len() ==> #[trigger] parts@[q].tracks(views(names@), names@.len() as int),
        forall|q: int, q2: int|
            0 <= q < q2 < parts@.len() ==> #[trigger] parts@[q].id != #[trigger] parts@[q2].id,
    ensures
        forall|a: int, b: int|
            0 <= a < b < groups@.len() ==> #[trigger] groups@[a].0 != #[trigger] groups@[b].0,
        forall|a: int|
            0 <= a < groups@.len() ==> complete(views(names@), #[trigger] groups@[a].0)
                && groups@[a].1.chosen_from(views(names@), groups@[a].0),
        forall|q: int|
            0 <= q < parts@.len() && complete(views(names@), #[trigger] parts@[q].id) ==> exists|a: int|
                0 <= a < groups@.len() && #[trigger] groups@[a].0 == parts@[q].id,
{
    let ghost nv = views(names@);
    let i = names.len();
        let mut groups: Vec<(CoreNumber, TempSensorFiles)> = Vec::new();
        let mut j: usize = 0;
        while j < parts.len()
            invariant
                nv == views(names@),
                i == names@.len(),
                j <= parts@.len(),
                forall|q: int| 0 <= q < parts@.len() ==> #[trigger] parts@[q].tracks(nv, i as int),
                forall|q: int, q2: int|
                    0 <= q < q2 < parts@.len() ==> #[trigger] parts@[q].id != #[trigger] parts@[q2].id,
                forall|a: int, b: int|
                    0 <= a < b < groups@.len() ==> #[trigger] groups@[a].0 != #[trigger] groups@[b].0,
                forall|a: int|
                    0 <= a < groups@.len() ==> exists|q: int|
                        0 <= q < j && #[trigger] parts@[q].id == #[trigger] groups@[a].0,
                forall|a: int|
                    0 <= a < groups@.len() ==> complete(nv, #[trigger] groups@[a].0)
                        && groups@[a].1.chosen_from(nv, groups@[a].0),
                forall|q: int|
                    0 <= q < j && complete(nv, #[trigger] parts@[q].id) ==> exists|a: int|
                        0 <= a < groups@.len() && #[trigger] groups@[a].0 == parts@[q].id,
            decreases parts@.len() - j,
        {
            let p = &parts[j];
            assert(p.tracks(nv, i as int));
            proof {
                lemma_first_in_bound(nv, p.id, CoreTempDataKind::Input, i as int);
                lemma_first_in_bound(nv, p.id, CoreTempDataKind::Max, i as int);
                lemma_first_in_bound(nv, p.id, CoreTempDataKind::Crit, i as int);
                lemma_first_in_bound(nv, p.id, CoreTempDataKind::Label, i as int);
                lemma_first_in_bound(nv, p.id, CoreTempDataKind::CritAlarm, i as int);
            }
            assert(p.slot(CoreTempDataKind::Input) == p.input);
            assert(p.slot(CoreTempDataKind::Max) == p.max);
            assert(p.slot(CoreTempDataKind::Crit) == p.crit);
            assert(p.slot(CoreTempDataKind::Label) == p.label);
            assert(p.slot(CoreTempDataKind::CritAlarm) == p.crit_alarm);
            let ghost old_groups = groups@;
            match (p.input, p.max, p.crit, p.label, p.crit_alarm) {
                (Some(a), Some(b), Some(c), Some(d), Some(e)) => {
                    let files = TempSensorFiles {
                        input: names[a].clone(),
                        max: names[b].clone(),
                        crit: names[c].clone(),
                        label: names[d].clone(),
                        crit_alarm: names[e].clone(),
                    };
                    proof {
                        assert forall|kind: CoreTempDataKind|
                            #[trigger] file_of(nv, p.id, kind) is Some implies files.file(kind)
                                == nv[file_of(nv, p.id, kind)->0 as int] by {
                            assert(p.slot(kind) == first_in(nv, p.id, kind, i as int));
                        }
                        assert forall|a2: int| 0 <= a2 < old_groups.len() implies old_groups[a2].0 != p.id by {
                            let q = choose|q: int| 0 <= q < j && #[trigger] parts@[q].id == #[trigger] old_groups[a2].0;
                            assert(parts@[q].id != parts@[j as int].id);
                        }
                    }
                    groups.push((p.id, files));
                    assert(groups@[old_groups.len() as int].0 == parts@[j as int].id);
                    assert forall|a2: int| 0 <= a2 < groups@.len() implies exists|q: int|
                        0 <= q < j + 1 && #[trigger] parts@[q].id == #[trigger] groups@[a2].0 by {
                        if a2 < old_groups.len() {
                            assert(groups@[a2] == old_groups[a2]);
                        } else {
                            assert(parts@[j as int].id == groups@[a2].0);
                        }
                    }
                    assert forall|q: int|
                        0 <= q < j + 1 && complete(nv, #[trigger] parts@[q].id) implies exists|a2: int|
                        0 <= a2 < groups@.len() && #[trigger] groups@[a2].0 == parts@[q].id by {
                        if q < j {
                            let a2 = choose|a2: int|
                                0 <= a2 < old_groups.len() && #[trigger] old_groups[a2].0 == parts@[q].id;
                            assert(groups@[a2] == old_groups[a2]);
                        } else {
                            assert(groups@[old_groups.len() as int].0 == parts@[q].id);
                        }
                    }
                },
                _ => {
                    assert(!complete(nv, p.id));
                },
            }
            j = j + 1;
        }
    groups
}

/// The kinds of monitor this library reads.
#[derive(Debug, Clone)]
pub enum HwmType {
    CoreTemp(HwmCoreTemp),
}

/// One hardware-monitor directory whose sensors are known.
#[derive(Debug, Clone)]
pub struct HwmonDir {
    pub name: String,
    pub path: String,
    pub hwmon_id: u64,
    pub sensors: HwmType,
}

/// The id in a monitor directory's name `hwmon<digits>`.
pub open spec fn hwmon_dir_id(name: Seq<char>) -> Option<u64> {
    let rest = name.subrange(5, name.len() as int);
    if has_prefix(name, "hwmon"@) && rest.len() > 0 && all_digits(rest) && digits_value(rest)
        <= u64::MAX {
        Some(digits_value(rest) as u64)
    } else {
        None
    }
}

/// The name that marks a core-temperature monitor.
pub open spec fn is_core_temp_name(content: Seq<char>) -> bool {
    trimmed(content) == "coretemp"@
}

impl HwmonDir {
    /// The id of a monitor directory, from its name; `None` for a name that
    /// is not `hwmon` followed by decimal digits.
    pub fn hwmon_id_of(dir_name: &str) -> (r: Option<u64>)
        ensures
            r == hwmon_dir_id(dir_name@),
    {
        if !starts_with(dir_name, "hwmon") {
            return None;
        }
        proof {
            reveal_strlit("hwmon");
        }
        let cs = chars_of(dir_name);
        let n = cs.len();
        let ghost rest = dir_name@.subrange(5, n as int);
        if n == 5 || cs[5] == '+' {
            assert(rest.len() == 0 || !crate::text::is_digit(rest[0]));
            return None;
        }
        assert(rest == cs@.subrange(5, n as int));
        assert(crate::text::unsigned_body(rest) == rest);
        parse_u64_range(&cs, 5, n)
    }

    /// Whether the content of a monitor's `name` file marks it as a
    /// core-temperature monitor.
    pub fn is_core_temp(name_content: &str) -> (r: bool)
        ensures
            r == is_core_temp_name(name_content@),
    {
        let t = trim_chars(name_content);
        assert(t@.subrange(0, t@.len() as int) == t@);
        range_eq(&t, 0, t.len(), "coretemp")
    }
}

} // verus!
