//! The core-temperature aggregate: which sensor is which core, and the
//! readings and statistics drawn from what the sensor files held.
//!
//! A [`CoreTemp`] is a sample: it holds the contents of each sensor's files
//! as they were read at one moment. The readings are parsed from those
//! contents on every call; for fresh values, take a new sample.
use vstd::prelude::*;
use crate::text::{
    chars_of, has_prefix, is_digit, parse_u64_range, parses_as_u64, starts_with, string_of,
    trim_chars, trimmed, u64_value,
};

verus! {

/// What a sensor's label says it measures.
#[derive(Debug, Clone, Copy, PartialEq, Eq, Structural)]
pub enum Identifier {
    Core(u64),
    Package,
}

/// The result of lower-casing a string.
pub uninterp spec fn lower_of(s: Seq<char>) -> Seq<char>;

/// Relies on `str::to_lowercase`: the lower-case mapping of Unicode, a
/// function of the characters alone.
#[verifier::external_body]
fn lowercase(s: &str) -> (r: String)
    ensures
        r@ == lower_of(s@),
{
    s.to_lowercase()
}

/// The ASCII digits of `s`, in order.
pub open spec fn digits_in(s: Seq<char>) -> Seq<char>
    decreases s.len(),
{
    if s.len() == 0 {
        s
    } else if is_digit(s.last()) {
        digits_in(s.drop_last()).push(s.last())
    } else {
        digits_in(s.drop_last())
    }
}

/// The identity that a lower-cased label names: the package, or a core
/// whose number is made of all the digits in the label.
pub open spec fn identifier_of(l: Seq<char>) -> Option<Identifier> {
    if has_prefix(l, "package"@) {
        Some(Identifier::Package)
    } else if has_prefix(l, "core"@) {
        if parses_as_u64(digits_in(l)) {
            Some(Identifier::Core(u64_value(digits_in(l))))
        } else {
            None
        }
    } else {
        None
    }
}

/// The identity named by the content of a label file: trimmed, lower-cased,
/// then read as `identifier_of` says.
pub open spec fn label_identifier(content: Seq<char>) -> Option<Identifier> {
    identifier_of(lower_of(trimmed(content)))
}

impl Identifier {
    /// The identity that an already lower-cased label names.
    pub fn from_lowered(l: &str) -> (r: Option<Identifier>)
        ensures
            r == identifier_of(l@),
    {
        if starts_with(l, "package") {
            return Some(Identifier::Package);
        }
        if !starts_with(l, "core") {
            return None;
        }
        let cs = chars_of(l);
        let mut ds: Vec<char> = Vec::new();
        let mut i: usize = 0;
        while i < cs.len()
            invariant
                cs@ == l@,
                i <= cs@.len(),
                ds@ == digits_in(cs@.subrange(0, i as int)),
            decreases cs@.len() - i,
        {
            assert(cs@.subrange(0, i + 1).drop_last() == cs@.subrange(0, i as int));
            if '0' <= cs[i] && cs[i] <= '9' {
                ds.push(cs[i]);
            }
            i = i + 1;
        }
        assert(cs@.subrange(0, cs@.len() as int) == l@);
        assert(ds@.subrange(0, ds@.len() as int) == ds@);
        match parse_u64_range(&ds, 0, ds.len()) {
            Some(n) => Some(Identifier::Core(n)),
            None => None,
        }
    }

    /// The identity named by the content of a sensor's label file.
    pub fn from_label(content: &str) -> (r: Option<Identifier>)
        ensures
            r == label_identifier(content@),
    {
        let t = string_of(&trim_chars(content));
        let l = lowercase(t.as_str());
        Self::from_lowered(l.as_str())
    }
}

/// Why a reading could not be had.
#[derive(Debug, Clone, Copy, PartialEq, Eq, Structural)]
pub enum SensorError {
    /// No sensor has the requested identity.
    NotFound,
    /// The sensor's file could not be read.
    Io,
    /// The file's content is not a number.
    Parse,
    /// No sensor gave a reading.
    EmptySet,
}

/// The view of a file's content as read: `None` where the read failed.
pub open spec fn content_view(c: Option<String>) -> Option<Seq<char>> {
    match c {
        Some(s) => Some(s@),
        None => None,
    }
}

/// The reading in a file's content: an unsigned integer after trimming.
pub open spec fn reading_of(c: Option<Seq<char>>) -> Result<u64, SensorError> {
    match c {
        None => Err(SensorError::Io),
        Some(s) => if parses_as_u64(trimmed(s)) {
            Ok(u64_value(trimmed(s)))
        } else {
            Err(SensorError::Parse)
        },
    }
}

/// Parses a file's content, as read, into a reading.
pub fn parse_reading(content: &Option<String>) -> (r: Result<u64, SensorError>)
    ensures
        r == reading_of(content_view(*content)),
{
    match content {
        None => Err(SensorError::Io),
        Some(s) => {
            let t = trim_chars(s.as_str());
            assert(t@.subrange(0, t@.len() as int) == t@);
            match parse_u64_range(&t, 0, t.len()) {
                Some(v) => Ok(v),
                None => Err(SensorError::Parse),
            }
        },
    }
}

/// One sensor as sampled: what its label names, its id in the monitor
/// directory, and the content of its files as read (`None` where the read
/// failed).
#[derive(Debug, Clone)]
pub struct CoreSensor {
    pub label_id: Identifier,
    pub temp_id: u64,
    pub input: Option<String>,
    pub max: Option<String>,
    pub crit: Option<String>,
    pub crit_alarm: Option<String>,
}

impl CoreSensor {
    /// A sensor whose label file held `label`; `None` where the label names
    /// neither a core nor the package.
    pub fn from_contents(
        temp_id: u64,
        label: &str,
        input: Option<String>,
        max: Option<String>,
        crit: Option<String>,
        crit_alarm: Option<String>,
    ) -> (r: Option<CoreSensor>)
        ensures
            match label_identifier(label@) {
                None => r is None,
                Some(id) => r matches Some(s) && s.label_id == id && s.temp_id == temp_id
                    && s.input == input && s.max == max && s.crit == crit && s.crit_alarm == crit_alarm,
            },
    {
        match Identifier::from_label(label) {
            None => None,
            Some(label_id) => Some(CoreSensor { label_id, temp_id, input, max, crit, crit_alarm }),
        }
    }
}

/// The current reading of a sensor, in millidegrees.
pub open spec fn input_of(s: CoreSensor) -> Result<u64, SensorError> {
    reading_of(content_view(s.input))
}

/// The maximum threshold of a sensor, in millidegrees.
pub open spec fn max_of(s: CoreSensor) -> Result<u64, SensorError> {
    reading_of(content_view(s.max))
}

/// The critical threshold of a sensor, in millidegrees.
pub open spec fn crit_of(s: CoreSensor) -> Result<u64, SensorError> {
    reading_of(content_view(s.crit))
}

/// The critical alarm flag of a sensor.
pub open spec fn alarm_of(s: CoreSensor) -> Result<u64, SensorError> {
    reading_of(content_view(s.crit_alarm))
}

/// The core number of a core sensor.
pub open spec fn core_no(s: CoreSensor) -> u64 {
    match s.label_id {
        Identifier::Core(n) => n,
        Identifier::Package => 0,
    }
}

/// The first of `sensors[..k]` that `id` names.
pub open spec fn first_with(sensors: Seq<CoreSensor>, id: Identifier, k: int) -> Option<CoreSensor>
    decreases k,
{
    if k <= 0 {
        None
    } else {
        match first_with(sensors, id, k - 1) {
            Some(s) => Some(s),
            None => if sensors[k - 1].label_id == id {
                Some(sensors[k - 1])
            } else {
                None
            },
        }
    }
}

/// The readings of the cores that gave one, in order, each with its core
/// number.
pub open spec fn readings(cores: Seq<CoreSensor>) -> Seq<(u64, u64)>
    decreases cores.len(),
{
    if cores.len() == 0 {
        Seq::empty()
    } else {
        match input_of(cores.last()) {
            Ok(v) => readings(cores.drop_last()).push((core_no(cores.last()), v)),
            Err(_) => readings(cores.drop_last()),
        }
    }
}

/// The sampled sensors of one processor: the package sensor, if any, and
/// the core sensors in ascending order of core number.
#[derive(Debug)]
pub struct CoreTemp {
    package: Option<CoreSensor>,
    cores: Vec<CoreSensor>,
}

impl CoreTemp {
    pub closed spec fn spec_package(&self) -> Option<CoreSensor> {
        self.package
    }

    pub closed spec fn spec_cores(&self) -> Seq<CoreSensor> {
        self.cores@
    }

    /// The package sensor is labelled as such; the cores are labelled as
    /// cores, in strictly ascending order of core number.
    pub open spec fn wf(&self) -> bool {
        &&& (self.spec_package() matches Some(p) ==> p.label_id == Identifier::Package)
        &&& forall|i: int|
            0 <= i < self.spec_cores().len() ==> (#[trigger] self.spec_cores()[i]).label_id is Core
        &&& forall|i: int, j: int|
            0 <= i < j < self.spec_cores().len() ==> core_no(#[trigger] self.spec_cores()[i])
                < core_no(#[trigger] self.spec_cores()[j])
    }

    /// Some core sensor has number `n`.
    pub open spec fn has_core(&self, n: u64) -> bool {
        exists|i: int| 0 <= i < self.spec_cores().len() && core_no(#[trigger] self.spec_cores()[i]) == n
    }

    /// The core numbers, ascending.
    pub open spec fn core_ids(&self) -> Seq<u64> {
        self.spec_cores().map_values(|s: CoreSensor| core_no(s))
    }

    /// The readings of the cores that gave one, ascending by core number.
    pub open spec fn all_readings(&self) -> Seq<(u64, u64)> {
        readings(self.spec_cores())
    }

    /// The values of `all_readings`.
    pub open spec fn values(&self) -> Seq<u64> {
        self.all_readings().map_values(|p: (u64, u64)| p.1)
    }

    /// The aggregate of the sampled sensors. Of several sensors that name
    /// the same core, or the package, the first is kept; a missing package
    /// is no error.
    pub fn new(sensors: Vec<CoreSensor>) -> (r: CoreTemp)
        ensures
            r.wf(),
            r.spec_package() == first_with(sensors@, Identifier::Package, sensors@.len() as int),
            forall|i: int|
                0 <= i < r.spec_cores().len() ==> first_with(
                    sensors@,
                    Identifier::Core(core_no(#[trigger] r.spec_cores()[i])),
                    sensors@.len() as int,
                ) == Some(r.spec_cores()[i]),
            forall|n: u64|
                #[trigger] first_with(sensors@, Identifier::Core(n), sensors@.len() as int) is Some
                    ==> r.has_core(n),
    {
        let ghost orig = sensors@;
        let mut rest = sensors;
        let mut package: Option<CoreSensor> = None;
        let mut cores: Vec<CoreSensor> = Vec::new();
        while rest.len() > 0
            invariant
                rest@.len() <= orig.len(),
                rest@ == orig.subrange(orig.len() - rest@.len(), orig.len() as int),
                package matches Some(p) ==> p.label_id == Identifier::Package,
                package == first_with(orig, Identifier::Package, orig.len() - rest@.len()),
                forall|i: int| 0 <= i < cores@.len() ==> (#[trigger] cores@[i]).label_id is Core,
                forall|i: int, j: int|
                    0 <= i < j < cores@.len() ==> core_no(#[trigger] cores@[i]) < core_no(
                        #[trigger] cores@[j],
                    ),
                forall|i: int|
                    0 <= i < cores@.len() ==> first_with(
                        orig,
                        Identifier::Core(core_no(#[trigger] cores@[i])),
                        orig.len() - rest@.len(),
                    ) == Some(cores@[i]),
                forall|n: u64|
                    #[trigger] first_with(orig, Identifier::Core(n), orig.len() - rest@.len()) is Some
                        ==> exists|i: int| 0 <= i < cores@.len() && core_no(#[trigger] cores@[i]) == n,
            decreases rest@.len(),
        {
            let ghost k = orig.len() - rest@.len();
            let s = rest.remove(0);
            assert(s == orig[k]);
            assert(rest@ == orig.subrange(k + 1, orig.len() as int));
            let ghost old_cores = cores@;
            match s.label_id {
                Identifier::Package => {
                    if package.is_none() {
                        package = Some(s);
                    }
                    assert forall|i: int| 0 <= i < cores@.len() implies first_with(
                        orig,
                        Identifier::Core(core_no(#[trigger] cores@[i])),
                        k + 1,
                    ) == Some(cores@[i]) by {
                        assert(first_with(orig, Identifier::Core(core_no(cores@[i])), k) == Some(cores@[i]));
                    }
                    assert forall|n: u64|
                        #[trigger] first_with(orig, Identifier::Core(n), k + 1) is Some implies exists|i: int|
                            0 <= i < cores@.len() && core_no(#[trigger] cores@[i]) == n by {
                        assert(first_with(orig, Identifier::Core(n), k) is Some);
                    }
                },
                Identifier::Core(n) => {
                    let mut p: usize = 0;
                    while p < cores.len() && core_no_of(&cores[p]) < n
                        invariant
                            p <= cores@.len(),
                            forall|j: int| 0 <= j < p ==> core_no(#[trigger] cores@[j]) < n,
                        decreases cores@.len() - p,
                    {
                        p = p + 1;
                    }
                    if p < cores.len() && core_no_of(&cores[p]) == n {
                        assert(first_with(orig, Identifier::Core(n), k) is Some);
                        assert forall|i: int| 0 <= i < cores@.len() implies first_with(
                            orig,
                            Identifier::Core(core_no(#[trigger] cores@[i])),
                            k + 1,
                        ) == Some(cores@[i]) by {
                            assert(first_with(orig, Identifier::Core(core_no(cores@[i])), k) == Some(cores@[i]));
                        }
                        assert forall|m: u64|
                            #[trigger] first_with(orig, Identifier::Core(m), k + 1) is Some implies exists|i: int|
                                0 <= i < cores@.len() && core_no(#[trigger] cores@[i]) == m by {
                            if m == n {
                                assert(core_no(cores@[p as int]) == m);
                            } else {
                                assert(first_with(orig, Identifier::Core(m), k) is Some);
                            }
                        }
                    } else {
                        proof {
                            assert forall|i: int| 0 <= i < cores@.len() implies core_no(#[trigger] cores@[i]) != n by {
                                if i >= p {
                                    assert(core_no(cores@[p as int]) > n);
                                    if i > p {
                                        assert(core_no(cores@[p as int]) < core_no(cores@[i]));
                                    }
                                }
                            }
                            assert(first_with(orig, Identifier::Core(n), k) is None);
                        }
                        assert(core_no(s) == n);
                        cores.insert(p, s);
                        assert forall|i: int| 0 <= i < cores@.len() implies first_with(
                            orig,
                            Identifier::Core(core_no(#[trigger] cores@[i])),
                            k + 1,
                        ) == Some(cores@[i]) by {
                            if i < p {
                                assert(cores@[i] == old_cores[i]);
                                assert(first_with(orig, Identifier::Core(core_no(old_cores[i])), k) == Some(old_cores[i]));
                            } else if i > p {
                                assert(cores@[i] == old_cores[i - 1]);
                                assert(first_with(orig, Identifier::Core(core_no(old_cores[i - 1])), k) == Some(old_cores[i - 1]));
                            }
                        }
                        assert forall|m: u64|
                            #[trigger] first_with(orig, Identifier::Core(m), k + 1) is Some implies exists|i: int|
                                0 <= i < cores@.len() && core_no(#[trigger] cores@[i]) == m by {
                            if m == n {
                                assert(core_no(cores@[p as int]) == m);
                            } else {
                                assert(first_with(orig, Identifier::Core(m), k) is Some);
                                let i0 = choose|i: int| 0 <= i < old_cores.len() && core_no(#[trigger] old_cores[i]) == m;
                                if i0 < p {
                                    assert(cores@[i0] == old_cores[i0]);
                                } else {
                                    assert(cores@[i0 + 1] == old_cores[i0]);
                                }
                            }
                        }
                        assert forall|i: int, j: int|
                            0 <= i < j < cores@.len() implies core_no(#[trigger] cores@[i]) < core_no(
                                #[trigger] cores@[j],
                            ) by {
                            if j < p {
                                assert(cores@[i] == old_cores[i] && cores@[j] == old_cores[j]);
                            } else if j == p {
                                assert(cores@[i] == old_cores[i]);
                            } else if i > p {
                                assert(cores@[i] == old_cores[i - 1] && cores@[j] == old_cores[j - 1]);
                            } else if i == p {
                                assert(cores@[j] == old_cores[j - 1]);
                                if p < old_cores.len() {
                                    assert(core_no(old_cores[p as int]) > n);
                                    if j - 1 > p {
                                        assert(core_no(old_cores[p as int]) < core_no(old_cores[j - 1]));
                                    }
                                }
                            } else {
                                assert(cores@[i] == old_cores[i] && cores@[j] == old_cores[j - 1]);
                            }
                        }
                    }
                },
            }
        }
        let r = CoreTemp { package, cores };
        assert(r.spec_cores() == cores@);
        r
    }
}

/// The core number of a core sensor.
fn core_no_of(s: &CoreSensor) -> (r: u64)
    ensures
        r == core_no(*s),
{
    match s.label_id {
        Identifier::Core(n) => n,
        Identifier::Package => 0,
    }
}

/// The sum of a sequence of readings.
pub open spec fn sum(s: Seq<u64>) -> int
    decreases s.len(),
{
    if s.len() == 0 {
        0
    } else {
        sum(s.drop_last()) + s.last()
    }
}

/// `t` with `x` put before the first element not below it.
pub open spec fn insert_sorted(t: Seq<u64>, x: u64) -> Seq<u64>
    decreases t.len(),
{
    if t.len() == 0 {
        seq![x]
    } else if x <= t[0] {
        seq![x] + t
    } else {
        seq![t[0]] + insert_sorted(t.drop_first(), x)
    }
}

/// `s` in ascending order.
pub open spec fn sorted_of(s: Seq<u64>) -> Seq<u64>
    decreases s.len(),
{
    if s.len() == 0 {
        s
    } else {
        insert_sorted(sorted_of(s.drop_last()), s.last())
    }
}

/// The median of a non-empty ascending sequence: the middle element, or the
/// mean of the two middle elements (rounded down) for an even length.
pub open spec fn median_of(t: Seq<u64>) -> int {
    let h = (t.len() / 2) as int;
    if t.len() % 2 == 1 {
        t[h] as int
    } else {
        (t[h - 1] + t[h]) / 2
    }
}

/// The first entry of a non-empty sequence with the smallest reading.
pub open spec fn min_entry(s: Seq<(u64, u64)>) -> (u64, u64)
    decreases s.len(),
{
    if s.len() <= 1 {
        s[0]
    } else if s.last().1 < min_entry(s.drop_last()).1 {
        s.last()
    } else {
        min_entry(s.drop_last())
    }
}

/// The first entry of a non-empty sequence with the largest reading.
pub open spec fn max_entry(s: Seq<(u64, u64)>) -> (u64, u64)
    decreases s.len(),
{
    if s.len() <= 1 {
        s[0]
    } else if s.last().1 > max_entry(s.drop_last()).1 {
        s.last()
    } else {
        max_entry(s.drop_last())
    }
}

proof fn lemma_insert_at(t: Seq<u64>, x: u64, p: int)
    requires
        0 <= p <= t.len(),
        forall|j: int| 0 <= j < p ==> t[j] < x,
        p == t.len() || x <= t[p],
    ensures
        insert_sorted(t, x) == t.subrange(0, p).push(x) + t.subrange(p, t.len() as int),
    decreases p,
{
    if p == 0 {
        assert(t.subrange(0, 0).push(x) + t.subrange(0, t.len() as int) == seq![x] + t);
    } else {
        lemma_insert_at(t.drop_first(), x, p - 1);
        assert(t.subrange(0, p).push(x) + t.subrange(p, t.len() as int) == seq![t[0]] + (
        t.drop_first().subrange(0, p - 1).push(x) + t.drop_first().subrange(
            p - 1,
            t.drop_first().len() as int,
        )));
    }
}

/// The values of `v` in ascending order.
pub fn sort_values(v: &Vec<u64>) -> (r: Vec<u64>)
    ensures
        r@ == sorted_of(v@),
{
    let mut out: Vec<u64> = Vec::new();
    let mut i: usize = 0;
    while i < v.len()
        invariant
            i <= v@.len(),
            out@ == sorted_of(v@.subrange(0, i as int)),
        decreases v@.len() - i,
    {
        let x = v[i];
        let mut p: usize = 0;
        while p < out.len() && out[p] < x
            invariant
                p <= out@.len(),
                forall|j: int| 0 <= j < p ==> out@[j] < x,
            decreases out@.len() - p,
        {
            p = p + 1;
        }
        proof {
            lemma_insert_at(out@, x, p as int);
            assert(v@.subrange(0, i + 1).drop_last() == v@.subrange(0, i as int));
        }
        let ghost before = out@;
        out.insert(p, x);
        assert(out@ == before.subrange(0, p as int).push(x) + before.subrange(p as int, before.len() as int));
        i = i + 1;
    }
    assert(v@.subrange(0, v@.len() as int) == v@);
    out
}

impl CoreTemp {
    /// The sensor of core `n`, if there is one.
    pub open spec fn sensor_of(&self, n: u64) -> Option<CoreSensor> {
        if self.has_core(n) {
            Some(
                self.spec_cores()[choose|i: int|
                    0 <= i < self.spec_cores().len() && core_no(#[trigger] self.spec_cores()[i]) == n],
            )
        } else {
            None
        }
    }

    /// What a reading of core `n` gives, by `read` on its sensor.
    pub open spec fn core_reading(&self, n: u64, read: spec_fn(CoreSensor) -> Result<u64, SensorError>) -> Result<
        u64,
        SensorError,
    > {
        match self.sensor_of(n) {
            None => Err(SensorError::NotFound),
            Some(s) => read(s),
        }
    }

    /// The current reading of core `n`.
    pub open spec fn temp_of(&self, n: u64) -> Result<u64, SensorError> {
        self.core_reading(n, |s: CoreSensor| input_of(s))
    }

    /// The current readings of the cores `ids`, in order; the first error
    /// where one fails.
    pub open spec fn temps_for(&self, ids: Seq<u64>) -> Result<Seq<u64>, SensorError>
        decreases ids.len(),
    {
        if ids.len() == 0 {
            Ok(Seq::empty())
        } else {
            match self.temps_for(ids.drop_last()) {
                Err(e) => Err(e),
                Ok(vs) => match self.temp_of(ids.last()) {
                    Ok(v) => Ok(vs.push(v)),
                    Err(e) => Err(e),
                },
            }
        }
    }

    proof fn lemma_sensor_of(&self, i: int)
        requires
            self.wf(),
            0 <= i < self.spec_cores().len(),
        ensures
            self.sensor_of(core_no(self.spec_cores()[i])) == Some(self.spec_cores()[i]),
    {
        let n = core_no(self.spec_cores()[i]);
        let j = choose|j: int| 0 <= j < self.spec_cores().len() && core_no(#[trigger] self.spec_cores()[j]) == n;
        if j < i {
            assert(core_no(self.spec_cores()[j]) < core_no(self.spec_cores()[i]));
        } else if j > i {
            assert(core_no(self.spec_cores()[i]) < core_no(self.spec_cores()[j]));
        }
    }

    /// The current reading of the package sensor.
    pub open spec fn package_reading(&self) -> Result<u64, SensorError> {
        match self.spec_package() {
            None => Err(SensorError::NotFound),
            Some(p) => input_of(p),
        }
    }

    /// The mean of the readings, rounded down.
    pub open spec fn average(&self) -> Result<u64, SensorError> {
        if self.values().len() == 0 {
            Err(SensorError::EmptySet)
        } else {
            Ok((sum(self.values()) / self.values().len() as int) as u64)
        }
    }

    /// The median of the readings.
    pub open spec fn median(&self) -> Result<u64, SensorError> {
        if self.values().len() == 0 {
            Err(SensorError::EmptySet)
        } else {
            Ok(median_of(sorted_of(self.values())) as u64)
        }
    }

    /// The first core with the smallest reading, and that reading.
    pub open spec fn min_reading(&self) -> Result<(u64, u64), SensorError> {
        if self.all_readings().len() == 0 {
            Err(SensorError::EmptySet)
        } else {
            Ok(min_entry(self.all_readings()))
        }
    }

    /// The first core with the largest reading, and that reading.
    pub open spec fn max_reading(&self) -> Result<(u64, u64), SensorError> {
        if self.all_readings().len() == 0 {
            Err(SensorError::EmptySet)
        } else {
            Ok(max_entry(self.all_readings()))
        }
    }

    /// The position of core `n`'s sensor.
    fn find_core(&self, n: u64) -> (r: Option<usize>)
        requires
            self.wf(),
        ensures
            match r {
                Some(i) => i < self.spec_cores().len() && self.sensor_of(n) == Some(self.spec_cores()[i as int]),
                None => self.sensor_of(n) is None,
            },
    {
        let mut i: usize = 0;
        while i < self.cores.len()
            invariant
                self.wf(),
                i <= self.cores@.len(),
                forall|j: int| 0 <= j < i ==> core_no(#[trigger] self.cores@[j]) != n,
            decreases self.cores@.len() - i,
        {
            if core_no_of(&self.cores[i]) == n {
                proof {
                    self.lemma_sensor_of(i as int);
                }
                return Some(i);
            }
            i = i + 1;
        }
        None
    }

    /// The current reading of the package sensor.
    pub fn get_package(&self) -> (r: Result<u64, SensorError>)
        ensures
            r == self.package_reading(),
    {
        match &self.package {
            None => Err(SensorError::NotFound),
            Some(p) => parse_reading(&p.input),
        }
    }

    /// The core numbers, ascending.
    pub fn get_cores(&self) -> (r: Vec<u64>)
        ensures
            r@ == self.core_ids(),
    {
        let mut r: Vec<u64> = Vec::new();
        let mut i: usize = 0;
        while i < self.cores.len()
            invariant
                i <= self.cores@.len(),
                r@ == self.cores@.subrange(0, i as int).map_values(|s: CoreSensor| core_no(s)),
            decreases self.cores@.len() - i,
        {
            r.push(core_no_of(&self.cores[i]));
            i = i + 1;
            assert(r@ =~= self.cores@.subrange(0, i as int).map_values(|s: CoreSensor| core_no(s)));
        }
        assert(self.cores@.subrange(0, i as int) == self.cores@);
        r
    }

    /// The number of core sensors.
    pub fn get_count(&self) -> (r: usize)
        ensures
            r == self.spec_cores().len(),
    {
        self.cores.len()
    }

    /// The current reading of core `core`.
    pub fn get_temp(&self, core: u64) -> (r: Result<u64, SensorError>)
        requires
            self.wf(),
        ensures
            r == self.temp_of(core),
    {
        match self.find_core(core) {
            None => Err(SensorError::NotFound),
            Some(i) => parse_reading(&self.cores[i].input),
        }
    }

    /// The maximum threshold of core `core`.
    pub fn read_max(&self, core: u64) -> (r: Result<u64, SensorError>)
        requires
            self.wf(),
        ensures
            r == self.core_reading(core, |s: CoreSensor| max_of(s)),
    {
        match self.find_core(core) {
            None => Err(SensorError::NotFound),
            Some(i) => parse_reading(&self.cores[i].max),
        }
    }

    /// The critical threshold of core `core`.
    pub fn get_critical(&self, core: u64) -> (r: Result<u64, SensorError>)
        requires
            self.wf(),
        ensures
            r == self.core_reading(core, |s: CoreSensor| crit_of(s)),
    {
        match self.find_core(core) {
            None => Err(SensorError::NotFound),
            Some(i) => parse_reading(&self.cores[i].crit),
        }
    }

    /// The critical alarm flag of core `core`.
    pub fn get_critical_alarm(&self, core: u64) -> (r: Result<u64, SensorError>)
        requires
            self.wf(),
        ensures
            r == self.core_reading(core, |s: CoreSensor| alarm_of(s)),
    {
        match self.find_core(core) {
            None => Err(SensorError::NotFound),
            Some(i) => parse_reading(&self.cores[i].crit_alarm),
        }
    }

    /// The current readings of the cores `cores`, in order.
    pub fn get_temps_for(&self, cores: &Vec<u64>) -> (r: Result<Vec<u64>, SensorError>)
        requires
            self.wf(),
        ensures
            match self.temps_for(cores@) {
                Ok(vs) => r matches Ok(v) && v@ == vs,
                Err(e) => r == Err::<Vec<u64>, SensorError>(e),
            },
    {
        let mut temps: Vec<u64> = Vec::new();
        let mut i: usize = 0;
        while i < cores.len()
            invariant
                self.wf(),
                i <= cores@.len(),
                self.temps_for(cores@.subrange(0, i as int)) == Ok::<Seq<u64>, SensorError>(temps@),
            decreases cores@.len() - i,
        {
            assert(cores@.subrange(0, i + 1).drop_last() == cores@.subrange(0, i as int));
            match self.get_temp(cores[i]) {
                Ok(t) => temps.push(t),
                Err(e) => {
                    proof {
                        self.lemma_temps_for_err(cores@, i as int);
                    }
                    return Err(e);
                },
            }
            i = i + 1;
        }
        assert(cores@.subrange(0, i as int) == cores@);
        Ok(temps)
    }

    proof fn lemma_temps_for_err(&self, ids: Seq<u64>, i: int)
        requires
            0 <= i < ids.len(),
            self.temps_for(ids.subrange(0, i)) is Ok,
            self.temp_of(ids[i]) is Err,
        ensures
            self.temps_for(ids) == Err::<Seq<u64>, SensorError>(self.temp_of(ids[i])->Err_0),
        decreases ids.len() - i,
    {
        if i == ids.len() - 1 {
            assert(ids.drop_last() == ids.subrange(0, i));
        } else {
            assert(ids.drop_last().subrange(0, i) == ids.subrange(0, i));
            self.lemma_temps_for_err(ids.drop_last(), i);
        }
    }

    /// The current readings of every core that gives one, ascending by core
    /// number; a core whose reading fails is left out.
    pub fn read_all(&self) -> (r: Vec<(u64, u64)>)
        ensures
            r@ == self.all_readings(),
    {
        let mut r: Vec<(u64, u64)> = Vec::new();
        let mut i: usize = 0;
        while i < self.cores.len()
            invariant
                i <= self.cores@.len(),
                r@ == readings(self.cores@.subrange(0, i as int)),
            decreases self.cores@.len() - i,
        {
            assert(self.cores@.subrange(0, i + 1).drop_last() == self.cores@.subrange(0, i as int));
            match parse_reading(&self.cores[i].input) {
                Ok(v) => r.push((core_no_of(&self.cores[i]), v)),
                Err(_) => {},
            }
            i = i + 1;
        }
        assert(self.cores@.subrange(0, i as int) == self.cores@);
        r
    }

    /// The values of `read_all`.
    fn read_values(&self) -> (r: Vec<u64>)
        ensures
            r@ == self.values(),
    {
        let all = self.read_all();
        let mut r: Vec<u64> = Vec::new();
        let mut i: usize = 0;
        while i < all.len()
            invariant
                all@ == self.all_readings(),
                i <= all@.len(),
                r@ == all@.subrange(0, i as int).map_values(|p: (u64, u64)| p.1),
            decreases all@.len() - i,
        {
            r.push(all[i].1);
            i = i + 1;
            assert(r@ =~= all@.subrange(0, i as int).map_values(|p: (u64, u64)| p.1));
        }
        assert(all@.subrange(0, i as int) == all@);
        r
    }

    /// The mean of the readings, rounded down.
    pub fn get_average(&self) -> (r: Result<u64, SensorError>)
        ensures
            r == self.average(),
    {
        let vs = self.read_values();
        if vs.len() == 0 {
            return Err(SensorError::EmptySet);
        }
        let mut total: u128 = 0;
        let mut i: usize = 0;
        while i < vs.len()
            invariant
                i <= vs@.len(),
                total == sum(vs@.subrange(0, i as int)),
                total <= i * u64::MAX,
            decreases vs@.len() - i,
        {
            assert(vs@.subrange(0, i + 1).drop_last() == vs@.subrange(0, i as int));
            assert(total + vs[i as int] <= (i + 1) * u64::MAX) by (nonlinear_arith)
                requires
                    total <= i * u64::MAX,
                    vs[i as int] <= u64::MAX,
            ;
            total = total + vs[i] as u128;
            i = i + 1;
        }
        assert(vs@.subrange(0, i as int) == vs@);
        let n = vs.len() as u128;
        assert(total / n <= u64::MAX) by (nonlinear_arith)
            requires
                total <= n * u64::MAX,
                n > 0,
        ;
        Ok((total / n) as u64)
    }

    /// The median of the readings.
    pub fn get_median(&self) -> (r: Result<u64, SensorError>)
        ensures
            r == self.median(),
    {
        let vs = self.read_values();
        if vs.len() == 0 {
            return Err(SensorError::EmptySet);
        }
        let t = sort_values(&vs);
        proof {
            lemma_sorted_of_len(vs@);
        }
        let n = t.len();
        let h = n / 2;
        if n % 2 == 1 {
            Ok(t[h])
        } else {
            let m = (t[h - 1] as u128 + t[h] as u128) / 2;
            Ok(m as u64)
        }
    }

    /// The core with the smallest reading, and that reading; of equal
    /// readings the lowest core number.
    pub fn get_min(&self) -> (r: Result<(u64, u64), SensorError>)
        ensures
            r == self.min_reading(),
    {
        let all = self.read_all();
        if all.len() == 0 {
            return Err(SensorError::EmptySet);
        }
        let mut best = all[0];
        let mut i: usize = 1;
        while i < all.len()
            invariant
                1 <= i <= all@.len(),
                best == min_entry(all@.subrange(0, i as int)),
            decreases all@.len() - i,
        {
            assert(all@.subrange(0, i + 1).drop_last() == all@.subrange(0, i as int));
            if all[i].1 < best.1 {
                best = all[i];
            }
            i = i + 1;
        }
        assert(all@.subrange(0, i as int) == all@);
        Ok(best)
    }

    /// The core with the largest reading, and that reading; of equal
    /// readings the lowest core number.
    pub fn get_max(&self) -> (r: Result<(u64, u64), SensorError>)
        ensures
            r == self.max_reading(),
    {
        let all = self.read_all();
        if all.len() == 0 {
            return Err(SensorError::EmptySet);
        }
        let mut best = all[0];
        let mut i: usize = 1;
        while i < all.len()
            invariant
                1 <= i <= all@.len(),
                best == max_entry(all@.subrange(0, i as int)),
            decreases all@.len() - i,
        {
            assert(all@.subrange(0, i + 1).drop_last() == all@.subrange(0, i as int));
            if all[i].1 > best.1 {
                best = all[i];
            }
            i = i + 1;
        }
        assert(all@.subrange(0, i as int) == all@);
        Ok(best)
    }
}

/// Reading all cores keeps exactly the cores whose reading succeeds: a
/// core that fails is left out, and the others keep their readings.
pub proof fn lemma_read_all_skips_failures(ct: CoreTemp, i: int)
    requires
        ct.wf(),
        0 <= i < ct.spec_cores().len(),
    ensures
        input_of(ct.spec_cores()[i]) matches Ok(v) ==> ct.all_readings().contains(
            (core_no(ct.spec_cores()[i]), v),
        ),
        input_of(ct.spec_cores()[i]) is Err ==> forall|j: int|
            0 <= j < ct.all_readings().len() ==> (#[trigger] ct.all_readings()[j]).0 != core_no(
                ct.spec_cores()[i],
            ),
{
    lemma_readings_members(ct.spec_cores(), i);
}

proof fn lemma_readings_members(cores: Seq<CoreSensor>, i: int)
    requires
        0 <= i < cores.len(),
        forall|a: int, b: int|
            0 <= a < b < cores.len() ==> core_no(#[trigger] cores[a]) < core_no(#[trigger] cores[b]),
    ensures
        input_of(cores[i]) matches Ok(v) ==> readings(cores).contains((core_no(cores[i]), v)),
        input_of(cores[i]) is Err ==> forall|j: int|
            0 <= j < readings(cores).len() ==> (#[trigger] readings(cores)[j]).0 != core_no(cores[i]),
    decreases cores.len(),
{
    lemma_readings_from(cores);
    let last = cores.len() - 1;
    if i < last {
        lemma_readings_members(cores.drop_last(), i);
        assert(core_no(cores[i]) < core_no(cores[last]));
        let prev = readings(cores.drop_last());
        if input_of(cores[i]) is Ok {
            let v = input_of(cores[i])->Ok_0;
            let k = choose|k: int| 0 <= k < prev.len() && prev[k] == (core_no(cores[i]), v);
            assert(readings(cores)[k] == prev[k]);
        }
    } else {
        if input_of(cores[i]) is Ok {
            let r = readings(cores);
            assert(r[r.len() - 1] == (core_no(cores[i]), input_of(cores[i])->Ok_0));
        } else {
            assert forall|j: int|
                0 <= j < readings(cores).len() implies (#[trigger] readings(cores)[j]).0 != core_no(
                cores[i],
            ) by {
                let prev = readings(cores.drop_last());
                assert(readings(cores) == prev);
                lemma_readings_from(cores.drop_last());
                assert(prev[j] == readings(cores)[j]);
                let k = choose|k: int|
                    0 <= k < cores.drop_last().len() && core_no(cores.drop_last()[k]) == (#[trigger] prev[j]).0;
                assert(cores.drop_last()[k] == cores[k]);
                assert(core_no(cores[k]) < core_no(cores[last]));
            }
        }
    }
}

/// Every entry of `readings(cores)` is some core's number with its reading.
proof fn lemma_readings_from(cores: Seq<CoreSensor>)
    ensures
        forall|j: int|
            0 <= j < readings(cores).len() ==> exists|k: int|
                0 <= k < cores.len() && core_no(cores[k]) == (#[trigger] readings(cores)[j]).0,
    decreases cores.len(),
{
    if cores.len() > 0 {
        lemma_readings_from(cores.drop_last());
        assert forall|j: int| 0 <= j < readings(cores).len() implies exists|k: int|
            0 <= k < cores.len() && core_no(cores[k]) == (#[trigger] readings(cores)[j]).0 by {
            let prev = readings(cores.drop_last());
            if j < prev.len() {
                assert(readings(cores)[j] == prev[j]);
                let k = choose|k: int| 0 <= k < cores.len() - 1 && core_no(cores.drop_last()[k]) == prev[j].0;
                assert(cores[k] == cores.drop_last()[k]);
            } else {
                assert(core_no(cores[cores.len() - 1]) == readings(cores)[j].0);
            }
        }
    }
}

/// `t` is in ascending order.
pub open spec fn ascending(t: Seq<u64>) -> bool {
    forall|i: int, j: int| 0 <= i < j < t.len() ==> #[trigger] t[i] <= #[trigger] t[j]
}

proof fn lemma_multiset_cons(a: u64, s: Seq<u64>)
    ensures
        (seq![a] + s).to_multiset() =~= s.to_multiset().insert(a),
{
    broadcast use vstd::seq_lib::group_to_multiset_ensures;
    broadcast use vstd::multiset::group_multiset_axioms;

    let c = seq![a] + s;
    assert(c.remove(0) =~= s);
    assert(c[0] == a);
    assert(c.contains(a));
    assert(c.to_multiset().count(a) > 0);
}

proof fn lemma_insert_sorted(t: Seq<u64>, x: u64)
    ensures
        insert_sorted(t, x).to_multiset() =~= t.to_multiset().insert(x),
        ascending(t) ==> ascending(insert_sorted(t, x)),
    decreases t.len(),
{
    broadcast use vstd::seq_lib::group_to_multiset_ensures;
    broadcast use vstd::multiset::group_multiset_axioms;

    if t.len() == 0 {
        lemma_multiset_cons(x, t);
        assert(seq![x] + t =~= seq![x]);
    } else if x <= t[0] {
        lemma_multiset_cons(x, t);
    } else {
        let rest = t.drop_first();
        let r = insert_sorted(rest, x);
        lemma_insert_sorted(rest, x);
        lemma_multiset_cons(t[0], r);
        lemma_multiset_cons(t[0], rest);
        assert(seq![t[0]] + rest =~= t);
        if ascending(t) {
            assert(ascending(rest));
            let res = seq![t[0]] + r;
            assert forall|i: int, j: int| 0 <= i < j < res.len() implies #[trigger] res[i] <= #[trigger] res[j] by {
                if i == 0 {
                    let y = r[j - 1];
                    assert(r.contains(y));
                    assert(r.to_multiset().count(y) > 0);
                    if y != x {
                        assert(rest.to_multiset().count(y) > 0);
                        assert(rest.contains(y));
                    }
                } else {
                    assert(res[i] == r[i - 1] && res[j] == r[j - 1]);
                }
            }
        }
    }
}

/// `sorted_of(s)` holds the values of `s`, each as often, in ascending
/// order.
pub proof fn lemma_sorted_of(s: Seq<u64>)
    ensures
        sorted_of(s).to_multiset() =~= s.to_multiset(),
        ascending(sorted_of(s)),
    decreases s.len(),
{
    broadcast use vstd::seq_lib::group_to_multiset_ensures;

    if s.len() > 0 {
        lemma_sorted_of(s.drop_last());
        lemma_insert_sorted(sorted_of(s.drop_last()), s.last());
        assert(s.drop_last().push(s.last()) =~= s);
    }
}

/// The entry that `min_entry` picks is one of the entries, and no entry has
/// a smaller reading; `max_entry` likewise with no larger reading.
pub proof fn lemma_min_max_entry(s: Seq<(u64, u64)>)
    requires
        s.len() > 0,
    ensures
        s.contains(min_entry(s)),
        forall|j: int| 0 <= j < s.len() ==> min_entry(s).1 <= (#[trigger] s[j]).1,
        s.contains(max_entry(s)),
        forall|j: int| 0 <= j < s.len() ==> max_entry(s).1 >= (#[trigger] s[j]).1,
    decreases s.len(),
{
    if s.len() > 1 {
        let p = s.drop_last();
        lemma_min_max_entry(p);
        assert forall|j: int| 0 <= j < s.len() implies min_entry(s).1 <= (#[trigger] s[j]).1 by {
            if j < s.len() - 1 {
                assert(s[j] == p[j]);
            }
        }
        assert forall|j: int| 0 <= j < s.len() implies max_entry(s).1 >= (#[trigger] s[j]).1 by {
            if j < s.len() - 1 {
                assert(s[j] == p[j]);
            }
        }
        let kmin = choose|k: int| 0 <= k < p.len() && p[k] == min_entry(p);
        let kmax = choose|k: int| 0 <= k < p.len() && p[k] == max_entry(p);
        assert(s[kmin] == p[kmin]);
        assert(s[kmax] == p[kmax]);
        assert(s[s.len() - 1] == s.last());
    } else {
        assert(s[0] == s[0]);
    }
}

proof fn lemma_insert_sorted_len(t: Seq<u64>, x: u64)
    ensures
        insert_sorted(t, x).len() == t.len() + 1,
    decreases t.len(),
{
    if t.len() > 0 && !(x <= t[0]) {
        lemma_insert_sorted_len(t.drop_first(), x);
    }
}

proof fn lemma_sorted_of_len(s: Seq<u64>)
    ensures
        sorted_of(s).len() == s.len(),
    decreases s.len(),
{
    if s.len() > 0 {
        lemma_sorted_of_len(s.drop_last());
        lemma_insert_sorted_len(sorted_of(s.drop_last()), s.last());
    }
}

} // verus!
