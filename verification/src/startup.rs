//! What a daemon settles before it touches a fan: which configuration it goes by, which sensors
//! it steers on, and the speed range it steers in.
use crate::binary64::Binary64;
use crate::config::{Config, SensorConfig};
use crate::control::{is_plausible, plausible, Sensor};
use crate::datum::{lemma_whole_order, Datum};
use crate::fan::Fan;
use crate::sysfs::{DiscoverError, ReadError, Source, Temps};
use crate::text::before;
use vstd::prelude::*;

verus! {

/// Where a configuration comes from.
#[derive(Debug, PartialEq, Eq)]
pub enum ConfigSource {
    /// The file at this path, which must exist.
    File(String),
    /// The built-in defaults.
    BuiltIn,
}

/// The path of the configuration file of a daemon that is not told of one.
pub fn default_config() -> (r: &'static str)
    ensures
        r@ == "/etc/macfand.toml"@,
{
    "/etc/macfand.toml"
}

/// Where to read the configuration. A file that is named must exist; the default one need not,
/// so that the daemon is useful before anything has been configured.
pub fn load_config(path: Option<String>, default_exists: bool) -> (r: ConfigSource)
    ensures
        match path {
            Some(p) => r == ConfigSource::File(p),
            None => if default_exists {
                r matches ConfigSource::File(p) && p@ == "/etc/macfand.toml"@
            } else {
                r == ConfigSource::BuiltIn
            },
        },
{
    match path {
        Some(p) => ConfigSource::File(p),
        None => if default_exists {
            ConfigSource::File(default_config().to_owned())
        } else {
            ConfigSource::BuiltIn
        },
    }
}

/// That a sensor is read from a driver.
pub open spec fn needs(sensors: Seq<SensorConfig>, source: Source) -> bool {
    exists|i: int| 0 <= i < sensors.len() && (#[trigger] sensors[i]).source == source
}

fn any_from(sensors: &Vec<SensorConfig>, source: Source) -> (r: bool)
    ensures
        r == needs(sensors@, source),
{
    let mut i: usize = 0;
    while i < sensors.len()
        invariant
            i <= sensors@.len(),
            forall|j: int| 0 <= j < i ==> (#[trigger] sensors@[j]).source != source,
        decreases sensors@.len() - i,
    {
        if sensors[i].source == source {
            return true;
        }
        i += 1;
    }
    false
}

/// The drivers that the configured sensors are read from, each once.
pub fn sources(config: &Config) -> (r: Vec<Source>)
    ensures
        r@ == (if needs(config.sensors@, Source::Applesmc) {
            seq![Source::Applesmc]
        } else {
            Seq::empty()
        }) + (if needs(config.sensors@, Source::Coretemp) {
            seq![Source::Coretemp]
        } else {
            Seq::empty()
        }),
{
    let mut r: Vec<Source> = Vec::new();
    if any_from(&config.sensors, Source::Applesmc) {
        r.push(Source::Applesmc);
    }
    if any_from(&config.sensors, Source::Coretemp) {
        r.push(Source::Coretemp);
    }
    assert(r@ =~= (if needs(config.sensors@, Source::Applesmc) {
        seq![Source::Applesmc]
    } else {
        Seq::empty()
    }) + (if needs(config.sensors@, Source::Coretemp) {
        seq![Source::Coretemp]
    } else {
        Seq::empty()
    }));
    r
}

/// What discovery gave for each driver that was looked for.
pub type Tables = Vec<(Source, Result<Temps, DiscoverError>)>;

/// That a driver was looked for.
pub open spec fn looked_for(
    tables: Seq<(Source, Result<Temps, DiscoverError>)>,
    source: Source,
) -> bool {
    exists|i: int| 0 <= i < tables.len() && (#[trigger] tables[i]).0 == source
}

/// What discovery gave for a driver.
pub open spec fn table_for(
    tables: Seq<(Source, Result<Temps, DiscoverError>)>,
    source: Source,
) -> Result<Temps, DiscoverError>
    decreases tables.len(),
{
    if tables.len() == 0 {
        arbitrary()
    } else if tables[0].0 == source {
        tables[0].1
    } else {
        table_for(tables.drop_first(), source)
    }
}

/// That the tables are ones that discovery gives, and that there is one for every sensor.
pub open spec fn tables_fit(
    tables: Seq<(Source, Result<Temps, DiscoverError>)>,
    sensors: Seq<SensorConfig>,
) -> bool {
    &&& forall|i: int|
        0 <= i < tables.len() ==> ((#[trigger] tables[i]).1 matches Ok(t) ==> t.valid())
    &&& forall|i: int|
        0 <= i < sensors.len() ==> looked_for(tables, (#[trigger] sensors[i]).source)
}

fn find_table(tables: &Tables, source: Source) -> (r: usize)
    requires
        looked_for(tables@, source),
    ensures
        r < tables@.len(),
        tables@[r as int].1 == table_for(tables@, source),
{
    let n: usize = tables.len();
    let mut i: usize = 0;
    assert(tables@.skip(0) =~= tables@);
    while tables[i].0 != source
        invariant
            i < n,
            n == tables@.len(),
            looked_for(tables@.skip(i as int), source),
            table_for(tables@.skip(i as int), source) == table_for(tables@, source),
        decreases tables@.len() - i,
    {
        proof {
            let rest = tables@.skip(i as int);
            let k = choose|k: int| 0 <= k < rest.len() && (#[trigger] rest[k]).0 == source;
            assert(rest[0] == tables@[i as int]);
            assert(k > 0);
            assert(rest.drop_first() =~= tables@.skip(i + 1));
            assert(tables@.skip(i + 1)[k - 1] == rest[k]);
        }
        i += 1;
    }
    assert(tables@.skip(i as int)[0] == tables@[i as int]);
    i
}

/// What stands in the way of steering on a sensor.
#[derive(Debug)]
pub enum Trouble {
    /// Its driver was not found.
    Unavailable,
    /// Its driver exposes no sensor with its label.
    Absent,
    /// It did not read.
    Unreadable(ReadError),
    /// It read this, which is no temperature: it is probably not populated on this board.
    Implausible(Binary64),
}

/// What stands in the way of steering on a sensor.
pub open spec fn trouble_with(
    cfg: SensorConfig,
    table: Result<Temps, DiscoverError>,
    reading: Result<Binary64, ReadError>,
    range: [Binary64; 2],
) -> Option<Trouble> {
    match table {
        Err(_) => Some(Trouble::Unavailable),
        Ok(t) => if !t@.dom().contains(cfg.key@) {
            Some(Trouble::Absent)
        } else {
            match reading {
                Err(e) => Some(Trouble::Unreadable(e)),
                Ok(x) => if is_plausible(range, x@) {
                    None
                } else {
                    Some(Trouble::Implausible(x))
                },
            }
        },
    }
}

/// That trouble with a sensor is a reason not to start: the sensor is needed, or it is there and
/// does not read.
pub open spec fn is_fatal(cfg: SensorConfig, trouble: Trouble) -> bool {
    !cfg.optional || trouble is Unreadable
}

/// A sensor that is not steered on, and why.
#[derive(Debug)]
pub struct Skipped {
    pub key: String,
    pub source: Source,
    pub trouble: Trouble,
}

/// Why a daemon does not start.
#[derive(Debug)]
pub enum StartError {
    Sensor(Skipped),
    /// Every configured sensor was missing or implausible.
    NothingToSteerOn,
}

/// The sensors that are steered on, or why the daemon does not start; and those that were
/// skipped until that was settled.
pub struct Resolved {
    pub outcome: Result<Vec<Sensor>, StartError>,
    pub skipped: Vec<Skipped>,
}

/// What is known when the sensors are resolved: the configured sensors, what discovery gave for
/// their drivers, a reading of each, and the plausible range.
pub struct Findings {
    pub sensors: Seq<SensorConfig>,
    pub tables: Seq<(Source, Result<Temps, DiscoverError>)>,
    pub readings: Seq<Result<Binary64, ReadError>>,
    pub range: [Binary64; 2],
}

impl Findings {
    /// What stands in the way of steering on sensor `i`.
    pub open spec fn trouble(self, i: int) -> Option<Trouble> {
        let cfg = self.sensors[i];
        trouble_with(cfg, table_for(self.tables, cfg.source), self.readings[i], self.range)
    }

    /// Sensor `i`, which is not steered on.
    pub open spec fn skip(self, i: int) -> Skipped {
        Skipped {
            key: self.sensors[i].key,
            source: self.sensors[i].source,
            trouble: self.trouble(i)->0,
        }
    }

    /// The first reason not to start among the first `n` sensors.
    pub open spec fn refusal(self, n: nat) -> Option<StartError>
        decreases n,
    {
        if n == 0 {
            None
        } else if self.refusal((n - 1) as nat) is Some {
            self.refusal((n - 1) as nat)
        } else {
            match self.trouble(n - 1) {
                Some(t) => if is_fatal(self.sensors[n - 1], t) {
                    Some(StartError::Sensor(self.skip(n - 1)))
                } else {
                    None
                },
                None => None,
            }
        }
    }

    /// How many of the first `n` sensors are gone through: all up to the first reason not to
    /// start.
    pub open spec fn reached(self, n: nat) -> nat
        decreases n,
    {
        if n == 0 {
            0
        } else if self.refusal((n - 1) as nat) is Some {
            self.reached((n - 1) as nat)
        } else if self.refusal(n) is Some {
            (n - 1) as nat
        } else {
            n
        }
    }

    /// Which of the first `n` sensors are steered on.
    pub open spec fn kept(self, n: nat) -> Seq<int>
        decreases n,
    {
        if n == 0 {
            Seq::empty()
        } else if self.trouble(n - 1) is None {
            self.kept((n - 1) as nat).push(n - 1)
        } else {
            self.kept((n - 1) as nat)
        }
    }

    /// Those of the first `n` sensors that are not.
    pub open spec fn skipped(self, n: nat) -> Seq<Skipped>
        decreases n,
    {
        if n == 0 {
            Seq::empty()
        } else if self.trouble(n - 1) is None {
            self.skipped((n - 1) as nat)
        } else {
            self.skipped((n - 1) as nat).push(self.skip(n - 1))
        }
    }

    /// That `s` is sensor `i`, primed with its reading.
    pub open spec fn is_steered(self, s: Sensor, i: int) -> bool {
        let cfg = self.sensors[i];
        &&& s.cfg == cfg
        &&& s.path@ == table_for(self.tables, cfg.source)->Ok_0@[cfg.key@]
        &&& s.last_good == Some(self.readings[i]->Ok_0)
        &&& s.integral@ == Datum::whole(0)
        &&& s.consecutive_bad == 0
        &&& !s.failed
    }
}

/// Where a sensor is to be read, where it is exposed.
pub fn sensor_path(cfg: &SensorConfig, tables: &Tables) -> (r: Option<String>)
    requires
        looked_for(tables@, cfg.source),
        forall|i: int|
            0 <= i < tables@.len() ==> ((#[trigger] tables@[i]).1 matches Ok(t) ==> t.valid()),
    ensures
        match table_for(tables@, cfg.source) {
            Ok(t) => {
                &&& r is Some == t@.dom().contains(cfg.key@)
                &&& r matches Some(path) ==> path@ == t@[cfg.key@]
            },
            Err(_) => r is None,
        },
{
    let k: usize = find_table(tables, cfg.source);
    match &tables[k].1 {
        Ok(t) => match t.path(cfg.key.as_str()) {
            Some(path) => Some(path.to_owned()),
            None => None,
        },
        Err(_) => None,
    }
}

/// Resolves the configured sensors to where they are read, and proves each one reads.
/// `readings` holds, for each configured sensor that is exposed, what it reads now.
///
/// This is strict on purpose: a fan daemon that starts up having quietly dropped half its
/// inputs is worse than one that refuses to start.
pub fn resolve_sensors(
    config: &Config,
    tables: &Tables,
    readings: &Vec<Result<Binary64, ReadError>>,
) -> (r: Resolved)
    requires
        tables_fit(tables@, config.sensors@),
        readings@.len() == config.sensors@.len(),
    ensures
        ({
            let all = Findings {
                sensors: config.sensors@,
                tables: tables@,
                readings: readings@,
                range: config.plausible_range_c,
            };
            let n = config.sensors@.len();
            &&& r.skipped@ == all.skipped(all.reached(n))
            &&& match all.refusal(n) {
                Some(e) => r.outcome == Err::<Vec<Sensor>, StartError>(e),
                None => if all.kept(n).len() == 0 {
                    r.outcome == Err::<Vec<Sensor>, StartError>(StartError::NothingToSteerOn)
                } else {
                    &&& r.outcome is Ok
                    &&& r.outcome->Ok_0@.len() == all.kept(n).len()
                    &&& forall|j: int|
                        0 <= j < all.kept(n).len() ==> all.is_steered(
                            #[trigger] r.outcome->Ok_0@[j],
                            all.kept(n)[j],
                        )
                },
            }
        }),
{
    let ghost all = Findings {
        sensors: config.sensors@,
        tables: tables@,
        readings: readings@,
        range: config.plausible_range_c,
    };
    let mut sensors: Vec<Sensor> = Vec::new();
    let mut skipped: Vec<Skipped> = Vec::new();
    let mut i: usize = 0;
    while i < config.sensors.len()
        invariant
            i <= config.sensors@.len(),
            tables_fit(tables@, config.sensors@),
            readings@.len() == config.sensors@.len(),
            all == (Findings {
                sensors: config.sensors@,
                tables: tables@,
                readings: readings@,
                range: config.plausible_range_c,
            }),
            all.refusal(i as nat) is None,
            skipped@ == all.skipped(i as nat),
            sensors@.len() == all.kept(i as nat).len(),
            forall|j: int|
                0 <= j < sensors@.len() ==> all.is_steered(
                    #[trigger] sensors@[j],
                    all.kept(i as nat)[j],
                ),
        decreases config.sensors@.len() - i,
    {
        let cfg: &SensorConfig = &config.sensors[i];
        assert(looked_for(tables@, config.sensors@[i as int].source));
        let k: usize = find_table(tables, cfg.source);
        let mut trouble: Option<Trouble> = None;
        let mut steered: Option<Sensor> = None;
        match &tables[k].1 {
            Err(_) => {
                trouble = Some(Trouble::Unavailable);
            },
            Ok(table) => match table.path(cfg.key.as_str()) {
                None => {
                    trouble = Some(Trouble::Absent);
                },
                Some(path) => match &readings[i] {
                    Err(e) => {
                        trouble = Some(Trouble::Unreadable(e.clone()));
                    },
                    Ok(reading) => if plausible(config.plausible_range_c, *reading) {
                        let mut sensor: Sensor = Sensor::new(cfg.clone(), path);
                        sensor.seed(*reading);
                        assert(all.is_steered(sensor, i as int));
                        steered = Some(sensor);
                    } else {
                        trouble = Some(Trouble::Implausible(*reading));
                    },
                },
            },
        }
        assert(trouble == all.trouble(i as int));
        match trouble {
            Some(trouble) => {
                let unreadable: bool = match &trouble {
                    Trouble::Unreadable(_) => true,
                    _ => false,
                };
                let fatal: bool = !cfg.optional || unreadable;
                let skip: Skipped = Skipped { key: cfg.key.clone(), source: cfg.source, trouble };
                if fatal {
                    proof {
                        assert(all.refusal((i + 1) as nat) == Some(StartError::Sensor(skip)));
                        lemma_refusal_stays(all, (i + 1) as nat, config.sensors@.len());
                    }
                    return Resolved { outcome: Err(StartError::Sensor(skip)), skipped };
                }
                skipped.push(skip);
            },
            None => {},
        }
        match steered {
            Some(sensor) => {
                sensors.push(sensor);
            },
            None => {},
        }
        i += 1;
    }
    proof {
        lemma_all_reached(all, config.sensors@.len());
    }
    if sensors.len() == 0 {
        return Resolved { outcome: Err(StartError::NothingToSteerOn), skipped };
    }
    Resolved { outcome: Ok(sensors), skipped }
}

proof fn lemma_refusal_stays(all: Findings, n: nat, m: nat)
    requires
        n <= m,
        all.refusal(n) is Some,
    ensures
        all.refusal(m) == all.refusal(n),
        all.reached(m) == all.reached(n),
    decreases m,
{
    if n < m {
        lemma_refusal_stays(all, n, (m - 1) as nat);
    }
}

proof fn lemma_all_reached(all: Findings, n: nat)
    requires
        all.refusal(n) is None,
    ensures
        all.reached(n) == n,
{
}

/// A daemon that starts steers on every sensor that is not optional: it never drops one of them
/// quietly.
pub proof fn law_a_needed_sensor_is_never_dropped(all: Findings, n: nat, i: int)
    requires
        all.refusal(n) is None,
        0 <= i < n,
        !all.sensors[i].optional,
    ensures
        all.kept(n).contains(i),
    decreases n,
{
    let rest = (n - 1) as nat;
    if i < n - 1 {
        law_a_needed_sensor_is_never_dropped(all, rest, i);
        let k = choose|k: int| 0 <= k < all.kept(rest).len() && all.kept(rest)[k] == i;
        assert(all.kept(n)[k] == i);
    } else {
        assert(all.trouble(i) is None);
        assert(all.kept(n)[all.kept(rest).len() as int] == i);
    }
}

/// Where only optional sensors are missing or implausible, they are no reason not to start.
pub proof fn law_an_optional_sensor_may_be_missing(all: Findings, n: nat)
    requires
        forall|i: int|
            0 <= i < n ==> (#[trigger] all.trouble(i) is None || (all.sensors[i].optional && !(
            all.trouble(i)->0 is Unreadable))),
    ensures
        all.refusal(n) is None,
    decreases n,
{
    if n > 0 {
        law_an_optional_sensor_may_be_missing(all, (n - 1) as nat);
        assert(all.trouble(n - 1) is None || all.sensors[n - 1].optional);
    }
}

/// A sensor that is steered on has a plausible reading, and the sensors keep their order.
pub proof fn law_every_sensor_steered_on_reads(all: Findings, n: nat, j: int)
    requires
        0 <= j < all.kept(n).len(),
    ensures
        ({
            let i = all.kept(n)[j];
            &&& 0 <= i < n
            &&& all.readings[i] is Ok
            &&& is_plausible(all.range, all.readings[i]->Ok_0@)
            &&& j > 0 ==> all.kept(n)[j - 1] < i
        }),
    decreases n,
{
    let rest = (n - 1) as nat;
    if j < all.kept(rest).len() {
        law_every_sensor_steered_on_reads(all, rest, j);
    } else if j > 0 {
        law_every_sensor_steered_on_reads(all, rest, j - 1);
    }
}

/// What discovery gave for a driver is what stands first for it among the tables.
pub proof fn law_the_first_table_of_a_driver_counts(
    tables: Seq<(Source, Result<Temps, DiscoverError>)>,
    source: Source,
    k: int,
)
    requires
        0 <= k < tables.len(),
        tables[k].0 == source,
        forall|j: int| 0 <= j < k ==> (#[trigger] tables[j]).0 != source,
    ensures
        table_for(tables, source) == tables[k].1,
    decreases k,
{
    if k > 0 {
        let rest = tables.drop_first();
        assert(tables[0].0 != source);
        assert(rest[k - 1] == tables[k]);
        assert forall|j: int| 0 <= j < k - 1 implies (#[trigger] rest[j]).0 != source by {
            assert(rest[j] == tables[j + 1]);
        }
        law_the_first_table_of_a_driver_counts(rest, source, k - 1);
    }
}

/// What stands in the way of steering on a sensor: its driver was not found; or its driver was
/// found and exposes no such label; or it is exposed and does not read; or it reads, and what it
/// reads does not lie in the plausible range. Nothing else does, whatever its settings are.
pub proof fn law_only_these_stand_in_the_way_of_a_sensor(all: Findings, i: int, k: int)
    requires
        0 <= i < all.sensors.len(),
        0 <= k < all.tables.len(),
        all.tables[k].0 == all.sensors[i].source,
        forall|j: int| 0 <= j < k ==> (#[trigger] all.tables[j]).0 != all.sensors[i].source,
    ensures
        ({
            let found = all.tables[k].1;
            let low = all.range@[0]@;
            let high = all.range@[1]@;
            match (found, all.readings[i]) {
                (Err(_), _) => all.trouble(i) == Some(Trouble::Unavailable),
                (Ok(table), reading) => if !table@.dom().contains(all.sensors[i].key@) {
                    all.trouble(i) == Some(Trouble::Absent)
                } else {
                    match reading {
                        Err(e) => all.trouble(i) == Some(Trouble::Unreadable(e)),
                        Ok(t) => all.trouble(i) == (if !(t@ is Nan) && !(low is Nan) && !(
                        high is Nan) && low.place() <= t@.place() <= high.place() {
                            None
                        } else {
                            Some(Trouble::Implausible(t))
                        }),
                    }
                },
            }
        }),
{
    law_the_first_table_of_a_driver_counts(all.tables, all.sensors[i].source, k);
}

/// That nothing stands in the way of steering on sensor `i`, whose driver has table `k`: the
/// driver was found, exposes the label, and the reading lies in the plausible range.
pub open spec fn is_sound(all: Findings, i: int, k: int) -> bool {
    &&& 0 <= k < all.tables.len()
    &&& all.tables[k].0 == all.sensors[i].source
    &&& forall|j: int| 0 <= j < k ==> (#[trigger] all.tables[j]).0 != all.sensors[i].source
    &&& all.tables[k].1 is Ok
    &&& all.tables[k].1->Ok_0@.dom().contains(all.sensors[i].key@)
    &&& all.readings[i] is Ok
    &&& !(all.readings[i]->Ok_0@ is Nan)
    &&& !(all.range@[0]@ is Nan)
    &&& !(all.range@[1]@ is Nan)
    &&& all.range@[0]@.place() <= all.readings[i]->Ok_0@.place() <= all.range@[1]@.place()
}

/// Startup is complete: where the driver of every configured sensor was found and exposes its
/// label, and every reading lies in the plausible range, there is no reason not to start, nothing
/// is skipped, and every configured sensor is steered on, in the order of the configuration.
pub proof fn law_sound_sensors_are_all_steered_on(all: Findings, drivers: Seq<int>, n: nat)
    requires
        n <= all.sensors.len(),
        drivers.len() == all.sensors.len(),
        forall|i: int| 0 <= i < n ==> is_sound(all, i, #[trigger] drivers[i]),
    ensures
        all.refusal(n) is None,
        all.reached(n) == n,
        all.skipped(n) == Seq::<Skipped>::empty(),
        all.kept(n).len() == n,
        forall|i: int| 0 <= i < n ==> #[trigger] all.kept(n)[i] == i,
    decreases n,
{
    if n > 0 {
        let m = (n - 1) as nat;
        law_sound_sensors_are_all_steered_on(all, drivers, m);
        assert(is_sound(all, m as int, drivers[m as int]));
        law_only_these_stand_in_the_way_of_a_sensor(all, m as int, drivers[m as int]);
        assert(all.trouble(m as int) is None);
    }
}

/// A daemon refuses to start exactly where there is trouble with a sensor that is not optional,
/// or a sensor that is there does not read; and the first such sensor is the one it names, with
/// its trouble. What comes before that one is skipped where there is trouble with it.
pub proof fn law_the_first_fatal_trouble_is_named(all: Findings, n: nat)
    ensures
        all.refusal(n) is None <==> (forall|i: int|
            0 <= i < n ==> (#[trigger] all.trouble(i) is None || (all.sensors[i].optional && !(
            all.trouble(i)->0 is Unreadable)))),
        all.reached(n) <= n,
        all.refusal(n) is None ==> all.reached(n) == n,
        all.refusal(n) matches Some(e) ==> {
            let i = all.reached(n) as int;
            &&& i < n
            &&& all.trouble(i) is Some
            &&& !all.sensors[i].optional || all.trouble(i)->0 is Unreadable
            &&& e == StartError::Sensor(
                Skipped {
                    key: all.sensors[i].key,
                    source: all.sensors[i].source,
                    trouble: all.trouble(i)->0,
                },
            )
            &&& forall|j: int|
                0 <= j < i ==> (#[trigger] all.trouble(j) is None || (all.sensors[j].optional && !(
                all.trouble(j)->0 is Unreadable)))
        },
    decreases n,
{
    if n > 0 {
        let m = (n - 1) as nat;
        law_the_first_fatal_trouble_is_named(all, m);
        let here = all.trouble(m as int);
        assert(all.refusal(n) is None ==> here is None || (all.sensors[m as int].optional && !(
        here->0 is Unreadable)));
    }
}

/// Every sensor that was gone through is steered on or skipped, by whether there is trouble with
/// it: a sensor is among those steered on exactly where there is none, and those that are skipped
/// are named with their trouble.
pub proof fn law_a_sensor_is_steered_on_or_skipped(all: Findings, n: nat, i: int)
    requires
        0 <= i < n,
    ensures
        all.kept(n).contains(i) <==> all.trouble(i) is None,
        all.trouble(i) is Some ==> all.skipped(n).contains(
            Skipped {
                key: all.sensors[i].key,
                source: all.sensors[i].source,
                trouble: all.trouble(i)->0,
            },
        ),
        all.kept(n).len() + all.skipped(n).len() == n,
    decreases n,
{
    let m = (n - 1) as nat;
    lemma_kept_below(all, n);
    lemma_kept_below(all, m);
    if m > 0 {
        let k = if i < m {
            i
        } else {
            0
        };
        law_a_sensor_is_steered_on_or_skipped(all, m, k);
        if i < m {
            if all.trouble(i) is None {
                let j = all.kept(m).index_of(i);
                assert(all.kept(n)[j] == i);
            } else {
                let skip = Skipped {
                    key: all.sensors[i].key,
                    source: all.sensors[i].source,
                    trouble: all.trouble(i)->0,
                };
                let j = all.skipped(m).index_of(skip);
                assert(all.skipped(n)[j] == skip);
                if all.kept(n).contains(i) {
                    let j = all.kept(n).index_of(i);
                    assert(all.kept(m)[j] == i);
                }
            }
        }
    }
    if i == m {
        if all.trouble(i) is None {
            assert(all.kept(n)[all.kept(m).len() as int] == i);
        } else {
            assert(all.skipped(n)[all.skipped(m).len() as int] == all.skip(i));
        }
    }
}

/// Those kept are among those gone through.
proof fn lemma_kept_below(all: Findings, n: nat)
    ensures
        forall|j: int| 0 <= j < all.kept(n).len() ==> 0 <= #[trigger] all.kept(n)[j] < n,
    decreases n,
{
    if n > 0 {
        let m = (n - 1) as nat;
        lemma_kept_below(all, m);
        assert forall|j: int| 0 <= j < all.kept(n).len() implies 0 <= #[trigger] all.kept(n)[j]
            < n by {
            if j < all.kept(m).len() {
                assert(all.kept(n)[j] == all.kept(m)[j]);
            }
        }
    }
}

/// A sensor that is steered on has its own settings and is read where its driver exposes it; it
/// starts from the reading it was resolved with, with nothing in its integral and no trouble.
pub proof fn law_a_sensor_starts_from_its_reading(all: Findings, s: Sensor, i: int, k: int)
    requires
        0 <= i < all.sensors.len(),
        is_sound(all, i, k),
        all.is_steered(s, i),
    ensures
        s.cfg == all.sensors[i],
        s.path@ == all.tables[k].1->Ok_0@[all.sensors[i].key@],
        s.last_good == Some(all.readings[i]->Ok_0),
        s.integral@ is Finite,
        s.integral@.place() == 0,
        s.consecutive_bad == 0,
        !s.failed,
{
    law_the_first_table_of_a_driver_counts(all.tables, all.sensors[i].source, k);
    lemma_whole_order(0, 0);
}

/// Why there is no speed range to steer in.
#[derive(Debug, PartialEq, Eq)]
pub enum RangeError {
    /// The fans have no range in common.
    Unusable { min: u32, max: u32 },
    /// The configured bounds leave no range.
    NoRange { min: u32, max: u32 },
}

/// The highest of the fans' lower bounds, or 0 without fans.
pub open spec fn low_bound(fans: Seq<Fan>) -> u32
    decreases fans.len(),
{
    if fans.len() == 0 {
        0
    } else {
        let rest = low_bound(fans.drop_last());
        if fans.last().hw_min > rest {
            fans.last().hw_min
        } else {
            rest
        }
    }
}

/// The lowest of the fans' upper bounds, or 0 without fans.
pub open spec fn high_bound(fans: Seq<Fan>) -> u32
    decreases fans.len(),
{
    if fans.len() == 0 {
        0
    } else {
        let rest = high_bound(fans.drop_last());
        if fans.len() == 1 || fans.last().hw_max < rest {
            fans.last().hw_max
        } else {
            rest
        }
    }
}

/// A configured bound, or the one of the fans, held to a range.
pub open spec fn narrowed(set: Option<u32>, default: u32, low: u32, high: u32) -> u32 {
    crate::fan::bounded(
        match set {
            Some(x) => x,
            None => default,
        },
        low,
        high,
    )
}

/// The speed range to steer in: that of the fans, narrowed by the configuration but never
/// widened.
pub open spec fn range_of(config: Config, fans: Seq<Fan>) -> Result<(u32, u32), RangeError> {
    let low = low_bound(fans);
    let high = high_bound(fans);
    if low >= high {
        Err(RangeError::Unusable { min: low, max: high })
    } else {
        let min = narrowed(config.min_rpm, low, low, high);
        let max = narrowed(config.max_rpm, high, min, high);
        if min >= max {
            Err(RangeError::NoRange { min, max })
        } else {
            Ok((min, max))
        }
    }
}

fn narrow(set: Option<u32>, default: u32, low: u32, high: u32) -> (r: u32)
    requires
        low <= high,
    ensures
        r == narrowed(set, default, low, high),
{
    let x: u32 = match set {
        Some(x) => x,
        None => default,
    };
    if x < low {
        low
    } else if x > high {
        high
    } else {
        x
    }
}

/// The speed range to steer in. With more than one fan it lies in the overlap, since one demand
/// drives them all.
pub fn speed_range(config: &Config, fans: &Vec<Fan>) -> (r: Result<(u32, u32), RangeError>)
    ensures
        r == range_of(*config, fans@),
{
    let mut low: u32 = 0;
    let mut high: u32 = 0;
    let mut i: usize = 0;
    while i < fans.len()
        invariant
            i <= fans@.len(),
            low == low_bound(fans@.take(i as int)),
            high == high_bound(fans@.take(i as int)),
        decreases fans@.len() - i,
    {
        assert(fans@.take(i + 1).drop_last() =~= fans@.take(i as int));
        assert(fans@.take(i + 1).last() == fans@[i as int]);
        if fans[i].hw_min > low {
            low = fans[i].hw_min;
        }
        if i == 0 || fans[i].hw_max < high {
            high = fans[i].hw_max;
        }
        i += 1;
    }
    assert(fans@.take(i as int) =~= fans@);
    if low >= high {
        return Err(RangeError::Unusable { min: low, max: high });
    }
    let min: u32 = narrow(config.min_rpm, low, low, high);
    let max: u32 = narrow(config.max_rpm, high, min, high);
    if min >= max {
        return Err(RangeError::NoRange { min, max });
    }
    Ok((min, max))
}

/// The bounds of the fans are bounds of each.
proof fn lemma_bounds(fans: Seq<Fan>, i: int)
    requires
        0 <= i < fans.len(),
    ensures
        fans[i].hw_min <= low_bound(fans),
        high_bound(fans) <= fans[i].hw_max,
    decreases fans.len(),
{
    if i < fans.len() - 1 {
        lemma_bounds(fans.drop_last(), i);
    }
}

/// The configuration can narrow the range of the fans and cannot widen it: every speed that is
/// steered to is one that every fan accepts.
pub proof fn law_the_range_is_never_widened(config: Config, fans: Seq<Fan>, i: int)
    requires
        range_of(config, fans) is Ok,
        0 <= i < fans.len(),
    ensures
        ({
            let (min, max) = range_of(config, fans)->Ok_0;
            fans[i].hw_min <= min < max <= fans[i].hw_max
        }),
{
    lemma_bounds(fans, i);
}

/// A configured bound that the fans allow is the bound that is steered by.
pub proof fn law_an_allowed_bound_is_kept(config: Config, fans: Seq<Fan>)
    requires
        range_of(config, fans) is Ok,
    ensures
        config.min_rpm matches Some(min) ==> (low_bound(fans) <= min <= high_bound(fans)
            ==> range_of(config, fans)->Ok_0.0 == min),
        config.max_rpm matches Some(max) ==> (range_of(config, fans)->Ok_0.0 <= max <= high_bound(
            fans,
        ) ==> range_of(config, fans)->Ok_0.1 == max),
        config.min_rpm is None ==> range_of(config, fans)->Ok_0.0 == low_bound(fans),
        config.max_rpm is None ==> range_of(config, fans)->Ok_0.1 == high_bound(fans),
{
}

/// The bounds of the fans are the highest of their lower bounds and the lowest of their upper
/// ones.
pub proof fn law_the_range_is_what_the_fans_have_in_common(fans: Seq<Fan>)
    ensures
        fans.len() == 0 ==> low_bound(fans) == 0 && high_bound(fans) == 0,
        forall|i: int|
            0 <= i < fans.len() ==> (#[trigger] fans[i]).hw_min <= low_bound(fans) && high_bound(fans)
                <= fans[i].hw_max,
        fans.len() > 0 ==> exists|i: int|
            0 <= i < fans.len() && (#[trigger] fans[i]).hw_min == low_bound(fans),
        fans.len() > 0 ==> exists|i: int|
            0 <= i < fans.len() && (#[trigger] fans[i]).hw_max == high_bound(fans),
    decreases fans.len(),
{
    if fans.len() > 0 {
        let rest = fans.drop_last();
        let n = fans.len() - 1;
        law_the_range_is_what_the_fans_have_in_common(rest);
        assert(fans.last() == fans[n]);
        assert forall|i: int| 0 <= i < fans.len() implies (#[trigger] fans[i]).hw_min <= low_bound(
            fans,
        ) && high_bound(fans) <= fans[i].hw_max by {
            lemma_bounds(fans, i);
        }
        if low_bound(fans) != fans[n].hw_min {
            if rest.len() == 0 {
                assert(low_bound(rest) == 0);
            } else {
                let i = choose|i: int|
                    0 <= i < rest.len() && (#[trigger] rest[i]).hw_min == low_bound(rest);
                assert(fans[i] == rest[i]);
            }
        }
        if high_bound(fans) != fans[n].hw_max {
            let i = choose|i: int|
                0 <= i < rest.len() && (#[trigger] rest[i]).hw_max == high_bound(rest);
            assert(fans[i] == rest[i]);
        }
    }
}

/// The range to steer in. Fans that have no range in common have none to steer in. Otherwise the
/// configured minimum, held to their range, is its bottom, or theirs where none is configured; the
/// configured maximum, held above that bottom and to their range, is its top, or theirs; and it is
/// one where the bottom lies below the top.
pub proof fn law_the_range_is_that_of_the_fans_narrowed(config: Config, fans: Seq<Fan>)
    ensures
        ({
            let low = low_bound(fans);
            let high = high_bound(fans);
            let min = match config.min_rpm {
                None => low,
                Some(x) => if x < low {
                    low
                } else if x > high {
                    high
                } else {
                    x
                },
            };
            let max = match config.max_rpm {
                None => high,
                Some(x) => if x < min {
                    min
                } else if x > high {
                    high
                } else {
                    x
                },
            };
            &&& low >= high <==> range_of(config, fans) == Err::<(u32, u32), RangeError>(
                RangeError::Unusable { min: low, max: high },
            )
            &&& low < high && min >= max ==> range_of(config, fans) == Err::<
                (u32, u32),
                RangeError,
            >(RangeError::NoRange { min, max })
            &&& low < high && min < max ==> range_of(config, fans) == Ok::<(u32, u32), RangeError>(
                (min, max),
            )
        }),
{
}

/// A driver is needed exactly where a configured sensor is read from it.
pub proof fn law_a_driver_is_needed_where_a_sensor_is(sensors: Seq<SensorConfig>, i: int)
    requires
        0 <= i < sensors.len(),
    ensures
        needs(sensors, sensors[i].source),
        !needs(sensors, Source::Applesmc) ==> sensors[i].source is Coretemp,
        !needs(sensors, Source::Coretemp) ==> sensors[i].source is Applesmc,
{
}

/// Those that are skipped are named in the order of the configuration: `which` are their places in
/// it.
pub proof fn law_those_skipped_are_named_in_order(all: Findings, n: nat) -> (which: Seq<int>)
    ensures
        which.len() == all.skipped(n).len(),
        forall|k: int|
            0 <= k < which.len() ==> {
                let i = #[trigger] which[k];
                &&& 0 <= i < n
                &&& all.trouble(i) is Some
                &&& all.skipped(n)[k].key == all.sensors[i].key
                &&& all.skipped(n)[k].source == all.sensors[i].source
                &&& all.skipped(n)[k].trouble == all.trouble(i)->0
            },
        forall|j: int, k: int|
            0 <= j < k < which.len() ==> #[trigger] which[j] < #[trigger] which[k],
    decreases n,
{
    if n == 0 {
        Seq::empty()
    } else {
        let m = (n - 1) as nat;
        let was = law_those_skipped_are_named_in_order(all, m);
        if all.trouble(m as int) is None {
            was
        } else {
            let which = was.push(m as int);
            assert forall|k: int| 0 <= k < which.len() implies {
                let i = #[trigger] which[k];
                &&& 0 <= i < n
                &&& all.trouble(i) is Some
                &&& all.skipped(n)[k].key == all.sensors[i].key
                &&& all.skipped(n)[k].source == all.sensors[i].source
                &&& all.skipped(n)[k].trouble == all.trouble(i)->0
            } by {
                if k < was.len() {
                    assert(which[k] == was[k]);
                    assert(all.skipped(n)[k] == all.skipped(m)[k]);
                }
            }
            assert forall|j: int, k: int| 0 <= j < k < which.len() implies #[trigger] which[j]
                < #[trigger] which[k] by {
                if k < was.len() {
                    assert(was[j] < was[k]);
                } else {
                    assert(0 <= was[j] < m);
                }
            }
            which
        }
    }
}

/// The sensors can be resolved wherever there is a table for the driver of each, and every table
/// has its labels in order.
pub proof fn law_sensors_can_be_resolved_by_any_tables(
    tables: Seq<(Source, Result<Temps, DiscoverError>)>,
    sensors: Seq<SensorConfig>,
    drivers: Seq<int>,
)
    requires
        drivers.len() == sensors.len(),
        forall|i: int|
            0 <= i < sensors.len() ==> 0 <= #[trigger] drivers[i] < tables.len()
                && tables[drivers[i]].0 == sensors[i].source,
        forall|i: int, j: int, k: int|
            0 <= i < tables.len() && tables[i].1 is Ok && 0 <= j < k
                < tables[i].1->Ok_0.by_label@.len() ==> before(
                #[trigger] tables[i].1->Ok_0.by_label@[j].0@,
                #[trigger] tables[i].1->Ok_0.by_label@[k].0@,
            ),
    ensures
        tables_fit(tables, sensors),
{
    assert forall|i: int| 0 <= i < tables.len() implies ((#[trigger] tables[i]).1 matches Ok(t)
        ==> t.valid()) by {
        if let Ok(t) = tables[i].1 {
            assert forall|j: int, k: int| 0 <= j < k < t.by_label@.len() implies before(
                #[trigger] t.by_label@[j].0@,
                #[trigger] t.by_label@[k].0@,
            ) by {
                assert(before(
                    tables[i].1->Ok_0.by_label@[j].0@,
                    tables[i].1->Ok_0.by_label@[k].0@,
                ));
            }
        }
    }
    assert forall|i: int| 0 <= i < sensors.len() implies looked_for(
        tables,
        (#[trigger] sensors[i]).source,
    ) by {
        assert(tables[drivers[i]].0 == sensors[i].source);
    }
}

} // verus!
