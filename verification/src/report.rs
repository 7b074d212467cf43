//! What is said of sensors and fans to whoever reads the journal or asks to be shown.
use crate::binary64::Binary64;
use crate::config::{Config, SensorConfig};
use crate::control::{is_plausible, plausible, Command, Sensor};
use crate::fan::{Fan, FanModel};
use crate::sysfs::{speed_in, ReadError, Source};
use crate::text::{
    decimal, decimal_text, fill_left, fill_right, filled_left, filled_right, join, joined, same,
    separated, texts, trim, trimmed,
};
use vstd::prelude::*;

verus! {

/// What a sensor last read: its label and, behind it, the reading as `celsius` writes it, or
/// that it has failed, or that it has not read yet.
pub open spec fn reading_words(s: Sensor, celsius: Seq<char>) -> Seq<char> {
    if s.failed {
        s.cfg.key@ + "=failed"@
    } else if s.last_good is Some {
        s.cfg.key@ + "="@ + celsius + "C"@
    } else {
        s.cfg.key@ + "=?"@
    }
}

/// What every sensor last read, in their order. `celsius` holds, for each sensor that has read,
/// its last reading in whole degrees.
pub fn readings(sensors: &Vec<Sensor>, celsius: &Vec<String>) -> (r: String)
    requires
        celsius@.len() == sensors@.len(),
    ensures
        r@ == separated(
            Seq::new(sensors@.len(), |i: int| reading_words(sensors@[i], celsius@[i]@)),
            " "@,
        ),
{
    let mut words: Vec<String> = Vec::new();
    let mut i: usize = 0;
    while i < sensors.len()
        invariant
            i <= sensors@.len(),
            celsius@.len() == sensors@.len(),
            words@.len() == i,
            forall|j: int|
                0 <= j < i ==> (#[trigger] words@[j])@ == reading_words(
                    sensors@[j],
                    celsius@[j]@,
                ),
        decreases sensors@.len() - i,
    {
        let s: &Sensor = &sensors[i];
        let word: String = if s.is_failed() {
            joined(s.key(), "=failed")
        } else if s.last_reading().is_some() {
            joined(s.key(), "=").concat(celsius[i].as_str()).concat("C")
        } else {
            joined(s.key(), "=?")
        };
        words.push(word);
        i += 1;
    }
    assert(texts(words@) =~= Seq::new(
        sensors@.len(),
        |j: int| reading_words(sensors@[j], celsius@[j]@),
    ));
    join(&words, " ")
}

/// That a sensor is steered on.
pub open spec fn is_configured(sensors: Seq<SensorConfig>, source: Source, label: Seq<char>) -> bool {
    exists|i: int|
        0 <= i < sensors.len() && (#[trigger] sensors[i]).source == source && sensors[i].key@
            == label
}

fn configured(sensors: &Vec<SensorConfig>, source: Source, label: &str) -> (r: bool)
    ensures
        r == is_configured(sensors@, source, label@),
{
    let mut i: usize = 0;
    while i < sensors.len()
        invariant
            i <= sensors@.len(),
            forall|j: int|
                0 <= j < i ==> !((#[trigger] sensors@[j]).source == source && sensors@[j].key@
                    == label@),
        decreases sensors@.len() - i,
    {
        if sensors[i].source == source && same(sensors[i].key.as_str(), label) {
            return true;
        }
        i += 1;
    }
    false
}

/// What is to be noted of a sensor.
#[derive(Debug, Clone, Copy, PartialEq, Eq, Structural)]
pub enum Note {
    /// It reads what is no temperature, so it is likely not populated.
    Implausible,
    /// The configuration steers on it.
    SteeringOnThis,
    Nothing,
}

impl Note {
    /// The note in words, as they stand behind a reading.
    pub open spec fn text(self) -> Seq<char> {
        match self {
            Note::Implausible => "  (implausible — likely not populated)"@,
            Note::SteeringOnThis => "  (steering on this)"@,
            Note::Nothing => ""@,
        }
    }

    /// The note in words, as they stand behind a reading.
    pub fn words(self) -> (r: &'static str)
        ensures
            r@ == self.text(),
    {
        match self {
            Note::Implausible => "  (implausible — likely not populated)",
            Note::SteeringOnThis => "  (steering on this)",
            Note::Nothing => "",
        }
    }
}

/// What is to be noted of a sensor, given what it reads.
pub open spec fn noted(
    config: Config,
    source: Source,
    label: Seq<char>,
    reading: Result<Binary64, ReadError>,
) -> Note {
    if reading is Ok && !is_plausible(config.plausible_range_c, reading->Ok_0@) {
        Note::Implausible
    } else if is_configured(config.sensors@, source, label) {
        Note::SteeringOnThis
    } else {
        Note::Nothing
    }
}

/// What is to be noted of a sensor, given what it reads.
pub fn note(
    config: &Config,
    source: Source,
    label: &str,
    reading: &Result<Binary64, ReadError>,
) -> (r: Note)
    ensures
        r == noted(*config, source, label@, *reading),
{
    let odd: bool = match reading {
        Ok(t) => !plausible(config.plausible_range_c, *t),
        Err(_) => false,
    };
    if odd {
        Note::Implausible
    } else if configured(&config.sensors, source, label) {
        Note::SteeringOnThis
    } else {
        Note::Nothing
    }
}

/// A line on a sensor: its label, its reading as `shown` writes it, and the note.
pub fn sensor_line(label: &str, shown: &str, note: Note) -> (r: String)
    ensures
        r@ == "  "@ + filled_right(label@, 14) + " "@ + shown@ + note.text(),
{
    "  ".to_owned().concat(fill_right(label, 14).as_str()).concat(" ").concat(shown).concat(
        note.words(),
    )
}

/// That software drives a fan, given what the file that says so holds.
pub open spec fn is_driven_by_software(contents: Result<String, String>) -> bool {
    contents is Ok && trimmed(contents->Ok_0@) == "1"@
}

/// Whether software drives a fan, given what the file that says so holds.
pub fn driven_by_software(contents: &Result<String, String>) -> (r: bool)
    ensures
        r == is_driven_by_software(*contents),
{
    match contents {
        Ok(text) => same(trim(text.as_str()), "1"),
        Err(_) => false,
    }
}

/// A fan that is handed to software is told from one that is given back.
pub proof fn law_who_drives_a_fan_reads_back(fan: FanModel, software: bool, text: String)
    requires
        text@ == fan.control_write(software).text,
    ensures
        is_driven_by_software(Ok(text)) == software,
{
    reveal_strlit("0");
    reveal_strlit("1");
    assert("0"@[0] != "1"@[0]);
}

/// A line on a fan: its label, the speed it runs at, its bounds, and who drives it.
pub open spec fn fan_words(
    fan: FanModel,
    tachometer: Result<String, String>,
    control_mode: Result<String, String>,
) -> Seq<char> {
    let rpm = match speed_in(tachometer) {
        Ok(n) => decimal(n as nat),
        Err(_) => "?"@,
    };
    let driver = if is_driven_by_software(control_mode) {
        "macfand"@
    } else {
        "SMC"@
    };
    "  "@ + filled_right(fan.label, 14) + " "@ + filled_left(rpm, 5) + " rpm   range "@ + decimal(
        fan.hw_min as nat,
    ) + "-"@ + decimal(fan.hw_max as nat) + " rpm   "@ + driver
}

/// A line on a fan, given what its tachometer file and the file that says who drives it hold.
pub fn fan_line(
    fan: &Fan,
    tachometer: &Result<String, String>,
    control_mode: &Result<String, String>,
) -> (r: String)
    ensures
        r@ == fan_words(fan@, *tachometer, *control_mode),
{
    let rpm: String = match fan.rpm(tachometer) {
        Ok(n) => decimal_text(n as u64),
        Err(_) => "?".to_owned(),
    };
    let driver: &str = if driven_by_software(control_mode) {
        "macfand"
    } else {
        "SMC"
    };
    let line: String = "  ".to_owned().concat(fill_right(fan.label.as_str(), 14).as_str()).concat(
        " ",
    ).concat(fill_left(rpm.as_str(), 5).as_str()).concat(" rpm   range ").concat(
        decimal_text(fan.hw_min as u64).as_str(),
    );
    line.concat("-").concat(decimal_text(fan.hw_max as u64).as_str()).concat(" rpm   ").concat(
        driver,
    )
}

/// The line that reports a command: the speed, the reason, and what every sensor last read.
pub fn command_line(command: &Command, readings: &str) -> (r: String)
    ensures
        r@ == decimal(command.rpm as nat) + " rpm — "@ + command.reason.words() + " ["@
            + readings@ + "]"@,
{
    decimal_text(command.rpm as u64).concat(" rpm — ").concat(
        command.reason.describe().as_str(),
    ).concat(" [").concat(readings).concat("]")
}

/// The labels of a list of fans.
pub open spec fn fan_labels(fans: Seq<Fan>) -> Seq<Seq<char>> {
    fans.map_values(|f: Fan| f.label@)
}

/// What a daemon says when it starts: which fans it steers, on how many sensors, in which range
/// and how often.
pub fn announcement(
    fans: &Vec<Fan>,
    sensors: usize,
    min_rpm: u32,
    max_rpm: u32,
    poll_interval_ms: u64,
) -> (r: String)
    ensures
        r@ == "steering "@ + separated(fan_labels(fans@), ", "@) + " on "@ + decimal(
            sensors as nat,
        ) + " sensor"@ + (if sensors == 1 {
            ""@
        } else {
            "s"@
        }) + ", "@ + decimal(min_rpm as nat) + "-"@ + decimal(max_rpm as nat) + " rpm, every "@
            + decimal(poll_interval_ms as nat) + "ms"@,
{
    let mut labels: Vec<String> = Vec::new();
    let mut i: usize = 0;
    while i < fans.len()
        invariant
            i <= fans@.len(),
            labels@.len() == i,
            forall|j: int| 0 <= j < i ==> #[trigger] labels@[j] == fans@[j].label,
        decreases fans@.len() - i,
    {
        labels.push(fans[i].label.clone());
        i += 1;
    }
    assert(texts(labels@) =~= fan_labels(fans@));
    let plural: &str = if sensors == 1 {
        ""
    } else {
        "s"
    };
    let who: String = "steering ".to_owned().concat(join(&labels, ", ").as_str()).concat(
        " on ",
    ).concat(decimal_text(sensors as u64).as_str()).concat(" sensor").concat(plural);
    who.concat(", ").concat(decimal_text(min_rpm as u64).as_str()).concat("-").concat(
        decimal_text(max_rpm as u64).as_str(),
    ).concat(" rpm, every ").concat(decimal_text(poll_interval_ms).as_str()).concat("ms")
}

/// What is noted of a sensor: one that reads outside the plausible range is likely not populated,
/// whether or not it is configured; any other is steered on exactly where the configuration names
/// its driver and its label.
pub proof fn law_a_note_says_what_holds_of_a_sensor(
    config: Config,
    source: Source,
    label: Seq<char>,
    reading: Result<Binary64, ReadError>,
)
    ensures
        ({
            let low = config.plausible_range_c@[0]@;
            let high = config.plausible_range_c@[1]@;
            let odd = reading is Ok && !({
                let t = reading->Ok_0@;
                &&& !(t is Nan) && !(low is Nan) && !(high is Nan)
                &&& low.place() <= t.place() <= high.place()
            });
            let steered = exists|i: int|
                {
                    &&& 0 <= i < config.sensors@.len()
                    &&& (#[trigger] config.sensors@[i]).source == source
                    &&& config.sensors@[i].key@ == label
                };
            &&& odd ==> noted(config, source, label, reading) is Implausible
            &&& !odd && steered ==> noted(config, source, label, reading) is SteeringOnThis
            &&& !odd && !steered ==> noted(config, source, label, reading) is Nothing
        }),
{
}

/// What is said of what a sensor last read: that it has failed, before all else; its reading in
/// degrees where it has one; and a question mark where it has not read yet.
pub proof fn law_a_reading_is_said_under_its_label(s: Sensor, celsius: Seq<char>)
    ensures
        s.failed ==> reading_words(s, celsius) == s.cfg.key@ + "=failed"@,
        !s.failed && s.last_good is Some ==> reading_words(s, celsius) == s.cfg.key@ + "="@
            + celsius + "C"@,
        !s.failed && s.last_good is None ==> reading_words(s, celsius) == s.cfg.key@ + "=?"@,
{
}

/// What is said of a fan: its label, its speed in digits or a question mark where it does not
/// read, its bounds, and who drives it, which is software exactly where the file that says so
/// holds a 1, white space around it aside.
pub proof fn law_a_fan_is_said_with_its_speed_and_its_driver(
    fan: FanModel,
    tachometer: Result<String, String>,
    control_mode: Result<String, String>,
)
    ensures
        ({
            let speed = match speed_in(tachometer) {
                Ok(n) => filled_left(decimal(n as nat), 5),
                Err(_) => filled_left("?"@, 5),
            };
            let driver = match control_mode {
                Ok(text) => if trimmed(text@) == "1"@ {
                    "macfand"@
                } else {
                    "SMC"@
                },
                Err(_) => "SMC"@,
            };
            fan_words(fan, tachometer, control_mode) == "  "@ + filled_right(fan.label, 14) + " "@
                + speed + " rpm   range "@ + decimal(fan.hw_min as nat) + "-"@ + decimal(
                fan.hw_max as nat,
            ) + " rpm   "@ + driver
        }),
        is_driven_by_software(control_mode) <==> control_mode is Ok && trimmed(
            control_mode->Ok_0@,
        ) == "1"@,
{
}

/// The notes in words.
pub proof fn law_the_notes_in_words()
    ensures
        Note::Implausible.text() == "  (implausible — likely not populated)"@,
        Note::SteeringOnThis.text() == "  (steering on this)"@,
        Note::Nothing.text().len() == 0,
{
    reveal_strlit("");
}

} // verus!
